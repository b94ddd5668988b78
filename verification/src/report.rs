//! The threshold pass: walks a sized tree top-down and selects the nodes
//! whose size meets a caller-chosen cutoff.
//!
//! Policy (one consistent rule, kept throughout): a directory is reported,
//! and its children visited, only when its stored size is greater than or
//! equal to the cutoff; a directory below the cutoff prunes its whole
//! subtree, even when a single file beneath it would pass on its own. A file
//! is reported only when its size is strictly greater than the cutoff.
use crate::node::Dir;
use crate::node::File;
use crate::node::FsItem;
use crate::node::all_sized;
use crate::node::all_sized_seq;
use crate::node::lemma_same_shape_total_seq;
use crate::node::largest_leaf;
use crate::node::same_shape;
use crate::node::same_shape_seq;
use crate::node::stored_size;
use crate::node::total_size;
use vstd::prelude::*;

verus! {

/// One line of the report: the size a node reported, whether it is a file or
/// a directory, and its path.
#[derive(Debug, PartialEq, Eq)]
pub struct ReportLine {
    pub size: u64,
    pub is_file: bool,
    pub path: String,
}

/// The report of one node at the given cutoff, top-down: a file whose size
/// exceeds the cutoff yields its line; a directory whose stored size meets
/// the cutoff yields its line followed by its children's reports in order;
/// anything else yields nothing.
pub open spec fn report_of(n: FsItem, cutoff: u64) -> Seq<ReportLine>
    decreases n,
{
    match n {
        FsItem::File(f) => if f.size > cutoff {
            seq![ReportLine { size: f.size, is_file: true, path: f.path }]
        } else {
            Seq::empty()
        },
        FsItem::Dir(d) => {
            let sz = match d.size {
                Some(s) => s,
                None => 0u64,
            };
            if sz >= cutoff {
                seq![ReportLine { size: sz, is_file: false, path: d.path }] + report_of_seq(
                    d.children@,
                    cutoff,
                )
            } else {
                Seq::empty()
            }
        },
    }
}

/// The concatenation of the reports of a sequence of nodes, in order.
pub open spec fn report_of_seq(s: Seq<FsItem>, cutoff: u64) -> Seq<ReportLine>
    decreases s,
{
    if s.len() == 0 {
        Seq::empty()
    } else {
        report_of(s[0], cutoff) + report_of_seq(s.drop_first(), cutoff)
    }
}

/// The reports of a concatenation are the concatenated reports.
pub proof fn lemma_report_of_seq_concat(a: Seq<FsItem>, b: Seq<FsItem>, cutoff: u64)
    ensures
        report_of_seq(a + b, cutoff) == report_of_seq(a, cutoff) + report_of_seq(b, cutoff),
    decreases a,
{
    if a.len() == 0 {
        assert(a + b =~= b);
        assert(report_of_seq(a, cutoff) + report_of_seq(b, cutoff) =~= report_of_seq(b, cutoff));
    } else {
        assert((a + b).drop_first() =~= a.drop_first() + b);
        lemma_report_of_seq_concat(a.drop_first(), b, cutoff);
        assert(report_of_seq(a + b, cutoff) =~= report_of_seq(a, cutoff) + report_of_seq(
            b,
            cutoff,
        ));
    }
}

/// Appending one node appends its report.
pub proof fn lemma_report_of_seq_push(s: Seq<FsItem>, x: FsItem, cutoff: u64)
    ensures
        report_of_seq(s.push(x), cutoff) == report_of_seq(s, cutoff) + report_of(x, cutoff),
{
    assert(s.push(x) =~= s + seq![x]);
    lemma_report_of_seq_concat(s, seq![x], cutoff);
    assert(report_of_seq(seq![x], cutoff) == report_of(x, cutoff)) by {
        assert(seq![x].drop_first() =~= Seq::<FsItem>::empty());
        assert(report_of_seq(Seq::<FsItem>::empty(), cutoff) == Seq::<ReportLine>::empty());
        assert(report_of(x, cutoff) + Seq::<ReportLine>::empty() =~= report_of(x, cutoff));
    }
}

/// Every node's line with no pruning at all: what the report becomes when no
/// node falls below the cutoff.
pub open spec fn listing(n: FsItem) -> Seq<ReportLine>
    decreases n,
{
    match n {
        FsItem::File(f) => seq![ReportLine { size: f.size, is_file: true, path: f.path }],
        FsItem::Dir(d) => {
            let sz = match d.size {
                Some(s) => s,
                None => 0u64,
            };
            seq![ReportLine { size: sz, is_file: false, path: d.path }] + listing_seq(d.children@)
        },
    }
}

/// The concatenation of the listings of a sequence of nodes, in order.
pub open spec fn listing_seq(s: Seq<FsItem>) -> Seq<ReportLine>
    decreases s,
{
    if s.len() == 0 {
        Seq::empty()
    } else {
        listing(s[0]) + listing_seq(s.drop_first())
    }
}

/// Every file in the tree has a positive size.
pub open spec fn all_files_positive(n: FsItem) -> bool
    decreases n,
{
    match n {
        FsItem::File(f) => f.size > 0,
        FsItem::Dir(d) => all_files_positive_seq(d.children@),
    }
}

/// `all_files_positive` holds of every node of the sequence.
pub open spec fn all_files_positive_seq(s: Seq<FsItem>) -> bool
    decreases s,
{
    if s.len() == 0 {
        true
    } else {
        all_files_positive(s[0]) && all_files_positive_seq(s.drop_first())
    }
}

/// Law (boundary, low side): a cutoff of 0 prunes nothing — the report is
/// the full listing, one line for every node of the tree. The one proviso is
/// that every file has a positive size: a file's comparison is strict, so a
/// 0-byte file is never reported, not even at cutoff 0.
pub proof fn lemma_report_cutoff_zero(n: FsItem)
    requires
        all_files_positive(n),
    ensures
        report_of(n, 0) == listing(n),
    decreases n,
{
    match n {
        FsItem::File(_) => {},
        FsItem::Dir(d) => {
            lemma_report_cutoff_zero_seq(d.children@);
        },
    }
}

/// Sequence version of `lemma_report_cutoff_zero`.
pub proof fn lemma_report_cutoff_zero_seq(s: Seq<FsItem>)
    requires
        all_files_positive_seq(s),
    ensures
        report_of_seq(s, 0) == listing_seq(s),
    decreases s,
{
    if s.len() > 0 {
        lemma_report_cutoff_zero(s[0]);
        lemma_report_cutoff_zero_seq(s.drop_first());
    }
}

/// Law (boundary, high side): on a sized tree, a cutoff strictly above the
/// tree's total size reports nothing at all — the root already falls below
/// it, and a root below the cutoff prunes everything beneath.
pub proof fn lemma_report_above_total(n: FsItem, cutoff: u64)
    requires
        all_sized(n),
        cutoff as nat > total_size(n),
    ensures
        report_of(n, cutoff) == Seq::<ReportLine>::empty(),
{
}

/// Law (idempotence): the scan's outputs are a function of the tree that was
/// built. Any two sized trees of the same shape as one built tree agree on
/// the total size, the stored size, the largest leaf, and the whole report
/// at every cutoff; running the propagation pass twice over an unchanged
/// tree therefore yields identical totals and the same printed lines.
pub proof fn lemma_scan_deterministic(n: FsItem, a: FsItem, b: FsItem, cutoff: u64)
    requires
        same_shape(n, a),
        all_sized(a),
        same_shape(n, b),
        all_sized(b),
    ensures
        total_size(a) == total_size(n),
        total_size(b) == total_size(n),
        stored_size(a) == stored_size(b),
        largest_leaf(a) == largest_leaf(n),
        largest_leaf(b) == largest_leaf(n),
        report_of(a, cutoff) == report_of(b, cutoff),
    decreases n,
{
    crate::node::lemma_same_shape_total(n, a);
    crate::node::lemma_same_shape_total(n, b);
    crate::node::lemma_same_shape_largest(n, a);
    crate::node::lemma_same_shape_largest(n, b);
    match (n, a, b) {
        (FsItem::Dir(dn), FsItem::Dir(da), FsItem::Dir(db)) => {
            lemma_same_shape_total_seq(dn.children@, da.children@);
            lemma_same_shape_total_seq(dn.children@, db.children@);
            lemma_scan_deterministic_seq(dn.children@, da.children@, db.children@, cutoff);
        },
        _ => {},
    }
}

/// Sequence version of `lemma_scan_deterministic`.
pub proof fn lemma_scan_deterministic_seq(
    ns: Seq<FsItem>,
    a: Seq<FsItem>,
    b: Seq<FsItem>,
    cutoff: u64,
)
    requires
        same_shape_seq(ns, a),
        all_sized_seq(a),
        same_shape_seq(ns, b),
        all_sized_seq(b),
    ensures
        report_of_seq(a, cutoff) == report_of_seq(b, cutoff),
    decreases ns,
{
    if ns.len() > 0 {
        lemma_scan_deterministic(ns[0], a[0], b[0], cutoff);
        lemma_scan_deterministic_seq(ns.drop_first(), a.drop_first(), b.drop_first(), cutoff);
    }
}

/// Law (order-independence of the printed set): two child collections that
/// hold the same nodes in any order yield, at every cutoff, the same multiset
/// of report lines — the order of the lines may differ, the set of printed
/// lines never does.
pub proof fn lemma_report_set_order_independent(a: Seq<FsItem>, b: Seq<FsItem>, cutoff: u64)
    requires
        a.to_multiset() == b.to_multiset(),
    ensures
        report_of_seq(a, cutoff).to_multiset() == report_of_seq(b, cutoff).to_multiset(),
    decreases a.len(),
{
    broadcast use vstd::seq_lib::group_to_multiset_ensures;

    if a.len() == 0 {
        assert(b.to_multiset().len() == 0);
        assert(b.len() == 0);
    } else {
        let x = a[0];
        assert(a.contains(x));
        assert(b.to_multiset().count(x) > 0);
        assert(b.contains(x));
        let j = choose|j: int| 0 <= j < b.len() && b[j] == x;
        let b2 = b.remove(j);
        assert(a.drop_first() =~= a.remove(0));
        assert(a.remove(0).to_multiset() == a.to_multiset().remove(x));
        assert(b2.to_multiset() == b.to_multiset().remove(x));
        lemma_report_set_order_independent(a.drop_first(), b2, cutoff);
        let rx = report_of(x, cutoff);
        let ra = report_of_seq(a.drop_first(), cutoff);
        let rtake = report_of_seq(b.take(j), cutoff);
        let rskip = report_of_seq(b.skip(j + 1), cutoff);
        assert(report_of_seq(seq![x], cutoff) == rx) by {
            assert(seq![x].drop_first() =~= Seq::<FsItem>::empty());
            assert(report_of_seq(Seq::<FsItem>::empty(), cutoff) == Seq::<ReportLine>::empty());
            assert(rx + Seq::<ReportLine>::empty() =~= rx);
        }
        // the reports of b and of b with x removed, split around position j
        assert(b =~= b.take(j) + (seq![x] + b.skip(j + 1)));
        lemma_report_of_seq_concat(b.take(j), seq![x] + b.skip(j + 1), cutoff);
        lemma_report_of_seq_concat(seq![x], b.skip(j + 1), cutoff);
        assert(b2 =~= b.take(j) + b.skip(j + 1));
        lemma_report_of_seq_concat(b.take(j), b.skip(j + 1), cutoff);
        assert(report_of_seq(b, cutoff) == rtake + (rx + rskip));
        assert(report_of_seq(b2, cutoff) == rtake + rskip);
        // pass from sequence concatenations to multiset sums
        vstd::seq_lib::lemma_multiset_commutative(rx, ra);
        vstd::seq_lib::lemma_multiset_commutative(rtake, rx + rskip);
        vstd::seq_lib::lemma_multiset_commutative(rx, rskip);
        vstd::seq_lib::lemma_multiset_commutative(rtake, rskip);
        assert(report_of_seq(a, cutoff).to_multiset() =~= report_of_seq(b, cutoff).to_multiset());
    }
}

/// Law (order-independence of one scan's output): two root directories that
/// differ only in the order of their children — as two interleavings of the
/// parallel merge would — have the same total size, the same largest leaf,
/// and print the same set of lines at every cutoff.
pub proof fn lemma_permuted_children_same_results(a: Dir, b: Dir, cutoff: u64)
    requires
        a.path == b.path,
        a.size == b.size,
        a.children@.to_multiset() == b.children@.to_multiset(),
    ensures
        total_size(FsItem::Dir(a)) == total_size(FsItem::Dir(b)),
        largest_leaf(FsItem::Dir(a)) == largest_leaf(FsItem::Dir(b)),
        report_of(FsItem::Dir(a), cutoff).to_multiset() == report_of(
            FsItem::Dir(b),
            cutoff,
        ).to_multiset(),
{
    crate::builder::lemma_reduction_order_independent(a.children@, b.children@);
    lemma_report_set_order_independent(a.children@, b.children@, cutoff);
    let sz = match a.size {
        Some(s) => s,
        None => 0u64,
    };
    if sz >= cutoff {
        let line = seq![ReportLine { size: sz, is_file: false, path: a.path }];
        vstd::seq_lib::lemma_multiset_commutative(line, report_of_seq(a.children@, cutoff));
        vstd::seq_lib::lemma_multiset_commutative(line, report_of_seq(b.children@, cutoff));
        assert(report_of(FsItem::Dir(a), cutoff).to_multiset() =~= report_of(
            FsItem::Dir(b),
            cutoff,
        ).to_multiset());
    }
}

impl File {
    /// The report of a file: its own line when its size is strictly greater
    /// than the cutoff, nothing otherwise.
    pub fn report(&self, cutoff: u64) -> (r: Vec<ReportLine>)
        ensures
            r@ == report_of(FsItem::File(*self), cutoff),
    {
        let mut r: Vec<ReportLine> = Vec::new();
        if self.size > cutoff {
            r.push(ReportLine { size: self.size, is_file: true, path: self.path.clone() });
        }
        r
    }
}

impl Dir {
    /// The report of a directory: when its stored size meets the cutoff, its
    /// own line followed by its children's reports in order; otherwise the
    /// whole subtree is pruned and nothing is reported.
    pub fn report(&self, cutoff: u64) -> (r: Vec<ReportLine>)
        ensures
            r@ == report_of(FsItem::Dir(*self), cutoff),
        decreases *self,
    {
        let mut r: Vec<ReportLine> = Vec::new();
        let sz = self.size();
        if sz >= cutoff {
            r.push(ReportLine { size: sz, is_file: false, path: self.path.clone() });
            let ghost dirline = r@;
            let mut i: usize = 0;
            while i < self.children.len()
                invariant
                    i <= self.children@.len(),
                    r@ == dirline + report_of_seq(self.children@.take(i as int), cutoff),
                decreases self.children@.len() - i,
            {
                let mut sub = self.children[i].report(cutoff);
                r.append(&mut sub);
                proof {
                    lemma_report_of_seq_push(
                        self.children@.take(i as int),
                        self.children@[i as int],
                        cutoff,
                    );
                    assert(self.children@.take(i as int + 1) =~= self.children@.take(
                        i as int,
                    ).push(self.children@[i as int]));
                }
                i = i + 1;
            }
            proof {
                assert(self.children@.take(self.children@.len() as int) =~= self.children@);
            }
        }
        r
    }
}

impl FsItem {
    /// The report of a node at the given cutoff, top-down.
    pub fn report(&self, cutoff: u64) -> (r: Vec<ReportLine>)
        ensures
            r@ == report_of(*self, cutoff),
        decreases *self,
    {
        match self {
            FsItem::File(f) => f.report(cutoff),
            FsItem::Dir(d) => d.report(cutoff),
        }
    }
}

} // verus!
