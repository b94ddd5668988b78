//! Building a directory's children from the events of a directory walk.
//!
//! The walk itself — enumerating the filesystem, honouring ignore-file
//! conventions when asked, and reading each entry's metadata — is the
//! caller's edge; it hands in one [`WalkEvent`] per entry. The walk flattens
//! the whole subtree and classifies leaves only, so a directory entry
//! produces no node of its own, and an entry that failed is skipped and is
//! never fatal to the scan.
//!
//! The caller may accumulate in parallel: any number of workers fold events
//! into private buffers with [`accumulate_event`], and the buffers are merged
//! in any order with [`merge_children`]. The laws at the end state that the
//! scan's results do not depend on that order.
use crate::node::Dir;
use crate::node::File;
use crate::node::FsItem;
use crate::node::largest_leaf;
use crate::node::largest_leaf_seq;
use crate::node::lemma_largest_leaf_seq_concat;
use crate::node::lemma_total_size_seq_concat;
use crate::node::lemma_total_size_seq_split;
use crate::node::total_size;
use crate::node::total_size_seq;
use vstd::prelude::*;

verus! {

/// One event of a directory walk.
pub enum WalkEvent {
    /// An entry the walk produced, with its path and metadata.
    Entry { path: String, size: u64, is_dir: bool },
    /// An entry the walk failed on: it yielded an error in place of the
    /// entry, or the entry's metadata could not be read.
    Failed,
}

/// The file nodes a sequence of walk events yields, in order: one leaf per
/// readable non-directory entry; failed entries and directory entries yield
/// nothing.
pub open spec fn files_of(s: Seq<WalkEvent>) -> Seq<FsItem>
    decreases s,
{
    if s.len() == 0 {
        Seq::empty()
    } else {
        let rest = files_of(s.drop_first());
        match s[0] {
            WalkEvent::Entry { path, size, is_dir } => if !is_dir {
                seq![FsItem::File(File { size, path })] + rest
            } else {
                rest
            },
            WalkEvent::Failed => rest,
        }
    }
}

/// The files of a concatenation are the concatenated files.
pub proof fn lemma_files_of_concat(a: Seq<WalkEvent>, b: Seq<WalkEvent>)
    ensures
        files_of(a + b) == files_of(a) + files_of(b),
    decreases a,
{
    if a.len() == 0 {
        assert(a + b =~= b);
        assert(files_of(a) + files_of(b) =~= files_of(b));
    } else {
        assert((a + b).drop_first() =~= a.drop_first() + b);
        lemma_files_of_concat(a.drop_first(), b);
        assert(files_of(a + b) =~= files_of(a) + files_of(b));
    }
}

/// Appending one event appends the files it yields.
pub proof fn lemma_files_of_push(s: Seq<WalkEvent>, ev: WalkEvent)
    ensures
        files_of(s.push(ev)) == files_of(s) + files_of(seq![ev]),
{
    assert(s.push(ev) =~= s + seq![ev]);
    lemma_files_of_concat(s, seq![ev]);
}

/// The sizes of the readable non-directory entries among a sequence of walk
/// events, in order.
pub open spec fn event_sizes(s: Seq<WalkEvent>) -> Seq<nat>
    decreases s,
{
    if s.len() == 0 {
        Seq::empty()
    } else {
        let rest = event_sizes(s.drop_first());
        match s[0] {
            WalkEvent::Entry { path, size, is_dir } => if !is_dir {
                seq![size as nat] + rest
            } else {
                rest
            },
            WalkEvent::Failed => rest,
        }
    }
}

/// Law: a tree built from a walk has as its total size the sum of the sizes
/// of the walk's readable file entries, and as its largest leaf their
/// maximum — failed and directory entries contribute nothing.
pub proof fn lemma_built_sizes(evs: Seq<WalkEvent>)
    ensures
        total_size_seq(files_of(evs)) == crate::node::sum_of(event_sizes(evs)),
        largest_leaf_seq(files_of(evs)) == crate::node::max_of(event_sizes(evs)),
    decreases evs,
{
    if evs.len() == 0 {
        assert(files_of(evs) == Seq::<FsItem>::empty());
        assert(event_sizes(evs) == Seq::<nat>::empty());
        assert(total_size_seq(Seq::<FsItem>::empty()) == 0);
        assert(largest_leaf_seq(Seq::<FsItem>::empty()) == 0);
        assert(crate::node::sum_of(Seq::<nat>::empty()) == 0);
        assert(crate::node::max_of(Seq::<nat>::empty()) == 0);
    } else {
        lemma_built_sizes(evs.drop_first());
        let rest = files_of(evs.drop_first());
        let rest_sizes = event_sizes(evs.drop_first());
        match evs[0] {
            WalkEvent::Entry { path, size, is_dir } => {
                if !is_dir {
                    let f = FsItem::File(File { size, path });
                    assert(files_of(evs) == seq![f] + rest);
                    assert(event_sizes(evs) == seq![size as nat] + rest_sizes);
                    lemma_total_size_seq_concat(seq![f], rest);
                    lemma_largest_leaf_seq_concat(seq![f], rest);
                    crate::node::lemma_sum_of_concat(seq![size as nat], rest_sizes);
                    crate::node::lemma_max_of_concat(seq![size as nat], rest_sizes);
                    assert(total_size_seq(seq![f]) == size) by {
                        assert(seq![f][0] == f);
                        assert(seq![f].drop_first() =~= Seq::<FsItem>::empty());
                        assert(total_size_seq(Seq::<FsItem>::empty()) == 0);
                        assert(total_size(f) == size);
                    }
                    assert(largest_leaf_seq(seq![f]) == size) by {
                        assert(seq![f][0] == f);
                        assert(seq![f].drop_first() =~= Seq::<FsItem>::empty());
                        assert(largest_leaf_seq(Seq::<FsItem>::empty()) == 0);
                        assert(largest_leaf(f) == size);
                    }
                    assert(crate::node::sum_of(seq![size as nat]) == size) by {
                        assert(seq![size as nat][0] == size as nat);
                        assert(seq![size as nat].drop_first() =~= Seq::<nat>::empty());
                        assert(crate::node::sum_of(Seq::<nat>::empty()) == 0);
                    }
                    assert(crate::node::max_of(seq![size as nat]) == size) by {
                        assert(seq![size as nat][0] == size as nat);
                        assert(seq![size as nat].drop_first() =~= Seq::<nat>::empty());
                        assert(crate::node::max_of(Seq::<nat>::empty()) == 0);
                    }
                } else {
                    assert(files_of(evs) == rest);
                    assert(event_sizes(evs) == rest_sizes);
                }
            },
            WalkEvent::Failed => {
                assert(files_of(evs) == rest);
                assert(event_sizes(evs) == rest_sizes);
            },
        }
    }
}

/// The fold step of the parallel accumulation: classifies one walk event and
/// appends the file node it yields, if any, to a worker's private buffer.
pub fn accumulate_event(buf: &mut Vec<FsItem>, ev: WalkEvent)
    ensures
        final(buf)@ == old(buf)@ + files_of(seq![ev]),
{
    proof {
        assert(seq![ev].drop_first() =~= Seq::<WalkEvent>::empty());
        assert(files_of(Seq::<WalkEvent>::empty()) == Seq::<FsItem>::empty());
    }
    match ev {
        WalkEvent::Entry { path, size, is_dir } => {
            if !is_dir {
                buf.push(FsItem::File(File { size, path }));
                proof {
                    assert(buf@ =~= old(buf)@ + files_of(seq![ev]));
                }
            } else {
                proof {
                    assert(buf@ =~= old(buf)@ + files_of(seq![ev]));
                }
            }
        },
        WalkEvent::Failed => {
            proof {
                assert(buf@ =~= old(buf)@ + files_of(seq![ev]));
            }
        },
    }
}

/// The reduce step of the parallel accumulation: merges one worker's buffer
/// into the accumulator. A pure append — which worker's buffer comes first
/// is not a contract, and the laws below show the results do not depend on
/// it.
pub fn merge_children(acc: &mut Vec<FsItem>, part: Vec<FsItem>)
    ensures
        final(acc)@ == old(acc)@ + part@,
{
    let mut p = part;
    acc.append(&mut p);
}

/// Populates a directory's children from the events of a walk of its path:
/// the serial composition of the fold and the merge. The directory's path
/// and stored size are untouched.
pub fn find_all_files_and_directories(dir: &mut Dir, events: Vec<WalkEvent>)
    ensures
        final(dir).children@ == files_of(events@),
        final(dir).path == old(dir).path,
        final(dir).size == old(dir).size,
{
    let mut evs = events;
    let ghost orig = evs@;
    let ghost mut k: int = 0;
    let mut children: Vec<FsItem> = Vec::new();
    while evs.len() > 0
        invariant
            0 <= k <= orig.len(),
            evs@ == orig.skip(k),
            children@ == files_of(orig.take(k)),
        decreases evs@.len(),
    {
        let ev = evs.remove(0);
        proof {
            assert(orig.skip(k)[0] == orig[k]);
            assert(orig.skip(k).remove(0) =~= orig.skip(k + 1));
        }
        accumulate_event(&mut children, ev);
        proof {
            lemma_files_of_push(orig.take(k), orig[k]);
            assert(orig.take(k + 1) =~= orig.take(k).push(orig[k]));
            k = k + 1;
        }
    }
    proof {
        assert(orig.take(orig.len() as int) =~= orig);
    }
    dir.children = children;
}

/// Law (order-independence of the reduction, merge form): merging two
/// buffers in either order yields the same total size and the same largest
/// leaf.
pub proof fn lemma_merge_order_irrelevant(a: Seq<FsItem>, b: Seq<FsItem>)
    ensures
        total_size_seq(a + b) == total_size_seq(b + a),
        largest_leaf_seq(a + b) == largest_leaf_seq(b + a),
{
    lemma_total_size_seq_concat(a, b);
    lemma_total_size_seq_concat(b, a);
    lemma_largest_leaf_seq_concat(a, b);
    lemma_largest_leaf_seq_concat(b, a);
}

/// Law (order-independence of the reduction, full form): two child
/// collections that hold the same nodes — in any order, as two interleavings
/// of the parallel merge would — have the same total size and the same
/// largest leaf.
pub proof fn lemma_reduction_order_independent(a: Seq<FsItem>, b: Seq<FsItem>)
    requires
        a.to_multiset() == b.to_multiset(),
    ensures
        total_size_seq(a) == total_size_seq(b),
        largest_leaf_seq(a) == largest_leaf_seq(b),
    decreases a.len(),
{
    broadcast use vstd::seq_lib::group_to_multiset_ensures;

    if a.len() == 0 {
        assert(b.to_multiset().len() == 0);
        assert(b.len() == 0);
    } else {
        let x = a[0];
        assert(a.contains(x));
        assert(b.to_multiset().count(x) > 0);
        assert(b.contains(x));
        let j = choose|j: int| 0 <= j < b.len() && b[j] == x;
        let b2 = b.remove(j);
        assert(a.drop_first() =~= a.remove(0));
        assert(a.remove(0).to_multiset() == a.to_multiset().remove(x));
        assert(b2.to_multiset() == b.to_multiset().remove(x));
        lemma_reduction_order_independent(a.drop_first(), b2);
        // the sums and maxima of b split around position j
        lemma_total_size_seq_split(b, j);
        assert(b2 =~= b.take(j) + b.skip(j + 1));
        lemma_total_size_seq_concat(b.take(j), b.skip(j + 1));
        assert(b =~= b.take(j) + (seq![x] + b.skip(j + 1)));
        lemma_largest_leaf_seq_concat(b.take(j), seq![x] + b.skip(j + 1));
        lemma_largest_leaf_seq_concat(seq![x], b.skip(j + 1));
        lemma_largest_leaf_seq_concat(b.take(j), b.skip(j + 1));
        assert(largest_leaf_seq(seq![x]) == largest_leaf(x)) by {
            assert(seq![x].drop_first() =~= Seq::<FsItem>::empty());
            assert(largest_leaf_seq(Seq::<FsItem>::empty()) == 0);
        }
    }
}

} // verus!
