//! The size-bearing node model: a leaf `File` with a fixed size, and a
//! composite `Dir` whose total size is the sum of the file sizes beneath it.
use vstd::prelude::*;

verus! {

/// A leaf node: one file, with the size read from its metadata at discovery
/// time and never recomputed.
pub struct File {
    pub size: u64,
    pub path: String,
}

/// A composite node: a directory. `children` is populated once during tree
/// construction; `size` is absent until the propagation pass runs, then holds
/// the sum of all file sizes beneath this directory.
pub struct Dir {
    pub path: String,
    pub children: Vec<FsItem>,
    pub size: Option<u64>,
}

/// A node of the tree: either a file leaf or a directory.
pub enum FsItem {
    File(File),
    Dir(Dir),
}

/// The total size of a node: a file's own size, or the sum of the total
/// sizes of a directory's children. This is the mathematical value that the
/// propagation pass stores into every directory's `size` field.
pub open spec fn total_size(n: FsItem) -> nat
    decreases n,
{
    match n {
        FsItem::File(f) => f.size as nat,
        FsItem::Dir(d) => total_size_seq(d.children@),
    }
}

/// The sum of the total sizes of a sequence of nodes.
pub open spec fn total_size_seq(s: Seq<FsItem>) -> nat
    decreases s,
{
    if s.len() == 0 {
        0
    } else {
        total_size(s[0]) + total_size_seq(s.drop_first())
    }
}

/// The largest leaf beneath a node: a file's own size, or the maximum over a
/// directory's children (0 for an empty directory). Distinct from the total
/// size: a directory reports its largest descendant file, not its sum.
pub open spec fn largest_leaf(n: FsItem) -> nat
    decreases n,
{
    match n {
        FsItem::File(f) => f.size as nat,
        FsItem::Dir(d) => largest_leaf_seq(d.children@),
    }
}

/// The largest leaf over a sequence of nodes, 0 when the sequence is empty.
pub open spec fn largest_leaf_seq(s: Seq<FsItem>) -> nat
    decreases s,
{
    if s.len() == 0 {
        0
    } else {
        vstd::math::max(largest_leaf(s[0]) as int, largest_leaf_seq(s.drop_first()) as int) as nat
    }
}

/// The size a node reports before/after propagation: a file's own size, or
/// the directory's stored `size` field, 0 while it is still absent.
pub open spec fn stored_size(n: FsItem) -> nat {
    match n {
        FsItem::File(f) => f.size as nat,
        FsItem::Dir(d) => match d.size {
            Some(s) => s as nat,
            None => 0,
        },
    }
}

/// Two nodes have the same shape when they agree on everything except the
/// directories' stored `size` fields: same variant, same paths, same file
/// sizes, and children of the same shape in the same order.
pub open spec fn same_shape(a: FsItem, b: FsItem) -> bool
    decreases a,
{
    match (a, b) {
        (FsItem::File(fa), FsItem::File(fb)) => fa == fb,
        (FsItem::Dir(da), FsItem::Dir(db)) => da.path == db.path && same_shape_seq(
            da.children@,
            db.children@,
        ),
        _ => false,
    }
}

/// Pointwise `same_shape` over two sequences of nodes of equal length.
pub open spec fn same_shape_seq(a: Seq<FsItem>, b: Seq<FsItem>) -> bool
    decreases a,
{
    if a.len() != b.len() {
        false
    } else if a.len() == 0 {
        true
    } else {
        same_shape(a[0], b[0]) && same_shape_seq(a.drop_first(), b.drop_first())
    }
}

/// Every directory in the tree has its `size` field filled in with the total
/// size of its own subtree. This is what the propagation pass establishes.
pub open spec fn all_sized(n: FsItem) -> bool
    decreases n,
{
    match n {
        FsItem::File(_) => true,
        FsItem::Dir(d) => d.size == Some(total_size_seq(d.children@) as u64)
            && total_size_seq(d.children@) <= u64::MAX && all_sized_seq(d.children@),
    }
}

/// `all_sized` holds of every node of the sequence.
pub open spec fn all_sized_seq(s: Seq<FsItem>) -> bool
    decreases s,
{
    if s.len() == 0 {
        true
    } else {
        all_sized(s[0]) && all_sized_seq(s.drop_first())
    }
}

/// Splitting a sequence splits its total size: the sum over a concatenation
/// is the sum of the sums.
pub proof fn lemma_total_size_seq_concat(a: Seq<FsItem>, b: Seq<FsItem>)
    ensures
        total_size_seq(a + b) == total_size_seq(a) + total_size_seq(b),
    decreases a,
{
    if a.len() == 0 {
        assert(a + b =~= b);
    } else {
        assert((a + b).drop_first() =~= a.drop_first() + b);
        lemma_total_size_seq_concat(a.drop_first(), b);
    }
}

/// The largest leaf over a concatenation is the larger of the two parts'
/// largest leaves.
pub proof fn lemma_largest_leaf_seq_concat(a: Seq<FsItem>, b: Seq<FsItem>)
    ensures
        largest_leaf_seq(a + b) == vstd::math::max(
            largest_leaf_seq(a) as int,
            largest_leaf_seq(b) as int,
        ),
    decreases a,
{
    if a.len() == 0 {
        assert(a + b =~= b);
    } else {
        assert((a + b).drop_first() =~= a.drop_first() + b);
        lemma_largest_leaf_seq_concat(a.drop_first(), b);
    }
}

/// A sequence's total size splits around any one element.
pub proof fn lemma_total_size_seq_split(s: Seq<FsItem>, k: int)
    requires
        0 <= k < s.len(),
    ensures
        total_size_seq(s) == total_size_seq(s.take(k)) + total_size(s[k]) + total_size_seq(
            s.skip(k + 1),
        ),
{
    assert(s =~= s.take(k) + seq![s[k]] + s.skip(k + 1));
    lemma_total_size_seq_concat(s.take(k) + seq![s[k]], s.skip(k + 1));
    lemma_total_size_seq_concat(s.take(k), seq![s[k]]);
    assert(total_size_seq(seq![s[k]]) == total_size(s[k])) by {
        assert(seq![s[k]].drop_first() =~= Seq::<FsItem>::empty());
        assert(total_size_seq(Seq::<FsItem>::empty()) == 0);
    }
}

/// A prefix of a sequence never sums to more than the whole sequence.
pub proof fn lemma_total_size_seq_prefix_le(s: Seq<FsItem>, k: int)
    requires
        0 <= k <= s.len(),
    ensures
        total_size_seq(s.take(k)) <= total_size_seq(s),
{
    assert(s =~= s.take(k) + s.skip(k));
    lemma_total_size_seq_concat(s.take(k), s.skip(k));
}

/// Nodes of the same shape have the same total size: the stored directory
/// sizes play no part in it.
pub proof fn lemma_same_shape_total(a: FsItem, b: FsItem)
    requires
        same_shape(a, b),
    ensures
        total_size(a) == total_size(b),
    decreases a,
{
    match (a, b) {
        (FsItem::Dir(da), FsItem::Dir(db)) => {
            lemma_same_shape_total_seq(da.children@, db.children@);
        },
        _ => {},
    }
}

/// Sequence version of `lemma_same_shape_total`.
pub proof fn lemma_same_shape_total_seq(a: Seq<FsItem>, b: Seq<FsItem>)
    requires
        same_shape_seq(a, b),
    ensures
        total_size_seq(a) == total_size_seq(b),
    decreases a,
{
    if a.len() > 0 {
        lemma_same_shape_total(a[0], b[0]);
        lemma_same_shape_total_seq(a.drop_first(), b.drop_first());
    }
}

/// Nodes of the same shape have the same largest leaf.
pub proof fn lemma_same_shape_largest(a: FsItem, b: FsItem)
    requires
        same_shape(a, b),
    ensures
        largest_leaf(a) == largest_leaf(b),
    decreases a,
{
    match (a, b) {
        (FsItem::Dir(da), FsItem::Dir(db)) => {
            lemma_same_shape_largest_seq(da.children@, db.children@);
        },
        _ => {},
    }
}

/// Sequence version of `lemma_same_shape_largest`.
pub proof fn lemma_same_shape_largest_seq(a: Seq<FsItem>, b: Seq<FsItem>)
    requires
        same_shape_seq(a, b),
    ensures
        largest_leaf_seq(a) == largest_leaf_seq(b),
    decreases a,
{
    if a.len() > 0 {
        lemma_same_shape_largest(a[0], b[0]);
        lemma_same_shape_largest_seq(a.drop_first(), b.drop_first());
    }
}

/// On a node whose directories are all sized, the stored size is the total
/// size of the subtree.
pub proof fn lemma_all_sized_stored(n: FsItem)
    requires
        all_sized(n),
    ensures
        stored_size(n) == total_size(n),
{
}

/// Appending one node to a sequence adds its total size to the sum.
pub proof fn lemma_total_size_seq_push(s: Seq<FsItem>, x: FsItem)
    ensures
        total_size_seq(s.push(x)) == total_size_seq(s) + total_size(x),
{
    assert(s.push(x) =~= s + seq![x]);
    lemma_total_size_seq_concat(s, seq![x]);
    assert(total_size_seq(seq![x]) == total_size(x)) by {
        assert(seq![x].drop_first() =~= Seq::<FsItem>::empty());
        assert(total_size_seq(Seq::<FsItem>::empty()) == 0);
    }
}

/// Appending one node to a sequence takes the maximum with its largest leaf.
pub proof fn lemma_largest_leaf_seq_push(s: Seq<FsItem>, x: FsItem)
    ensures
        largest_leaf_seq(s.push(x)) == vstd::math::max(
            largest_leaf_seq(s) as int,
            largest_leaf(x) as int,
        ),
{
    assert(s.push(x) =~= s + seq![x]);
    lemma_largest_leaf_seq_concat(s, seq![x]);
    assert(largest_leaf_seq(seq![x]) == largest_leaf(x)) by {
        assert(seq![x].drop_first() =~= Seq::<FsItem>::empty());
        assert(largest_leaf_seq(Seq::<FsItem>::empty()) == 0);
    }
}

/// `same_shape_seq` is preserved by appending nodes of the same shape.
pub proof fn lemma_same_shape_seq_push(a: Seq<FsItem>, b: Seq<FsItem>, x: FsItem, y: FsItem)
    requires
        same_shape_seq(a, b),
        same_shape(x, y),
    ensures
        same_shape_seq(a.push(x), b.push(y)),
    decreases a,
{
    if a.len() == 0 {
        assert(a.push(x)[0] == x);
        assert(b.push(y)[0] == y);
        assert(a.push(x).drop_first() =~= Seq::<FsItem>::empty());
        assert(b.push(y).drop_first() =~= Seq::<FsItem>::empty());
        assert(same_shape_seq(Seq::<FsItem>::empty(), Seq::<FsItem>::empty()));
    } else {
        lemma_same_shape_seq_push(a.drop_first(), b.drop_first(), x, y);
        assert(a.push(x)[0] == a[0]);
        assert(b.push(y)[0] == b[0]);
        assert(a.push(x).drop_first() =~= a.drop_first().push(x));
        assert(b.push(y).drop_first() =~= b.drop_first().push(y));
    }
}

/// `all_sized_seq` is preserved by appending an `all_sized` node.
pub proof fn lemma_all_sized_seq_push(s: Seq<FsItem>, x: FsItem)
    requires
        all_sized_seq(s),
        all_sized(x),
    ensures
        all_sized_seq(s.push(x)),
    decreases s,
{
    if s.len() == 0 {
        assert(s.push(x)[0] == x);
        assert(s.push(x).drop_first() =~= Seq::<FsItem>::empty());
        assert(all_sized_seq(Seq::<FsItem>::empty()));
    } else {
        lemma_all_sized_seq_push(s.drop_first(), x);
        assert(s.push(x)[0] == s[0]);
        assert(s.push(x).drop_first() =~= s.drop_first().push(x));
    }
}

/// The sizes of all the file leaves beneath a node, in traversal order.
pub open spec fn leaf_sizes(n: FsItem) -> Seq<nat>
    decreases n,
{
    match n {
        FsItem::File(f) => seq![f.size as nat],
        FsItem::Dir(d) => leaf_sizes_seq(d.children@),
    }
}

/// The leaf sizes of a sequence of nodes, concatenated in order.
pub open spec fn leaf_sizes_seq(s: Seq<FsItem>) -> Seq<nat>
    decreases s,
{
    if s.len() == 0 {
        Seq::empty()
    } else {
        leaf_sizes(s[0]) + leaf_sizes_seq(s.drop_first())
    }
}

/// The sum of a sequence of sizes.
pub open spec fn sum_of(s: Seq<nat>) -> nat
    decreases s,
{
    if s.len() == 0 {
        0
    } else {
        s[0] + sum_of(s.drop_first())
    }
}

/// The maximum of a sequence of sizes, 0 when it is empty.
pub open spec fn max_of(s: Seq<nat>) -> nat
    decreases s,
{
    if s.len() == 0 {
        0
    } else {
        vstd::math::max(s[0] as int, max_of(s.drop_first()) as int) as nat
    }
}

/// The sum over a concatenation is the sum of the sums.
pub proof fn lemma_sum_of_concat(a: Seq<nat>, b: Seq<nat>)
    ensures
        sum_of(a + b) == sum_of(a) + sum_of(b),
    decreases a,
{
    if a.len() == 0 {
        assert(a + b =~= b);
    } else {
        assert((a + b).drop_first() =~= a.drop_first() + b);
        lemma_sum_of_concat(a.drop_first(), b);
    }
}

/// The maximum over a concatenation is the larger of the two maxima.
pub proof fn lemma_max_of_concat(a: Seq<nat>, b: Seq<nat>)
    ensures
        max_of(a + b) == vstd::math::max(max_of(a) as int, max_of(b) as int),
    decreases a,
{
    if a.len() == 0 {
        assert(a + b =~= b);
    } else {
        assert((a + b).drop_first() =~= a.drop_first() + b);
        lemma_max_of_concat(a.drop_first(), b);
    }
}

/// Law: a node's total size is the sum of the sizes of all the file leaves
/// beneath it — what the propagation pass stores for a directory is exactly
/// the sum over its transitive files.
pub proof fn lemma_total_is_sum_of_leaves(n: FsItem)
    ensures
        total_size(n) == sum_of(leaf_sizes(n)),
    decreases n,
{
    match n {
        FsItem::File(f) => {
            assert(seq![f.size as nat][0] == f.size as nat);
            assert(seq![f.size as nat].drop_first() =~= Seq::<nat>::empty());
            assert(sum_of(Seq::<nat>::empty()) == 0);
        },
        FsItem::Dir(d) => {
            lemma_total_is_sum_of_leaves_seq(d.children@);
        },
    }
}

/// Sequence version of `lemma_total_is_sum_of_leaves`.
pub proof fn lemma_total_is_sum_of_leaves_seq(s: Seq<FsItem>)
    ensures
        total_size_seq(s) == sum_of(leaf_sizes_seq(s)),
    decreases s,
{
    if s.len() > 0 {
        lemma_total_is_sum_of_leaves(s[0]);
        lemma_total_is_sum_of_leaves_seq(s.drop_first());
        lemma_sum_of_concat(leaf_sizes(s[0]), leaf_sizes_seq(s.drop_first()));
    }
}

/// Law: a node's largest leaf is the maximum of the sizes of all the file
/// leaves beneath it — directories contribute nothing of their own.
pub proof fn lemma_largest_is_max_of_leaves(n: FsItem)
    ensures
        largest_leaf(n) == max_of(leaf_sizes(n)),
    decreases n,
{
    match n {
        FsItem::File(f) => {
            assert(seq![f.size as nat][0] == f.size as nat);
            assert(seq![f.size as nat].drop_first() =~= Seq::<nat>::empty());
            assert(max_of(Seq::<nat>::empty()) == 0);
        },
        FsItem::Dir(d) => {
            lemma_largest_is_max_of_leaves_seq(d.children@);
        },
    }
}

/// Sequence version of `lemma_largest_is_max_of_leaves`.
pub proof fn lemma_largest_is_max_of_leaves_seq(s: Seq<FsItem>)
    ensures
        largest_leaf_seq(s) == max_of(leaf_sizes_seq(s)),
    decreases s,
{
    if s.len() > 0 {
        lemma_largest_is_max_of_leaves(s[0]);
        lemma_largest_is_max_of_leaves_seq(s.drop_first());
        lemma_max_of_concat(leaf_sizes(s[0]), leaf_sizes_seq(s.drop_first()));
    }
}

impl File {
    /// A file node with the given size and path.
    pub fn new(size: u64, path: &str) -> (r: File)
        ensures
            r.size == size,
            r.path@ == path@,
    {
        File { size, path: path.to_string() }
    }

    /// A file's size is itself its total size.
    pub fn size(&self) -> (r: u64)
        ensures
            r as nat == total_size(FsItem::File(*self)),
    {
        self.size
    }

    /// A file is its own largest leaf.
    pub fn largest_child(&self) -> (r: u64)
        ensures
            r as nat == largest_leaf(FsItem::File(*self)),
    {
        self.size
    }

    pub fn path(&self) -> (r: &str)
        ensures
            r@ == self.path@,
    {
        self.path.as_str()
    }

    pub fn is_file(&self) -> (r: bool)
        ensures
            r,
    {
        true
    }
}

impl Dir {
    /// A directory node with no children yet and no size computed.
    pub fn new(path: &str) -> (r: Dir)
        ensures
            r.path@ == path@,
            r.children@ == Seq::<FsItem>::empty(),
            r.size is None,
    {
        Dir { path: path.to_string(), children: Vec::new(), size: None }
    }

    /// The directory's stored size: what the propagation pass computed, or 0
    /// while it has not run yet.
    pub fn size(&self) -> (r: u64)
        ensures
            r as nat == stored_size(FsItem::Dir(*self)),
    {
        match self.size {
            Some(s) => s,
            None => 0,
        }
    }

    pub fn path(&self) -> (r: &str)
        ensures
            r@ == self.path@,
    {
        self.path.as_str()
    }

    pub fn is_file(&self) -> (r: bool)
        ensures
            !r,
    {
        false
    }

    /// The largest leaf beneath this directory: the maximum over its
    /// children, 0 when it has none.
    pub fn largest_child(&self) -> (r: u64)
        ensures
            r as nat == largest_leaf_seq(self.children@),
        decreases *self,
    {
        let mut best: u64 = 0;
        let mut i: usize = 0;
        while i < self.children.len()
            invariant
                i <= self.children@.len(),
                best as nat == largest_leaf_seq(self.children@.take(i as int)),
            decreases self.children@.len() - i,
        {
            let c = &self.children[i];
            let v = c.largest_child();
            proof {
                lemma_largest_leaf_seq_push(self.children@.take(i as int), self.children@[i as int]);
                assert(self.children@.take(i as int + 1) =~= self.children@.take(
                    i as int,
                ).push(self.children@[i as int]));
            }
            if v > best {
                best = v;
            }
            i = i + 1;
        }
        proof {
            assert(self.children@.take(self.children@.len() as int) =~= self.children@);
        }
        best
    }

    /// The subtree's total size, computed with checked arithmetic: `None`
    /// exactly when the sum of the file sizes beneath this directory does not
    /// fit in `u64`. The guard for the propagation pass, which demands that
    /// the total fits.
    pub fn checked_total(&self) -> (r: Option<u64>)
        ensures
            match r {
                Some(t) => t as nat == total_size_seq(self.children@),
                None => total_size_seq(self.children@) > u64::MAX,
            },
        decreases *self,
    {
        let mut total: u64 = 0;
        let mut i: usize = 0;
        while i < self.children.len()
            invariant
                i <= self.children@.len(),
                total as nat == total_size_seq(self.children@.take(i as int)),
            decreases self.children@.len() - i,
        {
            let c = &self.children[i];
            let sub = c.checked_total();
            proof {
                lemma_total_size_seq_push(self.children@.take(i as int), self.children@[i as int]);
                assert(self.children@.take(i as int + 1) =~= self.children@.take(
                    i as int,
                ).push(self.children@[i as int]));
            }
            match sub {
                None => {
                    proof {
                        lemma_total_size_seq_prefix_le(self.children@, i as int + 1);
                    }
                    return None;
                },
                Some(t) => {
                    match total.checked_add(t) {
                        None => {
                            proof {
                                lemma_total_size_seq_prefix_le(self.children@, i as int + 1);
                            }
                            return None;
                        },
                        Some(nt) => {
                            total = nt;
                        },
                    }
                },
            }
            i = i + 1;
        }
        proof {
            assert(self.children@.take(self.children@.len() as int) =~= self.children@);
        }
        Some(total)
    }

    /// The propagation pass on a directory: sizes every child bottom-up, then
    /// stores the sum of the children's total sizes as this directory's size.
    /// Consumes the directory and returns it sized; everything but the stored
    /// sizes is kept as it was.
    #[verifier::loop_isolation(false)]
    pub fn calc_size(self) -> (r: Dir)
        requires
            total_size_seq(self.children@) <= u64::MAX,
        ensures
            r.path == self.path,
            same_shape_seq(self.children@, r.children@),
            all_sized_seq(r.children@),
            r.size == Some(total_size_seq(self.children@) as u64),
            total_size_seq(r.children@) == total_size_seq(self.children@),
            largest_leaf_seq(r.children@) == largest_leaf_seq(self.children@),
        decreases self,
    {
        let ghost gself = self;
        let Dir { path, mut children, size: _ } = self;
        let ghost orig = children@;
        let mut done: Vec<FsItem> = Vec::new();
        let mut total: u64 = 0;
        while children.len() > 0
            invariant
                orig == gself.children@,
                total_size_seq(orig) <= u64::MAX,
                done@.len() + children@.len() == orig.len(),
                children@ == orig.skip(done@.len() as int),
                same_shape_seq(orig.take(done@.len() as int), done@),
                all_sized_seq(done@),
                total as nat == total_size_seq(orig.take(done@.len() as int)),
            decreases children@.len(),
        {
            let ghost k = done@.len() as int;
            let c = children.remove(0);
            proof {
                assert(orig.skip(k)[0] == orig[k]);
                assert(c == gself.children@[k]);
                assert(orig.skip(k).remove(0) =~= orig.skip(k + 1));
                lemma_total_size_seq_split(orig, k);
            }
            let c2 = c.calc_size();
            let s = c2.size();
            proof {
                lemma_all_sized_stored(c2);
                lemma_same_shape_total(c, c2);
                lemma_total_size_seq_push(orig.take(k), orig[k]);
                assert(orig.take(k + 1) =~= orig.take(k).push(orig[k]));
                lemma_same_shape_seq_push(orig.take(k), done@, c, c2);
                lemma_all_sized_seq_push(done@, c2);
            }
            total = total + s;
            done.push(c2);
        }
        proof {
            assert(orig.take(orig.len() as int) =~= orig);
            lemma_same_shape_total_seq(orig, done@);
            lemma_same_shape_largest_seq(orig, done@);
        }
        Dir { path, children: done, size: Some(total) }
    }
}

impl FsItem {
    /// The size a node reports: a file's own size, a directory's stored size.
    pub fn size(&self) -> (r: u64)
        ensures
            r as nat == stored_size(*self),
    {
        match self {
            FsItem::File(f) => f.size(),
            FsItem::Dir(d) => d.size(),
        }
    }

    pub fn is_file(&self) -> (r: bool)
        ensures
            r == (*self is File),
    {
        match self {
            FsItem::File(f) => f.is_file(),
            FsItem::Dir(d) => d.is_file(),
        }
    }

    pub fn path(&self) -> (r: &str)
        ensures
            r@ == match *self {
                FsItem::File(f) => f.path@,
                FsItem::Dir(d) => d.path@,
            },
    {
        match self {
            FsItem::File(f) => f.path(),
            FsItem::Dir(d) => d.path(),
        }
    }

    /// The largest leaf beneath this node: a file reports its own size, a
    /// directory the maximum over its children.
    pub fn largest_child(&self) -> (r: u64)
        ensures
            r as nat == largest_leaf(*self),
        decreases *self,
    {
        match self {
            FsItem::File(f) => f.largest_child(),
            FsItem::Dir(d) => d.largest_child(),
        }
    }

    /// The subtree's total size, computed with checked arithmetic: `None`
    /// exactly when the sum of the file sizes beneath this node does not fit
    /// in `u64`.
    pub fn checked_total(&self) -> (r: Option<u64>)
        ensures
            match r {
                Some(t) => t as nat == total_size(*self),
                None => total_size(*self) > u64::MAX,
            },
        decreases *self,
    {
        match self {
            FsItem::File(f) => Some(f.size),
            FsItem::Dir(d) => d.checked_total(),
        }
    }

    /// The propagation pass on a node: a file is already its own size; a
    /// directory is sized bottom-up. Consumes the node and returns it with
    /// every directory's `size` field holding its subtree's total.
    pub fn calc_size(self) -> (r: FsItem)
        requires
            total_size(self) <= u64::MAX,
        ensures
            same_shape(self, r),
            all_sized(r),
            total_size(r) == total_size(self),
            largest_leaf(r) == largest_leaf(self),
            stored_size(r) == total_size(self),
        decreases self,
    {
        match self {
            FsItem::File(f) => FsItem::File(f),
            FsItem::Dir(d) => {
                let ghost gd = d;
                let d2 = d.calc_size();
                proof {
                    lemma_same_shape_total_seq(gd.children@, d2.children@);
                }
                FsItem::Dir(d2)
            },
        }
    }
}

} // verus!
