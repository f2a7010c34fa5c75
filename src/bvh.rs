//! Bounding volume hierarchy over primitives referred to by index.
//!
//! The hierarchy is kept as an arena: a node refers to its children by their
//! position in the arena, and children always stand before their parent, so the
//! last node is the root and a single forward pass visits children first.
//! The geometry (boxes, centroids, ray tests) belongs to the caller and reaches
//! the hierarchy through closures: construction asks how to split a set of
//! primitives, traversal asks whether a node's box is struck and where a
//! primitive is struck.
use vstd::prelude::*;

verus! {

/// One node of the arena.
pub enum BvhNode {
    /// An inner node whose children stand at the given earlier positions.
    Branch { left: usize, right: usize },
    /// A leaf holding the indices of its primitives.
    Leaf { items: Vec<usize> },
}

/// Why a hierarchy could not be built.
#[derive(Clone, Copy, Debug, PartialEq, Eq, Structural)]
pub enum BvhError {
    /// A split assigned sides to a different number of primitives than it was given.
    SideCountMismatch,
    /// A split put every primitive of a set on the same side.
    DegeneratePartition,
}

/// A hierarchy over the primitives `0 .. n`; empty when there are none.
pub struct Bvh {
    nodes: Vec<BvhNode>,
    sets: Ghost<Seq<Seq<usize>>>,
}

/// The indices `0 .. n` in order.
pub open spec fn index_seq(n: nat) -> Seq<usize> {
    Seq::new(n, |i: int| i as usize)
}

/// Node `i` refers only to earlier nodes, and a leaf is never empty.
pub open spec fn node_wf(nodes: Seq<BvhNode>, i: int) -> bool {
    match nodes[i] {
        BvhNode::Branch { left, right } => left < i && right < i,
        BvhNode::Leaf { items } => items@.len() > 0,
    }
}

/// Every node of the arena is well formed.
pub open spec fn nodes_wf(nodes: Seq<BvhNode>) -> bool {
    forall|i: int| 0 <= i < nodes.len() ==> #[trigger] node_wf(nodes, i)
}

/// The primitives below node `i`, leaves taken left to right.
pub open spec fn items_under(nodes: Seq<BvhNode>, i: int) -> Seq<usize>
    decreases i,
{
    if 0 <= i < nodes.len() {
        match nodes[i] {
            BvhNode::Branch { left, right } => {
                if left < i && right < i {
                    items_under(nodes, left as int) + items_under(nodes, right as int)
                } else {
                    Seq::empty()
                }
            },
            BvhNode::Leaf { items } => items@,
        }
    } else {
        Seq::empty()
    }
}

/// A split of the set `s` is acceptable: either keep the set whole, or give a
/// side to each member with both sides taken.
pub open spec fn split_is_sound(s: Seq<usize>, o: Option<Vec<bool>>) -> bool {
    match o {
        None => true,
        Some(f) => {
            &&& f@.len() == s.len()
            &&& exists|j: int| 0 <= j < f@.len() && f@[j]
            &&& exists|j: int| 0 <= j < f@.len() && !f@[j]
        },
    }
}

/// The split gave a side to each member, and all of them the same side.
pub open spec fn split_is_one_sided(s: Seq<usize>, o: Option<Vec<bool>>) -> bool {
    match o {
        None => false,
        Some(f) => {
            &&& f@.len() == s.len()
            &&& {
                ||| forall|j: int| 0 <= j < f@.len() ==> f@[j]
                ||| forall|j: int| 0 <= j < f@.len() ==> !f@[j]
            }
        },
    }
}

/// The split did not give a side to each member.
pub open spec fn split_is_mismatched(s: Seq<usize>, o: Option<Vec<bool>>) -> bool {
    match o {
        None => false,
        Some(f) => f@.len() != s.len(),
    }
}

proof fn lemma_items_under_prefix(a: Seq<BvhNode>, b: Seq<BvhNode>, i: int)
    requires
        0 <= i < a.len() <= b.len(),
        forall|j: int| 0 <= j < a.len() ==> b[j] == a[j],
    ensures
        items_under(b, i) == items_under(a, i),
    decreases i,
{
    match a[i] {
        BvhNode::Branch { left, right } => {
            if left < i && right < i {
                lemma_items_under_prefix(a, b, left as int);
                lemma_items_under_prefix(a, b, right as int);
            }
        },
        BvhNode::Leaf { .. } => {},
    }
}

/// Node `j` is a child of node `p`.
pub open spec fn is_child_of(nodes: Seq<BvhNode>, j: int, p: int) -> bool {
    match nodes[p] {
        BvhNode::Branch { left, right } => left == j || right == j,
        BvhNode::Leaf { .. } => false,
    }
}

/// Node `j` is a child of some later node.
pub open spec fn has_later_parent(nodes: Seq<BvhNode>, j: int) -> bool {
    exists|p: int| j < p < nodes.len() && #[trigger] is_child_of(nodes, j, p)
}

/// The nodes from `lo` on form one tree rooted at the last node: every branch
/// among them has two distinct children among them, and every node among them
/// but the root is a child of exactly one later node.
pub open spec fn tree_from(nodes: Seq<BvhNode>, lo: int) -> bool {
    &&& forall|p: int|
        lo <= p < nodes.len() && (#[trigger] nodes[p]) is Branch ==> lo <= nodes[p]->left
            && lo <= nodes[p]->right && nodes[p]->left != nodes[p]->right
    &&& forall|j: int|
        lo <= j < nodes.len() - 1 ==> #[trigger] has_later_parent(nodes, j)
    &&& forall|j: int, p1: int, p2: int|
        lo <= p1 < nodes.len() && lo <= p2 < nodes.len() && #[trigger] is_child_of(nodes, j, p1)
            && #[trigger] is_child_of(nodes, j, p2) ==> p1 == p2
}

/// The members of `s` whose side in `f` is `want`, in their order in `s`.
pub open spec fn side_of(s: Seq<usize>, f: Seq<bool>, want: bool) -> Seq<usize>
    decreases s.len(),
{
    if s.len() == 0 {
        Seq::empty()
    } else {
        let p = side_of(s.drop_last(), f, want);
        if f[s.len() - 1] == want {
            p.push(s.last())
        } else {
            p
        }
    }
}

/// A set the build may hand to a split: two or more distinct primitives of
/// `0 .. count`.
pub open spec fn handed_set(s: Seq<usize>, count: nat) -> bool {
    &&& s.len() >= 2
    &&& s.no_duplicates()
    &&& forall|k: int| 0 <= k < s.len() ==> s[k] < count
}

/// Node `i` is what the build makes of the answers of `split`, where `sets[j]`
/// is the set node `j` was built from. A leaf holds its set; a leaf of several
/// primitives is a set the split kept whole. A branch's set was given sides by
/// the split, its children were built from the two sides in order, and both
/// sides are taken.
pub open spec fn node_follows_split<F: Fn(&Vec<usize>) -> Option<Vec<bool>>>(
    nodes: Seq<BvhNode>,
    sets: Seq<Seq<usize>>,
    i: int,
    split: &F,
) -> bool {
    match nodes[i] {
        BvhNode::Leaf { items } => {
            &&& items@ == sets[i]
            &&& items@.len() > 1 ==> exists|v: &Vec<usize>|
                #![trigger split.ensures((v,), None::<Vec<bool>>)]
                v@ == sets[i] && split.ensures((v,), None::<Vec<bool>>)
        },
        BvhNode::Branch { left, right } => exists|v: &Vec<usize>, f: Vec<bool>|
            #![trigger split.ensures((v,), Some(f))]
            {
                &&& split.ensures((v,), Some(f))
                &&& v@ == sets[i]
                &&& f@.len() == v@.len()
                &&& sets[left as int] == side_of(v@, f@, true)
                &&& sets[right as int] == side_of(v@, f@, false)
                &&& sets[left as int].len() > 0
                &&& sets[right as int].len() > 0
            },
    }
}

proof fn lemma_side_of_contains(s: Seq<usize>, f: Seq<bool>, want: bool)
    ensures
        forall|x: usize| #[trigger] side_of(s, f, want).contains(x) ==> s.contains(x),
    decreases s.len(),
{
    if s.len() > 0 {
        let d = s.drop_last();
        lemma_side_of_contains(d, f, want);
        assert forall|x: usize| #[trigger] side_of(s, f, want).contains(x) implies s.contains(x) by {
            let p = side_of(d, f, want);
            if x == s.last() {
                assert(s[s.len() - 1] == x);
            } else {
                if f[s.len() - 1] == want {
                    let k = choose|k: int| 0 <= k < p.push(s.last()).len() && p.push(s.last())[k] == x;
                    assert(p[k] == x);
                }
                assert(p.contains(x));
                let k = choose|k: int| 0 <= k < d.len() && d[k] == x;
                assert(s[k] == x);
            }
        }
    }
}

proof fn lemma_side_of_no_duplicates(s: Seq<usize>, f: Seq<bool>, want: bool)
    requires
        s.no_duplicates(),
    ensures
        side_of(s, f, want).no_duplicates(),
    decreases s.len(),
{
    if s.len() > 0 {
        let d = s.drop_last();
        assert(d.no_duplicates()) by {
            assert forall|a: int, b: int| 0 <= a < d.len() && 0 <= b < d.len() && a != b implies d[a]
                != d[b] by {
                assert(d[a] == s[a] && d[b] == s[b]);
            }
        }
        lemma_side_of_no_duplicates(d, f, want);
        lemma_side_of_contains(d, f, want);
        let p = side_of(d, f, want);
        if f[s.len() - 1] == want {
            let x = s.last();
            assert(!d.contains(x)) by {
                if d.contains(x) {
                    let k = choose|k: int| 0 <= k < d.len() && d[k] == x;
                    assert(s[k] == s[s.len() - 1]);
                }
            }
            assert(!p.contains(x));
            let q = p.push(x);
            assert forall|a: int, b: int| 0 <= a < q.len() && 0 <= b < q.len() && a != b implies q[a]
                != q[b] by {
                if a == p.len() {
                    assert(!p.contains(q[b]) || q[b] != x);
                } else if b == p.len() {
                    if q[a] == x {
                        assert(p[a] == x);
                    }
                }
            }
        }
    }
}

/// Splits `subset` by the sides in `sides`, keeping the order of each side.
fn partition_by_side(subset: &Vec<usize>, sides: &Vec<bool>) -> (r: (Vec<usize>, Vec<usize>))
    requires
        sides@.len() == subset@.len(),
    ensures
        r.0@ == side_of(subset@, sides@, true),
        r.1@ == side_of(subset@, sides@, false),
        r.0@.len() + r.1@.len() == subset@.len(),
        r.0@.to_multiset().add(r.1@.to_multiset()) == subset@.to_multiset(),
        r.0@.len() == 0 <==> (forall|j: int| 0 <= j < sides@.len() ==> !sides@[j]),
        r.1@.len() == 0 <==> (forall|j: int| 0 <= j < sides@.len() ==> sides@[j]),
{
    broadcast use vstd::seq_lib::group_to_multiset_ensures;
    broadcast use vstd::multiset::group_multiset_axioms;

    let mut left: Vec<usize> = Vec::new();
    let mut right: Vec<usize> = Vec::new();
    let mut i: usize = 0;
    assert(subset@.take(0) =~= Seq::<usize>::empty());
    while i < subset.len()
        invariant
            0 <= i <= subset@.len(),
            sides@.len() == subset@.len(),
            left@ == side_of(subset@.take(i as int), sides@, true),
            right@ == side_of(subset@.take(i as int), sides@, false),
            left@.len() + right@.len() == i,
            left@.to_multiset().add(right@.to_multiset()) == subset@.take(i as int).to_multiset(),
            left@.len() == 0 <==> (forall|j: int| 0 <= j < i ==> !sides@[j]),
            right@.len() == 0 <==> (forall|j: int| 0 <= j < i ==> sides@[j]),
        decreases subset@.len() - i,
    {
        let x = subset[i];
        let ghost l0 = left@;
        let ghost r0 = right@;
        let ghost t = subset@.take(i as int + 1);
        proof {
            assert(t.drop_last() =~= subset@.take(i as int));
            assert(t.last() == x);
            assert(t == subset@.take(i as int).push(x));
            vstd::seq_lib::to_multiset_build(subset@.take(i as int), x);
        }
        if sides[i] {
            left.push(x);
            proof {
                vstd::seq_lib::to_multiset_build(l0, x);
                assert(left@.to_multiset().add(right@.to_multiset()) =~= t.to_multiset());
            }
        } else {
            right.push(x);
            proof {
                vstd::seq_lib::to_multiset_build(r0, x);
                assert(left@.to_multiset().add(right@.to_multiset()) =~= t.to_multiset());
            }
        }
        i = i + 1;
    }
    proof {
        assert(subset@.take(i as int) == subset@);
    }
    (left, right)
}

proof fn lemma_follows_prefix<F: Fn(&Vec<usize>) -> Option<Vec<bool>>>(
    a: Seq<BvhNode>,
    sa: Seq<Seq<usize>>,
    b: Seq<BvhNode>,
    sb: Seq<Seq<usize>>,
    j: int,
    split: &F,
)
    requires
        0 <= j < a.len() <= b.len(),
        sa.len() == a.len(),
        sb.len() == b.len(),
        node_wf(a, j),
        forall|k: int| 0 <= k < a.len() ==> b[k] == a[k] && sb[k] == sa[k],
        node_follows_split(a, sa, j, split),
    ensures
        node_follows_split(b, sb, j, split),
{
    match a[j] {
        BvhNode::Leaf { .. } => {},
        BvhNode::Branch { left, right } => {
            let (v, f) = choose|v: &Vec<usize>, f: Vec<bool>|
                #![trigger split.ensures((v,), Some(f))]
                {
                    &&& split.ensures((v,), Some(f))
                    &&& v@ == sa[j]
                    &&& f@.len() == v@.len()
                    &&& sa[left as int] == side_of(v@, f@, true)
                    &&& sa[right as int] == side_of(v@, f@, false)
                    &&& sa[left as int].len() > 0
                    &&& sa[right as int].len() > 0
                };
            assert(sb[left as int] == sa[left as int]);
            assert(sb[right as int] == sa[right as int]);
            assert(split.ensures((v,), Some(f)));
        },
    }
}

/// The closest-so-far scan of `items` within the window starting at `a`: each
/// primitive is tested against the current window `w`; a hit becomes the
/// result and narrows the window to its parameter.
pub open spec fn scan<H, W>(
    items: Seq<usize>,
    a: W,
    w: W,
    acc: Option<H>,
    pf: spec_fn(usize, W, W) -> Option<H>,
    tf: spec_fn(H) -> W,
) -> Option<H>
    decreases items.len(),
{
    if items.len() == 0 {
        acc
    } else {
        match pf(items[0], a, w) {
            Some(h) => scan(items.drop_first(), a, tf(h), Some(h), pf, tf),
            None => scan(items.drop_first(), a, w, acc, pf, tf),
        }
    }
}

/// The window left after the scan of `items`.
pub open spec fn scan_window<H, W>(
    items: Seq<usize>,
    a: W,
    w: W,
    pf: spec_fn(usize, W, W) -> Option<H>,
    tf: spec_fn(H) -> W,
) -> W
    decreases items.len(),
{
    if items.len() == 0 {
        w
    } else {
        match pf(items[0], a, w) {
            Some(h) => scan_window(items.drop_first(), a, tf(h), pf, tf),
            None => scan_window(items.drop_first(), a, w, pf, tf),
        }
    }
}

/// What traversal of node `i` returns within `[a, b]`, given the box test `bf`,
/// the primitive test `pf` and the parameter of a hit `tf`.
pub open spec fn traverse<H, W>(
    nodes: Seq<BvhNode>,
    i: int,
    a: W,
    b: W,
    bf: spec_fn(usize, W, W) -> bool,
    pf: spec_fn(usize, W, W) -> Option<H>,
    tf: spec_fn(H) -> W,
) -> Option<H>
    decreases i,
{
    if !(0 <= i < nodes.len()) || !bf(i as usize, a, b) {
        None
    } else {
        match nodes[i] {
            BvhNode::Leaf { items } => scan(items@, a, b, None, pf, tf),
            BvhNode::Branch { left, right } => {
                if left < i && right < i {
                    match traverse(nodes, left as int, a, b, bf, pf, tf) {
                        Some(lh) => match traverse(nodes, right as int, a, tf(lh), bf, pf, tf) {
                            Some(rh) => Some(rh),
                            None => Some(lh),
                        },
                        None => traverse(nodes, right as int, a, b, bf, pf, tf),
                    }
                } else {
                    None
                }
            },
        }
    }
}

/// A box test is sound for the arena when it misses a node's box within a
/// window only if no primitive below the node is struck within that window.
pub open spec fn box_test_sound<H, W>(
    nodes: Seq<BvhNode>,
    a: W,
    bf: spec_fn(usize, W, W) -> bool,
    pf: spec_fn(usize, W, W) -> Option<H>,
) -> bool {
    forall|n: int, w: W, k: int|
        0 <= n < nodes.len() && !bf(n as usize, a, w) && 0 <= k < items_under(nodes, n).len()
            ==> (#[trigger] pf(items_under(nodes, n)[k], a, w)) is None
}

/// A closure that gives one result for each argument.
pub open spec fn box_is_function<W, B: Fn(usize, W, W) -> bool>(f: &B) -> bool {
    forall|n: usize, a: W, b: W, r1: bool, r2: bool|
        #[trigger] f.ensures((n, a, b), r1) && #[trigger] f.ensures((n, a, b), r2) ==> r1 == r2
}

/// A closure that gives one result for each argument.
pub open spec fn prim_is_function<H, W, P: Fn(usize, W, W) -> Option<H>>(f: &P) -> bool {
    forall|p: usize, a: W, b: W, r1: Option<H>, r2: Option<H>|
        #[trigger] f.ensures((p, a, b), r1) && #[trigger] f.ensures((p, a, b), r2) ==> r1 == r2
}

/// A closure that gives one result for each argument.
pub open spec fn param_is_function<H, W, T: Fn(&H) -> W>(f: &T) -> bool {
    forall|h: &H, r1: W, r2: W| #[trigger] f.ensures((h,), r1) && #[trigger] f.ensures((h,), r2) ==> r1
        == r2
}

/// The box test of a closure, as a function.
pub open spec fn box_fn<W, B: Fn(usize, W, W) -> bool>(f: &B) -> spec_fn(usize, W, W) -> bool {
    |n: usize, a: W, b: W| f.ensures((n, a, b), true)
}

/// The primitive test of a closure, as a function.
pub open spec fn prim_fn<H, W, P: Fn(usize, W, W) -> Option<H>>(f: &P) -> spec_fn(
    usize,
    W,
    W,
) -> Option<H> {
    |p: usize, a: W, b: W| choose|r: Option<H>| f.ensures((p, a, b), r)
}

/// The hit parameter of a closure, as a function.
pub open spec fn param_fn<H, W, T: Fn(&H) -> W>(f: &T) -> spec_fn(H) -> W {
    |h: H| choose|w: W| f.ensures((&h,), w)
}

proof fn lemma_scan_acc<H, W>(
    items: Seq<usize>,
    a: W,
    w: W,
    acc: Option<H>,
    pf: spec_fn(usize, W, W) -> Option<H>,
    tf: spec_fn(H) -> W,
)
    ensures
        scan(items, a, w, acc, pf, tf) == match scan(items, a, w, None, pf, tf) {
            Some(r) => Some(r),
            None => acc,
        },
    decreases items.len(),
{
    if items.len() > 0 {
        match pf(items[0], a, w) {
            Some(h) => lemma_scan_acc(items.drop_first(), a, tf(h), Some(h), pf, tf),
            None => lemma_scan_acc(items.drop_first(), a, w, acc, pf, tf),
        }
    }
}

proof fn lemma_scan_window<H, W>(
    items: Seq<usize>,
    a: W,
    w: W,
    pf: spec_fn(usize, W, W) -> Option<H>,
    tf: spec_fn(H) -> W,
)
    ensures
        match scan(items, a, w, None, pf, tf) {
            Some(h) => scan_window(items, a, w, pf, tf) == tf(h),
            None => scan_window(items, a, w, pf, tf) == w,
        },
    decreases items.len(),
{
    if items.len() > 0 {
        let rest = items.drop_first();
        match pf(items[0], a, w) {
            Some(h) => {
                lemma_scan_window(rest, a, tf(h), pf, tf);
                lemma_scan_acc(rest, a, tf(h), Some(h), pf, tf);
            },
            None => lemma_scan_window(rest, a, w, pf, tf),
        }
    }
}

proof fn lemma_scan_concat<H, W>(
    x: Seq<usize>,
    y: Seq<usize>,
    a: W,
    w: W,
    acc: Option<H>,
    pf: spec_fn(usize, W, W) -> Option<H>,
    tf: spec_fn(H) -> W,
)
    ensures
        scan(x + y, a, w, acc, pf, tf) == scan(
            y,
            a,
            scan_window(x, a, w, pf, tf),
            scan(x, a, w, acc, pf, tf),
            pf,
            tf,
        ),
    decreases x.len(),
{
    if x.len() == 0 {
        assert(x + y =~= y);
    } else {
        assert((x + y).drop_first() =~= x.drop_first() + y);
        assert((x + y)[0] == x[0]);
        match pf(x[0], a, w) {
            Some(h) => lemma_scan_concat(x.drop_first(), y, a, tf(h), Some(h), pf, tf),
            None => lemma_scan_concat(x.drop_first(), y, a, w, acc, pf, tf),
        }
    }
}

proof fn lemma_scan_all_miss<H, W>(
    items: Seq<usize>,
    a: W,
    w: W,
    acc: Option<H>,
    pf: spec_fn(usize, W, W) -> Option<H>,
    tf: spec_fn(H) -> W,
)
    requires
        forall|k: int| 0 <= k < items.len() ==> (#[trigger] pf(items[k], a, w)) is None,
    ensures
        scan(items, a, w, acc, pf, tf) == acc,
    decreases items.len(),
{
    if items.len() > 0 {
        let rest = items.drop_first();
        assert(pf(items[0], a, w) is None);
        assert forall|k: int| 0 <= k < rest.len() implies (#[trigger] pf(rest[k], a, w)) is None by {
            assert(rest[k] == items[k + 1]);
            assert(pf(items[k + 1], a, w) is None);
        }
        lemma_scan_all_miss(rest, a, w, acc, pf, tf);
    }
}

proof fn lemma_traverse_is_scan<H, W>(
    nodes: Seq<BvhNode>,
    i: int,
    a: W,
    w: W,
    bf: spec_fn(usize, W, W) -> bool,
    pf: spec_fn(usize, W, W) -> Option<H>,
    tf: spec_fn(H) -> W,
)
    requires
        nodes_wf(nodes),
        0 <= i < nodes.len(),
        box_test_sound(nodes, a, bf, pf),
    ensures
        traverse(nodes, i, a, w, bf, pf, tf) == scan(items_under(nodes, i), a, w, None, pf, tf),
    decreases i,
{
    assert(node_wf(nodes, i));
    if !bf(i as usize, a, w) {
        let items = items_under(nodes, i);
        assert forall|k: int| 0 <= k < items.len() implies (#[trigger] pf(items[k], a, w)) is None by {
        }
        lemma_scan_all_miss(items, a, w, None, pf, tf);
    } else {
        match nodes[i] {
            BvhNode::Leaf { .. } => {},
            BvhNode::Branch { left, right } => {
                let la = items_under(nodes, left as int);
                let ra = items_under(nodes, right as int);
                lemma_traverse_is_scan(nodes, left as int, a, w, bf, pf, tf);
                lemma_scan_concat(la, ra, a, w, None, pf, tf);
                lemma_scan_window(la, a, w, pf, tf);
                match scan(la, a, w, None, pf, tf) {
                    Some(lh) => {
                        lemma_traverse_is_scan(nodes, right as int, a, tf(lh), bf, pf, tf);
                        lemma_scan_acc(ra, a, tf(lh), Some(lh), pf, tf);
                    },
                    None => {
                        lemma_traverse_is_scan(nodes, right as int, a, w, bf, pf, tf);
                    },
                }
            },
        }
    }
}

impl Bvh {
    /// The arena, children before parents.
    pub closed spec fn nodes(&self) -> Seq<BvhNode> {
        self.nodes@
    }

    /// Every node refers only to earlier nodes and no leaf is empty.
    pub open spec fn wf(&self) -> bool {
        nodes_wf(self.nodes())
    }

    /// The primitives of the hierarchy, leaves taken left to right.
    pub open spec fn items(&self) -> Seq<usize> {
        if self.nodes().len() == 0 {
            Seq::empty()
        } else {
            items_under(self.nodes(), self.nodes().len() - 1)
        }
    }

    /// What traversal of the whole hierarchy returns within `[a, b]`.
    pub open spec fn traversal<H, W>(
        &self,
        a: W,
        b: W,
        bf: spec_fn(usize, W, W) -> bool,
        pf: spec_fn(usize, W, W) -> Option<H>,
        tf: spec_fn(H) -> W,
    ) -> Option<H> {
        if self.nodes().len() == 0 {
            None
        } else {
            traverse(self.nodes(), self.nodes().len() - 1, a, b, bf, pf, tf)
        }
    }

    /// The set each node was built from, in the order it was handed to the split.
    pub closed spec fn sets(&self) -> Seq<Seq<usize>> {
        self.sets@
    }

    /// Every node is what the build makes of the answers of `split`.
    pub open spec fn follows_split<F: Fn(&Vec<usize>) -> Option<Vec<bool>>>(&self, split: &F) -> bool {
        &&& self.sets().len() == self.nodes().len()
        &&& forall|i: int|
            0 <= i < self.nodes().len() ==> #[trigger] node_follows_split(
                self.nodes(),
                self.sets(),
                i,
                split,
            )
        &&& forall|i: int|
            0 <= i < self.nodes().len() ==> (#[trigger] items_under(self.nodes(), i)).to_multiset()
                == self.sets()[i].to_multiset()
    }

    /// Every primitive index held by a leaf is below `count`.
    pub open spec fn leaf_items_below(&self, count: nat) -> bool {
        forall|i: int, k: int|
            0 <= i < self.nodes().len() && self.nodes()[i] is Leaf && 0 <= k
                < self.nodes()[i]->Leaf_items@.len() ==> #[trigger] self.nodes()[i]->Leaf_items@[k]
                < count
    }

    /// Builds the hierarchy over the primitives `0 .. count`.
    ///
    /// A set of one primitive becomes a leaf. A larger set is handed to `split`,
    /// which answers `None` when the set cannot be divided in space (it then
    /// becomes one leaf), or a side for each member, `true` for the left; both
    /// sides must be taken, else the build fails. The two sides are built in
    /// turn and joined under a branch.
    pub fn build<F>(count: usize, split: &F) -> (r: Result<Bvh, BvhError>) where
        F: Fn(&Vec<usize>) -> Option<Vec<bool>>,

        requires
            forall|s: &Vec<usize>| #[trigger] split.requires((s,)),
        ensures
            r is Ok ==> r->Ok_0.wf() && r->Ok_0.items().to_multiset() == index_seq(
                count as nat,
            ).to_multiset(),
            r is Ok ==> (r->Ok_0.nodes().len() == 0 <==> count == 0),
            r is Ok && count > 0 ==> r->Ok_0.nodes().len() <= 2 * count - 1,
            r is Ok ==> tree_from(r->Ok_0.nodes(), 0),
            r is Ok && count > 0 ==> r->Ok_0.sets()[r->Ok_0.nodes().len() - 1] == index_seq(
                count as nat,
            ),
            r is Ok ==> r->Ok_0.follows_split(split),
            r is Ok ==> r->Ok_0.leaf_items_below(count as nat),
            count <= 1 ==> r is Ok,
            (forall|s: &Vec<usize>, o: Option<Vec<bool>>| #[trigger]
                split.ensures((s,), o) && handed_set(s@, count as nat) ==> split_is_sound(s@, o))
                ==> r is Ok,
            r == Err::<Bvh, BvhError>(BvhError::DegeneratePartition) ==> exists|
                s: &Vec<usize>,
                o: Option<Vec<bool>>,
            | #[trigger] split.ensures((s,), o) && handed_set(s@, count as nat)
                && split_is_one_sided(s@, o),
            r == Err::<Bvh, BvhError>(BvhError::SideCountMismatch) ==> exists|
                s: &Vec<usize>,
                o: Option<Vec<bool>>,
            | #[trigger] split.ensures((s,), o) && handed_set(s@, count as nat)
                && split_is_mismatched(s@, o),
    {
        let mut nodes: Vec<BvhNode> = Vec::new();
        if count == 0 {
            proof {
                assert(index_seq(0) =~= Seq::<usize>::empty());
            }
            return Ok(Bvh { nodes, sets: Ghost(Seq::empty()) });
        }
        let mut all: Vec<usize> = Vec::new();
        let mut i: usize = 0;
        while i < count
            invariant
                i <= count,
                all@ == index_seq(i as nat),
            decreases count - i,
        {
            all.push(i);
            i = i + 1;
            proof {
                assert(all@ =~= index_seq(i as nat));
            }
        }
        proof {
            assert(all@.no_duplicates());
        }
        let ghost whole = all@;
        let (res, sets) = build_node(&mut nodes, all, split, Ghost(count as nat), Ghost(Seq::empty()));
        match res {
            Ok(_) => {
                let b = Bvh { nodes, sets };
                proof {
                    let ns = b.nodes();
                    let ss = b.sets();
                    assert forall|i: int, k: int|
                        0 <= i < ns.len() && ns[i] is Leaf && 0 <= k
                            < ns[i]->Leaf_items@.len() implies #[trigger] ns[i]->Leaf_items@[k]
                            < count by {
                        assert(node_follows_split(ns, ss, i, split));
                        assert(whole.contains(ss[i][k]));
                    }
                }
                Ok(b)
            },
            Err(e) => Err(e),
        }
    }

    /// The number of nodes in the arena.
    pub fn node_count(&self) -> (r: usize)
        ensures
            r == self.nodes().len(),
    {
        self.nodes.len()
    }

    /// The node at position `i`.
    pub fn node(&self, i: usize) -> (r: &BvhNode)
        requires
            i < self.nodes().len(),
        ensures
            *r == self.nodes()[i as int],
    {
        &self.nodes[i]
    }

    /// Finds the closest hit along a ray within `[t_min, t_max]`.
    ///
    /// `box_hit(n, a, b)` tells whether the ray strikes the box of node `n`
    /// within `[a, b]`; `prim_hit(p, a, b)` intersects primitive `p` within
    /// `[a, b]`; `t_of` reads the ray parameter of a hit. A node whose box is
    /// missed is skipped. A leaf tests its primitives in order, narrowing the
    /// upper end of the window to each hit found; a branch searches its left
    /// child, then its right child with the window narrowed to the left hit,
    /// and keeps the right hit when there is one.
    pub fn hit<H, W: Copy, B, P, T>(
        &self,
        t_min: W,
        t_max: W,
        box_hit: &B,
        prim_hit: &P,
        t_of: &T,
    ) -> (r: Option<H>) where
        B: Fn(usize, W, W) -> bool,
        P: Fn(usize, W, W) -> Option<H>,
        T: Fn(&H) -> W,

        requires
            self.wf(),
            forall|n: usize, a: W, b: W| #[trigger] box_hit.requires((n, a, b)),
            forall|p: usize, a: W, b: W| #[trigger] prim_hit.requires((p, a, b)),
            forall|h: &H| #[trigger] t_of.requires((h,)),
        ensures
            self.nodes().len() == 0 ==> r is None,
            r is Some ==> exists|p: usize, w: W| #[trigger]
                prim_hit.ensures((p, t_min, w), r) && self.items().contains(p),
            box_is_function(box_hit) && prim_is_function(prim_hit) && param_is_function(t_of)
                ==> r == self.traversal(
                t_min,
                t_max,
                box_fn(box_hit),
                prim_fn(prim_hit),
                param_fn(t_of),
            ),
    {
        if self.nodes.len() == 0 {
            None
        } else {
            hit_node(&self.nodes, self.nodes.len() - 1, t_min, t_max, box_hit, prim_hit, t_of)
        }
    }
}

/// Pruning by boxes loses nothing: when the box test misses a node only where
/// no primitive below it is struck, traversal returns exactly what a
/// closest-so-far scan over all the hierarchy's primitives, in leaf order,
/// returns.
pub proof fn lemma_traversal_matches_scan<H, W>(
    bvh: &Bvh,
    a: W,
    b: W,
    bf: spec_fn(usize, W, W) -> bool,
    pf: spec_fn(usize, W, W) -> Option<H>,
    tf: spec_fn(H) -> W,
)
    requires
        bvh.wf(),
        box_test_sound(bvh.nodes(), a, bf, pf),
    ensures
        bvh.traversal(a, b, bf, pf, tf) == scan(bvh.items(), a, b, None, pf, tf),
{
    if bvh.nodes().len() > 0 {
        lemma_traverse_is_scan(bvh.nodes(), bvh.nodes().len() - 1, a, b, bf, pf, tf);
    }
}

/// `le` orders the hit parameters totally: any two compare, and it is transitive.
pub open spec fn total_preorder<W>(le: spec_fn(W, W) -> bool) -> bool {
    &&& forall|x: W, y: W| #[trigger] le(x, y) || le(y, x)
    &&& forall|x: W, y: W, z: W| #[trigger] le(x, y) && #[trigger] le(y, z) ==> le(x, z)
}

/// Primitive `p` has a nearest hit from the start of the window, and its
/// parameter is within `w`.
pub open spec fn hit_within<H, W>(
    near: spec_fn(usize) -> Option<H>,
    tf: spec_fn(H) -> W,
    le: spec_fn(W, W) -> bool,
    p: usize,
    w: W,
) -> bool {
    near(p) is Some && le(tf(near(p)->Some_0), w)
}

/// The primitive test within `[a, w]` reports the primitive's nearest hit
/// `near(p)` exactly when its parameter is within `w`.
pub open spec fn tests_nearest<H, W>(
    a: W,
    pf: spec_fn(usize, W, W) -> Option<H>,
    tf: spec_fn(H) -> W,
    near: spec_fn(usize) -> Option<H>,
    le: spec_fn(W, W) -> bool,
) -> bool {
    forall|p: usize, w: W|
        #[trigger] pf(p, a, w) == if hit_within(near, tf, le, p, w) {
            near(p)
        } else {
            None
        }
}

/// `h` is the nearest hit of one of `items` within `w`, and no primitive of
/// `items` is struck within `w` at a smaller parameter.
pub open spec fn is_closest<H, W>(
    items: Seq<usize>,
    near: spec_fn(usize) -> Option<H>,
    tf: spec_fn(H) -> W,
    le: spec_fn(W, W) -> bool,
    w: W,
    h: H,
) -> bool {
    &&& exists|k: int| 0 <= k < items.len() && near(items[k]) == Some(h)
    &&& le(tf(h), w)
    &&& forall|k: int|
        0 <= k < items.len() && hit_within(near, tf, le, #[trigger] items[k], w) ==> le(
            tf(h),
            tf(near(items[k])->Some_0),
        )
}

/// Some primitive of `items` is struck within `w`.
pub open spec fn any_within<H, W>(
    items: Seq<usize>,
    near: spec_fn(usize) -> Option<H>,
    tf: spec_fn(H) -> W,
    le: spec_fn(W, W) -> bool,
    w: W,
) -> bool {
    exists|k: int| 0 <= k < items.len() && hit_within(near, tf, le, #[trigger] items[k], w)
}

proof fn lemma_scan_closest<H, W>(
    items: Seq<usize>,
    a: W,
    w: W,
    acc: Option<H>,
    pf: spec_fn(usize, W, W) -> Option<H>,
    tf: spec_fn(H) -> W,
    near: spec_fn(usize) -> Option<H>,
    le: spec_fn(W, W) -> bool,
)
    requires
        tests_nearest(a, pf, tf, near, le),
        total_preorder(le),
    ensures
        any_within(items, near, tf, le, w) ==> scan(items, a, w, acc, pf, tf) is Some && is_closest(
            items,
            near,
            tf,
            le,
            w,
            scan(items, a, w, acc, pf, tf)->Some_0,
        ),
        !any_within(items, near, tf, le, w) ==> scan(items, a, w, acc, pf, tf) == acc,
    decreases items.len(),
{
    if items.len() > 0 {
        let x = items[0];
        let rest = items.drop_first();
        assert forall|k: int| 0 <= k < rest.len() implies rest[k] == items[k + 1] by {}
        assert(pf(x, a, w) == if hit_within(near, tf, le, x, w) {
            near(x)
        } else {
            None
        });
        if hit_within(near, tf, le, x, w) {
            let h = near(x)->Some_0;
            let th = tf(h);
            lemma_scan_closest(rest, a, th, Some(h), pf, tf, near, le);
            let r = scan(items, a, w, acc, pf, tf);
            assert(r == scan(rest, a, th, Some(h), pf, tf));
            assert(le(th, th));
            assert(any_within(items, near, tf, le, w)) by {
                assert(hit_within(near, tf, le, items[0], w));
            }
            let g = r->Some_0;
            if any_within(rest, near, tf, le, th) {
                let k0 = choose|k: int| 0 <= k < rest.len() && near(rest[k]) == Some(g);
                assert(near(items[k0 + 1]) == Some(g));
                assert(le(tf(g), th) && le(th, w));
                assert forall|k: int|
                    0 <= k < items.len() && hit_within(near, tf, le, #[trigger] items[k], w) implies le(
                    tf(g),
                    tf(near(items[k])->Some_0),
                ) by {
                    if k > 0 {
                        let q = items[k];
                        assert(q == rest[k - 1]);
                        let tq = tf(near(q)->Some_0);
                        if !hit_within(near, tf, le, rest[k - 1], th) {
                            assert(le(tq, th) || le(th, tq));
                            assert(le(tf(g), th) && le(th, tq));
                        }
                    }
                }
            } else {
                assert(g == h);
                assert forall|k: int|
                    0 <= k < items.len() && hit_within(near, tf, le, #[trigger] items[k], w) implies le(
                    tf(g),
                    tf(near(items[k])->Some_0),
                ) by {
                    if k > 0 {
                        let q = items[k];
                        assert(q == rest[k - 1]);
                        let tq = tf(near(q)->Some_0);
                        assert(!hit_within(near, tf, le, rest[k - 1], th));
                        assert(le(tq, th) || le(th, tq));
                    }
                }
            }
        } else {
            lemma_scan_closest(rest, a, w, acc, pf, tf, near, le);
            assert(any_within(items, near, tf, le, w) == any_within(rest, near, tf, le, w)) by {
                if any_within(items, near, tf, le, w) {
                    let k = choose|k: int|
                        0 <= k < items.len() && hit_within(near, tf, le, #[trigger] items[k], w);
                    assert(k > 0);
                    assert(hit_within(near, tf, le, rest[k - 1], w));
                }
                if any_within(rest, near, tf, le, w) {
                    let k = choose|k: int|
                        0 <= k < rest.len() && hit_within(near, tf, le, #[trigger] rest[k], w);
                    assert(hit_within(near, tf, le, items[k + 1], w));
                }
            }
            if any_within(rest, near, tf, le, w) {
                let g = scan(rest, a, w, acc, pf, tf)->Some_0;
                let k0 = choose|k: int| 0 <= k < rest.len() && near(rest[k]) == Some(g);
                assert(near(items[k0 + 1]) == Some(g));
                assert forall|k: int|
                    0 <= k < items.len() && hit_within(near, tf, le, #[trigger] items[k], w) implies le(
                    tf(g),
                    tf(near(items[k])->Some_0),
                ) by {
                    assert(k > 0);
                    assert(items[k] == rest[k - 1]);
                }
            }
        }
    }
}

/// Traversal finds a closest hit: with a sound box test, and a primitive test
/// that reports each primitive's nearest hit when its parameter is within the
/// window, traversal within `[a, b]` returns a hit of one of the hierarchy's
/// primitives whose parameter no other primitive's hit within `b` undercuts,
/// and returns none exactly when no primitive is struck within `b`, as a
/// brute-force scan over the primitives does, up to ties in the parameter.
pub proof fn lemma_traversal_finds_closest<H, W>(
    bvh: &Bvh,
    a: W,
    b: W,
    bf: spec_fn(usize, W, W) -> bool,
    pf: spec_fn(usize, W, W) -> Option<H>,
    tf: spec_fn(H) -> W,
    near: spec_fn(usize) -> Option<H>,
    le: spec_fn(W, W) -> bool,
)
    requires
        bvh.wf(),
        box_test_sound(bvh.nodes(), a, bf, pf),
        tests_nearest(a, pf, tf, near, le),
        total_preorder(le),
    ensures
        bvh.traversal(a, b, bf, pf, tf) is Some <==> any_within(bvh.items(), near, tf, le, b),
        bvh.traversal(a, b, bf, pf, tf) is Some ==> is_closest(
            bvh.items(),
            near,
            tf,
            le,
            b,
            bvh.traversal(a, b, bf, pf, tf)->Some_0,
        ),
{
    lemma_traversal_matches_scan(bvh, a, b, bf, pf, tf);
    lemma_scan_closest(bvh.items(), a, b, None, pf, tf, near, le);
}

proof fn lemma_tree_join(
    n0: Seq<BvhNode>,
    n1: Seq<BvhNode>,
    n2: Seq<BvhNode>,
    n3: Seq<BvhNode>,
    l: usize,
    r: usize,
)
    requires
        n0.len() < n1.len() < n2.len(),
        n3.len() == n2.len() + 1,
        l == n1.len() - 1,
        r == n2.len() - 1,
        forall|k: int| 0 <= k < n1.len() ==> #[trigger] n2[k] == n1[k],
        forall|k: int| 0 <= k < n2.len() ==> #[trigger] n3[k] == n2[k],
        n3[n2.len() as int] == (BvhNode::Branch { left: l, right: r }),
        nodes_wf(n1),
        nodes_wf(n2),
        tree_from(n1, n0.len() as int),
        tree_from(n2, n1.len() as int),
    ensures
        tree_from(n3, n0.len() as int),
{
    let lo = n0.len() as int;
    let mid = n1.len() as int;
    let top = n2.len() as int;
    assert forall|j: int, p: int| mid <= p < top implies #[trigger] is_child_of(n3, j, p) == is_child_of(
        n2,
        j,
        p,
    ) by {}
    assert forall|j: int, p: int| lo <= p < mid implies #[trigger] is_child_of(n3, j, p) == is_child_of(
        n1,
        j,
        p,
    ) by {
        assert(n3[p] == n1[p]);
    }
    assert forall|j: int, p: int|
        lo <= p < mid && #[trigger] is_child_of(n3, j, p) implies lo <= j < l by {
        assert(n3[p] == n1[p]);
        assert(node_wf(n1, p));
    }
    assert forall|j: int, p: int|
        mid <= p < top && #[trigger] is_child_of(n3, j, p) implies mid <= j < r by {
        assert(node_wf(n2, p));
    }
    assert forall|p: int| lo <= p < n3.len() && (#[trigger] n3[p]) is Branch implies lo
        <= n3[p]->left && lo <= n3[p]->right && n3[p]->left != n3[p]->right by {
        if p < mid {
            assert(n3[p] == n1[p]);
        } else if p < top {
            assert(n3[p] == n2[p]);
        }
    }
    assert forall|j: int| lo <= j < n3.len() - 1 implies #[trigger] has_later_parent(n3, j) by {
        if j == l || j == r {
            assert(is_child_of(n3, j, top));
        } else if j < mid {
            assert(has_later_parent(n1, j));
            let p = choose|p: int| j < p < n1.len() && #[trigger] is_child_of(n1, j, p);
            assert(is_child_of(n3, j, p));
        } else {
            assert(has_later_parent(n2, j));
            let p = choose|p: int| j < p < n2.len() && #[trigger] is_child_of(n2, j, p);
            assert(is_child_of(n3, j, p));
        }
    }
    assert forall|j: int, p1: int, p2: int|
        lo <= p1 < n3.len() && lo <= p2 < n3.len() && #[trigger] is_child_of(n3, j, p1)
            && #[trigger] is_child_of(n3, j, p2) implies p1 == p2 by {
        if p1 < mid && p2 < mid {
            assert(is_child_of(n1, j, p1) && is_child_of(n1, j, p2));
        } else if mid <= p1 < top && mid <= p2 < top {
            assert(is_child_of(n2, j, p1) && is_child_of(n2, j, p2));
        } else if p1 == top && p2 < mid {
            assert(is_child_of(n1, j, p2));
        } else if p2 == top && p1 < mid {
            assert(is_child_of(n1, j, p1));
        } else if p1 == top && mid <= p2 < top {
            assert(is_child_of(n2, j, p2));
        } else if p2 == top && mid <= p1 < top {
            assert(is_child_of(n2, j, p1));
        }
    }
}

fn build_node<F>(
    nodes: &mut Vec<BvhNode>,
    subset: Vec<usize>,
    split: &F,
    count: Ghost<nat>,
    sets: Ghost<Seq<Seq<usize>>>,
) -> (r: (Result<usize, BvhError>, Ghost<Seq<Seq<usize>>>)) where
    F: Fn(&Vec<usize>) -> Option<Vec<bool>>,

    requires
        nodes_wf(old(nodes)@),
        sets@.len() == old(nodes)@.len(),
        subset@.len() > 0,
        subset@.no_duplicates(),
        forall|k: int| 0 <= k < subset@.len() ==> subset@[k] < count@,
        forall|s: &Vec<usize>| #[trigger] split.requires((s,)),
    ensures
        nodes_wf(final(nodes)@),
        final(nodes)@.len() >= old(nodes)@.len(),
        r.1@.len() == final(nodes)@.len(),
        forall|j: int| 0 <= j < old(nodes)@.len() ==> #[trigger] final(nodes)@[j] == old(nodes)@[j],
        forall|j: int| 0 <= j < old(nodes)@.len() ==> #[trigger] r.1@[j] == sets@[j],
        r.0 is Ok ==> {
            let ns = final(nodes)@;
            let ss = r.1@;
            &&& r.0->Ok_0 == ns.len() - 1
            &&& ss[ns.len() - 1] == subset@
            &&& ns.len() > old(nodes)@.len()
            &&& ns.len() - old(nodes)@.len() <= 2 * subset@.len() - 1
            &&& tree_from(ns, old(nodes)@.len() as int)
            &&& forall|j: int|
                old(nodes)@.len() <= j < ns.len() ==> #[trigger] node_follows_split(
                    ns,
                    ss,
                    j,
                    split,
                )
            &&& forall|j: int|
                old(nodes)@.len() <= j < ns.len() ==> (#[trigger] items_under(
                    ns,
                    j,
                )).to_multiset() == ss[j].to_multiset()
            &&& forall|j: int, k: int|
                old(nodes)@.len() <= j < ns.len() && 0 <= k < ss[j].len() ==> subset@.contains(
                    #[trigger] ss[j][k],
                )
        },
        subset@.len() == 1 ==> r.0 is Ok,
        (forall|s: &Vec<usize>, o: Option<Vec<bool>>| #[trigger]
            split.ensures((s,), o) && handed_set(s@, count@) ==> split_is_sound(s@, o)) ==> r.0 is Ok,
        r.0 == Err::<usize, BvhError>(BvhError::DegeneratePartition) ==> exists|
            s: &Vec<usize>,
            o: Option<Vec<bool>>,
        | #[trigger] split.ensures((s,), o) && handed_set(s@, count@) && split_is_one_sided(s@, o),
        r.0 == Err::<usize, BvhError>(BvhError::SideCountMismatch) ==> exists|
            s: &Vec<usize>,
            o: Option<Vec<bool>>,
        | #[trigger] split.ensures((s,), o) && handed_set(s@, count@) && split_is_mismatched(s@, o),
    decreases subset@.len(),
{
    broadcast use vstd::seq_lib::lemma_multiset_commutative;

    let ghost sub = subset@;
    let decision = if subset.len() == 1 {
        None
    } else {
        split(&subset)
    };
    proof {
        if subset@.len() > 1 {
            assert(handed_set(sub, count@));
            assert(split.ensures((&subset,), decision));
        }
    }
    match decision {
        None => {
            let ghost before = nodes@;
            nodes.push(BvhNode::Leaf { items: subset });
            let ghost out = sets@.push(sub);
            proof {
                let ns = nodes@;
                let top = ns.len() - 1;
                assert(node_wf(ns, top));
                assert forall|i: int| 0 <= i < ns.len() implies #[trigger] node_wf(ns, i) by {
                    if i < before.len() {
                        assert(node_wf(before, i));
                    }
                }
                assert(node_follows_split(ns, out, top, split));
                assert(items_under(ns, top) == sub);
                assert forall|j: int| before.len() <= j < ns.len() implies #[trigger] node_follows_split(
                    ns,
                    out,
                    j,
                    split,
                ) by {
                    assert(j == top);
                }
                assert(out[top] == sub);
                assert(ns.len() - before.len() <= 2 * sub.len() - 1);
                assert(tree_from(ns, before.len() as int));
                assert forall|j: int| before.len() <= j < ns.len() implies (#[trigger] items_under(
                    ns,
                    j,
                )).to_multiset() == out[j].to_multiset() by {
                    assert(j == top);
                }
                assert forall|j: int, k: int|
                    before.len() <= j < ns.len() && 0 <= k < out[j].len() implies sub.contains(
                    #[trigger] out[j][k],
                ) by {
                    assert(j == top);
                    assert(sub[k] == out[j][k]);
                }
            }
            (Ok(nodes.len() - 1), Ghost(out))
        },
        Some(sides) => {
            if sides.len() != subset.len() {
                return (Err(BvhError::SideCountMismatch), sets);
            }
            let (left, right) = partition_by_side(&subset, &sides);
            if left.len() == 0 || right.len() == 0 {
                return (Err(BvhError::DegeneratePartition), sets);
            }
            let ghost lv = left@;
            let ghost rv = right@;
            proof {
                lemma_side_of_no_duplicates(sub, sides@, true);
                lemma_side_of_no_duplicates(sub, sides@, false);
                lemma_side_of_contains(sub, sides@, true);
                lemma_side_of_contains(sub, sides@, false);
                assert forall|k: int| 0 <= k < lv.len() implies lv[k] < count@ by {
                    assert(lv.contains(lv[k]));
                    let m = choose|m: int| 0 <= m < sub.len() && sub[m] == lv[k];
                }
                assert forall|k: int| 0 <= k < rv.len() implies rv[k] < count@ by {
                    assert(rv.contains(rv[k]));
                    let m = choose|m: int| 0 <= m < sub.len() && sub[m] == rv[k];
                }
            }
            let ghost n0 = nodes@;
            let (lres, s1) = build_node(nodes, left, split, count, sets);
            let l = match lres {
                Ok(l) => l,
                Err(e) => {
                    proof {
                        assert forall|j: int| 0 <= j < n0.len() implies nodes@[j] == n0[j]
                            && s1@[j] == sets@[j] by {}
                    }
                    return (Err(e), s1);
                },
            };
            let ghost n1 = nodes@;
            let (rres, s2) = build_node(nodes, right, split, count, s1);
            let r = match rres {
                Ok(r) => r,
                Err(e) => {
                    proof {
                        assert forall|j: int| 0 <= j < n0.len() implies nodes@[j] == n0[j]
                            && s2@[j] == sets@[j] by {
                            assert(nodes@[j] == n1[j] && s2@[j] == s1@[j]);
                        }
                    }
                    return (Err(e), s2);
                },
            };
            let ghost n2 = nodes@;
            nodes.push(BvhNode::Branch { left: l, right: r });
            let ghost out = s2@.push(sub);
            proof {
                let n3 = nodes@;
                let top = n3.len() - 1;
                assert(node_wf(n3, top));
                assert forall|i: int| 0 <= i < n3.len() implies #[trigger] node_wf(n3, i) by {
                    if i < n2.len() {
                        assert(node_wf(n2, i));
                    }
                }
                lemma_items_under_prefix(n1, n3, l as int);
                lemma_items_under_prefix(n2, n3, r as int);
                assert(items_under(n3, top) == items_under(n3, l as int) + items_under(
                    n3,
                    r as int,
                ));
                assert(out[l as int] == lv);
                assert(out[r as int] == rv);
                lemma_tree_join(n0, n1, n2, n3, l, r);
                assert(split.ensures((&subset,), Some(sides)));
                assert(node_follows_split(n3, out, top, split));
                assert forall|j: int| n0.len() <= j < n3.len() implies #[trigger] node_follows_split(
                    n3,
                    out,
                    j,
                    split,
                ) && (#[trigger] items_under(n3, j)).to_multiset() == out[j].to_multiset() by {
                    if j < n1.len() {
                        assert(node_follows_split(n1, s1@, j, split));
                        assert(node_wf(n1, j));
                        lemma_follows_prefix(n1, s1@, n3, out, j, split);
                        lemma_items_under_prefix(n1, n3, j);
                        assert(items_under(n1, j).to_multiset() == s1@[j].to_multiset());
                    } else if j < n2.len() {
                        assert(node_follows_split(n2, s2@, j, split));
                        assert(node_wf(n2, j));
                        lemma_follows_prefix(n2, s2@, n3, out, j, split);
                        lemma_items_under_prefix(n2, n3, j);
                        assert(items_under(n2, j).to_multiset() == s2@[j].to_multiset());
                    } else {
                        assert(j == top);
                        assert(s1@[l as int] == lv);
                        assert(n0.len() <= l < n1.len());
                        assert(items_under(n1, l as int).to_multiset() == s1@[l as int].to_multiset());
                        assert(s2@[r as int] == rv);
                        assert(n1.len() <= r < n2.len());
                        assert(items_under(n2, r as int).to_multiset() == s2@[r as int].to_multiset());
                        assert(items_under(n2, r as int).to_multiset() == rv.to_multiset());
                    }
                }
                assert forall|j: int| n0.len() <= j < n3.len() implies #[trigger] node_follows_split(
                    n3,
                    out,
                    j,
                    split,
                ) by {
                    let _ = items_under(n3, j);
                }
                assert forall|j: int| n0.len() <= j < n3.len() implies (#[trigger] items_under(
                    n3,
                    j,
                )).to_multiset() == out[j].to_multiset() by {
                    let _ = node_follows_split(n3, out, j, split);
                }
                assert forall|j: int, k: int|
                    n0.len() <= j < n3.len() && 0 <= k < out[j].len() implies sub.contains(
                    #[trigger] out[j][k],
                ) by {
                    if j < n1.len() {
                        assert(lv.contains(s1@[j][k]));
                    } else if j < n2.len() {
                        assert(rv.contains(s2@[j][k]));
                    } else {
                        assert(sub[k] == out[j][k]);
                    }
                }
            }
            (Ok(nodes.len() - 1), Ghost(out))
        },
    }
}

fn hit_node<H, W: Copy, B, P, T>(
    nodes: &Vec<BvhNode>,
    i: usize,
    t_min: W,
    t_max: W,
    box_hit: &B,
    prim_hit: &P,
    t_of: &T,
) -> (r: Option<H>) where
    B: Fn(usize, W, W) -> bool,
    P: Fn(usize, W, W) -> Option<H>,
    T: Fn(&H) -> W,

    requires
        nodes_wf(nodes@),
        i < nodes@.len(),
        forall|n: usize, a: W, b: W| #[trigger] box_hit.requires((n, a, b)),
        forall|p: usize, a: W, b: W| #[trigger] prim_hit.requires((p, a, b)),
        forall|h: &H| #[trigger] t_of.requires((h,)),
    ensures
        r is Some ==> exists|p: usize, w: W| #[trigger]
            prim_hit.ensures((p, t_min, w), r) && items_under(nodes@, i as int).contains(p),
        box_is_function(box_hit) && prim_is_function(prim_hit) && param_is_function(t_of) ==> r
            == traverse(
            nodes@,
            i as int,
            t_min,
            t_max,
            box_fn(box_hit),
            prim_fn(prim_hit),
            param_fn(t_of),
        ),
    decreases i,
{
    let ghost det = box_is_function(box_hit) && prim_is_function(prim_hit) && param_is_function(
        t_of,
    );
    let ghost bf = box_fn(box_hit);
    let ghost pf = prim_fn(prim_hit);
    let ghost tf = param_fn(t_of);
    let struck = box_hit(i, t_min, t_max);
    proof {
        if det {
            if !struck {
                assert(!box_hit.ensures((i, t_min, t_max), true));
            }
            assert(bf(i, t_min, t_max) == struck);
        }
    }
    if !struck {
        return None;
    }
    assert(node_wf(nodes@, i as int));
    match &nodes[i] {
        BvhNode::Branch { left, right } => {
            let left = *left;
            let right = *right;
            let ghost all = items_under(nodes@, i as int);
            let ghost la = items_under(nodes@, left as int);
            let ghost ra = items_under(nodes@, right as int);
            assert(all == la + ra);
            match hit_node(nodes, left, t_min, t_max, box_hit, prim_hit, t_of) {
                Some(lh) => {
                    let w = t_of(&lh);
                    proof {
                        if det {
                            assert(t_of.ensures((&lh,), w));
                            let c = choose|c: W| t_of.ensures((&lh,), c);
                            assert(t_of.ensures((&lh,), c));
                            assert(tf(lh) == c);
                        }
                    }
                    let rr = hit_node(nodes, right, t_min, w, box_hit, prim_hit, t_of);
                    match rr {
                        Some(rh) => {
                            proof {
                                let (p, w2) = choose|p: usize, w2: W|
                                    #[trigger] prim_hit.ensures((p, t_min, w2), rr)
                                        && ra.contains(p);
                                let k = choose|k: int| 0 <= k < ra.len() && ra[k] == p;
                                assert(all[la.len() + k] == p);
                                assert(prim_hit.ensures((p, t_min, w2), Some(rh)));
                            }
                            Some(rh)
                        },
                        None => {
                            let out = Some(lh);
                            proof {
                                let (p, w2) = choose|p: usize, w2: W|
                                    #[trigger] prim_hit.ensures((p, t_min, w2), out)
                                        && la.contains(p);
                                let k = choose|k: int| 0 <= k < la.len() && la[k] == p;
                                assert(all[k] == p);
                            }
                            out
                        },
                    }
                },
                None => {
                    let rr = hit_node(nodes, right, t_min, t_max, box_hit, prim_hit, t_of);
                    proof {
                        if rr is Some {
                            let (p, w2) = choose|p: usize, w2: W|
                                #[trigger] prim_hit.ensures((p, t_min, w2), rr) && ra.contains(p);
                            let k = choose|k: int| 0 <= k < ra.len() && ra[k] == p;
                            assert(all[la.len() + k] == p);
                        }
                    }
                    rr
                },
            }
        },
        BvhNode::Leaf { items } => {
            let mut result: Option<H> = None;
            let mut closest = t_max;
            let mut k: usize = 0;
            assert(items@.skip(0) =~= items@);
            while k < items.len()
                invariant
                    k <= items@.len(),
                    det == (box_is_function(box_hit) && prim_is_function(prim_hit)
                        && param_is_function(t_of)),
                    pf == prim_fn(prim_hit),
                    tf == param_fn(t_of),
                    items_under(nodes@, i as int) == items@,
                    forall|p: usize, a: W, b: W| #[trigger] prim_hit.requires((p, a, b)),
                    forall|h: &H| #[trigger] t_of.requires((h,)),
                    result is Some ==> exists|p: usize, w: W| #[trigger]
                        prim_hit.ensures((p, t_min, w), result) && items@.contains(p),
                    det ==> scan(items@, t_min, t_max, None, pf, tf) == scan(
                        items@.skip(k as int),
                        t_min,
                        closest,
                        result,
                        pf,
                        tf,
                    ),
                decreases items@.len() - k,
            {
                let p = items[k];
                let window = closest;
                let found = prim_hit(p, t_min, window);
                let ghost rest = items@.skip(k as int);
                proof {
                    assert(rest[0] == p);
                    assert(rest.drop_first() =~= items@.skip(k as int + 1));
                    if det {
                        assert(prim_hit.ensures((p, t_min, window), found));
                        let c = choose|c: Option<H>| prim_hit.ensures((p, t_min, window), c);
                        assert(prim_hit.ensures((p, t_min, window), c));
                        assert(pf(p, t_min, window) == c);
                    }
                }
                match found {
                    Some(h) => {
                        closest = t_of(&h);
                        result = Some(h);
                        proof {
                            assert(items@[k as int] == p);
                            assert(prim_hit.ensures((p, t_min, window), result));
                            if det {
                                assert(t_of.ensures((&h,), closest));
                                let c = choose|c: W| t_of.ensures((&h,), c);
                                assert(t_of.ensures((&h,), c));
                                assert(tf(h) == c);
                            }
                        }
                    },
                    None => {},
                }
                k = k + 1;
            }
            proof {
                assert(items@.skip(k as int) =~= Seq::<usize>::empty());
            }
            result
        },
    }
}

} // verus!
