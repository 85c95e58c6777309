use crate::bvh::bounding_volume::{BoundingVolume, BoundingVolumeInner};
use crate::bvh::Bounded;
use vstd::prelude::*;
use vstd::seq_lib::lemma_multiset_commutative;

verus! {

/// The node that follows a subtree ending at `end` in a list of `len` nodes:
/// the node at `end`, or none when the subtree reaches the end of the list.
pub open spec fn successor(end: int, len: int) -> Option<usize> {
    if end < len {
        Some(end as usize)
    } else {
        None
    }
}

/// Node `i` heads a subtree whose other nodes lie exactly at `lo .. hi`, in
/// pre-order: a left child at `lo`, followed by its own subtree, then the
/// right child and its subtree.
pub open spec fn subtree<A>(nodes: Seq<BoundingVolume<A>>, i: int, lo: int, hi: int) -> bool
    decreases hi - lo,
{
    &&& 0 <= i < nodes.len()
    &&& match nodes[i].inner {
        BoundingVolumeInner::Container { .. } => lo == hi,
        BoundingVolumeInner::Split { left, right } => {
            &&& i < left
            &&& left == lo
            &&& lo < right
            &&& right < hi
            &&& hi <= nodes.len()
            &&& subtree(nodes, left as int, left + 1, right as int)
            &&& subtree(nodes, right as int, right + 1, hi)
        },
    }
}

/// The subtree at node `i` holds the objects `start .. start + len`: a node
/// over fewer than three objects is a leaf holding exactly them; any other
/// node splits them in two halves, the first `len / 2` to the left child.
pub open spec fn covers<A>(nodes: Seq<BoundingVolume<A>>, i: int, start: nat, len: nat) -> bool
    decreases len,
{
    &&& 0 <= i < nodes.len()
    &&& match nodes[i].inner {
        BoundingVolumeInner::Container { sphere_indices } => {
            &&& sphere_indices@ == (start, len)
            &&& len < 3
        },
        BoundingVolumeInner::Split { left, right } => {
            &&& len >= 3
            &&& covers(nodes, left as int, start, len / 2)
            &&& covers(nodes, right as int, start + len / 2, (len - len / 2) as nat)
        },
    }
}

/// The successor links that building a subtree leaves: each left child goes
/// on to its sibling; the right child of node `i` gets `right_skip`, right
/// children deeper down get none.
pub open spec fn build_links<A>(
    nodes: Seq<BoundingVolume<A>>,
    i: int,
    lo: int,
    hi: int,
    right_skip: Option<usize>,
) -> bool
    decreases hi - lo,
{
    match nodes[i].inner {
        BoundingVolumeInner::Container { .. } => true,
        BoundingVolumeInner::Split { left, right } => {
            &&& left == lo
            &&& lo < right < hi
            &&& nodes[left as int].skip == Some(right)
            &&& nodes[right as int].skip == right_skip
            &&& build_links(nodes, left as int, left + 1, right as int, None)
            &&& build_links(nodes, right as int, right + 1, hi, None)
        },
    }
}

/// What `split` leaves at node `i`: a subtree at `lo .. hi` over the objects
/// `start .. start + len`, with the links of `build_links`.
pub open spec fn built<A>(
    nodes: Seq<BoundingVolume<A>>,
    i: int,
    lo: int,
    hi: int,
    start: nat,
    len: nat,
    right_skip: Option<usize>,
) -> bool {
    &&& subtree(nodes, i, lo, hi)
    &&& covers(nodes, i, start, len)
    &&& build_links(nodes, i, lo, hi, right_skip)
}

/// Every node of the subtree at `i` goes on, when its box is missed, to the
/// node after its own subtree; the nodes on the right edge go on to `skip`.
pub open spec fn skip_links<A>(
    nodes: Seq<BoundingVolume<A>>,
    i: int,
    lo: int,
    hi: int,
    skip: Option<usize>,
) -> bool
    decreases hi - lo,
{
    &&& 0 <= i < nodes.len()
    &&& nodes[i].skip == skip
    &&& match nodes[i].inner {
        BoundingVolumeInner::Container { .. } => lo == hi,
        BoundingVolumeInner::Split { left, right } => {
            &&& i < left
            &&& left == lo
            &&& lo < right
            &&& right < hi
            &&& hi <= nodes.len()
            &&& skip_links(nodes, left as int, left + 1, right as int, Some(right))
            &&& skip_links(nodes, right as int, right + 1, hi, skip)
        },
    }
}

/// The nodes at `lo .. hi` are the same in both lists, and node `i` has the
/// same children or objects in both.
pub open spec fn agree_on<A>(
    a: Seq<BoundingVolume<A>>,
    b: Seq<BoundingVolume<A>>,
    i: int,
    lo: int,
    hi: int,
) -> bool {
    &&& 0 <= i < a.len()
    &&& i < b.len()
    &&& hi <= a.len()
    &&& hi <= b.len()
    &&& a[i].inner == b[i].inner
    &&& forall|j: int| lo <= j < hi ==> a[j] == b[j]
}

proof fn lemma_subtree_frame<A>(a: Seq<BoundingVolume<A>>, b: Seq<BoundingVolume<A>>, i: int, lo: int, hi: int)
    requires
        subtree(a, i, lo, hi),
        agree_on(a, b, i, lo, hi),
    ensures
        subtree(b, i, lo, hi),
    decreases hi - lo,
{
    if let BoundingVolumeInner::Split { left, right } = a[i].inner {
        lemma_subtree_frame(a, b, left as int, left + 1, right as int);
        lemma_subtree_frame(a, b, right as int, right + 1, hi);
    }
}

proof fn lemma_covers_frame<A>(
    a: Seq<BoundingVolume<A>>,
    b: Seq<BoundingVolume<A>>,
    i: int,
    lo: int,
    hi: int,
    start: nat,
    len: nat,
)
    requires
        subtree(a, i, lo, hi),
        covers(a, i, start, len),
        agree_on(a, b, i, lo, hi),
    ensures
        covers(b, i, start, len),
    decreases len,
{
    if let BoundingVolumeInner::Split { left, right } = a[i].inner {
        lemma_covers_frame(a, b, left as int, left + 1, right as int, start, len / 2);
        lemma_covers_frame(
            a,
            b,
            right as int,
            right + 1,
            hi,
            start + len / 2,
            (len - len / 2) as nat,
        );
    }
}

proof fn lemma_build_links_frame<A>(
    a: Seq<BoundingVolume<A>>,
    b: Seq<BoundingVolume<A>>,
    i: int,
    lo: int,
    hi: int,
    right_skip: Option<usize>,
)
    requires
        subtree(a, i, lo, hi),
        build_links(a, i, lo, hi, right_skip),
        agree_on(a, b, i, lo, hi),
    ensures
        build_links(b, i, lo, hi, right_skip),
    decreases hi - lo,
{
    if let BoundingVolumeInner::Split { left, right } = a[i].inner {
        lemma_build_links_frame(a, b, left as int, left + 1, right as int, None);
        lemma_build_links_frame(a, b, right as int, right + 1, hi, None);
    }
}

proof fn lemma_built_frame<A>(
    a: Seq<BoundingVolume<A>>,
    b: Seq<BoundingVolume<A>>,
    i: int,
    lo: int,
    hi: int,
    start: nat,
    len: nat,
    right_skip: Option<usize>,
)
    requires
        built(a, i, lo, hi, start, len, right_skip),
        agree_on(a, b, i, lo, hi),
    ensures
        built(b, i, lo, hi, start, len, right_skip),
{
    lemma_subtree_frame(a, b, i, lo, hi);
    lemma_covers_frame(a, b, i, lo, hi, start, len);
    lemma_build_links_frame(a, b, i, lo, hi, right_skip);
}

proof fn lemma_subtree_same_shape<A>(a: Seq<BoundingVolume<A>>, b: Seq<BoundingVolume<A>>, i: int, lo: int, hi: int)
    requires
        subtree(a, i, lo, hi),
        a.len() == b.len(),
        forall|j: int| 0 <= j < a.len() ==> #[trigger] a[j].inner == b[j].inner,
    ensures
        subtree(b, i, lo, hi),
    decreases hi - lo,
{
    assert(a[i].inner == b[i].inner);
    if let BoundingVolumeInner::Split { left, right } = a[i].inner {
        lemma_subtree_same_shape(a, b, left as int, left + 1, right as int);
        lemma_subtree_same_shape(a, b, right as int, right + 1, hi);
    }
}

proof fn lemma_skip_links_frame<A>(
    a: Seq<BoundingVolume<A>>,
    b: Seq<BoundingVolume<A>>,
    i: int,
    lo: int,
    hi: int,
    skip: Option<usize>,
)
    requires
        skip_links(a, i, lo, hi, skip),
        agree_on(a, b, i, lo, hi),
        a[i] == b[i],
    ensures
        skip_links(b, i, lo, hi, skip),
    decreases hi - lo,
{
    if let BoundingVolumeInner::Split { left, right } = a[i].inner {
        lemma_skip_links_frame(a, b, left as int, left + 1, right as int, Some(right));
        lemma_skip_links_frame(a, b, right as int, right + 1, hi, skip);
    }
}

proof fn lemma_links_agree<A>(a: Seq<BoundingVolume<A>>, b: Seq<BoundingVolume<A>>, i: int, lo: int, hi: int, skip: Option<usize>, j: int)
    requires
        skip_links(a, i, lo, hi, skip),
        skip_links(b, i, lo, hi, skip),
        a.len() == b.len(),
        forall|k: int| 0 <= k < a.len() ==> #[trigger] a[k].inner == b[k].inner,
        j == i || lo <= j < hi,
    ensures
        a[j].skip == b[j].skip,
    decreases hi - lo,
{
    assert(a[i].inner == b[i].inner);
    if j != i {
        if let BoundingVolumeInner::Split { left, right } = a[i].inner {
            if j < right {
                lemma_links_agree(a, b, left as int, left + 1, right as int, Some(right), j);
            } else {
                lemma_links_agree(a, b, right as int, right + 1, hi, skip, j);
            }
        }
    }
}

/// Running the successor pass on links it has already set changes nothing:
/// what it leaves depends on the shape of the subtree alone.
pub proof fn lemma_skip_pass_settled<A>(
    before: Seq<BoundingVolume<A>>,
    after: Seq<BoundingVolume<A>>,
    index: int,
    lo: int,
    hi: int,
    skip: Option<usize>,
)
    requires
        skip_links(before, index, lo, hi, skip),
        after.len() == before.len(),
        forall|j: int| 0 <= j < before.len() ==> #[trigger] after[j].inner == before[j].inner
            && after[j].aabb == before[j].aabb,
        skip_links(after, index, lo, hi, skip),
        forall|j: int| 0 <= j < before.len() && j != index && !(lo <= j < hi) ==> #[trigger] after[j] == before[j],
    ensures
        after == before,
{
    assert forall|j: int| 0 <= j < before.len() implies #[trigger] after[j] == before[j] by {
        if j == index || lo <= j < hi {
            lemma_links_agree(before, after, index, lo, hi, skip, j);
            assert(after[j].inner == before[j].inner && after[j].aabb == before[j].aabb);
        }
    }
    assert(after =~= before);
}

/// The nodes reachable from node `i` through at most `h` levels of children.
pub open spec fn reach<A>(nodes: Seq<BoundingVolume<A>>, i: int, h: nat) -> Set<int>
    decreases h,
{
    match nodes[i].inner {
        BoundingVolumeInner::Split { left, right } => if h > 0 {
            set![i].union(reach(nodes, left as int, (h - 1) as nat)).union(
                reach(nodes, right as int, (h - 1) as nat),
            )
        } else {
            set![i]
        },
        BoundingVolumeInner::Container { .. } => set![i],
    }
}

/// Node `i` heads a tree of height at most `h`: every node reached lies in
/// the list, and no node is reached twice.
pub open spec fn tree<A>(nodes: Seq<BoundingVolume<A>>, i: int, h: nat) -> bool
    decreases h,
{
    &&& 0 <= i < nodes.len()
    &&& match nodes[i].inner {
        BoundingVolumeInner::Container { .. } => true,
        BoundingVolumeInner::Split { left, right } => {
            &&& h > 0
            &&& tree(nodes, left as int, (h - 1) as nat)
            &&& tree(nodes, right as int, (h - 1) as nat)
            &&& !reach(nodes, left as int, (h - 1) as nat).contains(i)
            &&& !reach(nodes, right as int, (h - 1) as nat).contains(i)
            &&& reach(nodes, left as int, (h - 1) as nat).disjoint(reach(nodes, right as int, (h - 1) as nat))
        },
    }
}

/// The successor links of the tree at `i`: the node goes on to `skip`, a
/// left child to its sibling, a right child to where its parent goes.
pub open spec fn linked<A>(nodes: Seq<BoundingVolume<A>>, i: int, h: nat, skip: Option<usize>) -> bool
    decreases h,
{
    &&& nodes[i].skip == skip
    &&& match nodes[i].inner {
        BoundingVolumeInner::Container { .. } => true,
        BoundingVolumeInner::Split { left, right } => {
            &&& h > 0
            &&& linked(nodes, left as int, (h - 1) as nat, Some(right))
            &&& linked(nodes, right as int, (h - 1) as nat, skip)
        },
    }
}

proof fn lemma_tree_same_shape<A>(a: Seq<BoundingVolume<A>>, b: Seq<BoundingVolume<A>>, i: int, h: nat)
    requires
        a.len() == b.len(),
        forall|j: int| 0 <= j < a.len() ==> #[trigger] a[j].inner == b[j].inner,
        tree(a, i, h),
    ensures
        tree(b, i, h),
        reach(a, i, h) == reach(b, i, h),
    decreases h,
{
    assert(a[i].inner == b[i].inner);
    if let BoundingVolumeInner::Split { left, right } = a[i].inner {
        lemma_tree_same_shape(a, b, left as int, (h - 1) as nat);
        lemma_tree_same_shape(a, b, right as int, (h - 1) as nat);
    }
}

proof fn lemma_reach_holds_root<A>(nodes: Seq<BoundingVolume<A>>, i: int, h: nat)
    ensures
        reach(nodes, i, h).contains(i),
{
}

proof fn lemma_reach_in_bounds<A>(nodes: Seq<BoundingVolume<A>>, i: int, h: nat)
    requires
        tree(nodes, i, h),
    ensures
        forall|j: int| #[trigger] reach(nodes, i, h).contains(j) ==> 0 <= j < nodes.len(),
    decreases h,
{
    if let BoundingVolumeInner::Split { left, right } = nodes[i].inner {
        lemma_reach_in_bounds(nodes, left as int, (h - 1) as nat);
        lemma_reach_in_bounds(nodes, right as int, (h - 1) as nat);
    }
}

proof fn lemma_linked_frame<A>(a: Seq<BoundingVolume<A>>, b: Seq<BoundingVolume<A>>, i: int, h: nat, skip: Option<usize>)
    requires
        tree(a, i, h),
        linked(a, i, h, skip),
        a.len() == b.len(),
        forall|j: int| #[trigger] reach(a, i, h).contains(j) ==> a[j] == b[j],
    ensures
        linked(b, i, h, skip),
    decreases h,
{
    lemma_reach_holds_root(a, i, h);
    if let BoundingVolumeInner::Split { left, right } = a[i].inner {
        assert forall|j: int| #[trigger] reach(a, left as int, (h - 1) as nat).contains(j) implies a[j] == b[j] by {
            assert(reach(a, i, h).contains(j));
        }
        assert forall|j: int| #[trigger] reach(a, right as int, (h - 1) as nat).contains(j) implies a[j] == b[j] by {
            assert(reach(a, i, h).contains(j));
        }
        lemma_linked_frame(a, b, left as int, (h - 1) as nat, Some(right));
        lemma_linked_frame(a, b, right as int, (h - 1) as nat, skip);
    }
}

/// Two heights of the same tree reach the same nodes and ask for the same
/// links.
proof fn lemma_tree_heights<A>(nodes: Seq<BoundingVolume<A>>, i: int, h1: nat, h2: nat, skip: Option<usize>)
    requires
        tree(nodes, i, h1),
        tree(nodes, i, h2),
    ensures
        reach(nodes, i, h1) == reach(nodes, i, h2),
        linked(nodes, i, h1, skip) == linked(nodes, i, h2, skip),
    decreases h1,
{
    if let BoundingVolumeInner::Split { left, right } = nodes[i].inner {
        lemma_tree_heights(nodes, left as int, (h1 - 1) as nat, (h2 - 1) as nat, Some(right));
        lemma_tree_heights(nodes, right as int, (h1 - 1) as nat, (h2 - 1) as nat, skip);
    }
}

proof fn lemma_tree_taller<A>(nodes: Seq<BoundingVolume<A>>, i: int, h1: nat, h2: nat)
    requires
        tree(nodes, i, h1),
        h1 <= h2,
    ensures
        tree(nodes, i, h2),
        reach(nodes, i, h1) == reach(nodes, i, h2),
    decreases h1,
{
    if let BoundingVolumeInner::Split { left, right } = nodes[i].inner {
        lemma_tree_taller(nodes, left as int, (h1 - 1) as nat, (h2 - 1) as nat);
        lemma_tree_taller(nodes, right as int, (h1 - 1) as nat, (h2 - 1) as nat);
    }
}

/// A pre-order subtree is a tree whose nodes are its root and its span.
pub(crate) proof fn lemma_subtree_is_tree<A>(nodes: Seq<BoundingVolume<A>>, i: int, lo: int, hi: int)
    requires
        subtree(nodes, i, lo, hi),
    ensures
        hi >= lo,
        tree(nodes, i, (hi - lo) as nat),
        forall|j: int| #[trigger] reach(nodes, i, (hi - lo) as nat).contains(j) ==> j == i || lo <= j < hi,
    decreases hi - lo,
{
    if let BoundingVolumeInner::Split { left, right } = nodes[i].inner {
        let h: nat = (hi - lo) as nat;
        lemma_subtree_is_tree(nodes, left as int, left + 1, right as int);
        lemma_subtree_is_tree(nodes, right as int, right + 1, hi);
        lemma_tree_taller(nodes, left as int, (right - left - 1) as nat, (h - 1) as nat);
        lemma_tree_taller(nodes, right as int, (hi - right - 1) as nat, (h - 1) as nat);
        assert(reach(nodes, left as int, (h - 1) as nat).disjoint(reach(nodes, right as int, (h - 1) as nat)));
    }
}

proof fn lemma_linked_is_skip_links<A>(nodes: Seq<BoundingVolume<A>>, i: int, lo: int, hi: int, h: nat, skip: Option<usize>)
    requires
        subtree(nodes, i, lo, hi),
        linked(nodes, i, h, skip),
    ensures
        skip_links(nodes, i, lo, hi, skip),
    decreases hi - lo,
{
    if let BoundingVolumeInner::Split { left, right } = nodes[i].inner {
        lemma_linked_is_skip_links(nodes, left as int, left + 1, right as int, (h - 1) as nat, Some(right));
        lemma_linked_is_skip_links(nodes, right as int, right + 1, hi, (h - 1) as nat, skip);
    }
}

fn set_links<A>(nodes: &mut [BoundingVolume<A>], index: usize, skip: Option<usize>, Ghost(h): Ghost<nat>)
    requires
        tree(old(nodes)@, index as int, h),
    ensures
        final(nodes)@.len() == old(nodes)@.len(),
        forall|j: int|
            0 <= j < old(nodes)@.len() ==> #[trigger] final(nodes)@[j].inner == old(nodes)@[j].inner
                && final(nodes)@[j].aabb == old(nodes)@[j].aabb,
        linked(final(nodes)@, index as int, h, skip),
        forall|j: int|
            0 <= j < old(nodes)@.len() && !reach(old(nodes)@, index as int, h).contains(j)
                ==> #[trigger] final(nodes)@[j] == old(nodes)@[j],
    decreases h,
{
    let ghost old_nodes = nodes@;
    nodes[index].skip = skip;
    match nodes[index].inner {
        BoundingVolumeInner::Container { .. } => {},
        BoundingVolumeInner::Split { left, right } => {
            let ghost first = nodes@;
            proof {
                lemma_tree_same_shape(old_nodes, first, left as int, (h - 1) as nat);
                lemma_tree_same_shape(old_nodes, first, right as int, (h - 1) as nat);
            }
            set_links(nodes, left, Some(right), Ghost((h - 1) as nat));
            let ghost second = nodes@;
            proof {
                lemma_tree_same_shape(old_nodes, second, right as int, (h - 1) as nat);
                lemma_tree_same_shape(old_nodes, second, left as int, (h - 1) as nat);
            }
            set_links(nodes, right, skip, Ghost((h - 1) as nat));
            proof {
                let fin = nodes@;
                lemma_tree_same_shape(old_nodes, fin, left as int, (h - 1) as nat);
                lemma_reach_holds_root(old_nodes, left as int, (h - 1) as nat);
                lemma_reach_holds_root(old_nodes, right as int, (h - 1) as nat);
                lemma_reach_in_bounds(old_nodes, left as int, (h - 1) as nat);
                assert forall|j: int| #[trigger] reach(second, left as int, (h - 1) as nat).contains(j)
                    implies second[j] == fin[j] by {
                    assert(reach(old_nodes, left as int, (h - 1) as nat).contains(j));
                    assert(!reach(old_nodes, right as int, (h - 1) as nat).contains(j));
                    assert(!reach(second, right as int, (h - 1) as nat).contains(j));
                }
                lemma_linked_frame(second, fin, left as int, (h - 1) as nat, Some(right));
                assert(fin[index as int] == second[index as int]);
                assert(linked(fin, index as int, h, skip));
                assert forall|j: int|
                    0 <= j < old_nodes.len() && !reach(old_nodes, index as int, h).contains(j)
                        implies #[trigger] fin[j] == old_nodes[j] by {
                    assert(!reach(old_nodes, left as int, (h - 1) as nat).contains(j));
                    assert(!reach(old_nodes, right as int, (h - 1) as nat).contains(j));
                }
            }
        },
    }
}

/// Sets the successor links of the tree at `index`, whose nodes must be in
/// the list and distinct: the node itself goes on to `skip`, a left child to
/// its sibling, a right child to where its parent goes. Nothing else
/// changes. On a pre-order subtree this makes a ray that misses the box of
/// any of its nodes go on to the first node after that node's own subtree,
/// or to `skip` when there is none inside.
pub fn skip_pass<A>(nodes: &mut [BoundingVolume<A>], index: usize, skip: Option<usize>)
    requires
        exists|h: nat| tree(old(nodes)@, index as int, h),
    ensures
        final(nodes)@.len() == old(nodes)@.len(),
        forall|j: int|
            0 <= j < old(nodes)@.len() ==> #[trigger] final(nodes)@[j].inner == old(nodes)@[j].inner
                && final(nodes)@[j].aabb == old(nodes)@[j].aabb,
        forall|h: nat|
            #[trigger] tree(old(nodes)@, index as int, h) ==> {
                &&& linked(final(nodes)@, index as int, h, skip)
                &&& forall|j: int|
                    0 <= j < old(nodes)@.len() && !reach(old(nodes)@, index as int, h).contains(j)
                        ==> #[trigger] final(nodes)@[j] == old(nodes)@[j]
            },
        forall|lo: int, hi: int|
            #[trigger] subtree(old(nodes)@, index as int, lo, hi) ==> {
                &&& skip_links(final(nodes)@, index as int, lo, hi, skip)
                &&& forall|j: int|
                    0 <= j < old(nodes)@.len() && j != index && !(lo <= j < hi)
                        ==> #[trigger] final(nodes)@[j] == old(nodes)@[j]
            },
{
    let ghost old_nodes = nodes@;
    let ghost h = choose|h: nat| tree(old_nodes, index as int, h);
    set_links(nodes, index, skip, Ghost(h));
    proof {
        let fin = nodes@;
        assert forall|h2: nat| #[trigger] tree(old_nodes, index as int, h2) implies {
            &&& linked(fin, index as int, h2, skip)
            &&& forall|j: int|
                0 <= j < old_nodes.len() && !reach(old_nodes, index as int, h2).contains(j)
                    ==> #[trigger] fin[j] == old_nodes[j]
        } by {
            lemma_tree_heights(old_nodes, index as int, h, h2, skip);
            lemma_tree_same_shape(old_nodes, fin, index as int, h);
            lemma_tree_same_shape(old_nodes, fin, index as int, h2);
            lemma_tree_heights(fin, index as int, h, h2, skip);
        }
        assert forall|lo: int, hi: int| #[trigger] subtree(old_nodes, index as int, lo, hi) implies {
            &&& skip_links(fin, index as int, lo, hi, skip)
            &&& forall|j: int|
                0 <= j < old_nodes.len() && j != index && !(lo <= j < hi)
                    ==> #[trigger] fin[j] == old_nodes[j]
        } by {
            lemma_subtree_is_tree(old_nodes, index as int, lo, hi);
            let h2: nat = (hi - lo) as nat;
            lemma_tree_heights(old_nodes, index as int, h, h2, skip);
            lemma_tree_same_shape(old_nodes, fin, index as int, h);
            lemma_tree_same_shape(old_nodes, fin, index as int, h2);
            lemma_tree_heights(fin, index as int, h, h2, skip);
            lemma_subtree_same_shape(old_nodes, fin, index as int, lo, hi);
            lemma_linked_is_skip_links(fin, index as int, lo, hi, h2, skip);
        }
    }
}

/// The end of the subtree that node `i` heads in a pre-order layout.
pub open spec fn subtree_end<A>(nodes: Seq<BoundingVolume<A>>, i: int) -> int {
    choose|e: int| #[trigger] subtree(nodes, i, i + 1, e)
}

/// Node `j` is a leaf of the subtree at `i` whose other nodes are at `lo .. hi`.
pub open spec fn leaf_of<A>(nodes: Seq<BoundingVolume<A>>, i: int, lo: int, hi: int, j: int) -> bool {
    &&& (j == i || lo <= j < hi)
    &&& nodes[j].inner is Container
}

/// Object `k` lies in a leaf of the subtree at `i` whose other nodes are at `lo .. hi`.
pub open spec fn in_some_leaf<A>(nodes: Seq<BoundingVolume<A>>, i: int, lo: int, hi: int, k: int) -> bool {
    exists|j: int| #[trigger] leaf_of(nodes, i, lo, hi, j) && nodes[j].inner->sphere_indices.contains(k)
}

proof fn lemma_subtree_end_unique<A>(nodes: Seq<BoundingVolume<A>>, i: int, lo: int, e1: int, e2: int)
    requires
        subtree(nodes, i, lo, e1),
        subtree(nodes, i, lo, e2),
    ensures
        e1 == e2,
    decreases e1 - lo,
{
    if let BoundingVolumeInner::Split { left, right } = nodes[i].inner {
        lemma_subtree_end_unique(nodes, right as int, right + 1, e1, e2);
    }
}

pub(crate) proof fn lemma_skip_links_shape<A>(nodes: Seq<BoundingVolume<A>>, i: int, lo: int, hi: int, skip: Option<usize>)
    requires
        skip_links(nodes, i, lo, hi, skip),
    ensures
        subtree(nodes, i, lo, hi),
    decreases hi - lo,
{
    if let BoundingVolumeInner::Split { left, right } = nodes[i].inner {
        lemma_skip_links_shape(nodes, left as int, left + 1, right as int, Some(right));
        lemma_skip_links_shape(nodes, right as int, right + 1, hi, skip);
    }
}

pub(crate) proof fn lemma_covers_same_shape<A>(a: Seq<BoundingVolume<A>>, b: Seq<BoundingVolume<A>>, i: int, start: nat, len: nat)
    requires
        covers(a, i, start, len),
        a.len() == b.len(),
        forall|j: int| 0 <= j < a.len() ==> #[trigger] a[j].inner == b[j].inner,
    ensures
        covers(b, i, start, len),
    decreases len,
{
    assert(a[i].inner == b[i].inner);
    if let BoundingVolumeInner::Split { left, right } = a[i].inner {
        lemma_covers_same_shape(a, b, left as int, start, len / 2);
        lemma_covers_same_shape(a, b, right as int, start + len / 2, (len - len / 2) as nat);
    }
}

/// A subtree at `i` in pre-order ends where `subtree_end` says.
pub(crate) proof fn lemma_subtree_end_is<A>(nodes: Seq<BoundingVolume<A>>, i: int, e: int)
    requires
        subtree(nodes, i, i + 1, e),
    ensures
        subtree_end(nodes, i) == e,
{
    lemma_subtree_end_unique(nodes, i, i + 1, e, subtree_end(nodes, i));
}

/// In a pre-order layout every node heads a subtree of its own, which lies
/// inside the subtree of any node above it.
proof fn lemma_nodes_head_subtrees<A>(nodes: Seq<BoundingVolume<A>>, i: int, hi: int, j: int)
    requires
        subtree(nodes, i, i + 1, hi),
        i <= j < hi,
    ensures
        subtree(nodes, j, j + 1, subtree_end(nodes, j)),
        j < subtree_end(nodes, j) <= hi,
    decreases hi - i,
{
    if j == i {
        lemma_subtree_end_unique(nodes, i, i + 1, hi, subtree_end(nodes, j));
    } else if let BoundingVolumeInner::Split { left, right } = nodes[i].inner {
        if j < right {
            lemma_nodes_head_subtrees(nodes, left as int, right as int, j);
        } else {
            lemma_nodes_head_subtrees(nodes, right as int, hi, j);
        }
    }
}

proof fn lemma_skip_of_node<A>(nodes: Seq<BoundingVolume<A>>, i: int, hi: int, j: int)
    requires
        skip_links(nodes, i, i + 1, hi, successor(hi, nodes.len() as int)),
        hi <= nodes.len(),
        i <= j < hi,
    ensures
        nodes[j].skip == successor(subtree_end(nodes, j), nodes.len() as int),
    decreases hi - i,
{
    lemma_skip_links_shape(nodes, i, i + 1, hi, successor(hi, nodes.len() as int));
    lemma_nodes_head_subtrees(nodes, i, hi, j);
    if j == i {
        lemma_subtree_end_unique(nodes, i, i + 1, hi, subtree_end(nodes, j));
    } else if let BoundingVolumeInner::Split { left, right } = nodes[i].inner {
        if j < right {
            lemma_skip_of_node(nodes, left as int, right as int, j);
        } else {
            lemma_skip_of_node(nodes, right as int, hi, j);
        }
    }
}

/// Once the successor links of a whole pre-order layout are set, each node
/// heads a subtree that ends after it and within the layout, and a ray that
/// misses the node's box goes on to the first node after that subtree, or
/// stops when the subtree reaches the end.
pub proof fn lemma_skip_passes_subtree<A>(nodes: Seq<BoundingVolume<A>>, j: int)
    requires
        skip_links(nodes, 0, 1, nodes.len() as int, None),
        0 <= j < nodes.len(),
    ensures
        subtree(nodes, j, j + 1, subtree_end(nodes, j)),
        j < subtree_end(nodes, j) <= nodes.len(),
        nodes[j].skip == successor(subtree_end(nodes, j), nodes.len() as int),
{
    lemma_skip_links_shape(nodes, 0, 1, nodes.len() as int, None);
    lemma_nodes_head_subtrees(nodes, 0, nodes.len() as int, j);
    lemma_skip_of_node(nodes, 0, nodes.len() as int, j);
}

/// The leaves of a subtree over the objects `start .. start + len` share
/// those objects out: every leaf holds a run inside them, two leaves hold
/// disjoint runs, every object lies in some leaf, and a leaf further on in
/// the layout holds later objects.
pub proof fn lemma_leaves_partition<A>(
    nodes: Seq<BoundingVolume<A>>,
    i: int,
    lo: int,
    hi: int,
    start: nat,
    len: nat,
)
    requires
        subtree(nodes, i, lo, hi),
        covers(nodes, i, start, len),
    ensures
        forall|j: int|
            #[trigger] leaf_of(nodes, i, lo, hi, j) ==> start <= nodes[j].inner->sphere_indices@.0
                && nodes[j].inner->sphere_indices.end() <= start + len,
        forall|j1: int, j2: int, k: int|
            leaf_of(nodes, i, lo, hi, j1) && leaf_of(nodes, i, lo, hi, j2) && j1 != j2
                && #[trigger] nodes[j1].inner->sphere_indices.contains(k)
                ==> !#[trigger] nodes[j2].inner->sphere_indices.contains(k),
        forall|k: int| start <= k < start + len ==> #[trigger] in_some_leaf(nodes, i, lo, hi, k),
        forall|j1: int, j2: int|
            #[trigger] leaf_of(nodes, i, lo, hi, j1) && #[trigger] leaf_of(nodes, i, lo, hi, j2) && j1 < j2
                ==> nodes[j1].inner->sphere_indices.end() <= nodes[j2].inner->sphere_indices@.0,
    decreases len,
{
    match nodes[i].inner {
        BoundingVolumeInner::Container { sphere_indices } => {
            assert forall|k: int| start <= k < start + len implies #[trigger] in_some_leaf(nodes, i, lo, hi, k) by {
                assert(leaf_of(nodes, i, lo, hi, i));
            }
        },
        BoundingVolumeInner::Split { left, right } => {
            let l: int = left as int;
            let r: int = right as int;
            let half: nat = len / 2;
            let rest: nat = (len - len / 2) as nat;
            lemma_leaves_partition(nodes, l, l + 1, r, start, half);
            lemma_leaves_partition(nodes, r, r + 1, hi, start + half, rest);
            assert forall|j: int| #[trigger] leaf_of(nodes, i, lo, hi, j) implies
                leaf_of(nodes, l, l + 1, r, j) || leaf_of(nodes, r, r + 1, hi, j) by {
            }
            assert forall|j1: int, j2: int, k: int|
                leaf_of(nodes, i, lo, hi, j1) && leaf_of(nodes, i, lo, hi, j2) && j1 != j2
                    && #[trigger] nodes[j1].inner->sphere_indices.contains(k)
                    implies !#[trigger] nodes[j2].inner->sphere_indices.contains(k) by {
                assert(leaf_of(nodes, l, l + 1, r, j1) || leaf_of(nodes, r, r + 1, hi, j1));
                assert(leaf_of(nodes, l, l + 1, r, j2) || leaf_of(nodes, r, r + 1, hi, j2));
            }
            assert forall|j1: int, j2: int|
                #[trigger] leaf_of(nodes, i, lo, hi, j1) && #[trigger] leaf_of(nodes, i, lo, hi, j2) && j1 < j2
                    implies nodes[j1].inner->sphere_indices.end() <= nodes[j2].inner->sphere_indices@.0 by {
                assert(leaf_of(nodes, l, l + 1, r, j1) || leaf_of(nodes, r, r + 1, hi, j1));
                assert(leaf_of(nodes, l, l + 1, r, j2) || leaf_of(nodes, r, r + 1, hi, j2));
            }
            assert forall|k: int| start <= k < start + len implies #[trigger] in_some_leaf(nodes, i, lo, hi, k) by {
                if k < start + half {
                    assert(in_some_leaf(nodes, l, l + 1, r, k));
                    let j = choose|j: int| #[trigger] leaf_of(nodes, l, l + 1, r, j) && nodes[j].inner->sphere_indices.contains(k);
                    assert(leaf_of(nodes, i, lo, hi, j));
                } else {
                    assert(in_some_leaf(nodes, r, r + 1, hi, k));
                    let j = choose|j: int| #[trigger] leaf_of(nodes, r, r + 1, hi, j) && nodes[j].inner->sphere_indices.contains(k);
                    assert(leaf_of(nodes, i, lo, hi, j));
                }
            }
        },
    }
}

/// The run of objects of leaf `i`.
pub open spec fn run_of<A>(nodes: Seq<BoundingVolume<A>>, i: int) -> crate::bvh::object_range::ObjectRange {
    nodes[i].inner->sphere_indices
}

/// `aabb` is the box around some run of some slice whose objects are those
/// at `start .. start + len` of `spheres`, possibly in another order.
pub open spec fn boxes_run<A, S: Bounded<A>>(aabb: A, spheres: Seq<S>, start: nat, len: nat) -> bool {
    exists|objects: &[S], indices: std::ops::Range<usize>|
        #[trigger] S::box_of(objects, indices) == aabb && indices.start <= indices.end <= objects@.len()
            && objects@.subrange(indices.start as int, indices.end as int).to_multiset()
            == spheres.subrange(start as int, start + len as int).to_multiset()
}

/// The box of a run is the box around the run's objects.
pub(crate) proof fn lemma_box_of_run<A, S: Bounded<A>>(objects: &[S], indices: std::ops::Range<usize>, spheres: Seq<S>, start: nat, len: nat)
    requires
        indices.start <= indices.end <= objects@.len(),
        objects@.subrange(indices.start as int, indices.end as int).to_multiset()
            == spheres.subrange(start as int, start + len as int).to_multiset(),
    ensures
        boxes_run(S::box_of(objects, indices), spheres, start, len),
{
}

/// A box around some objects stays the box around the same objects, wherever
/// they now lie.
pub(crate) proof fn lemma_boxes_run_moved<A, S: Bounded<A>>(aabb: A, a: Seq<S>, sa: nat, la: nat, b: Seq<S>, sb: nat, lb: nat)
    requires
        boxes_run(aabb, a, sa, la),
        a.subrange(sa as int, sa + la as int).to_multiset() == b.subrange(sb as int, sb + lb as int).to_multiset(),
    ensures
        boxes_run(aabb, b, sb, lb),
{
    let (o, r) = choose|objects: &[S], indices: std::ops::Range<usize>|
        #[trigger] S::box_of(objects, indices) == aabb && indices.start <= indices.end <= objects@.len()
            && objects@.subrange(indices.start as int, indices.end as int).to_multiset()
            == a.subrange(sa as int, sa + la as int).to_multiset();
    lemma_box_of_run(o, r, b, sb, lb);
}

/// Every node of the subtree at `i` over the objects `start .. start + len`
/// has the box around its own objects, the halves going to the children.
pub open spec fn boxed<A, S: Bounded<A>>(
    nodes: Seq<BoundingVolume<A>>,
    i: int,
    start: nat,
    len: nat,
    spheres: Seq<S>,
) -> bool
    decreases len,
{
    &&& boxes_run(nodes[i].aabb, spheres, start, len)
    &&& match nodes[i].inner {
        BoundingVolumeInner::Container { .. } => true,
        BoundingVolumeInner::Split { left, right } => {
            &&& len >= 3
            &&& boxed(nodes, left as int, start, len / 2, spheres)
            &&& boxed(nodes, right as int, start + len / 2, (len - len / 2) as nat, spheres)
        },
    }
}

/// The box of a run depends only on which objects the run holds, not on
/// their order or on where they lie.
pub open spec fn boxes_by_contents<A, S: Bounded<A>>() -> bool {
    forall|a: &[S], ra: std::ops::Range<usize>, b: &[S], rb: std::ops::Range<usize>|
        #![trigger S::box_of(a, ra), S::box_of(b, rb)]
        ra.start <= ra.end <= a@.len() && rb.start <= rb.end <= b@.len()
            && a@.subrange(ra.start as int, ra.end as int).to_multiset()
            == b@.subrange(rb.start as int, rb.end as int).to_multiset()
            ==> S::box_of(a, ra) == S::box_of(b, rb)
}

/// Every node of the subtree at `i` over the objects `start .. start + len`
/// of `spheres` has the box of its own run of `spheres`, as it lies now.
pub open spec fn boxed_exactly<A, S: Bounded<A>>(
    nodes: Seq<BoundingVolume<A>>,
    i: int,
    start: nat,
    len: nat,
    spheres: &[S],
) -> bool
    decreases len,
{
    &&& nodes[i].aabb == S::box_of(spheres, std::ops::Range { start: start as usize, end: (start + len) as usize })
    &&& match nodes[i].inner {
        BoundingVolumeInner::Container { .. } => true,
        BoundingVolumeInner::Split { left, right } => {
            &&& len >= 3
            &&& boxed_exactly(nodes, left as int, start, len / 2, spheres)
            &&& boxed_exactly(nodes, right as int, start + len / 2, (len - len / 2) as nat, spheres)
        },
    }
}

/// Where the box of a run depends only on which objects it holds, every
/// node of a hierarchy whose nodes have the boxes around their objects has
/// exactly the box of its run of the objects in their final order.
pub proof fn lemma_boxed_exactly<A, S: Bounded<A>>(
    nodes: Seq<BoundingVolume<A>>,
    i: int,
    start: nat,
    len: nat,
    spheres: &[S],
)
    requires
        boxes_by_contents::<A, S>(),
        boxed(nodes, i, start, len, spheres@),
        start + len <= spheres@.len(),
        spheres@.len() <= usize::MAX,
    ensures
        boxed_exactly(nodes, i, start, len, spheres),
    decreases len,
{
    let (o, r) = choose|objects: &[S], indices: std::ops::Range<usize>|
        #[trigger] S::box_of(objects, indices) == nodes[i].aabb && indices.start <= indices.end <= objects@.len()
            && objects@.subrange(indices.start as int, indices.end as int).to_multiset()
            == spheres@.subrange(start as int, start + len as int).to_multiset();
    let mine = std::ops::Range { start: start as usize, end: (start + len) as usize };
    assert(S::box_of(o, r) == S::box_of(spheres, mine));
    if let BoundingVolumeInner::Split { left, right } = nodes[i].inner {
        lemma_boxed_exactly(nodes, left as int, start, len / 2, spheres);
        lemma_boxed_exactly(nodes, right as int, start + len / 2, (len - len / 2) as nat, spheres);
    }
}

/// Reordering the objects `p .. q` inside a run `s .. e` that holds them
/// keeps the objects of the run.
pub(crate) proof fn lemma_nested_permutation<S>(a: Seq<S>, b: Seq<S>, s: int, p: int, q: int, e: int)
    requires
        0 <= s <= p <= q <= e <= a.len(),
        a.len() == b.len(),
        a.subrange(p, q).to_multiset() == b.subrange(p, q).to_multiset(),
        forall|j: int| 0 <= j < a.len() && !(p <= j < q) ==> a[j] == b[j],
    ensures
        a.subrange(s, e).to_multiset() == b.subrange(s, e).to_multiset(),
{
    assert(a.subrange(s, e) =~= a.subrange(s, p) + a.subrange(p, q) + a.subrange(q, e));
    assert(b.subrange(s, e) =~= b.subrange(s, p) + b.subrange(p, q) + b.subrange(q, e));
    assert(a.subrange(s, p) =~= b.subrange(s, p));
    assert(a.subrange(q, e) =~= b.subrange(q, e));
    lemma_multiset_commutative(a.subrange(s, p) + a.subrange(p, q), a.subrange(q, e));
    lemma_multiset_commutative(a.subrange(s, p), a.subrange(p, q));
    lemma_multiset_commutative(b.subrange(s, p) + b.subrange(p, q), b.subrange(q, e));
    lemma_multiset_commutative(b.subrange(s, p), b.subrange(p, q));
}

proof fn lemma_boxed_spheres_frame<A, S: Bounded<A>>(
    nodes: Seq<BoundingVolume<A>>,
    i: int,
    start: nat,
    len: nat,
    a: Seq<S>,
    b: Seq<S>,
)
    requires
        boxed(nodes, i, start, len, a),
        start + len <= a.len(),
        start + len <= b.len(),
        a.subrange(start as int, start + len as int) == b.subrange(start as int, start + len as int),
    ensures
        boxed(nodes, i, start, len, b),
    decreases len,
{
    lemma_boxes_run_moved(nodes[i].aabb, a, start, len, b, start, len);
    if let BoundingVolumeInner::Split { left, right } = nodes[i].inner {
        let half: nat = len / 2;
        let rest: nat = (len - len / 2) as nat;
        let whole_a = a.subrange(start as int, start + len as int);
        let whole_b = b.subrange(start as int, start + len as int);
        assert(a.subrange(start as int, start + half as int) =~= whole_a.subrange(0, half as int));
        assert(b.subrange(start as int, start + half as int) =~= whole_b.subrange(0, half as int));
        assert(a.subrange((start + half) as int, (start + half + rest) as int) =~= whole_a.subrange(half as int, len as int));
        assert(b.subrange((start + half) as int, (start + half + rest) as int) =~= whole_b.subrange(half as int, len as int));
        lemma_boxed_spheres_frame(nodes, left as int, start, half, a, b);
        lemma_boxed_spheres_frame(nodes, right as int, start + half, rest, a, b);
    }
}

proof fn lemma_boxed_nodes_frame<A, S: Bounded<A>>(
    a: Seq<BoundingVolume<A>>,
    b: Seq<BoundingVolume<A>>,
    i: int,
    lo: int,
    hi: int,
    start: nat,
    len: nat,
    spheres: Seq<S>,
)
    requires
        subtree(a, i, lo, hi),
        boxed(a, i, start, len, spheres),
        agree_on(a, b, i, lo, hi),
        a[i].aabb == b[i].aabb,
    ensures
        boxed(b, i, start, len, spheres),
    decreases len,
{
    assert(b[i].aabb == a[i].aabb);
    if let BoundingVolumeInner::Split { left, right } = a[i].inner {
        lemma_boxed_nodes_frame(a, b, left as int, left + 1, right as int, start, len / 2, spheres);
        lemma_boxed_nodes_frame(a, b, right as int, right + 1, hi, start + len / 2, (len - len / 2) as nat, spheres);
    }
}

pub(crate) proof fn lemma_boxed_same_shape<A, S: Bounded<A>>(
    a: Seq<BoundingVolume<A>>,
    b: Seq<BoundingVolume<A>>,
    i: int,
    start: nat,
    len: nat,
    spheres: Seq<S>,
)
    requires
        boxed(a, i, start, len, spheres),
        a.len() == b.len(),
        forall|j: int| 0 <= j < a.len() ==> #[trigger] a[j].inner == b[j].inner && a[j].aabb == b[j].aabb,
        covers(a, i, start, len),
    ensures
        boxed(b, i, start, len, spheres),
    decreases len,
{
    assert(a[i].inner == b[i].inner && a[i].aabb == b[i].aabb);
    assert(b[i].aabb == a[i].aabb);
    if let BoundingVolumeInner::Split { left, right } = a[i].inner {
        assert(covers(a, left as int, start, len / 2));
        lemma_boxed_same_shape(a, b, left as int, start, len / 2, spheres);
        lemma_boxed_same_shape(a, b, right as int, start + len / 2, (len - len / 2) as nat, spheres);
    }
}

/// No object of `spheres` at `mid .. end` comes before one at `start .. mid`
/// along the widest axis of `bounds`.
pub open spec fn ordered_halves<A, S: Bounded<A>>(bounds: A, spheres: Seq<S>, start: int, mid: int, end: int) -> bool {
    forall|i: int, j: int|
        start <= i < mid && mid <= j < end ==> !#[trigger] S::precedes(bounds, spheres[j], spheres[i])
}

/// Every inner node of the subtree at `i` over the objects `start .. start +
/// len` has cut its objects along the widest axis of its box: none in the
/// right child's half comes before one in the left child's.
pub open spec fn sorted<A, S: Bounded<A>>(
    nodes: Seq<BoundingVolume<A>>,
    i: int,
    start: nat,
    len: nat,
    spheres: Seq<S>,
) -> bool
    decreases len,
{
    match nodes[i].inner {
        BoundingVolumeInner::Container { .. } => true,
        BoundingVolumeInner::Split { left, right } => {
            &&& len >= 3
            &&& ordered_halves(nodes[i].aabb, spheres, start as int, (start + len / 2) as int, start + len as int)
            &&& sorted(nodes, left as int, start, len / 2, spheres)
            &&& sorted(nodes, right as int, start + len / 2, (len - len / 2) as nat, spheres)
        },
    }
}

/// The children of node `i`, if it splits, have the boxes around their
/// objects.
pub open spec fn boxed_below<A, S: Bounded<A>>(
    nodes: Seq<BoundingVolume<A>>,
    i: int,
    start: nat,
    len: nat,
    spheres: Seq<S>,
) -> bool {
    match nodes[i].inner {
        BoundingVolumeInner::Container { .. } => true,
        BoundingVolumeInner::Split { left, right } => {
            &&& boxed(nodes, left as int, start, len / 2, spheres)
            &&& boxed(nodes, right as int, start + len / 2, (len - len / 2) as nat, spheres)
        },
    }
}

/// Reordering each half within itself keeps two halves in order.
pub(crate) proof fn lemma_ordered_halves_permuted<A, S: Bounded<A>>(bounds: A, a: Seq<S>, b: Seq<S>, start: int, mid: int, end: int)
    requires
        ordered_halves(bounds, a, start, mid, end),
        0 <= start <= mid <= end <= a.len(),
        end <= b.len(),
        a.subrange(start, mid).to_multiset() == b.subrange(start, mid).to_multiset(),
        a.subrange(mid, end).to_multiset() == b.subrange(mid, end).to_multiset(),
    ensures
        ordered_halves(bounds, b, start, mid, end),
{
    broadcast use vstd::seq_lib::group_to_multiset_ensures;

    assert forall|i: int, j: int| start <= i < mid && mid <= j < end implies !#[trigger] S::precedes(bounds, b[j], b[i]) by {
        let bl = b.subrange(start, mid);
        let br = b.subrange(mid, end);
        let al = a.subrange(start, mid);
        let ar = a.subrange(mid, end);
        assert(bl[i - start] == b[i]);
        assert(br[j - mid] == b[j]);
        assert(bl.contains(b[i]));
        assert(br.contains(b[j]));
        assert(bl.to_multiset().count(b[i]) > 0);
        assert(br.to_multiset().count(b[j]) > 0);
        assert(al.contains(b[i]));
        assert(ar.contains(b[j]));
        let i2 = choose|k: int| 0 <= k < al.len() && al[k] == b[i];
        let j2 = choose|k: int| 0 <= k < ar.len() && ar[k] == b[j];
        assert(a[start + i2] == b[i]);
        assert(a[mid + j2] == b[j]);
        assert(!S::precedes(bounds, a[mid + j2], a[start + i2]));
    }
}

proof fn lemma_sorted_spheres_frame<A, S: Bounded<A>>(
    nodes: Seq<BoundingVolume<A>>,
    i: int,
    start: nat,
    len: nat,
    a: Seq<S>,
    b: Seq<S>,
)
    requires
        sorted(nodes, i, start, len, a),
        start + len <= a.len(),
        start + len <= b.len(),
        forall|k: int| start <= k < start + len ==> a[k] == b[k],
    ensures
        sorted(nodes, i, start, len, b),
    decreases len,
{
    if let BoundingVolumeInner::Split { left, right } = nodes[i].inner {
        let half: nat = len / 2;
        assert forall|x: int, y: int|
            start <= x < start + half && start + half <= y < start + len implies !#[trigger] S::precedes(
            nodes[i].aabb,
            b[y],
            b[x],
        ) by {
            assert(a[x] == b[x] && a[y] == b[y]);
        }
        lemma_sorted_spheres_frame(nodes, left as int, start, half, a, b);
        lemma_sorted_spheres_frame(nodes, right as int, start + half, (len - half) as nat, a, b);
    }
}

proof fn lemma_sorted_nodes_frame<A, S: Bounded<A>>(
    a: Seq<BoundingVolume<A>>,
    b: Seq<BoundingVolume<A>>,
    i: int,
    lo: int,
    hi: int,
    start: nat,
    len: nat,
    spheres: Seq<S>,
)
    requires
        subtree(a, i, lo, hi),
        sorted(a, i, start, len, spheres),
        agree_on(a, b, i, lo, hi),
        a[i].aabb == b[i].aabb,
    ensures
        sorted(b, i, start, len, spheres),
    decreases len,
{
    if let BoundingVolumeInner::Split { left, right } = a[i].inner {
        lemma_sorted_nodes_frame(a, b, left as int, left + 1, right as int, start, len / 2, spheres);
        lemma_sorted_nodes_frame(a, b, right as int, right + 1, hi, start + len / 2, (len - len / 2) as nat, spheres);
    }
}

pub(crate) proof fn lemma_sorted_same_shape<A, S: Bounded<A>>(
    a: Seq<BoundingVolume<A>>,
    b: Seq<BoundingVolume<A>>,
    i: int,
    start: nat,
    len: nat,
    spheres: Seq<S>,
)
    requires
        sorted(a, i, start, len, spheres),
        a.len() == b.len(),
        forall|j: int| 0 <= j < a.len() ==> #[trigger] a[j].inner == b[j].inner && a[j].aabb == b[j].aabb,
        covers(a, i, start, len),
    ensures
        sorted(b, i, start, len, spheres),
    decreases len,
{
    assert(a[i].inner == b[i].inner && a[i].aabb == b[i].aabb);
    if let BoundingVolumeInner::Split { left, right } = a[i].inner {
        assert(covers(a, left as int, start, len / 2));
        lemma_sorted_same_shape(a, b, left as int, start, len / 2, spheres);
        lemma_sorted_same_shape(a, b, right as int, start + len / 2, (len - len / 2) as nat, spheres);
    }
}

/// Splits the leaf at `index` into a hierarchy over its objects: while a node
/// holds three objects or more, its objects are reordered along the widest
/// axis of its box and cut in half, each half going to a new child node
/// appended to `nodes`, which is split in turn. The new nodes follow in
/// pre-order; each left child links to its sibling, the right child of
/// `index` takes over the link of `index`. The objects are only reordered
/// within the run of `index`, not at all when it is short, and each new node
/// gets the box around its own objects.
pub fn split<A, S: Bounded<A>>(nodes: &mut Vec<BoundingVolume<A>>, spheres: &mut [S], index: usize)
    requires
        index < old(nodes)@.len(),
        old(nodes)@[index as int].inner is Container,
        run_of(old(nodes)@, index as int)@.1 >= 3 ==> run_of(old(nodes)@, index as int).end() <= usize::MAX,
        run_of(old(nodes)@, index as int)@.1 >= 3
            ==> run_of(old(nodes)@, index as int).end() <= old(spheres)@.len(),
    ensures
        final(spheres)@.len() == old(spheres)@.len(),
        run_of(old(nodes)@, index as int)@.1 < 3 ==> final(spheres)@ == old(spheres)@,
        forall|j: int|
            0 <= j < old(spheres)@.len() && !run_of(old(nodes)@, index as int).contains(j)
                ==> final(spheres)@[j] == old(spheres)@[j],
        run_of(old(nodes)@, index as int).end() <= old(spheres)@.len() ==> final(spheres)@.subrange(
            run_of(old(nodes)@, index as int)@.0 as int,
            run_of(old(nodes)@, index as int).end() as int,
        ).to_multiset() == old(spheres)@.subrange(
            run_of(old(nodes)@, index as int)@.0 as int,
            run_of(old(nodes)@, index as int).end() as int,
        ).to_multiset(),
        boxes_run(
            old(nodes)@[index as int].aabb,
            old(spheres)@,
            run_of(old(nodes)@, index as int)@.0,
            run_of(old(nodes)@, index as int)@.1,
        ) && run_of(old(nodes)@, index as int).end() <= old(spheres)@.len() ==> boxed(
            final(nodes)@,
            index as int,
            run_of(old(nodes)@, index as int)@.0,
            run_of(old(nodes)@, index as int)@.1,
            final(spheres)@,
        ),
        boxed_below(
            final(nodes)@,
            index as int,
            run_of(old(nodes)@, index as int)@.0,
            run_of(old(nodes)@, index as int)@.1,
            final(spheres)@,
        ),
        sorted(
            final(nodes)@,
            index as int,
            run_of(old(nodes)@, index as int)@.0,
            run_of(old(nodes)@, index as int)@.1,
            final(spheres)@,
        ),
        final(nodes)@.len() >= old(nodes)@.len(),
        forall|j: int|
            0 <= j < old(nodes)@.len() && j != index ==> final(nodes)@[j] == old(nodes)@[j],
        final(nodes)@[index as int].aabb == old(nodes)@[index as int].aabb,
        final(nodes)@[index as int].skip == old(nodes)@[index as int].skip,
        built(
            final(nodes)@,
            index as int,
            old(nodes)@.len() as int,
            final(nodes)@.len() as int,
            old(nodes)@[index as int].inner->sphere_indices@.0,
            old(nodes)@[index as int].inner->sphere_indices@.1,
            old(nodes)@[index as int].skip,
        ),
    decreases old(nodes)@[index as int].inner->sphere_indices@.1,
{
    let ghost old_nodes = nodes@;
    let ghost s0 = spheres@;
    let range = match nodes[index].inner {
        BoundingVolumeInner::Container { sphere_indices } => sphere_indices,
        BoundingVolumeInner::Split { .. } => {
            return ;
        },
    };
    if range.length() < 3 {
        return ;
    }
    S::sort_along_widest_axis(spheres, range.indices(), &nodes[index].aabb);
    let ghost s1 = spheres@;
    let (c0, c1) = range.split();

    let n0_index: usize = nodes.len();
    let ghost sl1: &[S] = &*spheres;
    nodes.push(BoundingVolume::from_spheres(spheres, c0));
    proof {
        assert(S::box_of(sl1, c0.index_range()) == nodes@[n0_index as int].aabb);
        lemma_box_of_run(sl1, c0.index_range(), s1, c0@.0, c0@.1);
    }
    split(nodes, spheres, n0_index);
    let ghost after_left = nodes@;
    let ghost s2 = spheres@;

    let n1_index: usize = nodes.len();
    let ghost sl2: &[S] = &*spheres;
    nodes.push(BoundingVolume::from_spheres(spheres, c1));
    proof {
        assert(S::box_of(sl2, c1.index_range()) == nodes@[n1_index as int].aabb);
        lemma_box_of_run(sl2, c1.index_range(), s2, c1@.0, c1@.1);
    }
    split(nodes, spheres, n1_index);
    let ghost after_right = nodes@;
    let ghost s3 = spheres@;

    nodes[n0_index].skip = Some(n1_index);
    nodes[n1_index].skip = nodes[index].skip;
    nodes[index].inner = BoundingVolumeInner::Split { left: n0_index, right: n1_index };

    proof {
        let fin = nodes@;
        lemma_built_frame(after_left, fin, n0_index as int, n0_index + 1, n1_index as int,
            c0@.0, c0@.1, None);
        lemma_built_frame(after_right, fin, n1_index as int, n1_index + 1, fin.len() as int,
            c1@.0, c1@.1, None);
        assert(build_links(fin, index as int, n0_index as int, fin.len() as int, old_nodes[index as int].skip));
        assert(subtree(fin, index as int, n0_index as int, fin.len() as int));
        assert(covers(fin, index as int, range@.0, range@.1));

        // The objects move only within the run.
        lemma_nested_permutation(s1, s2, range@.0 as int, c0@.0 as int, c0.end() as int, range.end() as int);
        lemma_nested_permutation(s2, s3, range@.0 as int, c1@.0 as int, c1.end() as int, range.end() as int);
        assert(s0.subrange(range@.0 as int, range.end() as int).to_multiset()
            == s3.subrange(range@.0 as int, range.end() as int).to_multiset());

        // Every node keeps the box around its objects.
        assert(s2.subrange(c0@.0 as int, c0.end() as int) =~= s3.subrange(c0@.0 as int, c0.end() as int));
        lemma_boxed_spheres_frame(after_left, n0_index as int, c0@.0, c0@.1, s2, s3);
        lemma_boxed_nodes_frame(after_left, fin, n0_index as int, n0_index + 1, n1_index as int,
            c0@.0, c0@.1, s3);
        lemma_boxed_nodes_frame(after_right, fin, n1_index as int, n1_index + 1, fin.len() as int,
            c1@.0, c1@.1, s3);
        // Each node has cut its objects along its widest axis.
        let mid: int = c0.end() as int;
        assert(ordered_halves(fin[index as int].aabb, s1, range@.0 as int, mid, range.end() as int));
        assert(s2.subrange(mid, range.end() as int) =~= s1.subrange(mid, range.end() as int));
        assert(s3.subrange(range@.0 as int, mid) =~= s2.subrange(range@.0 as int, mid));
        lemma_ordered_halves_permuted(fin[index as int].aabb, s1, s3, range@.0 as int, mid, range.end() as int);
        lemma_sorted_spheres_frame(after_left, n0_index as int, c0@.0, c0@.1, s2, s3);
        lemma_sorted_nodes_frame(after_left, fin, n0_index as int, n0_index + 1, n1_index as int,
            c0@.0, c0@.1, s3);
        lemma_sorted_nodes_frame(after_right, fin, n1_index as int, n1_index + 1, fin.len() as int,
            c1@.0, c1@.1, s3);
        assert(sorted(fin, index as int, range@.0, range@.1, s3));
        assert(boxed_below(fin, index as int, range@.0, range@.1, s3));
        if boxes_run(old_nodes[index as int].aabb, s0, range@.0, range@.1) {
            lemma_boxes_run_moved(old_nodes[index as int].aabb, s0, range@.0, range@.1, s3, range@.0, range@.1);
            assert(boxes_run(fin[index as int].aabb, s3, range@.0, range@.1));
            assert(boxed(fin, index as int, range@.0, range@.1, s3));
        }
    }
}

} // verus!
