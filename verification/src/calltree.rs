//! A transaction's nested contract calls, encoded without owned pointers.
//!
//! The nested form is [`DarkTree`]; the wire form is the flattened,
//! index-linked sequence of [`DarkLeaf`] records produced by
//! [`DarkTree::flatten`].  Flattening numbers the leaves in depth-first
//! post-order, so every leaf stands strictly after all of its descendants
//! and strictly before its parent, and the root stands last.  All
//! traversals here are iterative: tree depth is attacker-controlled input
//! and must not be able to exhaust the call stack.

use vstd::prelude::*;

use crate::errors::ContractError;

verus! {

/// One record of the flattened call sequence: the payload plus the
/// index links that replace owned pointers.
#[derive(Debug, Clone, PartialEq)]
pub struct DarkLeaf<T> {
    /// Data held by this leaf.
    pub data: T,
    /// This leaf's position in the flattened post-order sequence.
    pub index: usize,
    /// Position of this leaf's parent, `None` for the root.
    pub parent_index: Option<usize>,
    /// Positions of this leaf's children, in sibling order.
    pub children_indexes: Vec<usize>,
}

/// Mathematical image of a [`DarkLeaf`]: the same record over `int`
/// indices, used by every contract in this module.
pub ghost struct LeafModel<T> {
    pub data: T,
    pub index: int,
    pub parent_index: Option<int>,
    pub children_indexes: Seq<int>,
}

impl<T> DarkLeaf<T> {
    pub open spec fn model(self) -> LeafModel<T> {
        LeafModel {
            data: self.data,
            index: self.index as int,
            parent_index: match self.parent_index {
                Some(p) => Some(p as int),
                None => None,
            },
            children_indexes: self.children_indexes@.map_values(|c: usize| c as int),
        }
    }

    /// Every leaf starts with default index links; flattening assigns
    /// the real ones.
    pub fn new(data: T) -> (r: DarkLeaf<T>)
        ensures
            r.data == data,
            r.index == 0,
            r.parent_index is None,
            r.children_indexes@ == Seq::<usize>::empty(),
    {
        DarkLeaf { data, index: 0, parent_index: None, children_indexes: Vec::new() }
    }
}

/// The nested, in-memory form of a call tree: a payload and the ordered
/// child subtrees.
#[derive(Debug, PartialEq)]
pub struct DarkTree<T> {
    /// This node's leaf record.
    pub leaf: DarkLeaf<T>,
    /// The ordered child subtrees.
    pub children: Vec<DarkTree<T>>,
}

/// Number of leaves in the tree.
pub open spec fn tree_size<T>(t: DarkTree<T>) -> nat
    decreases t,
{
    1 + forest_size(t.children@)
}

/// Number of leaves in an ordered sequence of subtrees.
pub open spec fn forest_size<T>(f: Seq<DarkTree<T>>) -> nat
    decreases f, 0nat,
{
    if f.len() == 0 {
        0
    } else {
        tree_size(f[0]) + forest_size(f.skip(1))
    }
}

/// The flattened image of `t` when its leaves occupy positions
/// `start ..`, with `parent` as the parent link of its root.  Children
/// are numbered fully, left to right, before the node itself, so the
/// subtree's root lands at `start + tree_size(t) - 1`.
pub open spec fn tree_flat<T>(t: DarkTree<T>, start: int, parent: Option<int>) -> Seq<LeafModel<T>>
    decreases t,
{
    let root_pos = start + forest_size(t.children@);
    forest_flat(t.children@, start, root_pos) + seq![LeafModel {
        data: t.leaf.data,
        index: root_pos,
        parent_index: parent,
        children_indexes: forest_roots(t.children@, start),
    }]
}

/// The flattened image of a forest starting at `start`, every subtree's
/// root linked to `parent`.
pub open spec fn forest_flat<T>(f: Seq<DarkTree<T>>, start: int, parent: int) -> Seq<LeafModel<T>>
    decreases f, 1nat,
{
    if f.len() == 0 {
        Seq::empty()
    } else {
        tree_flat(f[0], start, Some(parent)) + forest_flat(
            f.skip(1),
            start + tree_size(f[0]),
            parent,
        )
    }
}

/// The root positions of the subtrees of a forest starting at `start`:
/// the `children_indexes` their parent records.
pub open spec fn forest_roots<T>(f: Seq<DarkTree<T>>, start: int) -> Seq<int>
    decreases f,
{
    if f.len() == 0 {
        Seq::empty()
    } else {
        seq![start + tree_size(f[0]) - 1] + forest_roots(f.skip(1), start + tree_size(f[0]))
    }
}

/// Leaf models of a flattened sequence.
pub open spec fn leaf_models<T>(s: Seq<DarkLeaf<T>>) -> Seq<LeafModel<T>> {
    s.map_values(|l: DarkLeaf<T>| l.model())
}

/// The same sequence with every parent link forgotten; used to state
/// what the flattening loop has produced before parents are patched in.
pub open spec fn erase_parents<T>(s: Seq<LeafModel<T>>) -> Seq<LeafModel<T>> {
    s.map_values(|m: LeafModel<T>| LeafModel { parent_index: None, ..m })
}

proof fn lemma_erase_cat<T>(a: Seq<LeafModel<T>>, b: Seq<LeafModel<T>>)
    ensures
        erase_parents(a + b) == erase_parents(a) + erase_parents(b),
{
    assert(erase_parents(a + b) =~= erase_parents(a) + erase_parents(b));
}

/// Lengths of the flattened images.
proof fn lemma_tree_flat_len<T>(t: DarkTree<T>, start: int, parent: Option<int>)
    ensures
        tree_flat(t, start, parent).len() == tree_size(t),
        forest_roots(t.children@, start).len() == t.children@.len(),
    decreases t,
{
    lemma_forest_flat_len(t.children@, start, start + forest_size(t.children@));
}

proof fn lemma_forest_flat_len<T>(f: Seq<DarkTree<T>>, start: int, parent: int)
    ensures
        forest_flat(f, start, parent).len() == forest_size(f),
        forest_roots(f, start).len() == f.len(),
    decreases f,
{
    if f.len() > 0 {
        lemma_tree_flat_len(f[0], start, Some(parent));
        lemma_forest_flat_len(f.skip(1), start + tree_size(f[0]), parent);
    }
}

/// Every entry of a flattened image sits at its own index: the record at
/// position `i` carries index `start + i`.
proof fn lemma_tree_flat_index<T>(t: DarkTree<T>, start: int, parent: Option<int>)
    ensures
        forall|i: int|
            0 <= i < tree_flat(t, start, parent).len() ==> #[trigger] tree_flat(
                t,
                start,
                parent,
            )[i].index == start + i,
    decreases t,
{
    lemma_tree_flat_len(t, start, parent);
    lemma_forest_flat_len(t.children@, start, start + forest_size(t.children@));
    lemma_forest_flat_index(t.children@, start, start + forest_size(t.children@));
}

proof fn lemma_forest_flat_index<T>(f: Seq<DarkTree<T>>, start: int, parent: int)
    ensures
        forall|i: int|
            0 <= i < forest_flat(f, start, parent).len() ==> #[trigger] forest_flat(
                f,
                start,
                parent,
            )[i].index == start + i,
    decreases f,
{
    if f.len() > 0 {
        lemma_tree_flat_len(f[0], start, Some(parent));
        lemma_tree_flat_index(f[0], start, Some(parent));
        lemma_forest_flat_index(f.skip(1), start + tree_size(f[0]), parent);
    }
}

/// Parent links of a flattened image: the last entry (the root) carries
/// the passed parent link, and every other entry has some parent.  In a
/// forest image every entry has some parent.
proof fn lemma_tree_flat_parent_some<T>(t: DarkTree<T>, start: int, parent: Option<int>)
    ensures
        tree_flat(t, start, parent).last().parent_index == parent,
        forall|i: int|
            0 <= i < tree_flat(t, start, parent).len() - 1 ==> #[trigger] tree_flat(
                t,
                start,
                parent,
            )[i].parent_index is Some,
    decreases t,
{
    lemma_tree_flat_len(t, start, parent);
    lemma_forest_flat_len(t.children@, start, start + forest_size(t.children@));
    lemma_forest_flat_parent_some(t.children@, start, start + forest_size(t.children@));
}

proof fn lemma_forest_flat_parent_some<T>(f: Seq<DarkTree<T>>, start: int, parent: int)
    ensures
        forall|i: int|
            0 <= i < forest_flat(f, start, parent).len() ==> #[trigger] forest_flat(
                f,
                start,
                parent,
            )[i].parent_index is Some,
    decreases f,
{
    if f.len() > 0 {
        lemma_tree_flat_len(f[0], start, Some(parent));
        lemma_tree_flat_parent_some(f[0], start, Some(parent));
        lemma_forest_flat_parent_some(f.skip(1), start + tree_size(f[0]), parent);
    }
}

/// The root positions of a forest image are strictly increasing, lie
/// inside the image, and each names an entry whose parent link is the
/// given one.
proof fn lemma_forest_roots<T>(f: Seq<DarkTree<T>>, start: int, parent: int)
    ensures
        forall|j: int|
            0 <= j < f.len() ==> start <= #[trigger] forest_roots(f, start)[j] < start
                + forest_size(f),
        forall|j1: int, j2: int|
            0 <= j1 < j2 < f.len() ==> #[trigger] forest_roots(f, start)[j1]
                < #[trigger] forest_roots(f, start)[j2],
        forall|j: int|
            0 <= j < f.len() ==> #[trigger] forest_flat(f, start, parent)[forest_roots(f, start)[j]
                - start].parent_index == Some(parent),
    decreases f,
{
    if f.len() > 0 {
        let sz0 = tree_size(f[0]) as int;
        lemma_tree_flat_len(f[0], start, Some(parent));
        lemma_forest_flat_len(f, start, parent);
        lemma_forest_flat_len(f.skip(1), start + sz0, parent);
        lemma_tree_flat_parent_some(f[0], start, Some(parent));
        lemma_forest_roots(f.skip(1), start + sz0, parent);
        assert forall|j: int| 0 <= j < f.len() implies #[trigger] forest_flat(f, start, parent)[
            forest_roots(f, start)[j] - start].parent_index == Some(parent) by {
            if j == 0 {
                assert(forest_roots(f, start)[0] == start + sz0 - 1);
                assert(forest_flat(f, start, parent)[sz0 - 1] == tree_flat(
                    f[0],
                    start,
                    Some(parent),
                ).last());
            } else {
                let r = forest_roots(f.skip(1), start + sz0)[j - 1];
                assert(forest_roots(f, start)[j] == r);
                assert(forest_flat(f, start, parent)[r - start] == forest_flat(
                    f.skip(1),
                    start + sz0,
                    parent,
                )[r - (start + sz0)]);
            }
        }
    }
}

/// Child links of a flattened image: every child position recorded at
/// entry `i` lies strictly below `i` (and inside the image), the listed
/// child's own parent link points back at `i`, and siblings are listed
/// in strictly increasing order.
#[verifier::rlimit(50)]
proof fn lemma_tree_flat_children<T>(t: DarkTree<T>, start: int, parent: Option<int>)
    ensures
        forall|i: int, k: int|
            0 <= i < tree_flat(t, start, parent).len() && 0 <= k < tree_flat(
                t,
                start,
                parent,
            )[i].children_indexes.len() ==> {
                let c = #[trigger] tree_flat(t, start, parent)[i].children_indexes[k];
                start <= c < start + i && tree_flat(t, start, parent)[c - start].parent_index
                    == Some(start + i)
            },
        forall|i: int, k1: int, k2: int|
            0 <= i < tree_flat(t, start, parent).len() && 0 <= k1 < k2 < tree_flat(
                t,
                start,
                parent,
            )[i].children_indexes.len() ==> #[trigger] tree_flat(
                t,
                start,
                parent,
            )[i].children_indexes[k1] < #[trigger] tree_flat(
                t,
                start,
                parent,
            )[i].children_indexes[k2],
    decreases t,
{
    let f = t.children@;
    let root_pos = start + forest_size(f);
    lemma_tree_flat_len(t, start, parent);
    lemma_forest_flat_len(f, start, root_pos);
    lemma_forest_flat_children(f, start, root_pos);
    lemma_forest_roots(f, start, root_pos);
    assert forall|i: int, k: int|
        0 <= i < tree_flat(t, start, parent).len() && 0 <= k < tree_flat(
            t,
            start,
            parent,
        )[i].children_indexes.len() implies {
        let c = #[trigger] tree_flat(t, start, parent)[i].children_indexes[k];
        start <= c < start + i && tree_flat(t, start, parent)[c - start].parent_index == Some(
            start + i,
        )
    } by {
        if i < forest_size(f) {
            let c = forest_flat(f, start, root_pos)[i].children_indexes[k];
            assert(start <= c < start + i);
            assert(tree_flat(t, start, parent)[c - start] == forest_flat(f, start, root_pos)[c
                - start]);
        } else {
            let c = forest_roots(f, start)[k];
            assert(tree_flat(t, start, parent)[c - start] == forest_flat(f, start, root_pos)[c
                - start]);
        }
    }
    assert forall|i: int, k1: int, k2: int|
        0 <= i < tree_flat(t, start, parent).len() && 0 <= k1 < k2 < tree_flat(
            t,
            start,
            parent,
        )[i].children_indexes.len() implies tree_flat(t, start, parent)[i].children_indexes[k1]
        < tree_flat(t, start, parent)[i].children_indexes[k2] by {
        if i < forest_size(f) {
            assert(tree_flat(t, start, parent)[i] == forest_flat(f, start, root_pos)[i]);
            assert(forest_flat(f, start, root_pos)[i].children_indexes[k1] < forest_flat(
                f,
                start,
                root_pos,
            )[i].children_indexes[k2]);
        } else {
            assert(tree_flat(t, start, parent)[i].children_indexes == forest_roots(f, start));
            assert(forest_roots(f, start)[k1] < forest_roots(f, start)[k2]);
        }
    }
}

#[verifier::rlimit(50)]
proof fn lemma_forest_flat_children<T>(f: Seq<DarkTree<T>>, start: int, parent: int)
    ensures
        forall|i: int, k: int|
            0 <= i < forest_flat(f, start, parent).len() && 0 <= k < forest_flat(
                f,
                start,
                parent,
            )[i].children_indexes.len() ==> {
                let c = #[trigger] forest_flat(f, start, parent)[i].children_indexes[k];
                start <= c < start + i && forest_flat(f, start, parent)[c - start].parent_index
                    == Some(start + i)
            },
        forall|i: int, k1: int, k2: int|
            0 <= i < forest_flat(f, start, parent).len() && 0 <= k1 < k2 < forest_flat(
                f,
                start,
                parent,
            )[i].children_indexes.len() ==> #[trigger] forest_flat(
                f,
                start,
                parent,
            )[i].children_indexes[k1] < #[trigger] forest_flat(
                f,
                start,
                parent,
            )[i].children_indexes[k2],
    decreases f,
{
    if f.len() > 0 {
        let sz0 = tree_size(f[0]) as int;
        lemma_tree_flat_len(f[0], start, Some(parent));
        lemma_forest_flat_len(f.skip(1), start + sz0, parent);
        lemma_tree_flat_children(f[0], start, Some(parent));
        lemma_forest_flat_children(f.skip(1), start + sz0, parent);
        assert forall|i: int, k: int|
            0 <= i < forest_flat(f, start, parent).len() && 0 <= k < forest_flat(
                f,
                start,
                parent,
            )[i].children_indexes.len() implies {
            let c = #[trigger] forest_flat(f, start, parent)[i].children_indexes[k];
            start <= c < start + i && forest_flat(f, start, parent)[c - start].parent_index == Some(
                start + i,
            )
        } by {
            if i < sz0 {
                let c = tree_flat(f[0], start, Some(parent))[i].children_indexes[k];
                assert(start <= c < start + i);
                assert(forest_flat(f, start, parent)[c - start] == tree_flat(
                    f[0],
                    start,
                    Some(parent),
                )[c - start]);
            } else {
                let rest = forest_flat(f.skip(1), start + sz0, parent);
                let c = rest[i - sz0].children_indexes[k];
                assert(start + sz0 <= c < start + i);
                assert(forest_flat(f, start, parent)[c - start] == rest[c - (start + sz0)]);
            }
        }
        assert forall|i: int, k1: int, k2: int|
            0 <= i < forest_flat(f, start, parent).len() && 0 <= k1 < k2 < forest_flat(
                f,
                start,
                parent,
            )[i].children_indexes.len() implies forest_flat(f, start, parent)[i].children_indexes[k1]
            < forest_flat(f, start, parent)[i].children_indexes[k2] by {
            if i < sz0 {
                assert(forest_flat(f, start, parent)[i] == tree_flat(f[0], start, Some(parent))[i]);
                assert(tree_flat(f[0], start, Some(parent))[i].children_indexes[k1] < tree_flat(
                    f[0],
                    start,
                    Some(parent),
                )[i].children_indexes[k2]);
            } else {
                let rest = forest_flat(f.skip(1), start + sz0, parent);
                assert(forest_flat(f, start, parent)[i] == rest[i - sz0]);
                assert(rest[i - sz0].children_indexes[k1] < rest[i - sz0].children_indexes[k2]);
            }
        }
    }
}

/// The leaf records of the tree in depth-first post-order, exactly as
/// they are stored (no index links are assigned or changed).
pub open spec fn tree_leaves<T>(t: DarkTree<T>) -> Seq<DarkLeaf<T>>
    decreases t,
{
    forest_leaves(t.children@) + seq![t.leaf]
}

/// The leaf records of an ordered sequence of subtrees, in post-order.
pub open spec fn forest_leaves<T>(f: Seq<DarkTree<T>>) -> Seq<DarkLeaf<T>>
    decreases f, 0nat,
{
    if f.len() == 0 {
        Seq::empty()
    } else {
        tree_leaves(f[0]) + forest_leaves(f.skip(1))
    }
}

/// The values behind a sequence of borrowed leaves.
pub open spec fn deref_leaves<T>(s: Seq<&DarkLeaf<T>>) -> Seq<DarkLeaf<T>> {
    s.map_values(|l: &DarkLeaf<T>| *l)
}

/// What the read-only traversal will still yield: for each suspended
/// level, from the innermost out, the leaves of its not-yet-visited
/// subtrees followed by its own leaf.
spec fn iter_future<T>(frames: Seq<(&DarkTree<T>, usize)>) -> Seq<DarkLeaf<T>>
    decreases frames.len(),
{
    if frames.len() == 0 {
        Seq::empty()
    } else {
        let node = frames.last().0;
        let cur = frames.last().1;
        forest_leaves(node.children@.skip(cur as int)) + seq![node.leaf] + iter_future(
            frames.drop_last(),
        )
    }
}

/// Strictly decreasing measure of the read-only traversal.
spec fn iter_measure<T>(frames: Seq<(&DarkTree<T>, usize)>) -> nat
    decreases frames.len(),
{
    if frames.len() == 0 {
        0
    } else {
        iter_measure(frames.drop_last()) + 2 * forest_size(
            frames.last().0.children@.skip(frames.last().1 as int),
        ) + 1
    }
}

/// One suspended level of the iterative flattening: the node's payload,
/// its still-unprocessed child subtrees, and the positions already
/// assigned to its completed children.
struct Frame<T> {
    data: T,
    rest: Vec<DarkTree<T>>,
    child_idxs: Vec<usize>,
}

ghost struct FrameModel<T> {
    data: T,
    rest: Seq<DarkTree<T>>,
    child_idxs: Seq<int>,
}

impl<T> Frame<T> {
    spec fn model(self) -> FrameModel<T> {
        FrameModel {
            data: self.data,
            rest: self.rest@,
            child_idxs: self.child_idxs@.map_values(|c: usize| c as int),
        }
    }
}

spec fn frame_models<T>(s: Seq<Frame<T>>) -> Seq<FrameModel<T>> {
    s.map_values(|f: Frame<T>| f.model())
}

/// What the flattening loop will still emit, parents erased: for each
/// suspended level, from the innermost out, the images of its remaining
/// subtrees followed by its own record.  `pending` carries the root
/// position of the level suspended above the current one, which will be
/// one of the current level's children.
spec fn frames_future<T>(frames: Seq<FrameModel<T>>, pos: int, pending: Seq<int>) -> Seq<
    LeafModel<T>,
>
    decreases frames.len(),
{
    if frames.len() == 0 {
        Seq::empty()
    } else {
        let f = frames.last();
        let root_pos = pos + forest_size(f.rest);
        erase_parents(forest_flat(f.rest, pos, root_pos)) + seq![LeafModel {
            data: f.data,
            index: root_pos,
            parent_index: None,
            children_indexes: f.child_idxs + pending + forest_roots(f.rest, pos),
        }] + frames_future(frames.drop_last(), root_pos + 1, seq![root_pos])
    }
}

/// Strictly decreasing measure of the flattening loop.
spec fn frames_measure<T>(frames: Seq<FrameModel<T>>) -> nat
    decreases frames.len(),
{
    if frames.len() == 0 {
        0
    } else {
        frames_measure(frames.drop_last()) + 2 * forest_size(frames.last().rest) + 1
    }
}

/// Exclusive access to one record of a flattened sequence.
fn leaf_mut<T>(v: &mut Vec<DarkLeaf<T>>, i: usize) -> (element: &mut DarkLeaf<T>)
    requires
        i < old(v).len(),
    ensures
        *element == old(v)@[i as int],
        final(v)@ == old(v)@.update(i as int, *final(element)),
{
    &mut v[i]
}


/// The suspended levels after descending into the next unprocessed
/// subtree of the innermost level.
spec fn push_step_models<T>(fm: Seq<FrameModel<T>>) -> Seq<FrameModel<T>>
    recommends
        fm.len() > 0,
        fm.last().rest.len() > 0,
{
    let f = fm.last();
    let child = f.rest[0];
    fm.drop_last().push(
        FrameModel { data: f.data, rest: f.rest.skip(1), child_idxs: f.child_idxs },
    ).push(FrameModel { data: child.leaf.data, rest: child.children@, child_idxs: Seq::empty() })
}

/// The suspended levels after the innermost level, exhausted, has been
/// emitted at position `n` and recorded as a child of the level below.
spec fn pop_step_models<T>(fm: Seq<FrameModel<T>>, n: int) -> Seq<FrameModel<T>>
    recommends
        fm.len() >= 2,
{
    let b = fm[fm.len() - 2];
    fm.drop_last().drop_last().push(
        FrameModel { data: b.data, rest: b.rest, child_idxs: b.child_idxs + seq![n] },
    )
}

/// Descending into a subtree rewrites the suspended levels but leaves
/// the remaining work unchanged, and shrinks the loop measure.
proof fn lemma_flatten_push_step<T>(fm: Seq<FrameModel<T>>, n: int)
    requires
        fm.len() > 0,
        fm.last().rest.len() > 0,
    ensures
        frames_future(push_step_models(fm), n, Seq::empty()) == frames_future(
            fm,
            n,
            Seq::empty(),
        ),
        frames_measure(push_step_models(fm)) < frames_measure(fm),
{
    let f = fm.last();
    let child = f.rest[0];
    let rest2 = f.rest.skip(1);
    let szc = tree_size(child) as int;
    let fm2 = push_step_models(fm);
    let pf = FrameModel { data: f.data, rest: rest2, child_idxs: f.child_idxs };
    let cf = FrameModel {
        data: child.leaf.data,
        rest: child.children@,
        child_idxs: Seq::<int>::empty(),
    };
    assert(fm2 == fm.drop_last().push(pf).push(cf));
    assert(fm2.last() == cf);
    assert(fm2.drop_last() =~= fm.drop_last().push(pf));
    assert(fm2.drop_last().last() == pf);
    assert(fm2.drop_last().drop_last() =~= fm.drop_last());

    // positions
    assert(forest_size(f.rest) == tree_size(child) + forest_size(rest2));
    let rp_c = n + forest_size(child.children@) as int;
    let rp_o = n + forest_size(f.rest) as int;
    assert(szc == 1 + forest_size(child.children@));
    assert(rp_c == n + szc - 1);

    // old work, unfolded down to the child subtree's image
    assert(frames_future(fm, n, Seq::empty()) == erase_parents(forest_flat(f.rest, n, rp_o))
        + seq![LeafModel {
            data: f.data,
            index: rp_o,
            parent_index: None,
            children_indexes: f.child_idxs + Seq::<int>::empty() + forest_roots(f.rest, n),
        }] + frames_future(fm.drop_last(), rp_o + 1, seq![rp_o]));
    assert(forest_flat(f.rest, n, rp_o) == tree_flat(child, n, Some(rp_o)) + forest_flat(
        rest2,
        n + szc,
        rp_o,
    ));
    assert(tree_flat(child, n, Some(rp_o)) == forest_flat(child.children@, n, rp_c)
        + seq![LeafModel {
            data: child.leaf.data,
            index: rp_c,
            parent_index: Some(rp_o),
            children_indexes: forest_roots(child.children@, n),
        }]);
    lemma_erase_cat(tree_flat(child, n, Some(rp_o)), forest_flat(rest2, n + szc, rp_o));
    lemma_erase_cat(
        forest_flat(child.children@, n, rp_c),
        seq![LeafModel {
            data: child.leaf.data,
            index: rp_c,
            parent_index: Some(rp_o),
            children_indexes: forest_roots(child.children@, n),
        }],
    );
    assert(erase_parents(
        seq![LeafModel {
            data: child.leaf.data,
            index: rp_c,
            parent_index: Some(rp_o),
            children_indexes: forest_roots(child.children@, n),
        }],
    ) =~= seq![LeafModel {
        data: child.leaf.data,
        index: rp_c,
        parent_index: None,
        children_indexes: forest_roots(child.children@, n),
    }]);

    // new work, unfolded twice
    assert(frames_future(fm2, n, Seq::empty()) == erase_parents(
        forest_flat(child.children@, n, rp_c),
    ) + seq![LeafModel {
        data: child.leaf.data,
        index: rp_c,
        parent_index: None,
        children_indexes: cf.child_idxs + Seq::<int>::empty() + forest_roots(child.children@, n),
    }] + frames_future(fm2.drop_last(), rp_c + 1, seq![rp_c]));
    assert(frames_future(fm2.drop_last(), rp_c + 1, seq![rp_c]) == erase_parents(
        forest_flat(rest2, rp_c + 1, rp_c + 1 + forest_size(rest2) as int),
    ) + seq![LeafModel {
        data: f.data,
        index: rp_c + 1 + forest_size(rest2) as int,
        parent_index: None,
        children_indexes: f.child_idxs + seq![rp_c] + forest_roots(rest2, rp_c + 1),
    }] + frames_future(fm.drop_last(), rp_c + 1 + forest_size(rest2) as int + 1, seq![rp_c + 1
        + forest_size(rest2) as int]));
    assert(rp_c + 1 + forest_size(rest2) as int == rp_o);

    // the two records of the level are equal: same child list
    assert(forest_roots(f.rest, n) == seq![n + szc - 1] + forest_roots(rest2, n + szc));
    assert(f.child_idxs + Seq::<int>::empty() + forest_roots(f.rest, n) =~= f.child_idxs
        + seq![rp_c] + forest_roots(rest2, rp_c + 1));
    assert(cf.child_idxs + Seq::<int>::empty() + forest_roots(child.children@, n) =~= forest_roots(
        child.children@,
        n,
    ));

    assert(frames_future(fm2, n, Seq::empty()) =~= frames_future(fm, n, Seq::empty()));

    // measure
    assert(frames_measure(fm2) == frames_measure(fm2.drop_last()) + 2 * forest_size(cf.rest) + 1);
    assert(frames_measure(fm2.drop_last()) == frames_measure(fm.drop_last()) + 2 * forest_size(
        rest2,
    ) + 1);
    assert(frames_measure(fm) == frames_measure(fm.drop_last()) + 2 * forest_size(f.rest) + 1);
}

/// Emitting the record of an exhausted level at position `n` splits the
/// remaining work into that record and the rest, and shrinks the loop
/// measure.
proof fn lemma_flatten_pop_step<T>(fm: Seq<FrameModel<T>>, n: int)
    requires
        fm.len() >= 2,
        fm.last().rest.len() == 0,
    ensures
        frames_future(fm, n, Seq::empty()) == seq![LeafModel {
            data: fm.last().data,
            index: n,
            parent_index: None,
            children_indexes: fm.last().child_idxs,
        }] + frames_future(pop_step_models(fm, n), n + 1, Seq::empty()),
        frames_measure(pop_step_models(fm, n)) < frames_measure(fm),
    decreases 0int,
{
    let f = fm.last();
    let fm2 = pop_step_models(fm, n);
    let b = fm[fm.len() - 2];
    let b2 = FrameModel { data: b.data, rest: b.rest, child_idxs: b.child_idxs + seq![n] };
    assert(fm2 == fm.drop_last().drop_last().push(b2));
    assert(fm.drop_last().last() == b);
    assert(fm.drop_last().len() == fm.len() - 1);
    assert(fm2.last() == b2);
    assert(fm2.drop_last() =~= fm.drop_last().drop_last());

    assert(forest_size(f.rest) == 0);
    assert(forest_flat(f.rest, n, n) == Seq::<LeafModel<T>>::empty());
    assert(erase_parents(forest_flat(f.rest, n, n)) =~= Seq::<LeafModel<T>>::empty());
    assert(forest_roots(f.rest, n) == Seq::<int>::empty());
    assert(f.child_idxs + Seq::<int>::empty() + Seq::<int>::empty() =~= f.child_idxs);

    // old work, one unfold
    assert(frames_future(fm, n, Seq::empty()) == erase_parents(forest_flat(f.rest, n, n))
        + seq![LeafModel {
            data: f.data,
            index: n,
            parent_index: None,
            children_indexes: f.child_idxs + Seq::<int>::empty() + forest_roots(f.rest, n),
        }] + frames_future(fm.drop_last(), n + 1, seq![n]));

    // the level below sees `n` first as pending, then as recorded: the
    // record it will eventually emit is the same either way
    let rp_b = n + 1 + forest_size(b.rest) as int;
    assert(frames_future(fm.drop_last(), n + 1, seq![n]) == erase_parents(
        forest_flat(b.rest, n + 1, rp_b),
    ) + seq![LeafModel {
        data: b.data,
        index: rp_b,
        parent_index: None,
        children_indexes: b.child_idxs + seq![n] + forest_roots(b.rest, n + 1),
    }] + frames_future(fm.drop_last().drop_last(), rp_b + 1, seq![rp_b]));
    assert(frames_future(fm2, n + 1, Seq::empty()) == erase_parents(
        forest_flat(b.rest, n + 1, rp_b),
    ) + seq![LeafModel {
        data: b.data,
        index: rp_b,
        parent_index: None,
        children_indexes: b2.child_idxs + Seq::<int>::empty() + forest_roots(b.rest, n + 1),
    }] + frames_future(fm2.drop_last(), rp_b + 1, seq![rp_b]));
    assert(b.child_idxs + seq![n] + forest_roots(b.rest, n + 1) =~= b2.child_idxs + Seq::<
        int,
    >::empty() + forest_roots(b.rest, n + 1));
    assert(frames_future(fm, n, Seq::empty()) =~= seq![LeafModel {
        data: f.data,
        index: n,
        parent_index: None,
        children_indexes: f.child_idxs,
    }] + frames_future(fm2, n + 1, Seq::empty()));

    // measure
    assert(frames_measure(fm) == frames_measure(fm.drop_last()) + 2 * forest_size(f.rest) + 1);
    assert(frames_measure(fm.drop_last()) == frames_measure(fm.drop_last().drop_last()) + 2
        * forest_size(b.rest) + 1);
    assert(frames_measure(fm2) == frames_measure(fm2.drop_last()) + 2 * forest_size(b2.rest) + 1);
}

impl<T> DarkTree<T> {
    /// Initialize a tree node from its payload and its ordered child
    /// subtrees; the leaf starts with default index links.
    pub fn new(data: T, children: Vec<DarkTree<T>>) -> (r: DarkTree<T>)
        ensures
            r.leaf.data == data,
            r.leaf.index == 0,
            r.leaf.parent_index is None,
            r.leaf.children_indexes@ == Seq::<usize>::empty(),
            r.children == children,
    {
        DarkTree { leaf: DarkLeaf::new(data), children }
    }

    /// Borrow every leaf of the tree in depth-first post-order: a node's
    /// children are yielded, left to right, before the node itself, and
    /// the root comes last.  The traversal keeps an explicit stack of
    /// suspended levels instead of recursing, so arbitrarily deep input
    /// cannot exhaust the call stack.
    #[verifier::loop_isolation(false)]
    pub fn iter(&self) -> (r: Vec<&DarkLeaf<T>>)
        ensures
            deref_leaves(r@) == tree_leaves(*self),
    {
        let mut result: Vec<&DarkLeaf<T>> = Vec::new();
        let mut stack: Vec<(&DarkTree<T>, usize)> = Vec::new();
        stack.push((self, 0));
        proof {
            assert(stack@.drop_last() =~= Seq::<(&DarkTree<T>, usize)>::empty());
            assert(self.children@.skip(0) =~= self.children@);
            assert(iter_future(stack@.drop_last()) == Seq::<DarkLeaf<T>>::empty());
            assert(deref_leaves(result@) =~= Seq::<DarkLeaf<T>>::empty());
            assert(deref_leaves(result@) + iter_future(stack@) =~= tree_leaves(*self));
        }
        while stack.len() > 0
            invariant
                deref_leaves(result@) + iter_future(stack@) == tree_leaves(*self),
                forall|fi: int|
                    0 <= fi < stack.len() ==> #[trigger] stack@[fi].1
                        <= stack@[fi].0.children@.len(),
            decreases iter_measure(stack@),
        {
            let ghost pre_stack = stack@;
            let (node, cur) = stack.pop().unwrap();
            proof {
                assert(stack@ =~= pre_stack.drop_last());
            }
            if cur < node.children.len() {
                // descend into the next unvisited subtree
                let child = vstd::std_specs::vec::vec_index(&node.children, cur);
                stack.push((node, cur + 1));
                let ghost mid_stack = stack@;
                stack.push((child, 0));
                proof {
                    let ch = node.children@;
                    assert(mid_stack.drop_last() =~= pre_stack.drop_last());
                    assert(stack@.drop_last() =~= mid_stack);
                    assert(ch.skip(cur as int)[0] == ch[cur as int]);
                    assert(ch.skip(cur as int).skip(1) =~= ch.skip(cur as int + 1));
                    assert(forest_leaves(ch.skip(cur as int)) == tree_leaves(ch[cur as int])
                        + forest_leaves(ch.skip(cur as int + 1)));
                    assert(child.children@.skip(0) =~= child.children@);
                    assert(iter_future(stack@) == forest_leaves(child.children@)
                        + seq![child.leaf] + iter_future(mid_stack));
                    assert(iter_future(mid_stack) == forest_leaves(ch.skip(cur as int + 1))
                        + seq![node.leaf] + iter_future(pre_stack.drop_last()));
                    assert(iter_future(pre_stack) == forest_leaves(ch.skip(cur as int))
                        + seq![node.leaf] + iter_future(pre_stack.drop_last()));
                    assert(iter_future(stack@) =~= iter_future(pre_stack));
                    // measure
                    assert(iter_measure(mid_stack) == iter_measure(pre_stack.drop_last()) + 2
                        * forest_size(ch.skip(cur as int + 1)) + 1);
                    assert(iter_measure(stack@) == iter_measure(mid_stack) + 2 * forest_size(
                        child.children@,
                    ) + 1);
                    assert(iter_measure(pre_stack) == iter_measure(pre_stack.drop_last()) + 2
                        * forest_size(ch.skip(cur as int)) + 1);
                    assert(forest_size(ch.skip(cur as int)) == tree_size(ch[cur as int])
                        + forest_size(ch.skip(cur as int + 1)));
                }
            } else {
                // this level is exhausted: yield its own leaf
                let ghost pre_result = result@;
                result.push(&node.leaf);
                proof {
                    let ch = node.children@;
                    assert(ch.skip(cur as int) =~= Seq::<DarkTree<T>>::empty());
                    assert(forest_leaves(ch.skip(cur as int)) == Seq::<DarkLeaf<T>>::empty());
                    assert(iter_future(pre_stack) =~= seq![node.leaf] + iter_future(stack@));
                    assert(deref_leaves(result@) =~= deref_leaves(pre_result).push(node.leaf));
                    assert(deref_leaves(result@) + iter_future(stack@) =~= tree_leaves(*self));
                    assert(iter_measure(pre_stack) == iter_measure(stack@) + 1);
                }
            }
        }
        proof {
            assert(deref_leaves(result@) + iter_future(stack@) =~= deref_leaves(result@));
        }
        result
    }

    /// Consume the tree into its flattened wire form: the leaves in
    /// depth-first post-order, each record's `index`, `parent_index` and
    /// `children_indexes` assigned from that numbering.  The traversal
    /// keeps an explicit stack of suspended levels instead of recursing,
    /// so arbitrarily deep input cannot exhaust the call stack.
    #[verifier::loop_isolation(false)]
    pub fn flatten(self) -> (r: Vec<DarkLeaf<T>>)
        ensures
            leaf_models(r@) == tree_flat(self, 0, None),
    {
        let ghost t0 = self;
        let ghost g: Seq<LeafModel<T>> = tree_flat(t0, 0, None);
        let ghost eg: Seq<LeafModel<T>> = erase_parents(g);

        let mut result: Vec<DarkLeaf<T>> = Vec::new();
        let mut stack: Vec<Frame<T>> = Vec::new();
        let DarkTree { leaf, children } = self;
        stack.push(Frame { data: leaf.data, rest: children, child_idxs: Vec::new() });

        proof {
            lemma_tree_flat_len(t0, 0, None);
            let rp = 0 + forest_size(t0.children@) as int;
            let root = LeafModel {
                data: t0.leaf.data,
                index: rp,
                parent_index: None,
                children_indexes: forest_roots(t0.children@, 0),
            };
            assert(g == forest_flat(t0.children@, 0, rp) + seq![root]);
            lemma_erase_cat(forest_flat(t0.children@, 0, rp), seq![root]);
            assert(erase_parents(seq![root]) =~= seq![root]);
            let fm = frame_models(stack@);
            assert(fm.len() == 1);
            assert(fm.last() == stack@[0].model());
            assert(fm.last().rest == t0.children@);
            assert(fm.last().data == t0.leaf.data);
            assert(fm.last().child_idxs =~= Seq::<int>::empty());
            assert(fm.drop_last() =~= Seq::<FrameModel<T>>::empty());
            assert(frames_future(fm.drop_last(), rp + 1, seq![rp]) == Seq::<
                LeafModel<T>,
            >::empty());
            assert(frames_future(fm, 0, Seq::empty()) == erase_parents(
                forest_flat(fm.last().rest, 0, rp),
            ) + seq![LeafModel {
                data: fm.last().data,
                index: rp,
                parent_index: None,
                children_indexes: fm.last().child_idxs + Seq::<int>::empty() + forest_roots(
                    fm.last().rest,
                    0,
                ),
            }] + frames_future(fm.drop_last(), rp + 1, seq![rp]));
            assert(fm.last().child_idxs + Seq::<int>::empty() + forest_roots(fm.last().rest, 0)
                =~= forest_roots(t0.children@, 0));
            assert(erase_parents(leaf_models(result@)) =~= Seq::<LeafModel<T>>::empty());
            assert(erase_parents(leaf_models(result@)) + frames_future(fm, 0, Seq::empty())
                =~= eg);
        }

        while stack.len() > 0
            invariant
                erase_parents(leaf_models(result@)) + frames_future(
                    frame_models(stack@),
                    result.len() as int,
                    Seq::empty(),
                ) == eg,
                // a parent link is either already correct or still unset
                forall|i: int|
                    0 <= i < result.len() ==> #[trigger] leaf_models(result@)[i].parent_index
                        == g[i].parent_index || leaf_models(result@)[i].parent_index is None,
                // positions recorded by suspended levels are emitted and parentless
                forall|fi: int, k: int|
                    0 <= fi < stack.len() && 0 <= k < frame_models(stack@)[fi].child_idxs.len()
                        ==> {
                        let c = #[trigger] frame_models(stack@)[fi].child_idxs[k];
                        0 <= c < result.len() && leaf_models(result@)[c].parent_index is None
                    },
                // recorded positions grow strictly from outer to inner levels
                forall|fi1: int, k1: int, fi2: int, k2: int|
                    0 <= fi1 < fi2 < stack.len() && 0 <= k1 < frame_models(
                        stack@,
                    )[fi1].child_idxs.len() && 0 <= k2 < frame_models(stack@)[fi2].child_idxs.len()
                        ==> #[trigger] frame_models(stack@)[fi1].child_idxs[k1]
                        < #[trigger] frame_models(stack@)[fi2].child_idxs[k2],
                // a parentless record is claimed by a suspended level, or is the
                // finished root
                forall|i: int|
                    0 <= i < result.len() && #[trigger] leaf_models(result@)[i].parent_index
                        is None ==> (stack.len() == 0 && i == result.len() - 1) || (exists|
                        fi: int,
                        k: int,
                    |
                        0 <= fi < stack.len() && 0 <= k < frame_models(
                            stack@,
                        )[fi].child_idxs.len() && frame_models(stack@)[fi].child_idxs[k] == i),
            decreases frames_measure(frame_models(stack@)),
        {
            let ghost pre_stack = stack@;
            let ghost pre_fm = frame_models(pre_stack);
            let ghost pre_result = result@;
            let n = result.len();
            proof {
                assert(erase_parents(leaf_models(pre_result)).len() == n);
            }
            let mut f = stack.pop().unwrap();
            proof {
                assert(pre_fm.last() == f.model());
                assert(frame_models(stack@) =~= pre_fm.drop_last());
            }
            if f.rest.len() > 0 {
                // descend into the next unprocessed subtree
                let child = f.rest.remove(0);
                proof {
                    assert(f.rest@ =~= pre_fm.last().rest.skip(1));
                    assert(child == pre_fm.last().rest[0]);
                }
                stack.push(f);
                let DarkTree { leaf: cleaf, children: cchildren } = child;
                stack.push(Frame { data: cleaf.data, rest: cchildren, child_idxs: Vec::new() });
                proof {
                    let fm2 = push_step_models(pre_fm);
                    assert(stack@.last().model().child_idxs =~= Seq::<int>::empty());
                    assert(frame_models(stack@) =~= fm2);
                    lemma_flatten_push_step(pre_fm, n as int);
                    // the recorded positions of each level are unchanged
                    assert forall|fi: int, k: int|
                        0 <= fi < stack.len() && 0 <= k < frame_models(
                            stack@,
                        )[fi].child_idxs.len() implies {
                        let c = #[trigger] frame_models(stack@)[fi].child_idxs[k];
                        0 <= c < result.len() && leaf_models(result@)[c].parent_index is None
                    } by {
                        if fi < stack.len() - 2 {
                            assert(frame_models(stack@)[fi] == pre_fm[fi]);
                        } else if fi == stack.len() - 2 {
                            assert(frame_models(stack@)[fi].child_idxs == pre_fm[pre_fm.len()
                                - 1].child_idxs);
                        }
                    }
                    assert forall|fi1: int, k1: int, fi2: int, k2: int|
                        0 <= fi1 < fi2 < stack.len() && 0 <= k1 < frame_models(
                            stack@,
                        )[fi1].child_idxs.len() && 0 <= k2 < frame_models(
                            stack@,
                        )[fi2].child_idxs.len() implies frame_models(stack@)[fi1].child_idxs[k1]
                        < frame_models(stack@)[fi2].child_idxs[k2] by {
                        if fi2 < stack.len() - 2 {
                            assert(frame_models(stack@)[fi1] == pre_fm[fi1]);
                            assert(frame_models(stack@)[fi2] == pre_fm[fi2]);
                        } else if fi2 == stack.len() - 2 {
                            assert(frame_models(stack@)[fi1] == pre_fm[fi1]);
                            assert(frame_models(stack@)[fi2].child_idxs == pre_fm[pre_fm.len()
                                - 1].child_idxs);
                        }
                    }
                    assert forall|i: int|
                        0 <= i < result.len() && #[trigger] leaf_models(result@)[i].parent_index
                            is None implies (exists|fi: int, k: int|
                        0 <= fi < stack.len() && 0 <= k < frame_models(
                            stack@,
                        )[fi].child_idxs.len() && frame_models(stack@)[fi].child_idxs[k]
                            == i) by {
                        let (fi, k): (int, int) = choose|fi: int, k: int|
                            0 <= fi < pre_stack.len() && 0 <= k < pre_fm[fi].child_idxs.len()
                                && pre_fm[fi].child_idxs[k] == i;
                        if fi < pre_stack.len() - 1 {
                            assert(frame_models(stack@)[fi] == pre_fm[fi]);
                            assert(frame_models(stack@)[fi].child_idxs[k] == i);
                        } else {
                            assert(frame_models(stack@)[pre_stack.len() - 1].child_idxs[k] == i);
                        }
                    }
                }
            } else {
                // this level is exhausted: emit its record and patch the
                // parent links of its children
                let ghost fmodel = f.model();
                let ghost cidx = fmodel.child_idxs;
                let ghost future0 = frames_future(pre_fm, n as int, Seq::empty());
                proof {
                    assert(f.rest@.len() == 0);
                    assert(forest_flat(f.rest@, n as int, n as int) == Seq::<
                        LeafModel<T>,
                    >::empty());
                    assert(erase_parents(forest_flat(f.rest@, n as int, n as int)) =~= Seq::<
                        LeafModel<T>,
                    >::empty());
                    assert(forest_roots(f.rest@, n as int) == Seq::<int>::empty());
                    assert(cidx + Seq::<int>::empty() + Seq::<int>::empty() =~= cidx);
                    assert(future0 == erase_parents(forest_flat(f.rest@, n as int, n as int))
                        + seq![LeafModel {
                            data: fmodel.data,
                            index: n as int,
                            parent_index: None,
                            children_indexes: cidx + Seq::<int>::empty() + Seq::<int>::empty(),
                        }] + frames_future(pre_fm.drop_last(), n as int + 1, seq![n as int]));
                    assert(future0[0] == LeafModel {
                        data: fmodel.data,
                        index: n as int,
                        parent_index: None,
                        children_indexes: cidx,
                    });
                    assert(eg[n as int] == (erase_parents(leaf_models(pre_result))
                        + future0)[n as int]);
                    assert(eg[n as int] == future0[0]);
                    assert(n < eg.len());
                    assert(eg[n as int] == LeafModel { parent_index: None, ..g[n as int] });
                    assert(g[n as int].children_indexes == cidx);
                    lemma_tree_flat_len(t0, 0, None);
                    lemma_tree_flat_children(t0, 0, None);
                    assert forall|k2: int| 0 <= k2 < cidx.len() implies 0 <= #[trigger] cidx[k2]
                        < n && g[cidx[k2]].parent_index == Some(n as int) by {
                        assert(g[n as int].children_indexes[k2] == cidx[k2]);
                    }
                }
                let mut k: usize = 0;
                while k < f.child_idxs.len()
                    invariant
                        0 <= k <= f.child_idxs.len(),
                        result.len() == n,
                        erase_parents(leaf_models(result@)) == erase_parents(
                            leaf_models(pre_result),
                        ),
                        forall|k2: int|
                            0 <= k2 < k ==> #[trigger] leaf_models(result@)[cidx[k2]].parent_index
                                == Some(n as int),
                        forall|i: int|
                            0 <= i < n && !(exists|k2: int| 0 <= k2 < k && cidx[k2] == i)
                                ==> #[trigger] leaf_models(result@)[i].parent_index == leaf_models(
                                pre_result,
                            )[i].parent_index,
                    decreases f.child_idxs.len() - k,
                {
                    let c = f.child_idxs[k];
                    proof {
                        assert(cidx[k as int] == c as int);
                    }
                    let ghost mid = result@;
                    let lr = leaf_mut(&mut result, c);
                    lr.parent_index = Some(n);
                    proof {
                        assert(result@ == mid.update(
                            c as int,
                            DarkLeaf { parent_index: Some(n), ..mid[c as int] },
                        ));
                        assert(leaf_models(result@)[c as int].parent_index == Some(n as int));
                        assert forall|i: int| 0 <= i < n && i != c implies leaf_models(result@)[i]
                            == leaf_models(mid)[i] by {
                            assert(result@[i] == mid[i]);
                        }
                        assert(erase_parents(leaf_models(result@)) =~= erase_parents(
                            leaf_models(mid),
                        ));
                        assert forall|k2: int|
                            0 <= k2 < k + 1 implies #[trigger] leaf_models(
                            result@,
                        )[cidx[k2]].parent_index == Some(n as int) by {
                            if cidx[k2] == c as int {
                                assert(leaf_models(result@)[c as int].parent_index == Some(
                                    n as int,
                                ));
                            } else {
                                assert(leaf_models(result@)[cidx[k2]] == leaf_models(
                                    mid,
                                )[cidx[k2]]);
                            }
                        }
                        assert forall|i: int|
                            0 <= i < n && !(exists|k2: int| 0 <= k2 < k + 1 && cidx[k2] == i)
                                implies #[trigger] leaf_models(result@)[i].parent_index
                            == leaf_models(pre_result)[i].parent_index by {
                            if i == c as int {
                                assert(0 <= (k as int) < k + 1 && cidx[k as int] == i);
                                assert(false);
                            }
                            assert(leaf_models(result@)[i] == leaf_models(mid)[i]);
                            assert(!(exists|k2: int| 0 <= k2 < k && cidx[k2] == i)) by {
                                if exists|k2: int| 0 <= k2 < k && cidx[k2] == i {
                                    let k2 = choose|k2: int| 0 <= k2 < k && cidx[k2] == i;
                                    assert(0 <= k2 < k + 1 && cidx[k2] == i);
                                    assert(false);
                                }
                            }
                        }
                    }
                    k += 1;
                }
                let ghost fixed = result@;
                result.push(DarkLeaf {
                    data: f.data,
                    index: n,
                    parent_index: None,
                    children_indexes: f.child_idxs,
                });
                proof {
                    assert(result@ == fixed.push(result@[n as int]));
                    assert forall|i: int| 0 <= i < n implies #[trigger] leaf_models(result@)[i]
                        == leaf_models(fixed)[i] by {
                        assert(result@[i] == fixed[i]);
                    }
                    assert(leaf_models(result@)[n as int] == LeafModel {
                        data: fmodel.data,
                        index: n as int,
                        parent_index: None,
                        children_indexes: cidx,
                    });
                    assert(erase_parents(leaf_models(result@)) =~= erase_parents(
                        leaf_models(pre_result),
                    ).push(eg[n as int]));
                }
                if stack.len() > 0 {
                    let mut pf = stack.pop().unwrap();
                    pf.child_idxs.push(n);
                    stack.push(pf);
                    proof {
                        let fm2 = pop_step_models(pre_fm, n as int);
                        assert(pf.model().child_idxs =~= pre_fm[pre_fm.len()
                            - 2].child_idxs + seq![n as int]);
                        assert(frame_models(stack@) =~= fm2);
                        lemma_flatten_pop_step(pre_fm, n as int);
                        assert(erase_parents(leaf_models(result@)) + frames_future(
                            frame_models(stack@),
                            result.len() as int,
                            Seq::empty(),
                        ) =~= eg);
                        // recorded positions: old levels keep theirs, the level
                        // below gains position n
                        assert forall|fi: int, kk: int|
                            0 <= fi < stack.len() && 0 <= kk < frame_models(
                                stack@,
                            )[fi].child_idxs.len() implies {
                            let c = #[trigger] frame_models(stack@)[fi].child_idxs[kk];
                            0 <= c < result.len() && leaf_models(result@)[c].parent_index is None
                        } by {
                            if fi < stack.len() - 1 {
                                assert(frame_models(stack@)[fi] == pre_fm[fi]);
                                let c = pre_fm[fi].child_idxs[kk];
                                // strictly below every position of the emitted
                                // level, so the patching loop did not touch it
                                assert(0 <= c < n);
                                assert(!(exists|k2: int| 0 <= k2 < cidx.len() && cidx[k2] == c))
                                    by {
                                    if exists|k2: int| 0 <= k2 < cidx.len() && cidx[k2] == c {
                                        let k2 = choose|k2: int|
                                            0 <= k2 < cidx.len() && cidx[k2] == c;
                                        assert(pre_fm[fi].child_idxs[kk] < pre_fm[pre_stack.len()
                                            - 1].child_idxs[k2]);
                                    }
                                }
                                assert(leaf_models(result@)[c].parent_index == leaf_models(
                                    pre_result,
                                )[c].parent_index);
                            } else {
                                let c = frame_models(stack@)[fi].child_idxs[kk];
                                if kk < frame_models(stack@)[fi].child_idxs.len() - 1 {
                                    assert(c == pre_fm[pre_stack.len() - 2].child_idxs[kk]);
                                    assert(0 <= c < n);
                                    assert(!(exists|k2: int|
                                        0 <= k2 < cidx.len() && cidx[k2] == c)) by {
                                        if exists|k2: int| 0 <= k2 < cidx.len() && cidx[k2] == c {
                                            let k2 = choose|k2: int|
                                                0 <= k2 < cidx.len() && cidx[k2] == c;
                                            assert(pre_fm[pre_stack.len() - 2].child_idxs[kk]
                                                < pre_fm[pre_stack.len() - 1].child_idxs[k2]);
                                        }
                                    }
                                    assert(leaf_models(result@)[c].parent_index == leaf_models(
                                        pre_result,
                                    )[c].parent_index);
                                } else {
                                    assert(c == n as int);
                                    assert(leaf_models(result@)[n as int].parent_index is None);
                                }
                            }
                        }
                        assert forall|fi1: int, k1: int, fi2: int, k2: int|
                            0 <= fi1 < fi2 < stack.len() && 0 <= k1 < frame_models(
                                stack@,
                            )[fi1].child_idxs.len() && 0 <= k2 < frame_models(
                                stack@,
                            )[fi2].child_idxs.len() implies frame_models(
                            stack@,
                        )[fi1].child_idxs[k1] < frame_models(stack@)[fi2].child_idxs[k2] by {
                            assert(frame_models(stack@)[fi1] == pre_fm[fi1]);
                            if fi2 < stack.len() - 1 {
                                assert(frame_models(stack@)[fi2] == pre_fm[fi2]);
                            } else {
                                if k2 < frame_models(stack@)[fi2].child_idxs.len() - 1 {
                                    assert(frame_models(stack@)[fi2].child_idxs[k2]
                                        == pre_fm[pre_stack.len() - 2].child_idxs[k2]);
                                } else {
                                    assert(frame_models(stack@)[fi2].child_idxs[k2] == n as int);
                                    assert(pre_fm[fi1].child_idxs[k1] < n);
                                }
                            }
                        }
                        // parent links are correct or unset
                        assert forall|i: int| 0 <= i < result.len() implies #[trigger] leaf_models(
                            result@,
                        )[i].parent_index == g[i].parent_index || leaf_models(
                            result@,
                        )[i].parent_index is None by {
                            if i < n {
                                if exists|k2: int| 0 <= k2 < cidx.len() && cidx[k2] == i {
                                    let k2 = choose|k2: int|
                                        0 <= k2 < cidx.len() && cidx[k2] == i;
                                    assert(leaf_models(result@)[cidx[k2]].parent_index == Some(
                                        n as int,
                                    ));
                                    assert(g[i].parent_index == Some(n as int));
                                } else {
                                    assert(leaf_models(result@)[i].parent_index == leaf_models(
                                        pre_result,
                                    )[i].parent_index);
                                }
                            }
                        }
                        // unset links are claimed
                        assert forall|i: int|
                            0 <= i < result.len() && #[trigger] leaf_models(
                                result@,
                            )[i].parent_index is None implies (exists|fi: int, kk: int|
                            0 <= fi < stack.len() && 0 <= kk < frame_models(
                                stack@,
                            )[fi].child_idxs.len() && frame_models(stack@)[fi].child_idxs[kk]
                                == i) by {
                            let newtop = stack.len() - 1;
                            let newlen = frame_models(stack@)[newtop].child_idxs.len();
                            if i == n {
                                assert(frame_models(stack@)[newtop].child_idxs[newlen - 1]
                                    == n as int);
                            } else {
                                assert(leaf_models(result@)[i].parent_index == leaf_models(
                                    pre_result,
                                )[i].parent_index || (exists|k2: int|
                                    0 <= k2 < cidx.len() && cidx[k2] == i));
                                if exists|k2: int| 0 <= k2 < cidx.len() && cidx[k2] == i {
                                    assert(leaf_models(result@)[i].parent_index == Some(n as int));
                                    assert(false);
                                }
                                let (fi, kk): (int, int) = choose|fi: int, kk: int|
                                    0 <= fi < pre_stack.len() && 0 <= kk < pre_fm[fi].child_idxs.len()
                                        && pre_fm[fi].child_idxs[kk] == i;
                                assert(fi < pre_stack.len() - 1);
                                if fi < pre_stack.len() - 2 {
                                    assert(frame_models(stack@)[fi] == pre_fm[fi]);
                                    assert(frame_models(stack@)[fi].child_idxs[kk] == i);
                                } else {
                                    assert(frame_models(stack@)[newtop].child_idxs[kk] == i);
                                }
                            }
                        }
                    }
                } else {
                    proof {
                        assert(frame_models(stack@).len() == 0);
                        assert(frames_future(
                            frame_models(stack@),
                            result.len() as int,
                            Seq::empty(),
                        ) == Seq::<LeafModel<T>>::empty());
                        assert(pre_fm.drop_last() =~= frame_models(stack@));
                        assert(future0 == seq![eg[n as int]] + frames_future(
                            frame_models(stack@),
                            n as int + 1,
                            seq![n as int],
                        ));
                        assert(frames_future(frame_models(stack@), n as int + 1, seq![n as int])
                            == Seq::<LeafModel<T>>::empty());
                        assert(erase_parents(leaf_models(result@)) + frames_future(
                            frame_models(stack@),
                            result.len() as int,
                            Seq::empty(),
                        ) =~= eg);
                        assert forall|i: int| 0 <= i < result.len() implies #[trigger] leaf_models(
                            result@,
                        )[i].parent_index == g[i].parent_index || leaf_models(
                            result@,
                        )[i].parent_index is None by {
                            if i < n {
                                if exists|k2: int| 0 <= k2 < cidx.len() && cidx[k2] == i {
                                    let k2 = choose|k2: int|
                                        0 <= k2 < cidx.len() && cidx[k2] == i;
                                    assert(leaf_models(result@)[cidx[k2]].parent_index == Some(
                                        n as int,
                                    ));
                                    assert(g[i].parent_index == Some(n as int));
                                } else {
                                    assert(leaf_models(result@)[i].parent_index == leaf_models(
                                        pre_result,
                                    )[i].parent_index);
                                }
                            }
                        }
                        assert forall|i: int|
                            0 <= i < result.len() && #[trigger] leaf_models(
                                result@,
                            )[i].parent_index is None implies (stack.len() == 0 && i
                            == result.len() - 1) by {
                            if i < n {
                                assert(leaf_models(result@)[i].parent_index == leaf_models(
                                    pre_result,
                                )[i].parent_index || (exists|k2: int|
                                    0 <= k2 < cidx.len() && cidx[k2] == i));
                                if exists|k2: int| 0 <= k2 < cidx.len() && cidx[k2] == i {
                                    assert(leaf_models(result@)[i].parent_index == Some(n as int));
                                    assert(false);
                                }
                                // claimed by some suspended level of the old
                                // stack, but the only level was the one popped
                                let (fi, kk): (int, int) = choose|fi: int, kk: int|
                                    0 <= fi < pre_stack.len() && 0 <= kk < pre_fm[fi].child_idxs.len()
                                        && pre_fm[fi].child_idxs[kk] == i;
                                assert(fi == pre_stack.len() - 1);
                                assert(false);
                            }
                        }
                    }
                }
            }
        }
        proof {
            lemma_tree_flat_len(t0, 0, None);
            lemma_tree_flat_parent_some(t0, 0, None);
            assert(frames_future(
                frame_models(stack@),
                result.len() as int,
                Seq::empty(),
            ) == Seq::<LeafModel<T>>::empty());
            assert(erase_parents(leaf_models(result@)) + Seq::<LeafModel<T>>::empty()
                =~= erase_parents(leaf_models(result@)));
            assert(erase_parents(leaf_models(result@)) == eg);
            assert(leaf_models(result@).len() == g.len());
            assert forall|i: int| 0 <= i < g.len() implies leaf_models(result@)[i] == g[i] by {
                assert(erase_parents(leaf_models(result@))[i] == eg[i]);
                if leaf_models(result@)[i].parent_index is None {
                    assert(i == result.len() - 1);
                    assert(g[i].parent_index is None);
                } else {
                    assert(leaf_models(result@)[i].parent_index == g[i].parent_index);
                }
            }
            assert(leaf_models(result@) =~= g);
        }
        result
    }
}

/// Mathematical image of a nested tree: the same nesting over leaf
/// models.
pub ghost struct TreeModel<T> {
    pub leaf: LeafModel<T>,
    pub children: Seq<TreeModel<T>>,
}

/// The model of a nested tree, leaf records as stored.
pub open spec fn tree_model<T>(t: DarkTree<T>) -> TreeModel<T>
    decreases t,
{
    TreeModel { leaf: t.leaf.model(), children: forest_model(t.children@) }
}

pub open spec fn forest_model<T>(f: Seq<DarkTree<T>>) -> Seq<TreeModel<T>>
    decreases f, 0nat,
{
    if f.len() == 0 {
        Seq::empty()
    } else {
        seq![tree_model(f[0])] + forest_model(f.skip(1))
    }
}

/// The model of a nested tree with its post-order index links assigned,
/// as [`DarkTree::flatten`] assigns them: the mirror of [`tree_flat`]
/// in nested form.
pub open spec fn indexed_model<T>(t: DarkTree<T>, start: int, parent: Option<int>) -> TreeModel<T>
    decreases t,
{
    TreeModel {
        leaf: LeafModel {
            data: t.leaf.data,
            index: start + forest_size(t.children@),
            parent_index: parent,
            children_indexes: forest_roots(t.children@, start),
        },
        children: indexed_forest(t.children@, start, start + forest_size(t.children@)),
    }
}

pub open spec fn indexed_forest<T>(f: Seq<DarkTree<T>>, start: int, parent: int) -> Seq<
    TreeModel<T>,
>
    decreases f, 0nat,
{
    if f.len() == 0 {
        Seq::empty()
    } else {
        seq![indexed_model(f[0], start, Some(parent))] + indexed_forest(
            f.skip(1),
            start + tree_size(f[0]),
            parent,
        )
    }
}

/// Two tree models carry the same payloads in the same nesting,
/// whatever their index links say.
pub open spec fn same_shape<T>(a: TreeModel<T>, b: TreeModel<T>) -> bool
    decreases a,
{
    &&& a.leaf.data == b.leaf.data
    &&& a.children.len() == b.children.len()
    &&& forall|j: int|
        0 <= j < a.children.len() ==> same_shape(#[trigger] a.children[j], b.children[j])
}

/// One step of the rebuilding machine: the record's children must be
/// the subtrees on top of the stack, identified by their root indices;
/// they are popped and attached, and the new subtree is pushed.
pub open spec fn build_step<T>(stack: Seq<TreeModel<T>>, l: LeafModel<T>) -> Option<
    Seq<TreeModel<T>>,
> {
    let k = l.children_indexes.len() as int;
    if stack.len() >= k && (forall|m: int|
        0 <= m < k ==> (#[trigger] stack[stack.len() - k + m].leaf).index
            == l.children_indexes[m]) {
        Some(
            stack.take(stack.len() - k).push(
                TreeModel { leaf: l, children: stack.skip(stack.len() - k) },
            ),
        )
    } else {
        None
    }
}

/// The rebuilding machine run over a record sequence, front to back.
pub open spec fn build_fold<T>(stack: Seq<TreeModel<T>>, s: Seq<LeafModel<T>>) -> Option<
    Seq<TreeModel<T>>,
>
    decreases s.len(),
{
    if s.len() == 0 {
        Some(stack)
    } else {
        match build_fold(stack, s.drop_last()) {
            Some(st) => build_step(st, s.last()),
            None => None,
        }
    }
}

/// What rebuilding a record sequence yields: the machine must end with
/// exactly one tree on its stack.
pub open spec fn build_run<T>(s: Seq<LeafModel<T>>) -> Option<TreeModel<T>> {
    match build_fold(Seq::empty(), s) {
        Some(st) => if st.len() == 1 {
            Some(st[0])
        } else {
            None
        },
        None => None,
    }
}

/// Once the machine fails on a prefix, it fails on the whole sequence.
proof fn lemma_build_fold_none<T>(stack: Seq<TreeModel<T>>, s: Seq<LeafModel<T>>, j: int)
    requires
        0 <= j <= s.len(),
        build_fold(stack, s.take(j)) is None,
    ensures
        build_fold(stack, s) is None,
    decreases s.len() - j,
{
    if j == s.len() {
        assert(s.take(j) =~= s);
    } else {
        assert(s.take(j + 1).drop_last() =~= s.take(j));
        assert(s.take(j + 1).last() == s[j]);
        assert(build_fold(stack, s.take(j + 1)) is None);
        lemma_build_fold_none(stack, s, j + 1);
    }
}

/// The machine over a concatenation runs the first part, then the rest.
proof fn lemma_build_fold_cat<T>(stack: Seq<TreeModel<T>>, a: Seq<LeafModel<T>>, b: Seq<LeafModel<T>>)
    ensures
        build_fold(stack, a + b) == (match build_fold(stack, a) {
            Some(m) => build_fold(m, b),
            None => None,
        }),
    decreases b.len(),
{
    if b.len() == 0 {
        assert(a + b =~= a);
    } else {
        assert((a + b).drop_last() =~= a + b.drop_last());
        assert((a + b).last() == b.last());
        lemma_build_fold_cat(stack, a, b.drop_last());
    }
}

/// The root index of each rebuilt subtree of a forest equals the
/// corresponding entry of the parent's child list.
proof fn lemma_indexed_forest_roots<T>(f: Seq<DarkTree<T>>, start: int, parent: int)
    ensures
        indexed_forest(f, start, parent).len() == f.len(),
        forall|j: int|
            0 <= j < f.len() ==> (#[trigger] indexed_forest(f, start, parent)[j].leaf).index
                == forest_roots(f, start)[j],
    decreases f,
{
    if f.len() > 0 {
        lemma_indexed_forest_roots(f.skip(1), start + tree_size(f[0]), parent);
        lemma_forest_flat_len(f, start, parent);
        lemma_forest_flat_len(f.skip(1), start + tree_size(f[0]), parent);
        assert forall|j: int|
            0 <= j < f.len() implies (#[trigger] indexed_forest(f, start, parent)[j].leaf).index
            == forest_roots(f, start)[j] by {
            if j == 0 {
                assert(indexed_forest(f, start, parent)[0] == indexed_model(
                    f[0],
                    start,
                    Some(parent),
                ));
                assert(tree_size(f[0]) == 1 + forest_size(f[0].children@));
            } else {
                assert(indexed_forest(f, start, parent)[j] == indexed_forest(
                    f.skip(1),
                    start + tree_size(f[0]),
                    parent,
                )[j - 1]);
                assert(forest_roots(f, start)[j] == forest_roots(
                    f.skip(1),
                    start + tree_size(f[0]),
                )[j - 1]);
            }
        }
    }
}

/// Running the machine over the flattened image of a tree pushes
/// exactly the indexed model of that tree.
proof fn lemma_build_tree<T>(
    t: DarkTree<T>,
    start: int,
    parent: Option<int>,
    stack: Seq<TreeModel<T>>,
)
    ensures
        build_fold(stack, tree_flat(t, start, parent)) == Some(
            stack.push(indexed_model(t, start, parent)),
        ),
    decreases t,
{
    let f = t.children@;
    let root_pos = start + forest_size(f);
    let root = LeafModel {
        data: t.leaf.data,
        index: root_pos,
        parent_index: parent,
        children_indexes: forest_roots(t.children@, start),
    };
    lemma_build_forest(f, start, root_pos, stack);
    lemma_build_fold_cat(stack, forest_flat(f, start, root_pos), seq![root]);
    let st1 = stack + indexed_forest(f, start, root_pos);
    assert(build_fold(st1, seq![root]) == build_step(st1, root)) by {
        let e = Seq::<LeafModel<T>>::empty();
        assert(seq![root].drop_last() =~= e);
        assert(build_fold(st1, e) == Some(st1));
        assert(seq![root].last() == root);
    }
    lemma_indexed_forest_roots(f, start, root_pos);
    lemma_forest_flat_len(f, start, root_pos);
    let k = root.children_indexes.len() as int;
    assert(k == f.len());
    assert(st1.len() == stack.len() + f.len());
    assert forall|m: int| 0 <= m < k implies (#[trigger] st1[st1.len() - k + m].leaf).index
        == root.children_indexes[m] by {
        assert(st1[stack.len() + m] == indexed_forest(f, start, root_pos)[m]);
    }
    assert(st1.take(st1.len() - k) =~= stack);
    assert(st1.skip(st1.len() - k) =~= indexed_forest(f, start, root_pos));
    assert(build_step(st1, root) == Some(
        stack.push(TreeModel { leaf: root, children: indexed_forest(f, start, root_pos) }),
    ));
    assert(TreeModel { leaf: root, children: indexed_forest(f, start, root_pos) } == indexed_model(
        t,
        start,
        parent,
    ));
}

proof fn lemma_build_forest<T>(
    f: Seq<DarkTree<T>>,
    start: int,
    parent: int,
    stack: Seq<TreeModel<T>>,
)
    ensures
        build_fold(stack, forest_flat(f, start, parent)) == Some(
            stack + indexed_forest(f, start, parent),
        ),
    decreases f,
{
    if f.len() == 0 {
        assert(stack + indexed_forest(f, start, parent) =~= stack);
    } else {
        let sz0 = tree_size(f[0]) as int;
        lemma_build_tree(f[0], start, Some(parent), stack);
        lemma_build_forest(f.skip(1), start + sz0, parent, stack.push(indexed_model(f[0], start, Some(parent))));
        lemma_build_fold_cat(
            stack,
            tree_flat(f[0], start, Some(parent)),
            forest_flat(f.skip(1), start + sz0, parent),
        );
        assert(stack.push(indexed_model(f[0], start, Some(parent))) + indexed_forest(
            f.skip(1),
            start + sz0,
            parent,
        ) =~= stack + indexed_forest(f, start, parent));
    }
}

/// The recursive forest model is the pointwise model of each subtree.
proof fn lemma_forest_model_is_map<T>(f: Seq<DarkTree<T>>)
    ensures
        forest_model(f) == forest_model_of(f),
    decreases f,
{
    if f.len() > 0 {
        lemma_forest_model_is_map(f.skip(1));
        assert(forest_model(f) =~= forest_model_of(f));
    }
}

/// The indexed model of a tree has the same payloads and nesting as the
/// tree itself.
proof fn lemma_indexed_same_shape<T>(t: DarkTree<T>, start: int, parent: Option<int>)
    ensures
        same_shape(indexed_model(t, start, parent), tree_model(t)),
    decreases t,
{
    lemma_indexed_forest_same_shape(t.children@, start, start + forest_size(t.children@));
}

proof fn lemma_indexed_forest_same_shape<T>(f: Seq<DarkTree<T>>, start: int, parent: int)
    ensures
        indexed_forest(f, start, parent).len() == f.len(),
        forest_model(f).len() == f.len(),
        forall|j: int|
            0 <= j < f.len() ==> same_shape(
                #[trigger] indexed_forest(f, start, parent)[j],
                forest_model(f)[j],
            ),
    decreases f,
{
    if f.len() > 0 {
        lemma_indexed_same_shape(f[0], start, Some(parent));
        lemma_indexed_forest_same_shape(f.skip(1), start + tree_size(f[0]), parent);
    }
}

/// Law: flattening then rebuilding reconstructs the original nested
/// structure exactly.  Rebuilding the flattened image of any tree
/// succeeds and yields the tree itself with its post-order index links
/// assigned: same payloads, same nesting, same child order.
pub proof fn lemma_flatten_build_round_trip<T>(t: DarkTree<T>)
    ensures
        build_run(tree_flat(t, 0, None)) == Some(indexed_model(t, 0, None)),
        same_shape(indexed_model(t, 0, None), tree_model(t)),
{
    lemma_build_tree(t, 0, None, Seq::empty());
    assert(Seq::<TreeModel<T>>::empty().push(indexed_model(t, 0, None)).len() == 1);
    lemma_indexed_same_shape(t, 0, None);
}

impl<T> DarkTree<T> {
    /// Rebuild the nested tree from its flattened wire form.  The
    /// records are taken front to back; each record's children must be
    /// the subtrees rebuilt just before it, identified by their root
    /// indices, and exactly one tree must remain at the end — which is
    /// the case for every sequence [`DarkTree::flatten`] produces.
    #[verifier::loop_isolation(false)]
    pub fn build(leaves: Vec<DarkLeaf<T>>) -> (r: Result<DarkTree<T>, ContractError>)
        ensures
            match r {
                Ok(tree) => build_run(leaf_models(leaves@)) == Some(tree_model(tree)),
                Err(e) => build_run(leaf_models(leaves@)) is None && e
                    == ContractError::MalformedCallTree,
            },
    {
        let ghost ms = leaf_models(leaves@);
        let mut rest = leaves;
        let total = rest.len();
        let mut stack: Vec<DarkTree<T>> = Vec::new();
        let mut i: usize = 0;
        proof {
            assert(ms.take(0) =~= Seq::<LeafModel<T>>::empty());
            assert(stack@.map_values(|st: DarkTree<T>| tree_model(st)) =~= Seq::<
                TreeModel<T>,
            >::empty());
        }
        while rest.len() > 0
            invariant
                i + rest.len() == ms.len(),
                ms.len() == total,
                rest@ == leaves@.skip(i as int),
                build_fold(Seq::empty(), ms.take(i as int)) == Some(
                    stack@.map_values(|st: DarkTree<T>| tree_model(st)),
                ),
            decreases rest.len(),
        {
            let ghost pre_stack = stack@;
            let ghost stm = pre_stack.map_values(|st: DarkTree<T>| tree_model(st));
            let leaf = rest.remove(0);
            proof {
                assert(leaf == leaves@[i as int]);
                assert(rest@ =~= leaves@.skip(i as int + 1));
                assert(ms.take(i as int + 1).drop_last() =~= ms.take(i as int));
                assert(ms.take(i as int + 1).last() == ms[i as int]);
                assert(ms[i as int] == leaf.model());
            }
            let k = leaf.children_indexes.len();
            if stack.len() < k {
                proof {
                    assert(build_step(stm, leaf.model()) is None);
                    assert(build_fold(Seq::empty(), ms.take(i as int + 1)) is None);
                    lemma_build_fold_none(Seq::empty(), ms, i as int + 1);
                }
                return Err(ContractError::MalformedCallTree);
            }
            let base = stack.len() - k;
            let mut m: usize = 0;
            while m < k
                invariant
                    0 <= m <= k,
                    forall|m2: int|
                        0 <= m2 < m ==> (#[trigger] stm[base + m2].leaf).index == leaf.model()
                            .children_indexes[m2],
                decreases k - m,
            {
                let child_ref = vstd::std_specs::vec::vec_index(&stack, base + m);
                let want = *vstd::std_specs::vec::vec_index(&leaf.children_indexes, m);
                if child_ref.leaf.index != want {
                    proof {
                        assert((stm[base + m as int].leaf).index != leaf.model()
                            .children_indexes[m as int]);
                        assert(build_step(stm, leaf.model()) is None);
                        assert(build_fold(Seq::empty(), ms.take(i as int + 1)) is None);
                        lemma_build_fold_none(Seq::empty(), ms, i as int + 1);
                    }
                    return Err(ContractError::MalformedCallTree);
                }
                m += 1;
            }
            let children = stack.split_off(base);
            stack.push(DarkTree { leaf, children });
            proof {
                assert(build_step(stm, leaf.model()) == Some(
                    stm.take(base as int).push(
                        TreeModel { leaf: leaf.model(), children: stm.skip(base as int) },
                    ),
                ));
                assert(children@ == pre_stack.skip(base as int));
                lemma_forest_model_is_map(children@);
                assert(forest_model_of(children@) =~= stm.skip(base as int));
                assert(tree_model(DarkTree { leaf, children }) == TreeModel {
                    leaf: leaf.model(),
                    children: stm.skip(base as int),
                });
                assert(stack@.map_values(|st: DarkTree<T>| tree_model(st)) =~= stm.take(
                    base as int,
                ).push(TreeModel { leaf: leaf.model(), children: stm.skip(base as int) }));
            }
            i += 1;
        }
        proof {
            assert(ms.take(i as int) =~= ms);
        }
        if stack.len() == 1 {
            let tree = stack.pop().unwrap();
            Ok(tree)
        } else {
            Err(ContractError::MalformedCallTree)
        }
    }
}

/// The models of a sequence of built subtrees.
pub open spec fn forest_model_of<T>(f: Seq<DarkTree<T>>) -> Seq<TreeModel<T>> {
    f.map_values(|st: DarkTree<T>| tree_model(st))
}

/// Every non-root entry of a forest image is listed as a child: either
/// by an entry inside the image, or — for the root of one of the
/// forest's own subtrees — by the forest's root list.
proof fn lemma_forest_flat_cov<T>(f: Seq<DarkTree<T>>, start: int, par: int)
    ensures
        forall|i: int|
            0 <= i < forest_flat(f, start, par).len() ==> ((#[trigger] forest_flat(
                f,
                start,
                par,
            )[i].parent_index) matches Some(p) && ((start + i < p < start + forest_size(f)
                && forest_flat(f, start, par)[p - start].children_indexes.contains(start + i)) || (
            p == par && forest_roots(f, start).contains(start + i)))),
    decreases f,
{
    if f.len() > 0 {
        let sz0 = tree_size(f[0]) as int;
        let fs = forest_size(f) as int;
        let s = forest_flat(f, start, par);
        let rest = forest_flat(f.skip(1), start + sz0, par);
        lemma_tree_flat_len(f[0], start, Some(par));
        lemma_forest_flat_len(f, start, par);
        lemma_forest_flat_len(f.skip(1), start + sz0, par);
        lemma_tree_flat_cov(f[0], start, Some(par));
        lemma_tree_flat_parent_some(f[0], start, Some(par));
        lemma_forest_flat_cov(f.skip(1), start + sz0, par);
        assert forall|i: int| 0 <= i < s.len() implies ((#[trigger] s[i].parent_index) matches Some(
            p,
        ) && ((start + i < p < start + fs && s[p - start].children_indexes.contains(start + i)) || (
        p == par && forest_roots(f, start).contains(start + i)))) by {
            if i < sz0 - 1 {
                assert(s[i] == tree_flat(f[0], start, Some(par))[i]);
                let p = tree_flat(f[0], start, Some(par))[i].parent_index->0;
                assert(start + i < p < start + sz0);
                assert(tree_flat(f[0], start, Some(par))[p - start].children_indexes.contains(
                    start + i,
                ));
                assert(s[p - start] == tree_flat(f[0], start, Some(par))[p - start]);
            } else if i == sz0 - 1 {
                assert(s[i] == tree_flat(f[0], start, Some(par))[i]);
                assert(s[i] == tree_flat(f[0], start, Some(par)).last());
                assert(s[i].parent_index == Some(par));
                assert(forest_roots(f, start)[0] == start + sz0 - 1);
                assert(forest_roots(f, start).contains(start + i));
            } else {
                assert(s[i] == rest[i - sz0]);
                let p = rest[i - sz0].parent_index->0;
                if start + sz0 + (i - sz0) < p < start + sz0 + forest_size(f.skip(1)) && rest[p
                    - (start + sz0)].children_indexes.contains(start + sz0 + (i - sz0)) {
                    assert(s[p - start] == rest[p - (start + sz0)]);
                    assert(start + i < p < start + fs);
                    assert(s[p - start].children_indexes.contains(start + i));
                } else {
                    assert(p == par && forest_roots(f.skip(1), start + sz0).contains(
                        start + sz0 + (i - sz0),
                    ));
                    let j = choose|j: int|
                        0 <= j < forest_roots(f.skip(1), start + sz0).len() && #[trigger] forest_roots(
                            f.skip(1),
                            start + sz0,
                        )[j] == start + i;
                    assert(forest_roots(f, start)[j + 1] == start + i);
                    assert(forest_roots(f, start).contains(start + i));
                }
            }
        }
    }
}

/// Every non-root entry of a tree image names a later parent that lists
/// it as a child.
proof fn lemma_tree_flat_cov<T>(t: DarkTree<T>, start: int, parent: Option<int>)
    ensures
        forall|i: int|
            0 <= i < tree_flat(t, start, parent).len() - 1 ==> ((#[trigger] tree_flat(
                t,
                start,
                parent,
            )[i].parent_index) matches Some(p) && start + i < p < start + tree_size(t) && tree_flat(
                t,
                start,
                parent,
            )[p - start].children_indexes.contains(start + i)),
    decreases t,
{
    let f = t.children@;
    let fs = forest_size(f) as int;
    let root_pos = start + fs;
    let s = tree_flat(t, start, parent);
    lemma_tree_flat_len(t, start, parent);
    lemma_forest_flat_len(f, start, root_pos);
    lemma_forest_flat_cov(f, start, root_pos);
    assert forall|i: int| 0 <= i < s.len() - 1 implies ((#[trigger] s[i].parent_index) matches Some(
        p,
    ) && start + i < p < start + tree_size(t) && s[p - start].children_indexes.contains(start + i))
        by {
        assert(s[i] == forest_flat(f, start, root_pos)[i]);
        let p = forest_flat(f, start, root_pos)[i].parent_index->0;
        if start + i < p < start + fs && forest_flat(f, start, root_pos)[p
            - start].children_indexes.contains(start + i) {
            assert(s[p - start] == forest_flat(f, start, root_pos)[p - start]);
        } else {
            assert(p == root_pos && forest_roots(f, start).contains(start + i));
            assert(s[s.len() - 1].children_indexes == forest_roots(f, start));
            assert(s[p - start].children_indexes.contains(start + i));
        }
    }
}

/// A structurally sound flattened call sequence: non-empty; each record
/// at its own position; the last record is the only root; every other
/// record names a strictly later parent that lists it as a child; every
/// listed child is a strictly earlier record that names this one as its
/// parent; and siblings are listed in strictly increasing order.  These
/// rules leave no cycles and no orphans, and linear execution of such a
/// sequence reaches every record after all of its children.
pub open spec fn valid_flat<T>(s: Seq<LeafModel<T>>) -> bool {
    &&& s.len() >= 1
    &&& forall|i: int| 0 <= i < s.len() ==> (#[trigger] s[i].index) == i
    &&& s[s.len() - 1].parent_index is None
    &&& forall|i: int|
        0 <= i < s.len() - 1 ==> ((#[trigger] s[i].parent_index) matches Some(p) && i < p < s.len()
            && s[p].children_indexes.contains(i))
    &&& forall|j: int, k: int|
        0 <= j < s.len() && 0 <= k < s[j].children_indexes.len() ==> {
            let c = #[trigger] s[j].children_indexes[k];
            0 <= c < j && s[c].parent_index == Some(j)
        }
    &&& forall|j: int, k1: int, k2: int|
        0 <= j < s.len() && 0 <= k1 < k2 < s[j].children_indexes.len() ==> (#[trigger]
        s[j].children_indexes[k1]) < (#[trigger] s[j].children_indexes[k2])
}

/// `a` lies on the parent chain of `j` (reflexively): following parent
/// links — which must point strictly upward to stay on a chain —
/// reaches `a`.
pub open spec fn is_ancestor<T>(s: Seq<LeafModel<T>>, j: int, a: int) -> bool
    decreases s.len() - j,
{
    if !(0 <= j < s.len()) {
        false
    } else if j == a {
        true
    } else {
        match s[j].parent_index {
            Some(p) => if j < p < s.len() {
                is_ancestor(s, p, a)
            } else {
                false
            },
            None => false,
        }
    }
}

/// A strict descendant stands strictly before its ancestor.
pub proof fn lemma_descendant_before_ancestor<T>(s: Seq<LeafModel<T>>, j: int, a: int)
    requires
        is_ancestor(s, j, a),
        j != a,
    ensures
        j < a,
    decreases s.len() - j,
{
    let p = s[j].parent_index->0;
    if p != a {
        lemma_descendant_before_ancestor(s, p, a);
    }
}

/// Law: for any tree, the flattened traversal order is post-order.
/// Writing `s` for the flattened image of the tree: the sequence has
/// one record per tree node, each at its own index; the root is the
/// last record and the only one without a parent; every other record
/// stands strictly before its parent, which lists it as a child; every
/// listed child stands strictly before the record that lists it, with
/// siblings listed in strictly increasing order; every strict
/// descendant stands strictly before its ancestor; and the whole
/// sequence passes [`DarkTree::validate`].
pub proof fn lemma_post_order_traversal<T>(t: DarkTree<T>)
    ensures
        tree_flat(t, 0, None).len() == tree_size(t),
        valid_flat(tree_flat(t, 0, None)),
        forall|j: int, a: int|
            is_ancestor(tree_flat(t, 0, None), j, a) && j != a ==> j < a,
{
    let s = tree_flat(t, 0, None);
    lemma_tree_flat_len(t, 0, None);
    lemma_tree_flat_index(t, 0, None);
    lemma_tree_flat_parent_some(t, 0, None);
    lemma_tree_flat_children(t, 0, None);
    lemma_tree_flat_cov(t, 0, None);
    assert(s[s.len() - 1] == s.last());
    assert forall|j: int, a: int| is_ancestor(s, j, a) && j != a implies j < a by {
        lemma_descendant_before_ancestor(s, j, a);
    }
    assert forall|j: int, k: int|
        0 <= j < s.len() && 0 <= k < s[j].children_indexes.len() implies {
        let c = #[trigger] s[j].children_indexes[k];
        0 <= c < j && s[c].parent_index == Some(j)
    } by {
        assert(0 <= s[j].children_indexes[k] < 0 + j && s[s[j].children_indexes[k]
            - 0].parent_index == Some(0 + j));
    }
}

impl<T> DarkTree<T> {
    /// Check a flattened call sequence before trusting it: exactly one
    /// root (the last record), every index in range and equal to its
    /// position, parent and child links mutually consistent and both
    /// pointing the right way (children strictly earlier, parents
    /// strictly later, so there are no cycles), no orphaned records,
    /// and siblings listed in order.  Every sequence that
    /// [`DarkTree::flatten`] produces passes.
    #[verifier::loop_isolation(false)]
    pub fn validate(leaves: &Vec<DarkLeaf<T>>) -> (r: Result<(), ContractError>)
        ensures
            r is Ok <==> valid_flat(leaf_models(leaves@)),
            r is Err ==> (r matches Err(e) && e == ContractError::MalformedCallTree),
    {
        let ghost s = leaf_models(leaves@);
        let n = leaves.len();
        proof {
            assert(s.len() == leaves@.len());
        }
        if n == 0 {
            proof {
                assert(!valid_flat(s));
            }
            return Err(ContractError::MalformedCallTree);
        }
        let mut i: usize = 0;
        while i < n
            invariant
                0 <= i <= n,
                forall|i2: int| 0 <= i2 < i ==> (#[trigger] s[i2].index) == i2,
            decreases n - i,
        {
            if vstd::std_specs::vec::vec_index(leaves, i).index != i {
                proof {
                    assert(s[i as int].index != i as int);
                    assert(!valid_flat(s));
                }
                return Err(ContractError::MalformedCallTree);
            }
            i += 1;
        }
        if vstd::std_specs::vec::vec_index(leaves, n - 1).parent_index.is_some() {
            proof {
                assert(s[s.len() - 1].parent_index is Some);
                assert(!valid_flat(s));
            }
            return Err(ContractError::MalformedCallTree);
        }
        let mut i: usize = 0;
        while i < n - 1
            invariant
                0 <= i <= n - 1,
                forall|i2: int|
                    0 <= i2 < i ==> ((#[trigger] s[i2].parent_index) matches Some(p) && i2 < p < n
                        && s[p].children_indexes.contains(i2)),
            decreases n - 1 - i,
        {
            let leaf = vstd::std_specs::vec::vec_index(leaves, i);
            match leaf.parent_index {
                None => {
                    proof {
                        assert(s[i as int].parent_index is None);
                        assert(!valid_flat(s));
                    }
                    return Err(ContractError::MalformedCallTree);
                },
                Some(p) => {
                    if p <= i || p >= n {
                        proof {
                            assert(s[i as int].parent_index == Some(p as int));
                            assert(!valid_flat(s));
                        }
                        return Err(ContractError::MalformedCallTree);
                    }
                    let plist = &vstd::std_specs::vec::vec_index(leaves, p).children_indexes;
                    let mut k: usize = 0;
                    let mut found = false;
                    while k < plist.len() && !found
                        invariant
                            0 <= k <= plist.len(),
                            found ==> s[p as int].children_indexes.contains(i as int),
                            !found ==> forall|k2: int|
                                0 <= k2 < k ==> (#[trigger] s[p as int].children_indexes[k2])
                                    != i as int,
                        decreases plist.len() - k + (if found { 0int } else { 1int }),
                    {
                        if *vstd::std_specs::vec::vec_index(plist, k) == i {
                            found = true;
                            proof {
                                assert(s[p as int].children_indexes[k as int] == i as int);
                            }
                        } else {
                            k += 1;
                        }
                    }
                    if !found {
                        proof {
                            assert(!s[p as int].children_indexes.contains(i as int)) by {
                                if s[p as int].children_indexes.contains(i as int) {
                                    let k2 = choose|k2: int|
                                        0 <= k2 < s[p as int].children_indexes.len()
                                            && s[p as int].children_indexes[k2] == i as int;
                                    assert(s[p as int].children_indexes[k2] != i as int);
                                }
                            }
                            assert(s[i as int].parent_index == Some(p as int));
                            assert(!valid_flat(s));
                        }
                        return Err(ContractError::MalformedCallTree);
                    }
                },
            }
            i += 1;
        }
        let mut j: usize = 0;
        while j < n
            invariant
                0 <= j <= n,
                forall|j2: int, k: int|
                    0 <= j2 < j && 0 <= k < s[j2].children_indexes.len() ==> {
                        let c = #[trigger] s[j2].children_indexes[k];
                        0 <= c < j2 && s[c].parent_index == Some(j2)
                    },
                forall|j2: int, k1: int, k2: int|
                    0 <= j2 < j && 0 <= k1 < k2 < s[j2].children_indexes.len() ==> (#[trigger]
                    s[j2].children_indexes[k1]) < (#[trigger] s[j2].children_indexes[k2]),
            decreases n - j,
        {
            let clist = &vstd::std_specs::vec::vec_index(leaves, j).children_indexes;
            let mut k: usize = 0;
            while k < clist.len()
                invariant
                    0 <= k <= clist.len(),
                    forall|k2: int|
                        0 <= k2 < k ==> {
                            let c = #[trigger] s[j as int].children_indexes[k2];
                            0 <= c < j && s[c].parent_index == Some(j as int)
                        },
                    forall|ka: int, kb: int|
                        0 <= ka < kb < k ==> (#[trigger] s[j as int].children_indexes[ka])
                            < (#[trigger] s[j as int].children_indexes[kb]),
                decreases clist.len() - k,
            {
                let c = *vstd::std_specs::vec::vec_index(clist, k);
                proof {
                    assert(s[j as int].children_indexes[k as int] == c as int);
                }
                if c >= j {
                    proof {
                        assert(!valid_flat(s));
                    }
                    return Err(ContractError::MalformedCallTree);
                }
                match vstd::std_specs::vec::vec_index(leaves, c).parent_index {
                    Some(cp) => {
                        if cp != j {
                            proof {
                                assert(s[c as int].parent_index == Some(cp as int));
                                assert(!valid_flat(s));
                            }
                            return Err(ContractError::MalformedCallTree);
                        }
                    },
                    None => {
                        proof {
                            assert(s[c as int].parent_index is None);
                            assert(!valid_flat(s));
                        }
                        return Err(ContractError::MalformedCallTree);
                    },
                }
                if k > 0 {
                    let prev = *vstd::std_specs::vec::vec_index(clist, k - 1);
                    if prev >= c {
                        proof {
                            assert(s[j as int].children_indexes[k - 1] == prev as int);
                            assert(!valid_flat(s));
                        }
                        return Err(ContractError::MalformedCallTree);
                    }
                    proof {
                        assert forall|ka: int, kb: int| 0 <= ka < kb < k + 1 implies (#[trigger]
                        s[j as int].children_indexes[ka]) < (#[trigger]
                        s[j as int].children_indexes[kb]) by {
                            if kb == k {
                                if ka < k - 1 {
                                    assert(s[j as int].children_indexes[ka] < s[j as int].children_indexes[k - 1]);
                                }
                            }
                        }
                    }
                }
                k += 1;
            }
            j += 1;
        }
        proof {
            assert(valid_flat(s));
        }
        Ok(())
    }
}

/// Every sequence that flattening produces passes validation.
pub proof fn lemma_flatten_validates<T>(t: DarkTree<T>)
    ensures
        valid_flat(tree_flat(t, 0, None)),
{
    lemma_post_order_traversal(t);
}

/// The post-order paths of a tree whose root is reached by `prefix`:
/// for each node, the path of child indices that leads to it from the
/// root; children (left to right) before the node itself.
pub open spec fn tree_paths<T>(t: DarkTree<T>, prefix: Seq<usize>) -> Seq<Seq<usize>>
    decreases t,
{
    forest_paths(t.children@, prefix, 0) + seq![prefix]
}

/// The post-order paths of the subtrees of a forest, the first subtree
/// being child `k` of the node at `prefix`.
pub open spec fn forest_paths<T>(f: Seq<DarkTree<T>>, prefix: Seq<usize>, k: int) -> Seq<
    Seq<usize>,
>
    decreases f, 0nat,
{
    if f.len() == 0 {
        Seq::empty()
    } else {
        tree_paths(f[0], prefix.push(k as usize)) + forest_paths(f.skip(1), prefix, k + 1)
    }
}

/// The views of a vector of paths.
pub open spec fn path_views(ps: Seq<Vec<usize>>) -> Seq<Seq<usize>> {
    ps.map_values(|p: Vec<usize>| p@)
}

/// The leaf a path of child indices leads to, if the path exists in
/// the tree.
pub open spec fn leaf_at_path<T>(t: DarkTree<T>, path: Seq<usize>) -> Option<DarkLeaf<T>>
    decreases path.len(),
{
    if path.len() == 0 {
        Some(t.leaf)
    } else if (path[0] as int) < t.children@.len() {
        leaf_at_path(t.children@[path[0] as int], path.skip(1))
    } else {
        None
    }
}

/// What the mutable traversal will still yield: for each suspended
/// level, from the innermost out, the paths under its unvisited
/// subtrees and then its own path.  `cp` is the innermost level's path
/// from the root; each level below drops its last step.
spec fn paths_future<T>(frames: Seq<(&DarkTree<T>, usize)>, cp: Seq<usize>) -> Seq<Seq<usize>>
    decreases frames.len(),
{
    if frames.len() == 0 {
        Seq::empty()
    } else {
        let node = frames.last().0;
        let cur = frames.last().1;
        forest_paths(node.children@.skip(cur as int), cp, cur as int) + seq![cp] + paths_future(
            frames.drop_last(),
            cp.drop_last(),
        )
    }
}

/// An owned copy of a path.
#[verifier::loop_isolation(false)]
fn copy_path(v: &Vec<usize>) -> (r: Vec<usize>)
    ensures
        r@ == v@,
{
    let mut out: Vec<usize> = Vec::new();
    let mut i: usize = 0;
    while i < v.len()
        invariant
            0 <= i <= v.len(),
            out@ =~= v@.take(i as int),
        decreases v.len() - i,
    {
        out.push(*vstd::std_specs::vec::vec_index(v, i));
        proof {
            assert(out@ =~= v@.take(i as int + 1));
        }
        i += 1;
    }
    proof {
        assert(v@.take(v@.len() as int) =~= v@);
    }
    out
}

/// Exclusive access to one subtree of a node's child list.
fn child_mut<T>(v: &mut Vec<DarkTree<T>>, i: usize) -> (element: &mut DarkTree<T>)
    requires
        i < old(v).len(),
    ensures
        *element == old(v)@[i as int],
        final(v)@ == old(v)@.update(i as int, *final(element)),
{
    &mut v[i]
}

impl<T> DarkTree<T> {
    /// The post-order plan for exclusive per-leaf access: the path of
    /// every leaf, in depth-first post-order — children, left to
    /// right, before their node, the root's (empty) path last.  With
    /// [`DarkTree::set_leaf_data`] this visits each leaf mutably in
    /// traversal order; the tree itself is not changed.  The traversal
    /// keeps an explicit stack of suspended levels instead of
    /// recursing, so arbitrarily deep input cannot exhaust the call
    /// stack.
    #[verifier::loop_isolation(false)]
    pub fn iter_mut(&mut self) -> (r: Vec<Vec<usize>>)
        ensures
            *final(self) == *old(self),
            path_views(r@) == tree_paths(*old(self), Seq::empty()),
    {
        let me: &DarkTree<T> = self;
        let ghost t0 = *me;
        let mut result: Vec<Vec<usize>> = Vec::new();
        let mut stack: Vec<(&DarkTree<T>, usize)> = Vec::new();
        let mut cur_path: Vec<usize> = Vec::new();
        stack.push((me, 0));
        proof {
            assert(stack@.drop_last() =~= Seq::<(&DarkTree<T>, usize)>::empty());
            assert(me.children@.skip(0) =~= me.children@);
            assert(paths_future(stack@.drop_last(), cur_path@.drop_last()) == Seq::<
                Seq<usize>,
            >::empty());
            assert(path_views(result@) =~= Seq::<Seq<usize>>::empty());
            assert(cur_path@ =~= Seq::<usize>::empty());
            assert(path_views(result@) + paths_future(stack@, cur_path@) =~= tree_paths(
                t0,
                Seq::empty(),
            ));
        }
        while stack.len() > 0
            invariant
                path_views(result@) + paths_future(stack@, cur_path@) == tree_paths(
                    t0,
                    Seq::empty(),
                ),
                cur_path@.len() == stack@.len() - 1 || (stack@.len() == 0 && cur_path@.len()
                    == 0),
                forall|fi: int|
                    0 <= fi < stack.len() ==> #[trigger] stack@[fi].1
                        <= stack@[fi].0.children@.len(),
            decreases iter_measure(stack@),
        {
            let ghost pre_stack = stack@;
            let ghost pre_cp = cur_path@;
            let (node, cur) = stack.pop().unwrap();
            proof {
                assert(stack@ =~= pre_stack.drop_last());
            }
            if cur < node.children.len() {
                // descend into the next unvisited subtree
                let child = vstd::std_specs::vec::vec_index(&node.children, cur);
                stack.push((node, cur + 1));
                let ghost mid_stack = stack@;
                stack.push((child, 0));
                cur_path.push(cur);
                proof {
                    let ch = node.children@;
                    assert(mid_stack.drop_last() =~= pre_stack.drop_last());
                    assert(stack@.drop_last() =~= mid_stack);
                    assert(cur_path@.drop_last() =~= pre_cp);
                    assert(ch.skip(cur as int)[0] == ch[cur as int]);
                    assert(ch.skip(cur as int).skip(1) =~= ch.skip(cur as int + 1));
                    assert(forest_paths(ch.skip(cur as int), pre_cp, cur as int) == tree_paths(
                        ch[cur as int],
                        pre_cp.push(cur),
                    ) + forest_paths(ch.skip(cur as int + 1), pre_cp, cur as int + 1));
                    assert(child.children@.skip(0) =~= child.children@);
                    assert(paths_future(stack@, cur_path@) == forest_paths(
                        child.children@,
                        cur_path@,
                        0,
                    ) + seq![cur_path@] + paths_future(mid_stack, pre_cp));
                    assert(cur_path@ =~= pre_cp.push(cur));
                    assert(paths_future(mid_stack, pre_cp) == forest_paths(
                        ch.skip(cur as int + 1),
                        pre_cp,
                        cur as int + 1,
                    ) + seq![pre_cp] + paths_future(pre_stack.drop_last(), pre_cp.drop_last()));
                    assert(paths_future(pre_stack, pre_cp) == forest_paths(
                        ch.skip(cur as int),
                        pre_cp,
                        cur as int,
                    ) + seq![pre_cp] + paths_future(pre_stack.drop_last(), pre_cp.drop_last()));
                    assert(paths_future(stack@, cur_path@) =~= paths_future(pre_stack, pre_cp));
                    // measure
                    assert(iter_measure(mid_stack) == iter_measure(pre_stack.drop_last()) + 2
                        * forest_size(ch.skip(cur as int + 1)) + 1);
                    assert(iter_measure(stack@) == iter_measure(mid_stack) + 2 * forest_size(
                        child.children@,
                    ) + 1);
                    assert(iter_measure(pre_stack) == iter_measure(pre_stack.drop_last()) + 2
                        * forest_size(ch.skip(cur as int)) + 1);
                    assert(forest_size(ch.skip(cur as int)) == tree_size(ch[cur as int])
                        + forest_size(ch.skip(cur as int + 1)));
                }
            } else {
                // this level is exhausted: yield its own path
                let ghost pre_result = result@;
                let p = copy_path(&cur_path);
                let ghost pv = p@;
                result.push(p);
                if cur_path.len() > 0 {
                    let _ = cur_path.pop();
                }
                proof {
                    let ch = node.children@;
                    assert(pv == pre_cp);
                    assert(result@ == pre_result.push(result@.last()));
                    assert(result@.last()@ == pre_cp);
                    assert(ch.skip(cur as int) =~= Seq::<DarkTree<T>>::empty());
                    assert(forest_paths(ch.skip(cur as int), pre_cp, cur as int) == Seq::<
                        Seq<usize>,
                    >::empty());
                    assert(paths_future(pre_stack, pre_cp) =~= seq![pre_cp] + paths_future(
                        stack@,
                        pre_cp.drop_last(),
                    ));
                    assert(path_views(result@) =~= path_views(pre_result).push(pre_cp));
                    if stack.len() > 0 {
                        assert(cur_path@ =~= pre_cp.drop_last());
                    } else {
                        assert(paths_future(stack@, cur_path@) == Seq::<Seq<usize>>::empty());
                        assert(paths_future(stack@, pre_cp.drop_last()) == Seq::<
                            Seq<usize>,
                        >::empty());
                    }
                    assert(path_views(result@) + paths_future(stack@, cur_path@) =~= tree_paths(
                        t0,
                        Seq::empty(),
                    ));
                    assert(iter_measure(pre_stack) == iter_measure(stack@) + 1);
                }
            }
        }
        proof {
            assert(path_views(result@) + paths_future(stack@, cur_path@) =~= path_views(result@));
        }
        result
    }

    /// The leaf a path of child indices leads to, if it exists.
    #[verifier::loop_isolation(false)]
    pub fn leaf_at(&self, path: &Vec<usize>) -> (r: Option<&DarkLeaf<T>>)
        ensures
            match r {
                Some(l) => leaf_at_path(*self, path@) == Some(*l),
                None => leaf_at_path(*self, path@) is None,
            },
    {
        let mut cur: &DarkTree<T> = self;
        let mut i: usize = 0;
        proof {
            assert(path@.skip(0) =~= path@);
        }
        while i < path.len()
            invariant
                0 <= i <= path.len(),
                leaf_at_path(*self, path@) == leaf_at_path(*cur, path@.skip(i as int)),
            decreases path.len() - i,
        {
            let k = *vstd::std_specs::vec::vec_index(path, i);
            if k >= cur.children.len() {
                proof {
                    assert(path@.skip(i as int)[0] == k);
                }
                return None;
            }
            proof {
                assert(path@.skip(i as int)[0] == k);
                assert(path@.skip(i as int).skip(1) =~= path@.skip(i as int + 1));
            }
            cur = vstd::std_specs::vec::vec_index(&cur.children, k);
            i += 1;
        }
        proof {
            assert(path@.skip(path@.len() as int) =~= Seq::<usize>::empty());
        }
        Some(&cur.leaf)
    }

    /// Replace the payload of the leaf at `path`, leaving every other
    /// leaf — and the whole shape of the tree — untouched: the
    /// exclusive per-leaf access of the mutable traversal.
    pub fn set_leaf_data(&mut self, path: &Vec<usize>, data: T) -> (r: Result<(), ContractError>)
        ensures
            r is Ok <==> leaf_at_path(*old(self), path@) is Some,
            r is Err ==> (r matches Err(e) && e == ContractError::MalformedCallTree)
                && leaf_at_path(*final(self), path@) == leaf_at_path(*old(self), path@),
            r is Ok ==> (match (leaf_at_path(*final(self), path@), leaf_at_path(
                *old(self),
                path@,
            )) {
                (Some(nl), Some(ol)) => nl.data == data && nl.index == ol.index && nl.parent_index
                    == ol.parent_index && nl.children_indexes == ol.children_indexes,
                _ => false,
            }),
            forall|q: Seq<usize>|
                q != path@ ==> #[trigger] leaf_at_path(*final(self), q) == leaf_at_path(
                    *old(self),
                    q,
                ),
    {
        proof {
            assert(path@.skip(0) =~= path@);
        }
        let r = self.set_leaf_data_rec(path, 0, data);
        r
    }

    /// Descend `path` from position `k` and replace the target leaf's
    /// payload.
    fn set_leaf_data_rec(&mut self, path: &Vec<usize>, k: usize, data: T) -> (r: Result<
        (),
        ContractError,
    >)
        requires
            k <= path@.len(),
        ensures
            r is Ok <==> leaf_at_path(*old(self), path@.skip(k as int)) is Some,
            r is Err ==> (r matches Err(e) && e == ContractError::MalformedCallTree)
                && leaf_at_path(*final(self), path@.skip(k as int)) == leaf_at_path(
                *old(self),
                path@.skip(k as int),
            ),
            r is Ok ==> (match (leaf_at_path(*final(self), path@.skip(k as int)), leaf_at_path(
                *old(self),
                path@.skip(k as int),
            )) {
                (Some(nl), Some(ol)) => nl.data == data && nl.index == ol.index && nl.parent_index
                    == ol.parent_index && nl.children_indexes == ol.children_indexes,
                _ => false,
            }),
            forall|q: Seq<usize>|
                q != path@.skip(k as int) ==> #[trigger] leaf_at_path(*final(self), q)
                    == leaf_at_path(*old(self), q),
        decreases path@.len() - k,
    {
        if k == path.len() {
            proof {
                assert(path@.skip(k as int) =~= Seq::<usize>::empty());
            }
            self.leaf.data = data;
            proof {
                assert forall|q: Seq<usize>|
                    q != path@.skip(k as int) implies #[trigger] leaf_at_path(*self, q)
                    == leaf_at_path(*old(self), q) by {
                    if q.len() == 0 {
                        assert(q =~= path@.skip(k as int));
                    } else {
                        if (q[0] as int) < self.children@.len() {
                            assert(self.children@[q[0] as int] == old(self).children@[q[0] as int]);
                        }
                    }
                }
            }
            Ok(())
        } else {
            let step = *vstd::std_specs::vec::vec_index(path, k);
            proof {
                assert(path@.skip(k as int)[0] == step);
                assert(path@.skip(k as int).skip(1) =~= path@.skip(k as int + 1));
            }
            if step >= self.children.len() {
                return Err(ContractError::MalformedCallTree);
            }
            let child = child_mut(&mut self.children, step);
            let res = child.set_leaf_data_rec(path, k + 1, data);
            proof {
                assert forall|q: Seq<usize>|
                    q != path@.skip(k as int) implies #[trigger] leaf_at_path(*self, q)
                    == leaf_at_path(*old(self), q) by {
                    if q.len() > 0 && (q[0] as int) < self.children@.len() {
                        if q[0] == step {
                            assert(q.skip(1) != path@.skip(k as int + 1)) by {
                                if q.skip(1) == path@.skip(k as int + 1) {
                                    assert(q[0] == path@.skip(k as int)[0]);
                                    assert forall|jj: int| 1 <= jj < q.len() implies q[jj]
                                        == path@.skip(k as int)[jj] by {
                                        assert(q[jj] == q.skip(1)[jj - 1]);
                                        assert(path@.skip(k as int)[jj] == path@.skip(
                                            k as int + 1,
                                        )[jj - 1]);
                                    }
                                    assert(q =~= path@.skip(k as int));
                                }
                            }
                            assert(leaf_at_path(self.children@[step as int], q.skip(1))
                                == leaf_at_path(old(self).children@[step as int], q.skip(1)));
                        } else {
                            assert(self.children@[q[0] as int] == old(self).children@[q[0] as int]);
                        }
                    }
                }
                if res is Ok {
                    assert(leaf_at_path(*self, path@.skip(k as int)) == leaf_at_path(
                        self.children@[step as int],
                        path@.skip(k as int + 1),
                    ));
                }
            }
            res
        }
    }
}

} // verus!
