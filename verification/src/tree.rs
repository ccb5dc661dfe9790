//! The layer tree and its editing operations.
//!
//! A tree is a sequence of root nodes; each node may hold child nodes. All
//! operations here look at the roots and at their direct children, and carry
//! deeper levels along unchanged.
use vstd::prelude::*;
use crate::EntityId;
use crate::kind::LayerNodeKind;
use vstd::multiset::Multiset;

verus! {

/// A node of the layer tree.
#[derive(Debug)]
pub struct LayerNode {
    pub entity_id: EntityId,
    pub kind: LayerNodeKind,
    pub expanded: bool,
    pub children: Vec<LayerNode>,
}

/// The mathematical value of a node: its fields, with its children taken by
/// value in turn.
#[verifier::ext_equal]
pub struct NodeView {
    pub entity_id: EntityId,
    pub kind: LayerNodeKind,
    pub expanded: bool,
    pub children: Seq<NodeView>,
}

/// The value of a node.
pub open spec fn node_view(n: LayerNode) -> NodeView
    decreases n,
{
    NodeView {
        entity_id: n.entity_id,
        kind: n.kind,
        expanded: n.expanded,
        children: Seq::new(
            n.children@.len(),
            |i: int|
                if 0 <= i < n.children@.len() {
                    node_view(n.children@[i])
                } else {
                    arbitrary()
                },
        ),
    }
}

impl View for LayerNode {
    type V = NodeView;

    open spec fn view(&self) -> NodeView {
        node_view(*self)
    }
}

impl Clone for LayerNode {
    /// A copy of the node with copies of all nodes below it.
    fn clone(&self) -> (r: Self)
        ensures
            r@ == self@,
        decreases self,
    {
        let mut children: Vec<LayerNode> = Vec::new();
        let mut i: usize = 0;
        while i < self.children.len()
            invariant
                i <= self.children@.len(),
                children@.len() == i,
                forall|j: int| 0 <= j < i ==> (#[trigger] children@[j])@ == self.children@[j]@,
            decreases self.children@.len() - i,
        {
            assert(decreases_to!(self => self.children@[i as int]));
            let c = self.children[i].clone();
            children.push(c);
            i = i + 1;
        }
        let r = LayerNode {
            entity_id: self.entity_id,
            kind: self.kind,
            expanded: self.expanded,
            children,
        };
        proof {
            lemma_children_view(r);
            lemma_children_view(*self);
            assert(forest(children@) =~= forest(self.children@));
        }
        r
    }
}

/// The values of a sequence of nodes.
pub open spec fn forest(s: Seq<LayerNode>) -> Seq<NodeView> {
    s.map_values(|n: LayerNode| n@)
}

/// The children of a node, by value, are the values of its children.
pub proof fn lemma_children_view(n: LayerNode)
    ensures
        n@.children == forest(n.children@),
{
    assert forall|i: int| 0 <= i < n.children@.len() implies n@.children[i] == forest(
        n.children@,
    )[i] by {}
    assert(n@.children =~= forest(n.children@));
}

/// A node with the same fields and other children.
pub open spec fn with_children(n: NodeView, c: Seq<NodeView>) -> NodeView {
    NodeView { children: c, ..n }
}

/// A node with its expanded flag flipped.
pub open spec fn flipped(n: NodeView) -> NodeView {
    NodeView { expanded: !n.expanded, ..n }
}

/// The sequence with the elements at `i` and `i + 1` exchanged.
pub open spec fn swap_next<T>(s: Seq<T>, i: int) -> Seq<T> {
    s.update(i, s[i + 1]).update(i + 1, s[i])
}

/// `i` is the first position in `s` of a node with identifier `id`.
pub open spec fn is_first_at(s: Seq<NodeView>, id: EntityId, i: int) -> bool {
    &&& 0 <= i < s.len()
    &&& s[i].entity_id == id
    &&& forall|j: int| 0 <= j < i ==> s[j].entity_id != id
}

/// Whether some node of `s` has identifier `id`.
pub open spec fn has_id(s: Seq<NodeView>, id: EntityId) -> bool {
    exists|i: int| 0 <= i < s.len() && s[i].entity_id == id
}

/// The first position in `s` of a node with identifier `id`.
pub open spec fn first_pos(s: Seq<NodeView>, id: EntityId) -> Option<int> {
    if exists|i: int| is_first_at(s, id, i) {
        Some(choose|i: int| is_first_at(s, id, i))
    } else {
        None
    }
}

pub proof fn lemma_first_pos_at(s: Seq<NodeView>, id: EntityId, i: int)
    requires
        is_first_at(s, id, i),
    ensures
        first_pos(s, id) == Some(i),
{
    let j = choose|j: int| is_first_at(s, id, j);
    assert(is_first_at(s, id, j));
    if j < i {
        assert(s[j].entity_id != id);
    }
    if i < j {
        assert(s[i].entity_id != id);
    }
}

pub proof fn lemma_first_pos_none(s: Seq<NodeView>, id: EntityId)
    requires
        !has_id(s, id),
    ensures
        first_pos(s, id) is None,
{
    if exists|i: int| is_first_at(s, id, i) {
        let i = choose|i: int| is_first_at(s, id, i);
        assert(0 <= i < s.len() && s[i].entity_id == id);
    }
}

pub proof fn lemma_first_pos_some(s: Seq<NodeView>, id: EntityId)
    requires
        has_id(s, id),
    ensures
        first_pos(s, id) is Some,
        is_first_at(s, id, first_pos(s, id)->0),
    decreases s.len(),
{
    if s[s.len() - 1].entity_id == id && !has_id(s.drop_last(), id) {
        let i = s.len() - 1;
        let t = s.drop_last();
        assert forall|j: int| 0 <= j < i implies s[j].entity_id != id by {
            assert(t[j] == s[j]);
            if s[j].entity_id == id {
                assert(0 <= j < t.len() && t[j].entity_id == id);
            }
        }
        assert(is_first_at(s, id, i));
        lemma_first_pos_at(s, id, i);
    } else {
        let t = s.drop_last();
        let w = choose|i: int| 0 <= i < s.len() && s[i].entity_id == id;
        if w == s.len() - 1 {
        } else {
            assert(t[w] == s[w]);
        }
        assert(has_id(t, id));
        lemma_first_pos_some(t, id);
        let i = first_pos(t, id)->0;
        assert(t[i] == s[i]);
        assert forall|j: int| 0 <= j < i implies s[j].entity_id != id by {
            assert(t[j] == s[j]);
        }
        assert(is_first_at(s, id, i));
        lemma_first_pos_at(s, id, i);
    }
}

/// The first position, among the roots of `v`, of a node with identifier `id`.
pub fn position_of(v: &[LayerNode], id: EntityId) -> (r: Option<usize>)
    ensures
        r matches Some(i) ==> first_pos(forest(v@), id) == Some(i as int),
        r matches Some(i) ==> i < v@.len(),
        r is None ==> !has_id(forest(v@), id),
        r is None ==> first_pos(forest(v@), id) is None,
{
    let ghost f = forest(v@);
    let mut i: usize = 0;
    while i < v.len()
        invariant
            f == forest(v@),
            i <= v@.len(),
            forall|j: int| 0 <= j < i ==> f[j].entity_id != id,
        decreases v@.len() - i,
    {
        if v[i].entity_id == id {
            assert(is_first_at(f, id, i as int));
            proof {
                lemma_first_pos_at(f, id, i as int);
            }
            return Some(i);
        }
        i = i + 1;
    }
    proof {
        lemma_first_pos_none(f, id);
    }
    None
}

// ---------------------------------------------------------------------------
// Moving a node up or down
// ---------------------------------------------------------------------------

/// Node `k` of `s` holds a child with identifier `id` whose first position
/// among the children is above the top.
pub open spec fn child_can_move_up(s: Seq<NodeView>, id: EntityId, k: int) -> bool {
    0 <= k < s.len() && (first_pos(s[k].children, id) matches Some(p) && p > 0)
}

/// Node `k` of `s` holds a child with identifier `id` whose first position
/// among the children is above the bottom.
pub open spec fn child_can_move_down(s: Seq<NodeView>, id: EntityId, k: int) -> bool {
    0 <= k < s.len() && (first_pos(s[k].children, id) matches Some(p) && p + 1
        < s[k].children.len())
}

/// How moving `id` up by one turns `old` into `new`, with result `r`: the first
/// root with that identifier changes place with the root above it; failing
/// that (no such root, or it is already at the top), within the first node
/// where a child with that identifier is not at the top, that child changes
/// place with the child above it; failing both, nothing changes.
pub open spec fn moved_up(old: Seq<NodeView>, id: EntityId, new: Seq<NodeView>, r: bool) -> bool {
    if first_pos(old, id) is Some && first_pos(old, id)->0 > 0 {
        r && new == swap_next(old, first_pos(old, id)->0 - 1)
    } else if exists|k: int| child_can_move_up(old, id, k) {
        let k = choose|k: int|
            child_can_move_up(old, id, k) && forall|j: int|
                0 <= j < k ==> !child_can_move_up(old, id, j);
        let p = first_pos(old[k].children, id)->0;
        &&& forall|j: int| 0 <= j < k ==> !child_can_move_up(old, id, j)
        &&& child_can_move_up(old, id, k)
        &&& r
        &&& new == old.update(k, with_children(old[k], swap_next(old[k].children, p - 1)))
    } else {
        !r && new == old
    }
}

/// How moving `id` down by one turns `old` into `new`, with result `r`: as
/// [`moved_up`], towards the bottom.
pub open spec fn moved_down(old: Seq<NodeView>, id: EntityId, new: Seq<NodeView>, r: bool) -> bool {
    if first_pos(old, id) is Some && first_pos(old, id)->0 + 1 < old.len() {
        r && new == swap_next(old, first_pos(old, id)->0)
    } else if exists|k: int| child_can_move_down(old, id, k) {
        let k = choose|k: int|
            child_can_move_down(old, id, k) && forall|j: int|
                0 <= j < k ==> !child_can_move_down(old, id, j);
        let p = first_pos(old[k].children, id)->0;
        &&& forall|j: int| 0 <= j < k ==> !child_can_move_down(old, id, j)
        &&& child_can_move_down(old, id, k)
        &&& r
        &&& new == old.update(k, with_children(old[k], swap_next(old[k].children, p)))
    } else {
        !r && new == old
    }
}

/// Exchanges the elements at `i` and `i + 1` of `v`.
fn swap_with_next(v: &mut Vec<LayerNode>, i: usize)
    requires
        i + 1 < old(v)@.len(),
    ensures
        final(v)@ == swap_next(old(v)@, i as int),
{
    let len = v.len();
    assert(i + 1 < len);
    let n = v.remove(i + 1);
    v.insert(i, n);
    assert(v@ =~= swap_next(old(v)@, i as int));
}

pub proof fn lemma_forest_swap(s: Seq<LayerNode>, i: int)
    requires
        0 <= i && i + 1 < s.len(),
    ensures
        forest(swap_next(s, i)) == swap_next(forest(s), i),
{
    assert(forest(swap_next(s, i)) =~= swap_next(forest(s), i));
}

pub proof fn lemma_forest_update(s: Seq<LayerNode>, k: int, n: LayerNode)
    requires
        0 <= k < s.len(),
    ensures
        forest(s.update(k, n)) == forest(s).update(k, n@),
{
    assert(forest(s.update(k, n)) =~= forest(s).update(k, n@));
}

/// Exchanges the children at `p` and `p + 1` of root `k`.
fn swap_children(tree: &mut Vec<LayerNode>, k: usize, p: usize)
    requires
        k < old(tree)@.len(),
        p + 1 < old(tree)@[k as int].children@.len(),
    ensures
        forest(final(tree)@) == forest(old(tree)@).update(
            k as int,
            with_children(
                forest(old(tree)@)[k as int],
                swap_next(forest(old(tree)@)[k as int].children, p as int),
            ),
        ),
{
    let ghost old_node = tree@[k as int];
    let mut node = tree.remove(k);
    swap_with_next(&mut node.children, p);
    proof {
        lemma_children_view(node);
        lemma_children_view(old_node);
        lemma_forest_swap(old_node.children@, p as int);
        assert(node@ =~= with_children(old_node@, swap_next(old_node@.children, p as int)));
    }
    tree.insert(k, node);
    proof {
        assert(tree@ =~= old(tree)@.update(k as int, node));
        lemma_forest_update(old(tree)@, k as int, node);
    }
}

/// Moves a node up by one place, among the roots or among the children of a
/// node. Returns whether it moved.
pub fn move_node_up(tree: &mut Vec<LayerNode>, entity_id: EntityId) -> (r: bool)
    ensures
        moved_up(forest(old(tree)@), entity_id, forest(final(tree)@), r),
{
    let ghost f = forest(tree@);
    if let Some(idx) = position_of(tree, entity_id) {
        if idx > 0 {
            swap_with_next(tree, idx - 1);
            proof {
                lemma_forest_swap(old(tree)@, idx - 1);
            }
            return true;
        }
    }
    let mut k: usize = 0;
    while k < tree.len()
        invariant
            tree@ == old(tree)@,
            f == forest(tree@),
            k <= tree@.len(),
            !(first_pos(f, entity_id) matches Some(p) && p > 0),
            forall|j: int| 0 <= j < k ==> !child_can_move_up(f, entity_id, j),
        decreases tree@.len() - k,
    {
        proof {
            lemma_children_view(tree@[k as int]);
        }
        if let Some(p) = position_of(&tree[k].children, entity_id) {
            if p > 0 {
                assert(child_can_move_up(f, entity_id, k as int));
                swap_children(tree, k, p - 1);
                proof {
                    let kk = choose|kk: int|
                        child_can_move_up(f, entity_id, kk) && forall|j: int|
                            0 <= j < kk ==> !child_can_move_up(f, entity_id, j);
                    assert(child_can_move_up(f, entity_id, k as int) && forall|j: int|
                        0 <= j < k ==> !child_can_move_up(f, entity_id, j));
                    if kk < k {
                        assert(!child_can_move_up(f, entity_id, kk));
                    }
                    if kk > k {
                        assert(!child_can_move_up(f, entity_id, k as int));
                    }
                }
                return true;
            }
        }
        k = k + 1;
    }
    assert(!exists|k: int| child_can_move_up(f, entity_id, k));
    false
}

/// Moves a node down by one place, among the roots or among the children of a
/// node. Returns whether it moved.
pub fn move_node_down(tree: &mut Vec<LayerNode>, entity_id: EntityId) -> (r: bool)
    ensures
        moved_down(forest(old(tree)@), entity_id, forest(final(tree)@), r),
{
    let ghost f = forest(tree@);
    if let Some(idx) = position_of(tree, entity_id) {
        let len = tree.len();
        if idx + 1 < len {
            swap_with_next(tree, idx);
            proof {
                lemma_forest_swap(old(tree)@, idx as int);
            }
            return true;
        }
    }
    let mut k: usize = 0;
    while k < tree.len()
        invariant
            tree@ == old(tree)@,
            f == forest(tree@),
            k <= tree@.len(),
            !(first_pos(f, entity_id) matches Some(p) && p + 1 < f.len()),
            forall|j: int| 0 <= j < k ==> !child_can_move_down(f, entity_id, j),
        decreases tree@.len() - k,
    {
        proof {
            lemma_children_view(tree@[k as int]);
        }
        if let Some(p) = position_of(&tree[k].children, entity_id) {
            let clen = tree[k].children.len();
            if p + 1 < clen {
                assert(child_can_move_down(f, entity_id, k as int));
                swap_children(tree, k, p);
                proof {
                    let kk = choose|kk: int|
                        child_can_move_down(f, entity_id, kk) && forall|j: int|
                            0 <= j < kk ==> !child_can_move_down(f, entity_id, j);
                    assert(child_can_move_down(f, entity_id, k as int) && forall|j: int|
                        0 <= j < k ==> !child_can_move_down(f, entity_id, j));
                    if kk < k {
                        assert(!child_can_move_down(f, entity_id, kk));
                    }
                    if kk > k {
                        assert(!child_can_move_down(f, entity_id, k as int));
                    }
                }
                return true;
            }
        }
        k = k + 1;
    }
    assert(!exists|k: int| child_can_move_down(f, entity_id, k));
    false
}

// ---------------------------------------------------------------------------
// Expanding and collapsing
// ---------------------------------------------------------------------------

/// Slot `(k, j)` of `s` holds identifier `id`: the root `k` itself when `j` is
/// `-1`, else child `j` of root `k`.
pub open spec fn slot_matches(s: Seq<NodeView>, id: EntityId, k: int, j: int) -> bool {
    &&& 0 <= k < s.len()
    &&& {
        ||| j == -1 && s[k].entity_id == id
        ||| 0 <= j < s[k].children.len() && s[k].children[j].entity_id == id
    }
}

/// Slot `(k1, j1)` comes before slot `(k2, j2)`: each root comes right before
/// its children, and before the next root.
pub open spec fn slot_before(k1: int, j1: int, k2: int, j2: int) -> bool {
    k1 < k2 || (k1 == k2 && j1 < j2)
}

/// `(k, j)` is the first slot of `s` that holds `id`.
pub open spec fn is_first_slot(s: Seq<NodeView>, id: EntityId, k: int, j: int) -> bool {
    &&& slot_matches(s, id, k, j)
    &&& forall|k2: int, j2: int| #[trigger]
        slot_before(k2, j2, k, j) ==> !slot_matches(s, id, k2, j2)
}

/// `s` with the expanded flag of slot `(k, j)` flipped.
pub open spec fn toggled_at(s: Seq<NodeView>, k: int, j: int) -> Seq<NodeView> {
    if j == -1 {
        s.update(k, flipped(s[k]))
    } else {
        s.update(k, with_children(s[k], s[k].children.update(j, flipped(s[k].children[j]))))
    }
}

/// How toggling `id` turns `old` into `new`: the first slot that holds `id`
/// has its expanded flag flipped; with no such slot nothing changes.
pub open spec fn toggled(old: Seq<NodeView>, id: EntityId, new: Seq<NodeView>) -> bool {
    if exists|k: int, j: int| is_first_slot(old, id, k, j) {
        let (k, j) = choose|k: int, j: int| is_first_slot(old, id, k, j);
        new == toggled_at(old, k, j)
    } else {
        new == old
    }
}

proof fn lemma_first_slot_unique(s: Seq<NodeView>, id: EntityId, k: int, j: int)
    requires
        is_first_slot(s, id, k, j),
    ensures
        exists|k2: int, j2: int| is_first_slot(s, id, k2, j2),
        (choose|k2: int, j2: int| is_first_slot(s, id, k2, j2)) == (k, j),
{
    assert(is_first_slot(s, id, k, j));
    let (k2, j2) = choose|k2: int, j2: int| is_first_slot(s, id, k2, j2);
    if slot_before(k2, j2, k, j) {
        assert(!slot_matches(s, id, k2, j2));
    }
    if slot_before(k, j, k2, j2) {
        assert(!slot_matches(s, id, k, j));
    }
}

/// Flips the expanded state of the first node with the given identifier,
/// looking at each root and then at its children, root after root.
pub fn toggle_expanded(tree: &mut [LayerNode], entity_id: EntityId)
    ensures
        toggled(forest(old(tree)@), entity_id, forest(final(tree)@)),
{
    let ghost f = forest(tree@);
    let mut k: usize = 0;
    while k < tree.len()
        invariant
            tree@ == old(tree)@,
            f == forest(tree@),
            k <= tree@.len(),
            forall|k2: int, j2: int| 0 <= k2 < k ==> !slot_matches(f, entity_id, k2, j2),
        decreases tree@.len() - k,
    {
        proof {
            lemma_children_view(tree@[k as int]);
        }
        if tree[k].entity_id == entity_id {
            assert(is_first_slot(f, entity_id, k as int, -1)) by {
                assert forall|k2: int, j2: int| #[trigger]
                    slot_before(k2, j2, k as int, -1) implies !slot_matches(
                    f,
                    entity_id,
                    k2,
                    j2,
                ) by {}
            }
            let ghost old_node = tree@[k as int];
            tree[k].expanded = !tree[k].expanded;
            proof {
                let node = tree@[k as int];
                lemma_children_view(node);
                lemma_children_view(old_node);
                assert(node@ =~= flipped(old_node@));
                assert(tree@ =~= old(tree)@.update(k as int, node));
                lemma_forest_update(old(tree)@, k as int, node);
                lemma_first_slot_unique(f, entity_id, k as int, -1);
            }
            return ;
        }
        let clen = tree[k].children.len();
        let mut j: usize = 0;
        while j < clen
            invariant
                tree@ == old(tree)@,
                f == forest(tree@),
                k < tree@.len(),
                clen == tree@[k as int].children@.len(),
                f[k as int].children == forest(tree@[k as int].children@),
                f[k as int].entity_id != entity_id,
                j <= clen,
                forall|k2: int, j2: int| 0 <= k2 < k ==> !slot_matches(f, entity_id, k2, j2),
                forall|j2: int| 0 <= j2 < j ==> !slot_matches(f, entity_id, k as int, j2),
            decreases clen - j,
        {
            if tree[k].children[j].entity_id == entity_id {
                assert(is_first_slot(f, entity_id, k as int, j as int)) by {
                    assert forall|k2: int, j2: int| #[trigger]
                        slot_before(k2, j2, k as int, j as int) implies !slot_matches(
                        f,
                        entity_id,
                        k2,
                        j2,
                    ) by {
                        if k2 == k && j2 < -1 {
                        }
                    }
                }
                let ghost old_node = tree@[k as int];
                let ghost old_child = old_node.children@[j as int];
                tree[k].children[j].expanded = !tree[k].children[j].expanded;
                proof {
                    let node = tree@[k as int];
                    let child = node.children@[j as int];
                    lemma_children_view(child);
                    lemma_children_view(old_child);
                    assert(child@ =~= flipped(old_child@));
                    assert(node.children@ =~= old_node.children@.update(j as int, child));
                    lemma_forest_update(old_node.children@, j as int, child);
                    lemma_children_view(node);
                    lemma_children_view(old_node);
                    assert(node@ =~= with_children(
                        old_node@,
                        old_node@.children.update(j as int, flipped(old_node@.children[j as int])),
                    ));
                    assert(tree@ =~= old(tree)@.update(k as int, node));
                    lemma_forest_update(old(tree)@, k as int, node);
                    lemma_first_slot_unique(f, entity_id, k as int, j as int);
                }
                return ;
            }
            j = j + 1;
        }
        k = k + 1;
    }
    assert(!exists|k: int, j: int| is_first_slot(f, entity_id, k, j));
}

// ---------------------------------------------------------------------------
// Parents, removal and drag-and-drop
// ---------------------------------------------------------------------------

/// `k` is the first root of `s` that holds a child with identifier `id`.
pub open spec fn is_first_parent(s: Seq<NodeView>, id: EntityId, k: int) -> bool {
    &&& 0 <= k < s.len()
    &&& has_id(s[k].children, id)
    &&& forall|j: int| 0 <= j < k ==> !has_id(#[trigger] s[j].children, id)
}

/// The first root of `s` that holds a child with identifier `id`.
pub open spec fn first_parent(s: Seq<NodeView>, id: EntityId) -> Option<int> {
    if exists|k: int| is_first_parent(s, id, k) {
        Some(choose|k: int| is_first_parent(s, id, k))
    } else {
        None
    }
}

proof fn lemma_first_parent_at(s: Seq<NodeView>, id: EntityId, k: int)
    requires
        is_first_parent(s, id, k),
    ensures
        first_parent(s, id) == Some(k),
{
    let j = choose|j: int| is_first_parent(s, id, j);
    assert(is_first_parent(s, id, j));
    if j < k {
        assert(!has_id(s[j].children, id));
    }
    if k < j {
        assert(!has_id(s[k].children, id));
    }
}

/// The first root, in order, that holds `id` among its direct children.
fn parent_index(tree: &[LayerNode], id: EntityId) -> (r: Option<usize>)
    ensures
        r matches Some(k) ==> k < tree@.len() && first_parent(forest(tree@), id) == Some(k as int),
        r is None ==> first_parent(forest(tree@), id) is None,
        r is None ==> forall|k: int|
            0 <= k < tree@.len() ==> !has_id(#[trigger] forest(tree@)[k].children, id),
{
    let ghost f = forest(tree@);
    let mut k: usize = 0;
    while k < tree.len()
        invariant
            f == forest(tree@),
            k <= tree@.len(),
            forall|j: int| 0 <= j < k ==> !has_id(#[trigger] f[j].children, id),
        decreases tree@.len() - k,
    {
        proof {
            lemma_children_view(tree@[k as int]);
        }
        if position_of(&tree[k].children, id).is_some() {
            proof {
                let p = first_pos(f[k as int].children, id)->0;
                assert(f[k as int].children[p].entity_id == id);
                assert(is_first_parent(f, id, k as int));
                lemma_first_parent_at(f, id, k as int);
            }
            return Some(k);
        }
        k = k + 1;
    }
    proof {
        if exists|k: int| is_first_parent(f, id, k) {
            let k = choose|k: int| is_first_parent(f, id, k);
            assert(!has_id(f[k].children, id));
        }
    }
    None
}

/// `k` is the first group root of `s` that holds a child with identifier
/// `id`.
pub open spec fn is_first_group_parent(s: Seq<NodeView>, id: EntityId, k: int) -> bool {
    &&& 0 <= k < s.len()
    &&& s[k].kind == LayerNodeKind::Group
    &&& has_id(s[k].children, id)
    &&& forall|j: int|
        0 <= j < k ==> !(s[j].kind == LayerNodeKind::Group && has_id(#[trigger] s[j].children, id))
}

/// The first group root of `s` that holds a child with identifier `id`.
pub open spec fn first_group_parent(s: Seq<NodeView>, id: EntityId) -> Option<int> {
    if exists|k: int| is_first_group_parent(s, id, k) {
        Some(choose|k: int| is_first_group_parent(s, id, k))
    } else {
        None
    }
}

pub proof fn lemma_first_group_parent_at(s: Seq<NodeView>, id: EntityId, k: int)
    requires
        is_first_group_parent(s, id, k),
    ensures
        first_group_parent(s, id) == Some(k),
{
    let j = choose|j: int| is_first_group_parent(s, id, j);
    assert(is_first_group_parent(s, id, j));
    if j < k {
        assert(!(s[j].kind == LayerNodeKind::Group && has_id(s[j].children, id)));
    }
    if k < j {
        assert(!(s[k].kind == LayerNodeKind::Group && has_id(s[k].children, id)));
    }
}

/// Finds which group (if any) holds the given entity as a direct child: the
/// identifier of the first group root that does.
pub fn find_parent_group(tree: &[LayerNode], entity_id: EntityId) -> (r: Option<EntityId>)
    ensures
        r == (match first_group_parent(forest(tree@), entity_id) {
            Some(k) => Some(forest(tree@)[k].entity_id),
            None => None,
        }),
{
    let ghost f = forest(tree@);
    let mut k: usize = 0;
    while k < tree.len()
        invariant
            f == forest(tree@),
            k <= tree@.len(),
            forall|j: int|
                0 <= j < k ==> !(f[j].kind == LayerNodeKind::Group && has_id(#[trigger] f[j].children, entity_id)),
        decreases tree@.len() - k,
    {
        proof {
            lemma_children_view(tree@[k as int]);
        }
        if tree[k].kind == LayerNodeKind::Group && position_of(&tree[k].children, entity_id).is_some() {
            proof {
                let p = first_pos(f[k as int].children, entity_id)->0;
                assert(f[k as int].children[p].entity_id == entity_id);
                assert(is_first_group_parent(f, entity_id, k as int));
                lemma_first_group_parent_at(f, entity_id, k as int);
            }
            return Some(tree[k].entity_id);
        }
        k = k + 1;
    }
    proof {
        if exists|k: int| is_first_group_parent(f, entity_id, k) {
            let k = choose|k: int| is_first_group_parent(f, entity_id, k);
            assert(!(f[k].kind == LayerNodeKind::Group && has_id(f[k].children, entity_id)));
        }
    }
    None
}

/// What removing `id` from `s` leaves, and the node that it takes out: the
/// first root with that identifier; failing that, the first child with that
/// identifier of the first root that holds one; failing both, nothing.
pub open spec fn removal(s: Seq<NodeView>, id: EntityId) -> (Seq<NodeView>, Option<NodeView>) {
    if first_pos(s, id) is Some {
        let p = first_pos(s, id)->0;
        (s.remove(p), Some(s[p]))
    } else if first_parent(s, id) is Some {
        let k = first_parent(s, id)->0;
        let q = first_pos(s[k].children, id)->0;
        (s.update(k, with_children(s[k], s[k].children.remove(q))), Some(s[k].children[q]))
    } else {
        (s, None)
    }
}

pub proof fn lemma_forest_remove(s: Seq<LayerNode>, i: int)
    requires
        0 <= i < s.len(),
    ensures
        forest(s.remove(i)) == forest(s).remove(i),
{
    assert(forest(s.remove(i)) =~= forest(s).remove(i));
}

pub proof fn lemma_forest_insert(s: Seq<LayerNode>, i: int, n: LayerNode)
    requires
        0 <= i <= s.len(),
    ensures
        forest(s.insert(i, n)) == forest(s).insert(i, n@),
{
    assert(forest(s.insert(i, n)) =~= forest(s).insert(i, n@));
}

pub proof fn lemma_forest_push(s: Seq<LayerNode>, n: LayerNode)
    ensures
        forest(s.push(n)) == forest(s).push(n@),
{
    assert(forest(s.push(n)) =~= forest(s).push(n@));
}

/// Removes a node from the tree (as a root or as a child of a root) and
/// returns it.
pub fn remove_node(tree: &mut Vec<LayerNode>, entity_id: EntityId) -> (r: Option<LayerNode>)
    ensures
        removal(forest(old(tree)@), entity_id).0 == forest(final(tree)@),
        removal(forest(old(tree)@), entity_id).1 == (match r {
            Some(n) => Some(n@),
            None => None,
        }),
{
    let ghost f = forest(tree@);
    if let Some(idx) = position_of(tree, entity_id) {
        let n = tree.remove(idx);
        proof {
            lemma_forest_remove(old(tree)@, idx as int);
        }
        return Some(n);
    }
    match parent_index(tree, entity_id) {
        Some(k) => {
            let ghost old_node = tree@[k as int];
            proof {
                lemma_children_view(old_node);
            }
            let mut node = tree.remove(k);
            let q = match position_of(&node.children, entity_id) {
                Some(q) => q,
                None => {
                    proof {
                        let qq = choose|i: int|
                            0 <= i < f[k as int].children.len()
                                && f[k as int].children[i].entity_id == entity_id;
                        assert(forest(node.children@)[qq].entity_id == entity_id);
                    }
                    return None;
                },
            };
            let child = node.children.remove(q);
            proof {
                lemma_forest_remove(old_node.children@, q as int);
                lemma_children_view(node);
                assert(node@ =~= with_children(old_node@, old_node@.children.remove(q as int)));
            }
            tree.insert(k, node);
            proof {
                assert(tree@ =~= old(tree)@.update(k as int, node));
                lemma_forest_update(old(tree)@, k as int, node);
            }
            Some(child)
        },
        None => None,
    }
}

/// Where a dragged node is to be dropped.
#[derive(Clone, Copy, Debug, PartialEq, Eq, Structural)]
pub enum DropTarget {
    /// Insert before the root node at this tree index.
    BeforeRoot(usize),
    /// Append after all root nodes.
    AfterLastRoot,
    /// Insert inside a group at a child position.
    InsideGroup { group_id: EntityId, child_index: usize },
}

/// The smaller of two integers.
pub open spec fn min_int(a: int, b: int) -> int {
    if a <= b {
        a
    } else {
        b
    }
}

/// How dropping `id` on `target` turns `old` into `new`, with result `r`. The
/// node is first taken out as [`removal`] says; without such a node nothing
/// changes and the result is `false`.
///
/// - `BeforeRoot(idx)`: the node goes right before the root that stood at
///   index `idx` (after the last root when `idx` is past the roots). When the
///   node was itself a root in front of `idx`, the roots behind it have moved
///   up by one, so it goes in at `idx - 1` of the shortened roots.
/// - `AfterLastRoot`: the node goes after the last root.
/// - `InsideGroup`: the node goes among the children of the first root with
///   the group's identifier, at the given position (at the end when the
///   position is past it). When no root has that identifier once the node is
///   taken out, nothing changes and the result is `false`.
pub open spec fn dropped(
    old: Seq<NodeView>,
    target: DropTarget,
    id: EntityId,
    new: Seq<NodeView>,
    r: bool,
) -> bool {
    let (mid, taken) = removal(old, id);
    match taken {
        None => !r && new == old,
        Some(n) => match target {
            DropTarget::BeforeRoot(idx) => {
                let at = if first_pos(old, id) is Some && first_pos(old, id)->0 < idx {
                    idx - 1
                } else {
                    idx as int
                };
                r && new == mid.insert(min_int(at, mid.len() as int), n)
            },
            DropTarget::AfterLastRoot => r && new == mid.push(n),
            DropTarget::InsideGroup { group_id, child_index } => {
                if first_pos(mid, group_id) is Some {
                    let g = first_pos(mid, group_id)->0;
                    let c = mid[g].children;
                    r && new == mid.update(
                        g,
                        with_children(mid[g], c.insert(min_int(child_index as int, c.len() as int), n)),
                    )
                } else {
                    !r && new == old
                }
            },
        },
    }
}

/// Moves a dragged node to the drop target. Returns whether it moved; when it
/// did not, the tree is as it was.
pub fn execute_drop(tree: &mut Vec<LayerNode>, target: &DropTarget, dragged_id: EntityId) -> (r: bool)
    ensures
        dropped(forest(old(tree)@), *target, dragged_id, forest(final(tree)@), r),
{
    let ghost f = forest(tree@);
    // Where the node stands, to shift a root index and to put it back.
    let root_pos = position_of(tree, dragged_id);
    let parent = parent_index(tree, dragged_id);
    let child_pos = match (root_pos, parent) {
        (None, Some(k)) => {
            proof {
                lemma_children_view(tree@[k as int]);
            }
            position_of(&tree[k].children, dragged_id)
        },
        _ => None,
    };
    let node = match remove_node(tree, dragged_id) {
        Some(n) => n,
        None => return false,
    };
    let ghost mid = tree@;
    match target {
        DropTarget::BeforeRoot(idx) => {
            let at = match root_pos {
                Some(p) => if p < *idx {
                    *idx - 1
                } else {
                    *idx
                },
                None => *idx,
            };
            let len = tree.len();
            let insert_idx = if at < len {
                at
            } else {
                len
            };
            tree.insert(insert_idx, node);
            proof {
                lemma_forest_insert(mid, insert_idx as int, node);
            }
        },
        DropTarget::AfterLastRoot => {
            tree.push(node);
            proof {
                lemma_forest_push(mid, node);
            }
        },
        DropTarget::InsideGroup { group_id, child_index } => {
            match position_of(tree, *group_id) {
                Some(g) => {
                    let ghost old_group = tree@[g as int];
                    proof {
                        lemma_children_view(old_group);
                    }
                    let mut group_node = tree.remove(g);
                    let clen = group_node.children.len();
                    let insert_idx = if *child_index < clen {
                        *child_index
                    } else {
                        clen
                    };
                    group_node.children.insert(insert_idx, node);
                    proof {
                        lemma_forest_insert(old_group.children@, insert_idx as int, node);
                        lemma_children_view(group_node);
                        assert(group_node@ =~= with_children(
                            old_group@,
                            old_group@.children.insert(insert_idx as int, node@),
                        ));
                    }
                    tree.insert(g, group_node);
                    proof {
                        assert(tree@ =~= mid.update(g as int, group_node));
                        lemma_forest_update(mid, g as int, group_node);
                    }
                },
                None => {
                    // No root with that identifier: put the node back where it stood.
                    match root_pos {
                        Some(p) => {
                            proof {
                                assert(first_pos(f, dragged_id) == Some(p as int));
                                assert(forest(mid) == f.remove(p as int));
                                assert(mid.len() == forest(mid).len());
                                assert(p <= mid.len());
                            }
                            tree.insert(p, node);
                            proof {
                                lemma_forest_insert(mid, p as int, node);
                                assert(forest(tree@) =~= f);
                            }
                        },
                        None => {
                            let k = match parent {
                                Some(k) => k,
                                None => return false,
                            };
                            let q = match child_pos {
                                Some(q) => q,
                                None => return false,
                            };
                            proof {
                                lemma_children_view(old(tree)@[k as int]);
                                assert(first_pos(f, dragged_id) is None);
                                assert(first_parent(f, dragged_id) == Some(k as int));
                                assert(first_pos(f[k as int].children, dragged_id) == Some(q as int));
                                assert(forest(mid) == f.update(
                                    k as int,
                                    with_children(f[k as int], f[k as int].children.remove(q as int)),
                                ));
                                assert(mid.len() == forest(mid).len());
                                assert(forest(mid)[k as int] == mid[k as int]@);
                            }
                            let ghost old_node = tree@[k as int];
                            proof {
                                lemma_children_view(old_node);
                                lemma_first_pos_some(f[k as int].children, dragged_id);
                                assert(old_node@ == with_children(
                                    f[k as int],
                                    f[k as int].children.remove(q as int),
                                ));
                                assert(q < f[k as int].children.len());
                                assert(forest(old_node.children@).len() == old_node.children@.len());
                                assert(old_node.children@.len() + 1 == f[k as int].children.len());
                            }
                            let mut holder = tree.remove(k);
                            holder.children.insert(q, node);
                            proof {
                                lemma_forest_insert(old_node.children@, q as int, node);
                                lemma_children_view(holder);
                                let fc = f[k as int].children;
                                assert(node@ == fc[q as int]);
                                assert(fc.remove(q as int).insert(q as int, fc[q as int]) =~= fc);
                                assert(holder@ =~= f[k as int]);
                            }
                            tree.insert(k, holder);
                            proof {
                                assert(tree@ =~= mid.update(k as int, holder));
                                lemma_forest_update(mid, k as int, holder);
                                assert(forest(tree@) =~= f);
                            }
                        },
                    }
                    return false;
                },
            }
        },
    }
    true
}

// ---------------------------------------------------------------------------
// Laws
// ---------------------------------------------------------------------------

/// No identifier occurs twice among the roots and their direct children.
pub open spec fn unique_ids(s: Seq<NodeView>) -> bool {
    &&& forall|i: int, j: int|
        0 <= i < s.len() && 0 <= j < s.len() && i != j ==> s[i].entity_id != s[j].entity_id
    &&& forall|i: int, k: int, c: int|
        0 <= i < s.len() && 0 <= k < s.len() && 0 <= c < s[k].children.len()
            ==> #[trigger] s[i].entity_id != #[trigger] s[k].children[c].entity_id
    &&& forall|k1: int, c1: int, k2: int, c2: int|
        0 <= k1 < s.len() && 0 <= k2 < s.len() && 0 <= c1 < s[k1].children.len() && 0 <= c2
            < s[k2].children.len() && (k1 != k2 || c1 != c2)
            ==> #[trigger] s[k1].children[c1].entity_id != #[trigger] s[k2].children[c2].entity_id
}

proof fn lemma_swap_back<T>(s: Seq<T>, i: int)
    requires
        0 <= i && i + 1 < s.len(),
    ensures
        swap_next(swap_next(s, i), i) == s,
{
    assert(swap_next(swap_next(s, i), i) =~= s);
}

/// In a tree where no identifier occurs twice, moving a node up and then
/// moving it down again restores the tree.
pub proof fn law_move_up_then_down(
    a: Seq<NodeView>,
    b: Seq<NodeView>,
    c: Seq<NodeView>,
    id: EntityId,
    r2: bool,
)
    requires
        unique_ids(a),
        moved_up(a, id, b, true),
        moved_down(b, id, c, r2),
    ensures
        r2,
        c == a,
{
    if first_pos(a, id) is Some && first_pos(a, id)->0 > 0 {
        let p = first_pos(a, id)->0;
        assert(is_first_at(a, id, p)) by {
            lemma_first_pos_some(a, id);
        }
        assert(b[p - 1].entity_id == id);
        assert(is_first_at(b, id, p - 1)) by {
            assert forall|j: int| 0 <= j < p - 1 implies b[j].entity_id != id by {
                assert(b[j] == a[j]);
            }
        }
        lemma_first_pos_at(b, id, p - 1);
        lemma_swap_back(a, p - 1);
    } else {
        let k = choose|k: int|
            child_can_move_up(a, id, k) && forall|j: int| 0 <= j < k ==> !child_can_move_up(a, id, j);
        let p = first_pos(a[k].children, id)->0;
        lemma_first_pos_some(a[k].children, id);
        // The identifier is not a root, so it is not one in `b` either.
        assert(!has_id(b, id)) by {
            if has_id(b, id) {
                let i = choose|i: int| 0 <= i < b.len() && b[i].entity_id == id;
                if i == k {
                    assert(b[i].entity_id == a[i].entity_id);
                } else {
                    assert(b[i] == a[i]);
                }
                assert(a[i].entity_id == a[k].children[p].entity_id);
            }
        }
        lemma_first_pos_none(b, id);
        let bc = b[k].children;
        assert(bc == swap_next(a[k].children, p - 1));
        assert(is_first_at(bc, id, p - 1)) by {
            assert forall|j: int| 0 <= j < p - 1 implies bc[j].entity_id != id by {
                assert(bc[j] == a[k].children[j]);
            }
        }
        lemma_first_pos_at(bc, id, p - 1);
        assert(child_can_move_down(b, id, k));
        assert forall|j: int| 0 <= j < k implies !child_can_move_down(b, id, j) by {
            assert(b[j] == a[j]);
            if child_can_move_down(b, id, j) {
                let q = first_pos(b[j].children, id)->0;
                lemma_first_pos_some(b[j].children, id);
                assert(a[j].children[q].entity_id == a[k].children[p].entity_id);
            }
        }
        let k2 = choose|k2: int|
            child_can_move_down(b, id, k2) && forall|j: int|
                0 <= j < k2 ==> !child_can_move_down(b, id, j);
        assert(child_can_move_down(b, id, k) && forall|j: int|
            0 <= j < k ==> !child_can_move_down(b, id, j));
        if k2 < k {
            assert(!child_can_move_down(b, id, k2));
        }
        if k2 > k {
            assert(!child_can_move_down(b, id, k));
        }
        lemma_swap_back(a[k].children, p - 1);
        assert(c =~= a);
    }
}

/// In a tree where no identifier occurs twice, moving a node down and then
/// moving it up again restores the tree.
pub proof fn law_move_down_then_up(
    a: Seq<NodeView>,
    b: Seq<NodeView>,
    c: Seq<NodeView>,
    id: EntityId,
    r2: bool,
)
    requires
        unique_ids(a),
        moved_down(a, id, b, true),
        moved_up(b, id, c, r2),
    ensures
        r2,
        c == a,
{
    if first_pos(a, id) is Some && first_pos(a, id)->0 + 1 < a.len() {
        let p = first_pos(a, id)->0;
        assert(is_first_at(a, id, p)) by {
            lemma_first_pos_some(a, id);
        }
        assert(b[p + 1].entity_id == id);
        assert(is_first_at(b, id, p + 1)) by {
            assert forall|j: int| 0 <= j < p + 1 implies b[j].entity_id != id by {
                if j < p {
                    assert(b[j] == a[j]);
                } else {
                    assert(b[j] == a[p + 1]);
                }
            }
        }
        lemma_first_pos_at(b, id, p + 1);
        lemma_swap_back(a, p);
    } else {
        let k = choose|k: int|
            child_can_move_down(a, id, k) && forall|j: int|
                0 <= j < k ==> !child_can_move_down(a, id, j);
        let p = first_pos(a[k].children, id)->0;
        lemma_first_pos_some(a[k].children, id);
        assert(!has_id(b, id)) by {
            if has_id(b, id) {
                let i = choose|i: int| 0 <= i < b.len() && b[i].entity_id == id;
                if i == k {
                    assert(b[i].entity_id == a[i].entity_id);
                } else {
                    assert(b[i] == a[i]);
                }
                assert(a[i].entity_id == a[k].children[p].entity_id);
            }
        }
        lemma_first_pos_none(b, id);
        let bc = b[k].children;
        assert(bc == swap_next(a[k].children, p));
        assert(is_first_at(bc, id, p + 1)) by {
            assert forall|j: int| 0 <= j < p + 1 implies bc[j].entity_id != id by {
                if j < p {
                    assert(bc[j] == a[k].children[j]);
                } else {
                    assert(bc[j] == a[k].children[p + 1]);
                }
            }
        }
        lemma_first_pos_at(bc, id, p + 1);
        assert(child_can_move_up(b, id, k));
        assert forall|j: int| 0 <= j < k implies !child_can_move_up(b, id, j) by {
            assert(b[j] == a[j]);
            if child_can_move_up(b, id, j) {
                let q = first_pos(b[j].children, id)->0;
                lemma_first_pos_some(b[j].children, id);
                assert(a[j].children[q].entity_id == a[k].children[p].entity_id);
            }
        }
        let k2 = choose|k2: int|
            child_can_move_up(b, id, k2) && forall|j: int|
                0 <= j < k2 ==> !child_can_move_up(b, id, j);
        assert(child_can_move_up(b, id, k) && forall|j: int|
            0 <= j < k ==> !child_can_move_up(b, id, j));
        if k2 < k {
            assert(!child_can_move_up(b, id, k2));
        }
        if k2 > k {
            assert(!child_can_move_up(b, id, k));
        }
        lemma_swap_back(a[k].children, p);
        assert(c =~= a);
    }
}

/// Toggling the same node twice restores the tree.
pub proof fn law_toggle_twice(a: Seq<NodeView>, b: Seq<NodeView>, c: Seq<NodeView>, id: EntityId)
    requires
        toggled(a, id, b),
        toggled(b, id, c),
    ensures
        c == a,
{
    if exists|k: int, j: int| is_first_slot(a, id, k, j) {
        let (k, j) = choose|k: int, j: int| is_first_slot(a, id, k, j);
        assert(b == toggled_at(a, k, j));
        // Flipping a flag changes no identifier, so the first slot stays put.
        assert forall|k2: int, j2: int| slot_matches(b, id, k2, j2) == slot_matches(a, id, k2, j2) by {
            if 0 <= k2 < a.len() && k2 == k {
                if j2 >= 0 && j2 < a[k].children.len() && j != -1 {
                    if j2 == j {
                    } else {
                        assert(b[k].children[j2] == a[k].children[j2]);
                    }
                }
            } else if 0 <= k2 < a.len() {
                assert(b[k2] == a[k2]);
            }
        }
        assert(is_first_slot(b, id, k, j)) by {
            assert forall|k2: int, j2: int| #[trigger]
                slot_before(k2, j2, k, j) implies !slot_matches(b, id, k2, j2) by {
                assert(slot_matches(b, id, k2, j2) == slot_matches(a, id, k2, j2));
            }
        }
        lemma_first_slot_unique(b, id, k, j);
        if j == -1 {
            assert(c =~= a);
        } else {
            assert(c[k].children =~= a[k].children);
            assert(c =~= a);
        }
    } else {
        assert forall|k: int, j: int| !is_first_slot(b, id, k, j) by {
            if is_first_slot(b, id, k, j) {
                assert(b == a);
                assert(is_first_slot(a, id, k, j));
            }
        }
    }
}

proof fn lemma_removal_unique(s: Seq<NodeView>, id: EntityId)
    requires
        unique_ids(s),
        removal(s, id).1 is Some,
    ensures
        removal(s, id).1->0.entity_id == id,
        !has_id(removal(s, id).0, id),
        forall|k: int|
            0 <= k < removal(s, id).0.len() ==> !has_id(#[trigger] removal(s, id).0[k].children, id),
{
    let (mid, taken) = removal(s, id);
    if first_pos(s, id) is Some {
        let p = first_pos(s, id)->0;
        lemma_first_pos_some(s, id);
        assert(!has_id(mid, id)) by {
            if has_id(mid, id) {
                let j = choose|j: int| 0 <= j < mid.len() && mid[j].entity_id == id;
                if j < p {
                    assert(mid[j] == s[j]);
                } else {
                    assert(mid[j] == s[j + 1]);
                }
            }
        }
        assert forall|k: int| 0 <= k < mid.len() implies !has_id(#[trigger] mid[k].children, id) by {
            let kk = if k < p {
                k
            } else {
                k + 1
            };
            assert(mid[k] == s[kk]);
            if has_id(mid[k].children, id) {
                let c = choose|c: int| 0 <= c < mid[k].children.len() && mid[k].children[c].entity_id == id;
                assert(s[p].entity_id == s[kk].children[c].entity_id);
            }
        }
    } else {
        let k0 = first_parent(s, id)->0;
        let j0 = choose|j: int| is_first_parent(s, id, j);
        assert(is_first_parent(s, id, j0));
        lemma_first_parent_at(s, id, j0);
        let cs = s[k0].children;
        lemma_first_pos_some(cs, id);
        let q = first_pos(cs, id)->0;
        assert(!has_id(mid, id)) by {
            if has_id(mid, id) {
                let j = choose|j: int| 0 <= j < mid.len() && mid[j].entity_id == id;
                assert(mid[j].entity_id == s[j].entity_id);
                assert(s[j].entity_id == s[k0].children[q].entity_id);
            }
        }
        assert forall|k: int| 0 <= k < mid.len() implies !has_id(#[trigger] mid[k].children, id) by {
            if has_id(mid[k].children, id) {
                let c = choose|c: int| 0 <= c < mid[k].children.len() && mid[k].children[c].entity_id == id;
                if k == k0 {
                    let cr = cs.remove(q);
                    assert(mid[k].children == cr);
                    let cc = if c < q {
                        c
                    } else {
                        c + 1
                    };
                    assert(cr[c] == cs[cc]);
                    assert(s[k0].children[cc].entity_id == s[k0].children[q].entity_id);
                } else {
                    assert(mid[k] == s[k]);
                    assert(s[k].children[c].entity_id == s[k0].children[q].entity_id);
                }
            }
        }
    }
}

/// In a tree where no identifier occurs twice, a node that lands inside a
/// group (a root of kind group with the target's identifier) is afterwards
/// found there: the group is the first group root holding it as a child.
pub proof fn law_drop_inside_group_then_parent(
    old: Seq<NodeView>,
    group_id: EntityId,
    child_index: usize,
    id: EntityId,
    new: Seq<NodeView>,
)
    requires
        unique_ids(old),
        forall|k: int|
            0 <= k < old.len() && (#[trigger] old[k]).entity_id == group_id ==> old[k].kind
                == LayerNodeKind::Group,
        dropped(old, DropTarget::InsideGroup { group_id, child_index }, id, new, true),
    ensures
        first_group_parent(new, id) is Some,
        new[first_group_parent(new, id)->0].entity_id == group_id,
        !has_id(new, id),
{
    let (mid, taken) = removal(old, id);
    lemma_removal_unique(old, id);
    let n = taken->0;
    let g = first_pos(mid, group_id)->0;
    let g0 = choose|i: int| is_first_at(mid, group_id, i);
    assert(is_first_at(mid, group_id, g0));
    assert(mid[g].kind == LayerNodeKind::Group) by {
        if first_pos(old, id) is Some {
            let p = first_pos(old, id)->0;
            if g < p {
                assert(mid[g] == old[g]);
            } else {
                assert(mid[g] == old[g + 1]);
            }
        } else {
            assert(mid[g].kind == old[g].kind);
            assert(mid[g].entity_id == old[g].entity_id);
        }
    }
    let c = mid[g].children;
    let at = min_int(child_index as int, c.len() as int);
    assert(new[g].children[at] == n);
    assert(is_first_group_parent(new, id, g)) by {
        assert(has_id(new[g].children, id));
        assert forall|j: int| 0 <= j < g implies !(new[j].kind == LayerNodeKind::Group && has_id(
            #[trigger] new[j].children,
            id,
        )) by {
            assert(new[j] == mid[j]);
        }
    }
    lemma_first_group_parent_at(new, id, g);
    assert(!has_id(new, id)) by {
        if has_id(new, id) {
            let j = choose|j: int| 0 <= j < new.len() && new[j].entity_id == id;
            assert(new[j].entity_id == mid[j].entity_id);
        }
    }
}

/// The identifiers of a node and of all nodes below it, at every depth.
pub open spec fn subtree_ids(n: NodeView) -> Multiset<EntityId>
    decreases n,
{
    Multiset::singleton(n.entity_id).add(forest_ids_of(n.children, n.children.len() as int))
}

/// The identifiers of the first `k` nodes of `s` and of all nodes below them.
pub open spec fn forest_ids_of(s: Seq<NodeView>, k: int) -> Multiset<EntityId>
    decreases s, k,
{
    if k <= 0 || k > s.len() {
        Multiset::empty()
    } else {
        forest_ids_of(s, k - 1).add(subtree_ids(s[k - 1]))
    }
}

/// The identifiers of all nodes of `s`, at every depth.
pub open spec fn forest_ids(s: Seq<NodeView>) -> Multiset<EntityId> {
    forest_ids_of(s, s.len() as int)
}

proof fn lemma_forest_ids_prefix(a: Seq<NodeView>, b: Seq<NodeView>, k: int)
    requires
        0 <= k <= a.len(),
        k <= b.len(),
        a.take(k) == b.take(k),
    ensures
        forest_ids_of(a, k) == forest_ids_of(b, k),
    decreases k,
{
    if k > 0 {
        assert(a[k - 1] == a.take(k)[k - 1]);
        assert(b[k - 1] == b.take(k)[k - 1]);
        assert(a.take(k - 1) =~= a.take(k).take(k - 1));
        assert(b.take(k - 1) =~= b.take(k).take(k - 1));
        lemma_forest_ids_prefix(a, b, k - 1);
    }
}

/// The identifiers of `a + b` are those of `a` and those of `b`.
proof fn lemma_forest_ids_concat(a: Seq<NodeView>, b: Seq<NodeView>)
    ensures
        forest_ids(a + b) == forest_ids(a).add(forest_ids(b)),
    decreases b.len(),
{
    broadcast use vstd::multiset::group_multiset_axioms;

    if b.len() == 0 {
        assert(a + b =~= a);
        assert(forest_ids(a).add(forest_ids(b)) =~= forest_ids(a));
    } else {
        let d = b.drop_last();
        lemma_forest_ids_concat(a, d);
        let ab = a + b;
        assert(ab.take(ab.len() - 1) =~= (a + d).take((a + d).len() as int));
        lemma_forest_ids_prefix(ab, a + d, (a + d).len() as int);
        assert((a + d).take((a + d).len() as int) =~= a + d);
        assert(ab[ab.len() - 1] == b[b.len() - 1]);
        assert(b.take(d.len() as int) =~= d.take(d.len() as int));
        lemma_forest_ids_prefix(b, d, d.len() as int);
        assert(forest_ids(ab) =~= forest_ids(a).add(forest_ids(b)));
    }
}

proof fn lemma_forest_ids_single(x: NodeView)
    ensures
        forest_ids(seq![x]) == subtree_ids(x),
{
    broadcast use vstd::multiset::group_multiset_axioms;

    assert(forest_ids_of(seq![x], 0) == Multiset::<EntityId>::empty());
    assert(forest_ids(seq![x]) =~= subtree_ids(x));
}

/// Splitting `s` at `p`: the identifiers of the nodes before, of node `p`
/// and of the nodes after.
proof fn lemma_forest_ids_split(s: Seq<NodeView>, p: int)
    requires
        0 <= p < s.len(),
    ensures
        forest_ids(s) == forest_ids(s.take(p)).add(subtree_ids(s[p])).add(forest_ids(s.skip(p + 1))),
{
    assert(s =~= s.take(p) + seq![s[p]] + s.skip(p + 1));
    lemma_forest_ids_concat(s.take(p) + seq![s[p]], s.skip(p + 1));
    lemma_forest_ids_concat(s.take(p), seq![s[p]]);
    lemma_forest_ids_single(s[p]);
}

proof fn lemma_forest_ids_remove(s: Seq<NodeView>, p: int)
    requires
        0 <= p < s.len(),
    ensures
        forest_ids(s) == forest_ids(s.remove(p)).add(subtree_ids(s[p])),
{
    broadcast use vstd::multiset::group_multiset_axioms;

    lemma_forest_ids_split(s, p);
    assert(s.remove(p) =~= s.take(p) + s.skip(p + 1));
    lemma_forest_ids_concat(s.take(p), s.skip(p + 1));
    assert(forest_ids(s) =~= forest_ids(s.remove(p)).add(subtree_ids(s[p])));
}

proof fn lemma_forest_ids_insert(s: Seq<NodeView>, i: int, x: NodeView)
    requires
        0 <= i <= s.len(),
    ensures
        forest_ids(s.insert(i, x)) == forest_ids(s).add(subtree_ids(x)),
{
    broadcast use vstd::multiset::group_multiset_axioms;

    let t = s.insert(i, x);
    lemma_forest_ids_remove(t, i);
    assert(t.remove(i) =~= s);
}

proof fn lemma_forest_ids_update(s: Seq<NodeView>, k: int, x: NodeView)
    requires
        0 <= k < s.len(),
    ensures
        forest_ids(s.update(k, x)).add(subtree_ids(s[k])) == forest_ids(s).add(subtree_ids(x)),
{
    broadcast use vstd::multiset::group_multiset_axioms;

    let t = s.update(k, x);
    lemma_forest_ids_remove(t, k);
    lemma_forest_ids_remove(s, k);
    assert(t.remove(k) =~= s.remove(k));
    assert(forest_ids(t).add(subtree_ids(s[k])) =~= forest_ids(s).add(subtree_ids(x)));
}

/// The identifiers of a node with other children.
proof fn lemma_subtree_ids_children(n: NodeView, c: Seq<NodeView>)
    ensures
        subtree_ids(with_children(n, c)) == Multiset::singleton(n.entity_id).add(forest_ids(c)),
{
}

/// Taking a node out of a tree leaves the identifiers of the tree without
/// those of the node's subtree.
proof fn lemma_removal_ids(s: Seq<NodeView>, id: EntityId)
    requires
        removal(s, id).1 is Some,
    ensures
        forest_ids(s) == forest_ids(removal(s, id).0).add(subtree_ids(removal(s, id).1->0)),
        removal(s, id).1->0.entity_id == id,
{
    broadcast use vstd::multiset::group_multiset_axioms;

    if first_pos(s, id) is Some {
        let p = first_pos(s, id)->0;
        lemma_forest_ids_remove(s, p);
    } else {
        let k = first_parent(s, id)->0;
        let cs = s[k].children;
        lemma_first_pos_some(cs, id);
        let q = first_pos(cs, id)->0;
        let x = with_children(s[k], cs.remove(q));
        lemma_forest_ids_update(s, k, x);
        lemma_forest_ids_remove(cs, q);
        lemma_subtree_ids_children(s[k], cs.remove(q));
        lemma_subtree_ids_children(s[k], cs);
        assert(with_children(s[k], cs) == s[k]);
        let u = s.update(k, x);
        assert forall|v: EntityId| #[trigger] forest_ids(s).count(v) == forest_ids(u).add(
            subtree_ids(cs[q]),
        ).count(v) by {
            assert(forest_ids(u).add(subtree_ids(s[k])).count(v) == forest_ids(s).add(
                subtree_ids(x),
            ).count(v));
            assert(forest_ids(cs).count(v) == forest_ids(cs.remove(q)).add(subtree_ids(cs[q])).count(
                v,
            ));
        }
        assert(forest_ids(s) =~= forest_ids(u).add(subtree_ids(cs[q])));
    }
}

/// A drop loses no node and makes none: the identifiers of all nodes, at
/// every depth and counted with multiplicity, are the same before and after,
/// whether the node moved or not. When it moved, the dragged node stands in
/// the new tree, as a root or as a child of a root, with its whole subtree as
/// it was.
pub proof fn law_drop_keeps_nodes(
    old: Seq<NodeView>,
    target: DropTarget,
    id: EntityId,
    new: Seq<NodeView>,
    r: bool,
)
    requires
        dropped(old, target, id, new, r),
    ensures
        forest_ids(new) == forest_ids(old),
        r ==> removal(old, id).1 is Some && removal(old, id).1->0.entity_id == id && (
        (exists|k: int| 0 <= k < new.len() && new[k] == removal(old, id).1->0) || (exists|
            k: int,
            c: int,
        |
            0 <= k < new.len() && 0 <= c < new[k].children.len() && new[k].children[c]
                == removal(old, id).1->0)),
{
    broadcast use vstd::multiset::group_multiset_axioms;

    let (mid, taken) = removal(old, id);
    if taken is Some {
        let n = taken->0;
        lemma_removal_ids(old, id);
        match target {
            DropTarget::BeforeRoot(idx) => {
                let at = if first_pos(old, id) is Some && first_pos(old, id)->0 < idx {
                    idx - 1
                } else {
                    idx as int
                };
                let j = min_int(at, mid.len() as int);
                lemma_forest_ids_insert(mid, j, n);
                assert(new[j] == n);
            },
            DropTarget::AfterLastRoot => {
                lemma_forest_ids_insert(mid, mid.len() as int, n);
                assert(mid.push(n) =~= mid.insert(mid.len() as int, n));
                assert(new[mid.len() as int] == n);
            },
            DropTarget::InsideGroup { group_id, child_index } => {
                if first_pos(mid, group_id) is Some {
                    let g = first_pos(mid, group_id)->0;
                    let c = mid[g].children;
                    let j = min_int(child_index as int, c.len() as int);
                    let x = with_children(mid[g], c.insert(j, n));
                    lemma_forest_ids_update(mid, g, x);
                    lemma_forest_ids_insert(c, j, n);
                    lemma_subtree_ids_children(mid[g], c.insert(j, n));
                    lemma_subtree_ids_children(mid[g], c);
                    assert(with_children(mid[g], c) == mid[g]);
                    assert forall|v: EntityId| #[trigger] forest_ids(new).count(v) == forest_ids(
                        mid,
                    ).add(subtree_ids(n)).count(v) by {
                        assert(forest_ids(new).add(subtree_ids(mid[g])).count(v) == forest_ids(
                            mid,
                        ).add(subtree_ids(x)).count(v));
                        assert(forest_ids(c.insert(j, n)).count(v) == forest_ids(c).add(
                            subtree_ids(n),
                        ).count(v));
                    }
                    assert(forest_ids(new) =~= forest_ids(mid).add(subtree_ids(n)));
                    assert(new[g].children[j] == n);
                }
            },
        }
    }
}


/// Dropping a root before the root at index `idx` puts it directly before the
/// root that stood there (last when `idx` is past the roots), and leaves all
/// other roots in their order. In particular, dropping a root before itself,
/// or before the root right after it, leaves the tree as it was.
pub proof fn law_drop_before_root_places_it(
    old: Seq<NodeView>,
    idx: usize,
    id: EntityId,
    new: Seq<NodeView>,
    r: bool,
)
    requires
        dropped(old, DropTarget::BeforeRoot(idx), id, new, r),
        first_pos(old, id) is Some,
    ensures
        r,
        new.len() == old.len(),
        exists|q: int|
            0 <= q < new.len() && new[q] == old[first_pos(old, id)->0] && new.remove(q) == old.remove(
                first_pos(old, id)->0,
            ) && (idx < old.len() && idx != first_pos(old, id)->0 ==> q + 1 < new.len() && new[q
                + 1] == old[idx as int]) && (idx >= old.len() ==> q == new.len() - 1),
        idx == first_pos(old, id)->0 || idx == first_pos(old, id)->0 + 1 ==> new == old,
{
    let p = first_pos(old, id)->0;
    lemma_first_pos_some(old, id);
    let mid = old.remove(p);
    let n = old[p];
    let at = if p < idx {
        idx - 1
    } else {
        idx as int
    };
    let q = min_int(at, mid.len() as int);
    assert(new == mid.insert(q, n));
    assert(new.remove(q) =~= mid);
    assert(new[q] == n);
    if idx < old.len() && idx != p {
        if p < idx {
            assert(new[q + 1] == mid[q]);
            assert(mid[q] == old[idx as int]);
        } else {
            assert(new[q + 1] == mid[q]);
            assert(mid[q] == old[idx as int]);
        }
    }
    if idx == p || idx == p + 1 {
        assert(q == p);
        assert(new =~= old);
    }
}

/// In a tree where no identifier occurs twice, moving up a node that is a
/// child of a root (of any kind) exchanges it with the child above it, and
/// fails, changing nothing, when it is already the first child.
pub proof fn law_move_up_child(
    old: Seq<NodeView>,
    id: EntityId,
    new: Seq<NodeView>,
    r: bool,
    k: int,
    c: int,
)
    requires
        unique_ids(old),
        moved_up(old, id, new, r),
        0 <= k < old.len(),
        0 <= c < old[k].children.len(),
        old[k].children[c].entity_id == id,
    ensures
        c > 0 ==> r && new == old.update(
            k,
            with_children(
                old[k],
                old[k].children.update(c - 1, old[k].children[c]).update(c, old[k].children[c - 1]),
            ),
        ),
        c == 0 ==> !r && new == old,
{
    lemma_child_unique(old, id, k, c);
    if c > 0 {
        assert(child_can_move_up(old, id, k));
        let k2 = choose|k2: int|
            child_can_move_up(old, id, k2) && forall|j: int| 0 <= j < k2 ==> !child_can_move_up(old, id, j);
        assert(child_can_move_up(old, id, k2));
        if k2 != k {
            assert(first_pos(old[k2].children, id) is None);
        }
    } else {
        assert forall|j: int| !child_can_move_up(old, id, j) by {
            if 0 <= j < old.len() && j != k {
                assert(first_pos(old[j].children, id) is None);
            }
        }
    }
}

/// In a tree where no identifier occurs twice, moving down a node that is a
/// child of a root (of any kind) exchanges it with the child below it, and
/// fails, changing nothing, when it is already the last child.
pub proof fn law_move_down_child(
    old: Seq<NodeView>,
    id: EntityId,
    new: Seq<NodeView>,
    r: bool,
    k: int,
    c: int,
)
    requires
        unique_ids(old),
        moved_down(old, id, new, r),
        0 <= k < old.len(),
        0 <= c < old[k].children.len(),
        old[k].children[c].entity_id == id,
    ensures
        c + 1 < old[k].children.len() ==> r && new == old.update(
            k,
            with_children(
                old[k],
                old[k].children.update(c, old[k].children[c + 1]).update(c + 1, old[k].children[c]),
            ),
        ),
        c + 1 == old[k].children.len() ==> !r && new == old,
{
    lemma_child_unique(old, id, k, c);
    if c + 1 < old[k].children.len() {
        assert(child_can_move_down(old, id, k));
        let k2 = choose|k2: int|
            child_can_move_down(old, id, k2) && forall|j: int| 0 <= j < k2 ==> !child_can_move_down(old, id, j);
        assert(child_can_move_down(old, id, k2));
        if k2 != k {
            assert(first_pos(old[k2].children, id) is None);
        }
    } else {
        assert forall|j: int| !child_can_move_down(old, id, j) by {
            if 0 <= j < old.len() && j != k {
                assert(first_pos(old[j].children, id) is None);
            }
        }
    }
}

/// With identifiers unique, a child identifier is no root, occurs among the
/// children of its own root only, at its one position.
pub proof fn lemma_child_unique(s: Seq<NodeView>, id: EntityId, k: int, c: int)
    requires
        unique_ids(s),
        0 <= k < s.len(),
        0 <= c < s[k].children.len(),
        s[k].children[c].entity_id == id,
    ensures
        first_pos(s, id) is None,
        first_pos(s[k].children, id) == Some(c),
        forall|j: int| 0 <= j < s.len() && j != k ==> #[trigger] first_pos(s[j].children, id) is None,
{
    assert(!has_id(s, id)) by {
        if has_id(s, id) {
            let i = choose|i: int| 0 <= i < s.len() && s[i].entity_id == id;
            assert(s[i].entity_id != s[k].children[c].entity_id);
        }
    }
    lemma_first_pos_none(s, id);
    assert(is_first_at(s[k].children, id, c)) by {
        assert forall|j: int| 0 <= j < c implies s[k].children[j].entity_id != id by {
            assert(s[k].children[j].entity_id != s[k].children[c].entity_id);
        }
    }
    lemma_first_pos_at(s[k].children, id, c);
    assert forall|j: int| 0 <= j < s.len() && j != k implies #[trigger] first_pos(s[j].children, id) is None by {
        assert(!has_id(s[j].children, id)) by {
            if has_id(s[j].children, id) {
                let c2 = choose|c2: int| 0 <= c2 < s[j].children.len() && s[j].children[c2].entity_id == id;
                assert(s[j].children[c2].entity_id != s[k].children[c].entity_id);
            }
        }
        lemma_first_pos_none(s[j].children, id);
    }
}


/// Dropping a child of a root before the root at index `idx` takes it out of
/// its root and puts it among the roots directly before the root that stood
/// at `idx` (last when `idx` is past the roots); dropping any node after the
/// last root puts it last. The other roots keep their order.
pub proof fn law_drop_child_among_roots(
    old: Seq<NodeView>,
    target: DropTarget,
    id: EntityId,
    new: Seq<NodeView>,
    r: bool,
)
    requires
        dropped(old, target, id, new, r),
        removal(old, id).1 is Some,
        target is AfterLastRoot || (target is BeforeRoot && first_pos(old, id) is None),
    ensures
        r,
        target is AfterLastRoot ==> new.last() == removal(old, id).1->0 && new.drop_last() == removal(
            old,
            id,
        ).0,
        target matches DropTarget::BeforeRoot(idx) ==> new.len() == old.len() + 1 && exists|q: int|
            0 <= q < new.len() && new[q] == removal(old, id).1->0 && new.remove(q) == removal(
                old,
                id,
            ).0 && (idx < old.len() ==> q + 1 < new.len() && new[q + 1].entity_id
                == old[idx as int].entity_id) && (idx >= old.len() ==> q == old.len()),
{
    let (mid, taken) = removal(old, id);
    let n = taken->0;
    match target {
        DropTarget::AfterLastRoot => {
            assert(new.drop_last() =~= mid);
        },
        DropTarget::BeforeRoot(idx) => {
            let q = min_int(idx as int, mid.len() as int);
            assert(mid.len() == old.len());
            assert(new == mid.insert(q, n));
            assert(new.remove(q) =~= mid);
            assert(new[q] == n);
            if idx < old.len() {
                assert(new[q + 1] == mid[q]);
                assert(mid[q].entity_id == old[q].entity_id);
            }
        },
        _ => {},
    }
}

/// Moving up a root that is not the top one, when it is the first root with
/// its identifier, exchanges it with the root above it; moving it down, when
/// it is not the bottom one, exchanges it with the root below it.
pub proof fn law_move_root(
    old: Seq<NodeView>,
    id: EntityId,
    up: Seq<NodeView>,
    r_up: bool,
    down: Seq<NodeView>,
    r_down: bool,
    p: int,
)
    requires
        moved_up(old, id, up, r_up),
        moved_down(old, id, down, r_down),
        0 <= p < old.len(),
        old[p].entity_id == id,
        forall|j: int| 0 <= j < p ==> old[j].entity_id != id,
    ensures
        p > 0 ==> r_up && up == old.update(p - 1, old[p]).update(p, old[p - 1]),
        p + 1 < old.len() ==> r_down && down == old.update(p, old[p + 1]).update(p + 1, old[p]),
{
    assert(is_first_at(old, id, p));
    lemma_first_pos_at(old, id, p);
}

} // verus!
