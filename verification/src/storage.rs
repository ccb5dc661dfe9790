//! The flat stored form of the layer tree: one record per root and per child
//! of a root, each child naming its root by identifier.
use vstd::prelude::*;
use crate::EntityId;
use crate::kind::{LayerNodeKind, kind_tag, kind_of_tag, lemma_tag_round_trip};
use crate::text::{decimal, id_of_text, id_text, parse_id, lemma_id_text_round_trip};
use crate::tree::{LayerNode, NodeView, forest, with_children, lemma_children_view};
use std::collections::HashMap;

verus! {

/// One stored record of the layer tree.
#[derive(Clone, Debug)]
pub struct StoredLayerNode {
    pub entity_id: String,
    pub kind_tag: String,
    /// Empty for a root; else the identifier of the root that holds this node.
    pub parent_entity_id: String,
    pub expanded: bool,
}

/// The value of a stored record.
pub struct StoredView {
    pub entity_id: Seq<char>,
    pub kind_tag: Seq<char>,
    pub parent_entity_id: Seq<char>,
    pub expanded: bool,
}

impl View for StoredLayerNode {
    type V = StoredView;

    open spec fn view(&self) -> StoredView {
        StoredView {
            entity_id: self.entity_id@,
            kind_tag: self.kind_tag@,
            parent_entity_id: self.parent_entity_id@,
            expanded: self.expanded,
        }
    }
}

/// The values of a sequence of records.
pub open spec fn records(s: Seq<StoredLayerNode>) -> Seq<StoredView> {
    s.map_values(|r: StoredLayerNode| r@)
}

/// The record of a root node.
pub open spec fn root_record(n: NodeView) -> StoredView {
    StoredView {
        entity_id: decimal(n.entity_id as nat),
        kind_tag: kind_tag(n.kind),
        parent_entity_id: Seq::empty(),
        expanded: n.expanded,
    }
}

/// The record of child `c` of root `p`.
pub open spec fn child_record(p: NodeView, c: NodeView) -> StoredView {
    StoredView {
        entity_id: decimal(c.entity_id as nat),
        kind_tag: kind_tag(c.kind),
        parent_entity_id: decimal(p.entity_id as nat),
        expanded: c.expanded,
    }
}

/// The records of a root: its own, then one for each of its children.
pub open spec fn node_records(n: NodeView) -> Seq<StoredView> {
    seq![root_record(n)] + Seq::new(n.children.len(), |i: int| child_record(n, n.children[i]))
}

/// The records of a tree, root after root.
pub open spec fn stored_records(s: Seq<NodeView>) -> Seq<StoredView>
    decreases s.len(),
{
    if s.len() == 0 {
        Seq::empty()
    } else {
        stored_records(s.drop_last()) + node_records(s.last())
    }
}

/// The stored form of a tree: one record per root followed by one per child
/// of that root. Deeper levels are not stored.
pub fn tree_to_stored(tree: &[LayerNode]) -> (out: Vec<StoredLayerNode>)
    ensures
        records(out@) == stored_records(forest(tree@)),
{
    let ghost f = forest(tree@);
    let mut out: Vec<StoredLayerNode> = Vec::new();
    let mut k: usize = 0;
    while k < tree.len()
        invariant
            f == forest(tree@),
            k <= tree@.len(),
            records(out@) == stored_records(f.take(k as int)),
        decreases tree@.len() - k,
    {
        let node = &tree[k];
        proof {
            lemma_children_view(*node);
        }
        let ghost before = records(out@);
        let root_id = id_text(node.entity_id);
        out.push(
            StoredLayerNode {
                entity_id: id_text(node.entity_id),
                kind_tag: node.kind.tag().to_owned(),
                parent_entity_id: String::new(),
                expanded: node.expanded,
            },
        );
        assert(records(out@) =~= before.push(root_record(f[k as int])));
        let mut c: usize = 0;
        while c < node.children.len()
            invariant
                f == forest(tree@),
                k < tree@.len(),
                *node == tree@[k as int],
                f[k as int].children == forest(node.children@),
                root_id@ == decimal(node.entity_id as nat),
                c <= node.children@.len(),
                records(out@) == before + seq![root_record(f[k as int])] + Seq::new(
                    c as nat,
                    |i: int| child_record(f[k as int], f[k as int].children[i]),
                ),
            decreases node.children@.len() - c,
        {
            let child = &node.children[c];
            let ghost prev = records(out@);
            out.push(
                StoredLayerNode {
                    entity_id: id_text(child.entity_id),
                    kind_tag: child.kind.tag().to_owned(),
                    parent_entity_id: root_id.clone(),
                    expanded: child.expanded,
                },
            );
            assert(records(out@) =~= before + seq![root_record(f[k as int])] + Seq::new(
                (c + 1) as nat,
                |i: int| child_record(f[k as int], f[k as int].children[i]),
            )) by {
                assert(records(out@) =~= prev.push(
                    child_record(f[k as int], f[k as int].children[c as int]),
                ));
            }
            c = c + 1;
        }
        proof {
            let t = f.take(k + 1);
            assert(t.drop_last() =~= f.take(k as int));
            assert(node_records(t.last()) =~= seq![root_record(f[k as int])] + Seq::new(
                c as nat,
                |i: int| child_record(f[k as int], f[k as int].children[i]),
            ));
            assert(records(out@) =~= stored_records(t));
        }
        k = k + 1;
    }
    assert(f.take(k as int) =~= f);
    out
}

// ---------------------------------------------------------------------------
// Reading a tree back
// ---------------------------------------------------------------------------

/// A node without children.
pub open spec fn leaf(id: EntityId, kind: LayerNodeKind, expanded: bool) -> NodeView {
    NodeView { entity_id: id, kind, expanded, children: Seq::empty() }
}

/// What a record is read as.
pub enum Decoded {
    /// A root node.
    Root(NodeView),
    /// A child node of the root with the given identifier.
    Child(EntityId, NodeView),
    /// Nothing: an identifier, tag or parent that cannot be read.
    Skipped,
}

/// How a record is read. A record whose identifier or tag cannot be read is
/// skipped, and so is a child record whose parent cannot be read (no root can
/// claim it).
pub open spec fn decode(r: StoredView) -> Decoded {
    match (id_of_text(r.entity_id), kind_of_tag(r.kind_tag)) {
        (Some(id), Some(k)) => {
            if r.parent_entity_id.len() == 0 {
                Decoded::Root(leaf(id, k, r.expanded))
            } else {
                match id_of_text(r.parent_entity_id) {
                    Some(p) => Decoded::Child(p, leaf(id, k, r.expanded)),
                    None => Decoded::Skipped,
                }
            }
        },
        _ => Decoded::Skipped,
    }
}

/// The root nodes that records `s` hold, in order.
pub open spec fn decoded_roots(s: Seq<StoredView>) -> Seq<NodeView>
    decreases s.len(),
{
    if s.len() == 0 {
        Seq::empty()
    } else {
        let rest = decoded_roots(s.drop_last());
        match decode(s.last()) {
            Decoded::Root(n) => rest.push(n),
            _ => rest,
        }
    }
}

/// The child nodes that records `s` hold, each with its parent, in order.
pub open spec fn decoded_kids(s: Seq<StoredView>) -> Seq<(EntityId, NodeView)>
    decreases s.len(),
{
    if s.len() == 0 {
        Seq::empty()
    } else {
        let rest = decoded_kids(s.drop_last());
        match decode(s.last()) {
            Decoded::Child(p, n) => rest.push((p, n)),
            _ => rest,
        }
    }
}

/// The nodes of `kids` whose parent is `pid`, in order.
pub open spec fn children_of(kids: Seq<(EntityId, NodeView)>, pid: EntityId) -> Seq<NodeView>
    decreases kids.len(),
{
    if kids.len() == 0 {
        Seq::empty()
    } else {
        let rest = children_of(kids.drop_last(), pid);
        if kids.last().0 == pid {
            rest.push(kids.last().1)
        } else {
            rest
        }
    }
}

/// Whether an earlier root of `r` than `k` has the same identifier.
pub open spec fn repeats_earlier(r: Seq<NodeView>, k: int) -> bool {
    exists|j: int| 0 <= j < k && r[j].entity_id == r[k].entity_id
}

/// The tree that records `s` are read as: the roots in order; the first root
/// with a given identifier receives, in order, every child whose parent is
/// that identifier, and a later root with the same identifier receives none.
pub open spec fn assembled(s: Seq<StoredView>) -> Seq<NodeView> {
    let r = decoded_roots(s);
    Seq::new(
        r.len(),
        |k: int|
            if repeats_earlier(r, k) {
                r[k]
            } else {
                with_children(r[k], children_of(decoded_kids(s), r[k].entity_id))
            },
    )
}

/// The children that `pending` holds for parent `pid`: none when it has no
/// entry for it.
spec fn pending_for(pending: Map<EntityId, Vec<LayerNode>>, pid: EntityId) -> Seq<NodeView> {
    if pending.contains_key(pid) {
        forest(pending[pid]@)
    } else {
        Seq::empty()
    }
}

/// A leaf node.
fn new_node(id: EntityId, kind: LayerNodeKind, expanded: bool) -> (n: LayerNode)
    ensures
        n@ == leaf(id, kind, expanded),
{
    let n = LayerNode { entity_id: id, kind, expanded, children: Vec::new() };
    proof {
        lemma_children_view(n);
        assert(forest(n.children@) =~= Seq::<NodeView>::empty());
        assert(n@ =~= leaf(id, kind, expanded));
    }
    n
}

/// Reads a tree back from its stored records.
pub fn tree_from_stored(stored: &[StoredLayerNode]) -> (tree: Vec<LayerNode>)
    ensures
        forest(tree@) == assembled(records(stored@)),
{
    broadcast use vstd::std_specs::hash::group_hash_axioms;

    let ghost recs = records(stored@);
    let mut roots: Vec<LayerNode> = Vec::new();
    let mut children_map: HashMap<EntityId, Vec<LayerNode>> = HashMap::new();
    let mut i: usize = 0;
    while i < stored.len()
        invariant
            recs == records(stored@),
            i <= stored@.len(),
            forest(roots@) == decoded_roots(recs.take(i as int)),
            forall|pid: EntityId| #[trigger]
                pending_for(children_map@, pid) == children_of(decoded_kids(recs.take(i as int)), pid),
        decreases stored@.len() - i,
    {
        let s = &stored[i];
        let ghost t = recs.take(i + 1);
        assert(t.drop_last() =~= recs.take(i as int));
        assert(t.last() == s@);
        let ghost roots_before = roots@;
        let ghost map_before = children_map@;
        let ghost kids_before = decoded_kids(recs.take(i as int));
        let id = parse_id(s.entity_id.as_str());
        let kind = LayerNodeKind::from_tag(s.kind_tag.as_str());
        if let (Some(id), Some(kind)) = (id, kind) {
            let node = new_node(id, kind, s.expanded);
            if s.parent_entity_id.as_str().unicode_len() == 0 {
                roots.push(node);
                proof {
                    assert(forest(roots@) =~= forest(roots_before).push(node@));
                }
            } else if let Some(parent_id) = parse_id(s.parent_entity_id.as_str()) {
                let mut kids = match children_map.remove(&parent_id) {
                    Some(kids) => kids,
                    None => Vec::new(),
                };
                let ghost kids_start = kids@;
                kids.push(node);
                children_map.insert(parent_id, kids);
                proof {
                    assert(decoded_kids(t) == kids_before.push((parent_id, node@)));
                    assert(decoded_kids(t).drop_last() =~= kids_before);
                    assert forall|pid: EntityId| #[trigger]
                        pending_for(children_map@, pid) == children_of(decoded_kids(t), pid) by {
                        if pid == parent_id {
                            assert(pending_for(map_before, pid) == forest(kids_start));
                            assert(forest(kids@) =~= forest(kids_start).push(node@));
                        } else {
                            assert(pending_for(map_before, pid) == pending_for(children_map@, pid));
                        }
                    }
                }
            }
        }
        i = i + 1;
    }
    assert(recs.take(i as int) =~= recs);
    let ghost r = decoded_roots(recs);
    let ghost kv = decoded_kids(recs);
    let ghost start = children_map@;
    // Hand each root the children that name it; a later root with the same
    // identifier finds them taken.
    let mut k: usize = 0;
    while k < roots.len()
        invariant
            r == decoded_roots(recs),
            kv == decoded_kids(recs),
            forall|pid: EntityId| #[trigger] pending_for(start, pid) == children_of(kv, pid),
            roots@.len() == r.len(),
            k <= roots@.len(),
            forall|pid: EntityId| #[trigger]
                children_map@.contains_key(pid) == (start.contains_key(pid) && !exists|j: int|
                    0 <= j < k && r[j].entity_id == pid),
            forall|pid: EntityId|
                children_map@.contains_key(pid) ==> #[trigger] children_map@[pid] == start[pid],
            forall|j: int| 0 <= j < k ==> #[trigger] forest(roots@)[j] == assembled(recs)[j],
            forall|j: int| k <= j < roots@.len() ==> #[trigger] forest(roots@)[j] == r[j],
        decreases roots@.len() - k,
    {
        let pid = roots[k].entity_id;
        assert(forest(roots@)[k as int] == r[k as int]);
        let ghost map_before = children_map@;
        let ghost before = roots@;
        proof {
            lemma_decoded_roots_leaves(recs);
            assert(pending_for(start, pid) == children_of(kv, pid));
        }
        match children_map.remove(&pid) {
            Some(kids) => {
                roots[k].children = kids;
                proof {
                    let node = roots@[k as int];
                    lemma_children_view(node);
                    lemma_children_view(before[k as int]);
                    assert(!repeats_earlier(r, k as int));
                    assert(node@ =~= with_children(r[k as int], children_of(kv, pid)));
                    assert forall|jj: int| 0 <= jj < roots@.len() && jj != k implies #[trigger] forest(
                        roots@,
                    )[jj] == forest(before)[jj] by {
                        assert(roots@[jj] == before[jj]);
                    }
                }
            },
            None => {
                proof {
                    if !repeats_earlier(r, k as int) {
                        assert(!start.contains_key(pid));
                        assert(children_of(kv, pid) == Seq::<NodeView>::empty());
                        assert(decoded_roots(recs)[k as int].children.len() == 0);
                        assert(r[k as int].children =~= Seq::<NodeView>::empty());
                        assert(with_children(r[k as int], Seq::empty()) =~= r[k as int]);
                    }
                }
            },
        }
        proof {
            assert forall|p2: EntityId| #[trigger]
                children_map@.contains_key(p2) == (start.contains_key(p2) && !exists|j: int|
                    0 <= j < k + 1 && r[j].entity_id == p2) by {
                if p2 == pid {
                    assert(r[k as int].entity_id == pid);
                } else {
                    if exists|j: int| 0 <= j < k + 1 && r[j].entity_id == p2 {
                        let j = choose|j: int| 0 <= j < k + 1 && r[j].entity_id == p2;
                        assert(j != k);
                    }
                }
            }
        }
        k = k + 1;
    }
    assert(forest(roots@) =~= assembled(recs));
    roots
}

/// The roots that records are read as have no children.
proof fn lemma_decoded_roots_leaves(s: Seq<StoredView>)
    ensures
        forall|k: int|
            0 <= k < decoded_roots(s).len() ==> (#[trigger] decoded_roots(s)[k]).children.len() == 0,
    decreases s.len(),
{
    if s.len() > 0 {
        lemma_decoded_roots_leaves(s.drop_last());
        let rest = decoded_roots(s.drop_last());
        match decode(s.last()) {
            Decoded::Root(n) => {
                assert forall|k: int| 0 <= k < rest.len() + 1 implies (#[trigger] rest.push(
                    n,
                )[k]).children.len() == 0 by {
                    if k < rest.len() {
                        assert(rest.push(n)[k] == rest[k]);
                    }
                }
            },
            _ => {},
        }
    }
}

// ---------------------------------------------------------------------------
// The round trip
// ---------------------------------------------------------------------------

/// A node without its children.
pub open spec fn strip(n: NodeView) -> NodeView {
    leaf(n.entity_id, n.kind, n.expanded)
}

/// No child of a root has children of its own.
pub open spec fn two_level(s: Seq<NodeView>) -> bool {
    forall|k: int, c: int|
        0 <= k < s.len() && 0 <= c < s[k].children.len() ==> (#[trigger] s[k].children[c]).children.len()
            == 0
}

/// No two roots have the same identifier.
pub open spec fn distinct_roots(s: Seq<NodeView>) -> bool {
    forall|i: int, j: int|
        0 <= i < s.len() && 0 <= j < s.len() && i != j ==> #[trigger] s[i].entity_id
            != #[trigger] s[j].entity_id
}

/// The children of root `n`, each with `n`'s identifier and without children.
pub open spec fn child_pairs(n: NodeView) -> Seq<(EntityId, NodeView)> {
    Seq::new(n.children.len(), |i: int| (n.entity_id, strip(n.children[i])))
}

/// The children of all roots of `s`, root after root, as [`child_pairs`].
pub open spec fn all_pairs(s: Seq<NodeView>) -> Seq<(EntityId, NodeView)>
    decreases s.len(),
{
    if s.len() == 0 {
        Seq::empty()
    } else {
        all_pairs(s.drop_last()) + child_pairs(s.last())
    }
}

proof fn lemma_decode_root(n: NodeView)
    ensures
        decode(root_record(n)) == Decoded::Root(strip(n)),
{
    lemma_id_text_round_trip(n.entity_id);
    lemma_tag_round_trip(n.kind, kind_tag(n.kind));
}

proof fn lemma_decode_child(p: NodeView, c: NodeView)
    ensures
        decode(child_record(p, c)) == Decoded::Child(p.entity_id, strip(c)),
{
    lemma_id_text_round_trip(c.entity_id);
    lemma_id_text_round_trip(p.entity_id);
    lemma_tag_round_trip(c.kind, kind_tag(c.kind));
}

proof fn lemma_roots_concat(a: Seq<StoredView>, b: Seq<StoredView>)
    ensures
        decoded_roots(a + b) == decoded_roots(a) + decoded_roots(b),
        decoded_kids(a + b) == decoded_kids(a) + decoded_kids(b),
    decreases b.len(),
{
    if b.len() == 0 {
        assert(a + b =~= a);
        assert(decoded_roots(a) + decoded_roots(b) =~= decoded_roots(a));
        assert(decoded_kids(a) + decoded_kids(b) =~= decoded_kids(a));
    } else {
        assert((a + b).drop_last() =~= a + b.drop_last());
        assert((a + b).last() == b.last());
        lemma_roots_concat(a, b.drop_last());
        assert(decoded_roots(a + b) =~= decoded_roots(a) + decoded_roots(b));
        assert(decoded_kids(a + b) =~= decoded_kids(a) + decoded_kids(b));
    }
}

proof fn lemma_children_of_concat(a: Seq<(EntityId, NodeView)>, b: Seq<(EntityId, NodeView)>, pid: EntityId)
    ensures
        children_of(a + b, pid) == children_of(a, pid) + children_of(b, pid),
    decreases b.len(),
{
    if b.len() == 0 {
        assert(a + b =~= a);
        assert(children_of(a, pid) + children_of(b, pid) =~= children_of(a, pid));
    } else {
        assert((a + b).drop_last() =~= a + b.drop_last());
        assert((a + b).last() == b.last());
        lemma_children_of_concat(a, b.drop_last(), pid);
        assert(children_of(a + b, pid) =~= children_of(a, pid) + children_of(b, pid));
    }
}

proof fn lemma_child_records(n: NodeView, m: int)
    requires
        0 <= m <= n.children.len(),
    ensures
        decoded_roots(Seq::new(m as nat, |i: int| child_record(n, n.children[i]))) == Seq::<
            NodeView,
        >::empty(),
        decoded_kids(Seq::new(m as nat, |i: int| child_record(n, n.children[i]))) == child_pairs(
            n,
        ).take(m),
    decreases m,
{
    let t = Seq::new(m as nat, |i: int| child_record(n, n.children[i]));
    if m == 0 {
        assert(child_pairs(n).take(m) =~= Seq::<(EntityId, NodeView)>::empty());
    } else {
        lemma_child_records(n, m - 1);
        assert(t.drop_last() =~= Seq::new((m - 1) as nat, |i: int| child_record(n, n.children[i])));
        lemma_decode_child(n, n.children[m - 1]);
        assert(child_pairs(n).take(m) =~= child_pairs(n).take(m - 1).push(
            (n.entity_id, strip(n.children[m - 1])),
        ));
    }
}

proof fn lemma_node_records(n: NodeView)
    ensures
        decoded_roots(node_records(n)) == seq![strip(n)],
        decoded_kids(node_records(n)) == child_pairs(n),
{
    let cs = Seq::new(n.children.len(), |i: int| child_record(n, n.children[i]));
    lemma_child_records(n, n.children.len() as int);
    lemma_roots_concat(seq![root_record(n)], cs);
    lemma_decode_root(n);
    let one = seq![root_record(n)];
    assert(one.drop_last() =~= Seq::<StoredView>::empty());
    assert(decoded_roots(one.drop_last()) == Seq::<NodeView>::empty());
    assert(decoded_kids(one.drop_last()) == Seq::<(EntityId, NodeView)>::empty());
    assert(one.last() == root_record(n));
    assert(decoded_roots(one) =~= seq![strip(n)]);
    assert(decoded_kids(one) =~= Seq::<(EntityId, NodeView)>::empty());
    assert(child_pairs(n).take(n.children.len() as int) =~= child_pairs(n));
    assert(decoded_roots(node_records(n)) =~= seq![strip(n)]);
    assert(decoded_kids(node_records(n)) =~= child_pairs(n));
}

proof fn lemma_records_decode(s: Seq<NodeView>)
    ensures
        decoded_roots(stored_records(s)) == s.map_values(|n: NodeView| strip(n)),
        decoded_kids(stored_records(s)) == all_pairs(s),
    decreases s.len(),
{
    if s.len() == 0 {
        assert(s.map_values(|n: NodeView| strip(n)) =~= Seq::<NodeView>::empty());
    } else {
        lemma_records_decode(s.drop_last());
        lemma_node_records(s.last());
        lemma_roots_concat(stored_records(s.drop_last()), node_records(s.last()));
        assert(s.map_values(|n: NodeView| strip(n)) =~= s.drop_last().map_values(
            |n: NodeView| strip(n),
        ).push(strip(s.last())));
    }
}

proof fn lemma_children_of_pairs(n: NodeView, pid: EntityId, m: int)
    requires
        0 <= m <= n.children.len(),
    ensures
        children_of(child_pairs(n).take(m), pid) == (if n.entity_id == pid {
            n.children.take(m).map_values(|c: NodeView| strip(c))
        } else {
            Seq::empty()
        }),
    decreases m,
{
    let t = child_pairs(n).take(m);
    if m == 0 {
        assert(n.children.take(m).map_values(|c: NodeView| strip(c)) =~= Seq::<NodeView>::empty());
    } else {
        lemma_children_of_pairs(n, pid, m - 1);
        assert(t.drop_last() =~= child_pairs(n).take(m - 1));
        assert(n.children.take(m).map_values(|c: NodeView| strip(c)) =~= n.children.take(
            m - 1,
        ).map_values(|c: NodeView| strip(c)).push(strip(n.children[m - 1])));
    }
}

proof fn lemma_children_of_absent(s: Seq<NodeView>, pid: EntityId)
    requires
        forall|i: int| 0 <= i < s.len() ==> s[i].entity_id != pid,
    ensures
        children_of(all_pairs(s), pid) == Seq::<NodeView>::empty(),
    decreases s.len(),
{
    if s.len() > 0 {
        lemma_children_of_absent(s.drop_last(), pid);
        lemma_children_of_concat(all_pairs(s.drop_last()), child_pairs(s.last()), pid);
        lemma_children_of_pairs(s.last(), pid, s.last().children.len() as int);
        assert(child_pairs(s.last()).take(s.last().children.len() as int) =~= child_pairs(
            s.last(),
        ));
        assert(children_of(all_pairs(s), pid) =~= Seq::<NodeView>::empty());
    }
}

proof fn lemma_children_of_all(s: Seq<NodeView>, k: int)
    requires
        distinct_roots(s),
        0 <= k < s.len(),
    ensures
        children_of(all_pairs(s), s[k].entity_id) == s[k].children.map_values(|c: NodeView| strip(c)),
    decreases s.len(),
{
    let last = s.last();
    let pid = s[k].entity_id;
    let d = s.drop_last();
    lemma_children_of_concat(all_pairs(d), child_pairs(last), pid);
    lemma_children_of_pairs(last, pid, last.children.len() as int);
    assert(child_pairs(last).take(last.children.len() as int) =~= child_pairs(last));
    assert(last.children.take(last.children.len() as int) =~= last.children);
    if k == s.len() - 1 {
        assert forall|i: int| 0 <= i < d.len() implies d[i].entity_id != pid by {
            assert(d[i] == s[i]);
        }
        lemma_children_of_absent(d, pid);
        assert(children_of(all_pairs(s), pid) =~= s[k].children.map_values(|c: NodeView| strip(c)));
    } else {
        assert(distinct_roots(d)) by {
            assert forall|i: int, j: int|
                0 <= i < d.len() && 0 <= j < d.len() && i != j implies #[trigger] d[i].entity_id
                != #[trigger] d[j].entity_id by {
                assert(d[i] == s[i] && d[j] == s[j]);
            }
        }
        assert(d[k] == s[k]);
        lemma_children_of_all(d, k);
        assert(last.entity_id != pid);
        assert(children_of(all_pairs(s), pid) =~= s[k].children.map_values(|c: NodeView| strip(c)));
    }
}

/// Reading back the stored form of a tree gives the tree, when no child of a
/// root has children of its own (the stored form keeps two levels) and no two
/// roots share an identifier (else the first takes the children of both).
pub proof fn law_storage_round_trip(s: Seq<NodeView>)
    requires
        two_level(s),
        distinct_roots(s),
    ensures
        assembled(stored_records(s)) == s,
{
    let recs = stored_records(s);
    lemma_records_decode(s);
    let r = decoded_roots(recs);
    assert(r.len() == s.len());
    assert forall|k: int| 0 <= k < s.len() implies #[trigger] assembled(recs)[k] == s[k] by {
        assert(r[k] == strip(s[k]));
        assert(!repeats_earlier(r, k)) by {
            if repeats_earlier(r, k) {
                let j = choose|j: int| 0 <= j < k && r[j].entity_id == r[k].entity_id;
                assert(r[j] == strip(s[j]));
            }
        }
        lemma_children_of_all(s, k);
        assert(s[k].children.map_values(|c: NodeView| strip(c)) =~= s[k].children) by {
            assert forall|c: int| 0 <= c < s[k].children.len() implies strip(s[k].children[c])
                == s[k].children[c] by {
                assert(s[k].children[c].children =~= Seq::<NodeView>::empty());
            }
        }
        assert(assembled(recs)[k] =~= s[k]);
    }
    assert(assembled(recs) =~= s);
}


/// Whether two read records compete for a place: both are roots, or both are
/// children naming the same parent.
pub open spec fn same_line(a: Decoded, b: Decoded) -> bool {
    match (a, b) {
        (Decoded::Root(_), Decoded::Root(_)) => true,
        (Decoded::Child(p, _), Decoded::Child(q, _)) => p == q,
        _ => false,
    }
}

/// The records `s` with those at `j` and `j + 1` exchanged.
pub open spec fn swapped(s: Seq<StoredView>, j: int) -> Seq<StoredView> {
    s.update(j, s[j + 1]).update(j + 1, s[j])
}

proof fn lemma_decoded_concat(a: Seq<StoredView>, b: Seq<StoredView>)
    ensures
        decoded_roots(a + b) == decoded_roots(a) + decoded_roots(b),
        decoded_kids(a + b) == decoded_kids(a) + decoded_kids(b),
    decreases b.len(),
{
    if b.len() == 0 {
        assert(a + b =~= a);
        assert(decoded_roots(a) + decoded_roots(b) =~= decoded_roots(a));
        assert(decoded_kids(a) + decoded_kids(b) =~= decoded_kids(a));
    } else {
        lemma_decoded_concat(a, b.drop_last());
        assert((a + b).drop_last() =~= a + b.drop_last());
        assert((a + b).last() == b.last());
        match decode(b.last()) {
            Decoded::Root(n) => {
                assert(decoded_roots(a) + decoded_roots(b) =~= (decoded_roots(a) + decoded_roots(
                    b.drop_last(),
                )).push(n));
                assert(decoded_kids(a) + decoded_kids(b) =~= decoded_kids(a) + decoded_kids(
                    b.drop_last(),
                ));
            },
            Decoded::Child(p, n) => {
                assert(decoded_kids(a) + decoded_kids(b) =~= (decoded_kids(a) + decoded_kids(
                    b.drop_last(),
                )).push((p, n)));
                assert(decoded_roots(a) + decoded_roots(b) =~= decoded_roots(a) + decoded_roots(
                    b.drop_last(),
                ));
            },
            Decoded::Skipped => {
                assert(decoded_roots(a) + decoded_roots(b) =~= decoded_roots(a) + decoded_roots(
                    b.drop_last(),
                ));
                assert(decoded_kids(a) + decoded_kids(b) =~= decoded_kids(a) + decoded_kids(
                    b.drop_last(),
                ));
            },
        }
    }
}

/// Reading two records in either order gives the same roots, and the same
/// children for each parent, unless they compete for a place.
proof fn lemma_pair_order(x: StoredView, y: StoredView, pid: EntityId)
    requires
        !same_line(decode(x), decode(y)),
    ensures
        decoded_roots(seq![x, y]) == decoded_roots(seq![y, x]),
        children_of(decoded_kids(seq![x, y]), pid) == children_of(decoded_kids(seq![y, x]), pid),
{
    let xy = seq![x, y];
    let yx = seq![y, x];
    assert(xy.drop_last() =~= seq![x]);
    assert(yx.drop_last() =~= seq![y]);
    assert(seq![x].drop_last() =~= Seq::<StoredView>::empty());
    assert(seq![y].drop_last() =~= Seq::<StoredView>::empty());
    assert(decoded_roots(Seq::<StoredView>::empty()) == Seq::<NodeView>::empty());
    assert(decoded_kids(Seq::<StoredView>::empty()) == Seq::<(EntityId, NodeView)>::empty());
    let kx = decoded_kids(seq![x]);
    let ky = decoded_kids(seq![y]);
    let rx = decoded_roots(seq![x]);
    let ry = decoded_roots(seq![y]);
    assert(xy =~= seq![x] + seq![y]);
    assert(yx =~= seq![y] + seq![x]);
    lemma_decoded_concat(seq![x], seq![y]);
    lemma_decoded_concat(seq![y], seq![x]);
    assert(rx.len() == 0 || ry.len() == 0);
    assert(decoded_roots(xy) =~= decoded_roots(yx));
    assert(kx.len() <= 1 && ky.len() <= 1);
    if kx.len() == 1 && ky.len() == 1 {
        assert(decoded_kids(xy) =~= kx + ky);
        assert(decoded_kids(yx) =~= ky + kx);
        lemma_children_of_concat(kx, ky, pid);
        lemma_children_of_concat(ky, kx, pid);
        assert(kx.drop_last() =~= Seq::<(EntityId, NodeView)>::empty());
        assert(ky.drop_last() =~= Seq::<(EntityId, NodeView)>::empty());
        assert(kx[0].0 != ky[0].0);
        assert(children_of(Seq::<(EntityId, NodeView)>::empty(), pid) == Seq::<NodeView>::empty());
        if kx[0].0 != pid {
            assert(children_of(kx, pid) == Seq::<NodeView>::empty());
        } else {
            assert(children_of(ky, pid) == Seq::<NodeView>::empty());
        }
        assert(children_of(kx, pid) + children_of(ky, pid) =~= children_of(ky, pid) + children_of(
            kx,
            pid,
        ));
    } else {
        assert(decoded_kids(xy) =~= decoded_kids(yx));
    }
}

/// Two record sequences read back alike: the same roots in the same order,
/// and the same children, in the same order, for every parent.
pub open spec fn same_reading(a: Seq<StoredView>, b: Seq<StoredView>) -> bool {
    &&& decoded_roots(a) == decoded_roots(b)
    &&& forall|pid: EntityId| #[trigger]
        children_of(decoded_kids(a), pid) == children_of(decoded_kids(b), pid)
}

proof fn lemma_same_reading_assembled(a: Seq<StoredView>, b: Seq<StoredView>)
    requires
        same_reading(a, b),
    ensures
        assembled(a) == assembled(b),
{
    let r = decoded_roots(a);
    assert forall|k: int| 0 <= k < r.len() implies #[trigger] assembled(a)[k] == assembled(b)[k] by {
        assert(children_of(decoded_kids(a), r[k].entity_id) == children_of(
            decoded_kids(b),
            r[k].entity_id,
        ));
    }
    assert(assembled(a) =~= assembled(b));
}

proof fn lemma_same_reading_push(a: Seq<StoredView>, b: Seq<StoredView>, x: StoredView)
    requires
        same_reading(a, b),
    ensures
        same_reading(a.push(x), b.push(x)),
{
    assert(a.push(x).drop_last() =~= a);
    assert(b.push(x).drop_last() =~= b);
    assert forall|pid: EntityId| #[trigger] children_of(decoded_kids(a.push(x)), pid) == children_of(
        decoded_kids(b.push(x)),
        pid,
    ) by {
        assert(children_of(decoded_kids(a), pid) == children_of(decoded_kids(b), pid));
        match decode(x) {
            Decoded::Child(q, n) => {
                assert(decoded_kids(a.push(x)).drop_last() =~= decoded_kids(a));
                assert(decoded_kids(b.push(x)).drop_last() =~= decoded_kids(b));
            },
            _ => {},
        }
    }
}

/// Exchanging two neighbouring records that are not both roots and do not
/// both name the same parent reads back alike.
proof fn lemma_swap_same_reading(s: Seq<StoredView>, j: int)
    requires
        0 <= j,
        j + 1 < s.len(),
        !same_line(decode(s[j]), decode(s[j + 1])),
    ensures
        same_reading(swapped(s, j), s),
{
    let pre = s.take(j);
    let post = s.skip(j + 2);
    let xy = seq![s[j], s[j + 1]];
    let yx = seq![s[j + 1], s[j]];
    let t = swapped(s, j);
    assert(s =~= pre + xy + post);
    assert(t =~= pre + yx + post);
    lemma_decoded_concat(pre + xy, post);
    lemma_decoded_concat(pre, xy);
    lemma_decoded_concat(pre + yx, post);
    lemma_decoded_concat(pre, yx);
    lemma_pair_order(s[j], s[j + 1], 0);
    assert forall|pid: EntityId| #[trigger] children_of(decoded_kids(t), pid) == children_of(
        decoded_kids(s),
        pid,
    ) by {
        lemma_pair_order(s[j], s[j + 1], pid);
        let kp = decoded_kids(pre);
        let kq = decoded_kids(post);
        lemma_children_of_concat(kp + decoded_kids(xy), kq, pid);
        lemma_children_of_concat(kp, decoded_kids(xy), pid);
        lemma_children_of_concat(kp + decoded_kids(yx), kq, pid);
        lemma_children_of_concat(kp, decoded_kids(yx), pid);
    }
}

/// A record that competes with none of the records after it can be moved to
/// the end without changing what is read.
proof fn lemma_move_to_end(t: Seq<StoredView>, a: int)
    requires
        0 <= a < t.len(),
        forall|b: int| a < b < t.len() ==> !same_line(decode(t[a]), decode(#[trigger] t[b])),
    ensures
        same_reading(t, t.remove(a).push(t[a])),
    decreases t.len() - a,
{
    if a == t.len() - 1 {
        assert(t.remove(a).push(t[a]) =~= t);
    } else {
        let u = swapped(t, a);
        lemma_swap_same_reading(t, a);
        assert forall|b: int| a + 1 < b < u.len() implies !same_line(
            decode(u[a + 1]),
            decode(#[trigger] u[b]),
        ) by {
            assert(u[b] == t[b]);
        }
        lemma_move_to_end(u, a + 1);
        assert(u.remove(a + 1) =~= t.remove(a));
        assert(u[a + 1] == t[a]);
        assert forall|pid: EntityId| #[trigger] children_of(decoded_kids(t), pid) == children_of(
            decoded_kids(t.remove(a).push(t[a])),
            pid,
        ) by {
            assert(children_of(decoded_kids(u), pid) == children_of(decoded_kids(t), pid));
            assert(children_of(decoded_kids(u), pid) == children_of(
                decoded_kids(u.remove(a + 1).push(u[a + 1])),
                pid,
            ));
        }
    }
}

/// Some entry of `perm` is `q`.
pub open spec fn taken(perm: Seq<int>, q: int) -> bool {
    exists|a: int| 0 <= a < perm.len() && perm[a] == q
}

/// `t` is `s` reordered by `perm` (record `a` of `t` is record `perm[a]` of
/// `s`, each record of `s` taken once), and any two records that compete for
/// a place (both roots, or both children naming the same parent) keep their
/// order.
pub open spec fn reordered_within_lines(s: Seq<StoredView>, t: Seq<StoredView>, perm: Seq<int>) -> bool {
    &&& t.len() == s.len()
    &&& perm.len() == s.len()
    &&& forall|a: int| 0 <= a < t.len() ==> 0 <= #[trigger] perm[a] < s.len() && t[a] == s[perm[a]]
    &&& forall|a: int, b: int| 0 <= a < b < t.len() ==> #[trigger] perm[a] != #[trigger] perm[b]
    &&& forall|q: int| 0 <= q < s.len() ==> #[trigger] taken(perm, q)
    &&& forall|a: int, b: int|
        0 <= a < b < t.len() && same_line(decode(#[trigger] t[a]), decode(#[trigger] t[b]))
            ==> perm[a] < perm[b]
}

/// The order of records matters only between records that compete for a
/// place: every reordering that keeps the roots in their order, and the
/// children of each parent in theirs, reads back as the same tree (a child
/// record may stand before or after its parent's record, and records of
/// different lines may be interleaved in any way).
pub proof fn law_storage_order_within_lines(s: Seq<StoredView>, t: Seq<StoredView>, perm: Seq<int>)
    requires
        reordered_within_lines(s, t, perm),
    ensures
        assembled(t) == assembled(s),
{
    lemma_reordered_same_reading(s, t, perm);
    lemma_same_reading_assembled(t, s);
}

proof fn lemma_reordered_same_reading(s: Seq<StoredView>, t: Seq<StoredView>, perm: Seq<int>)
    requires
        reordered_within_lines(s, t, perm),
    ensures
        same_reading(t, s),
    decreases s.len(),
{
    if s.len() == 0 {
        assert(t =~= s);
    } else {
        let n = s.len() - 1;
        assert(taken(perm, n));
        let a = choose|a: int| 0 <= a < t.len() && perm[a] == n;
        assert(0 <= a < t.len() && perm[a] == n);
        // Nothing after the last record of `s` competes with it in `t`.
        assert forall|b: int| a < b < t.len() implies !same_line(
            decode(t[a]),
            decode(#[trigger] t[b]),
        ) by {
            if same_line(decode(t[a]), decode(t[b])) {
                assert(perm[a] < perm[b]);
                assert(perm[b] < s.len());
            }
        }
        lemma_move_to_end(t, a);
        let t2 = t.remove(a);
        let s2 = s.drop_last();
        let p2 = perm.remove(a);
        assert forall|c: int| 0 <= c < t2.len() implies 0 <= #[trigger] p2[c] < s2.len() && t2[c]
            == s2[p2[c]] by {
            let cc = if c < a {
                c
            } else {
                c + 1
            };
            assert(p2[c] == perm[cc] && t2[c] == t[cc]);
            if a < cc {
                assert(perm[a] != perm[cc]);
            } else {
                assert(perm[cc] != perm[a]);
            }
        }
        assert forall|c: int, d: int| 0 <= c < d < t2.len() implies #[trigger] p2[c] != #[trigger] p2[d] by {
            let cc = if c < a {
                c
            } else {
                c + 1
            };
            let dd = if d < a {
                d
            } else {
                d + 1
            };
            assert(p2[c] == perm[cc] && p2[d] == perm[dd] && cc < dd);
        }
        assert forall|q: int| 0 <= q < s2.len() implies #[trigger] taken(p2, q) by {
            assert(taken(perm, q));
            let e = choose|e: int| 0 <= e < t.len() && perm[e] == q;
            assert(e != a);
            let c = if e < a {
                e
            } else {
                e - 1
            };
            assert(p2[c] == q);
        }
        assert forall|c: int, d: int|
            0 <= c < d < t2.len() && same_line(decode(#[trigger] t2[c]), decode(#[trigger] t2[d])) implies p2[c]
            < p2[d] by {
            let cc = if c < a {
                c
            } else {
                c + 1
            };
            let dd = if d < a {
                d
            } else {
                d + 1
            };
            assert(t2[c] == t[cc] && t2[d] == t[dd] && cc < dd);
            assert(same_line(decode(t[cc]), decode(t[dd])));
        }
        lemma_reordered_same_reading(s2, t2, p2);
        assert(t[a] == s[n]);
        lemma_same_reading_push(t2, s2, t[a]);
        assert(s2.push(s[n]) =~= s);
        assert forall|pid: EntityId| #[trigger] children_of(decoded_kids(t), pid) == children_of(
            decoded_kids(s),
            pid,
        ) by {
            assert(children_of(decoded_kids(t), pid) == children_of(
                decoded_kids(t2.push(t[a])),
                pid,
            ));
            assert(children_of(decoded_kids(t2.push(t[a])), pid) == children_of(
                decoded_kids(s2.push(t[a])),
                pid,
            ));
        }
    }
}

} // verus!
