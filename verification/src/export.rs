//! Which effect plugins an audio export runs, and what the layers panel does
//! when an export reports back.
use vstd::prelude::*;
use indexmap::IndexMap;
use crate::EntityId;
use crate::catalog::{Groups, GroupEntry, has_key, key_value, sole_key_at, group_entries, group_get};

verus! {

/// One slot of an effect chain.
#[derive(Clone, Copy, Debug)]
pub struct EffectSlot {
    /// A bypassed slot is skipped.
    pub bypass: bool,
}

/// An effect chain: its slots in processing order.
#[derive(Clone, Debug)]
pub struct EffectChain {
    pub slots: Vec<EffectSlot>,
}

pub type EffectChains = IndexMap<EntityId, EffectChain>;

/// The entries of an effect chain map, in their order.
pub uninterp spec fn effect_chain_entries(m: IndexMap<EntityId, EffectChain>) -> Seq<(EntityId, EffectChain)>;

/// `IndexMap::get` on effect chains: the value of the entry with a key,
/// `None` when there is none; the map's keys are distinct.
#[verifier::external_body]
pub(crate) fn effect_chain_get<'a>(m: &'a EffectChains, k: &EntityId) -> (r: Option<&'a EffectChain>)
    ensures
        r is None <==> !has_key(effect_chain_entries(*m), *k),
        r matches Some(v) ==> exists|i: int|
            sole_key_at(effect_chain_entries(*m), *k, i) && effect_chain_entries(*m)[i].1 == *v,
{
    m.get(k)
}

/// The positions of the slots of `s` that are not bypassed, in order.
pub open spec fn active_positions(s: Seq<EffectSlot>) -> Seq<usize>
    decreases s.len(),
{
    if s.len() == 0 {
        Seq::empty()
    } else {
        let rest = active_positions(s.drop_last());
        if s.last().bypass {
            rest
        } else {
            rest.push((s.len() - 1) as usize)
        }
    }
}

/// The slots that run for chain `id`: the positions of its slots that are
/// not bypassed; none when there is no such chain.
pub open spec fn chain_plugins(c: Seq<(EntityId, EffectChain)>, id: EntityId) -> Seq<usize> {
    if has_key(c, id) {
        active_positions(key_value(c, id).slots@)
    } else {
        Seq::empty()
    }
}

/// The positions, within chain `chain_id`, of the slots that are not
/// bypassed, in processing order; none when there is no such chain.
pub fn collect_chain_plugins(chains: &EffectChains, chain_id: EntityId) -> (r: Vec<usize>)
    ensures
        r@ == chain_plugins(effect_chain_entries(*chains), chain_id),
{
    let ghost c = effect_chain_entries(*chains);
    let mut out: Vec<usize> = Vec::new();
    if let Some(chain) = effect_chain_get(chains, &chain_id) {
        proof {
            let j = choose|j: int| 0 <= j < c.len() && c[j].0 == chain_id;
            let j0 = choose|j0: int| sole_key_at(c, chain_id, j0) && c[j0].1 == *chain;
            assert(j == j0);
        }
        let mut k: usize = 0;
        while k < chain.slots.len()
            invariant
                k <= chain.slots@.len(),
                out@ == active_positions(chain.slots@.take(k as int)),
            decreases chain.slots@.len() - k,
        {
            let ghost t = chain.slots@.take(k + 1);
            assert(t.drop_last() =~= chain.slots@.take(k as int));
            if !chain.slots[k].bypass {
                out.push(k);
            }
            k = k + 1;
        }
        assert(chain.slots@.take(k as int) =~= chain.slots@);
    }
    out
}

/// The slots that run for group `id`: those of its effect chain, if it has
/// one.
pub open spec fn group_plugins(
    g: Seq<(EntityId, GroupEntry)>,
    c: Seq<(EntityId, EffectChain)>,
    id: EntityId,
) -> Seq<usize> {
    if has_key(g, id) && key_value(g, id).effect_chain_id is Some {
        chain_plugins(c, key_value(g, id).effect_chain_id->0)
    } else {
        Seq::empty()
    }
}

/// The slots of group `group_id`'s effect chain that are not bypassed; none
/// when the group is unknown or has no chain.
pub fn collect_group_plugins(groups: &Groups, chains: &EffectChains, group_id: EntityId) -> (r: Vec<usize>)
    ensures
        r@ == group_plugins(group_entries(*groups), effect_chain_entries(*chains), group_id),
{
    let ghost g = group_entries(*groups);
    if let Some(group) = group_get(groups, &group_id) {
        proof {
            let j = choose|j: int| 0 <= j < g.len() && g[j].0 == group_id;
            let j0 = choose|j0: int| sole_key_at(g, group_id, j0) && g[j0].1 == *group;
            assert(j == j0);
        }
        if let Some(chain_id) = group.effect_chain_id {
            return collect_chain_plugins(chains, chain_id);
        }
    }
    Vec::new()
}

/// The slots of the master bus's effect chain that are not bypassed; none
/// when the master bus has no chain.
pub fn collect_master_plugins(master_chain_id: Option<EntityId>, chains: &EffectChains) -> (r: Vec<usize>)
    ensures
        r@ == (match master_chain_id {
            Some(id) => chain_plugins(effect_chain_entries(*chains), id),
            None => Seq::empty(),
        }),
{
    if let Some(chain_id) = master_chain_id {
        return collect_chain_plugins(chains, chain_id);
    }
    Vec::new()
}

// ---------------------------------------------------------------------------
// Export progress
// ---------------------------------------------------------------------------

/// The kind of a toast message.
#[derive(Clone, Copy, Debug, PartialEq, Eq, Structural)]
pub enum ToastKind {
    Success,
    Error,
}

/// What to do after polling a running export.
#[derive(Debug)]
pub enum ExportPoll {
    /// The export ended: show this toast, close the export window, redraw.
    Finished { message: String, kind: ToastKind },
    /// Still exporting: redraw to keep the progress moving.
    Redraw,
    /// Nothing to do.
    Idle,
}

/// What to do with the outcome of polling an export: when it ended, a toast
/// says `Export complete` or `Export failed: ` followed by the error; while it
/// runs the panel is redrawn; else nothing happens.
pub fn poll_export_progress(outcome: Option<Result<(), String>>, exporting: bool) -> (r: ExportPoll)
    ensures
        outcome matches Some(Ok(())) ==> r matches ExportPoll::Finished { message, kind } && message@
            == "Export complete"@ && kind == ToastKind::Success,
        outcome matches Some(Err(e)) ==> r matches ExportPoll::Finished { message, kind } && message@
            == "Export failed: "@ + e@ && kind == ToastKind::Error,
        outcome is None ==> (if exporting {
            r is Redraw
        } else {
            r is Idle
        }),
{
    match outcome {
        Some(Ok(())) => ExportPoll::Finished {
            message: "Export complete".to_owned(),
            kind: ToastKind::Success,
        },
        Some(Err(e)) => {
            let mut message = "Export failed: ".to_owned();
            message.append(e.as_str());
            ExportPoll::Finished { message, kind: ToastKind::Error }
        },
        None => if exporting {
            ExportPoll::Redraw
        } else {
            ExportPoll::Idle
        },
    }
}

} // verus!
