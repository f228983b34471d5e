//! The library's laws: properties that relate several operations, stated
//! over the same models the operations' contracts use, and proved once and
//! for all inputs.

use vstd::prelude::*;
use crate::region::{Position, Region};
use crate::material::Material;
use crate::field::{Brush, content_at};
use crate::surroundings::{spec_lod_index, load_needed, unload_needed};
use crate::gaia::{
    GaiaModel, EffectModel, LoadDestination, load_accepted, after_accept, load_one, unload_model,
};
use crate::protocol::VoxelReason;

verus! {

/// Dedup invariant: a load request for a region key already in flight is
/// refused, changes no state and produces no effect, so no two concurrent
/// generations target the same key.
pub proof fn lemma_load_dedup(m: GaiaModel, at: u64, r: Region, dest: LoadDestination)
    requires
        m.in_flight.contains(r),
    ensures
        !load_accepted(m, r),
        load_one(m, at, r, dest).0 == m,
        load_one(m, at, r, dest).1 == Seq::<EffectModel>::empty(),
{
}

/// Dedup invariant, other half: once a request for `r` is accepted, every
/// further request for `r` is refused until that load completes.
pub proof fn lemma_accept_excludes(m: GaiaModel, r: Region)
    requires
        load_accepted(m, r),
    ensures
        !load_accepted(after_accept(m, r), r),
{
}

/// Idempotent generation: content is a pure function of the seed and the
/// cache, and loading a region caches exactly its current content, so a
/// second generation with no brush in between returns identical content —
/// and content everywhere else is untouched.
pub proof fn lemma_generate_idempotent(
    seed: u64,
    cache: Map<Region, Material>,
    r: Region,
    r2: Region,
)
    ensures
        content_at(seed, cache.insert(r, content_at(seed, cache, r)), r2) == content_at(
            seed,
            cache,
            r2,
        ),
        content_at(seed, cache.insert(r, content_at(seed, cache, r)), r) == content_at(
            seed,
            cache,
            r,
        ),
{
}

/// Brush/load ordering: in any state reached after a brush (every region
/// the brush touches holds the brush material), a load of a touched region
/// observes the brushed content — it cannot observe content that predates
/// a brush fully ordered before it — and a client-destined load replies
/// with exactly that content.
pub proof fn lemma_brush_load_ordering(
    m: GaiaModel,
    b: Brush,
    at: u64,
    r: Region,
    dest: LoadDestination,
)
    requires
        b.affects(r),
        forall|r2: Region| b.affects(r2) ==> m.content(r2) == b.material,
        !m.in_flight.contains(r),
    ensures
        load_one(m, at, r, dest).0.content(r) == b.material,
        forall|client: u64|
            dest == (LoadDestination::Client { client }) && m.clients.contains(client)
                ==> load_one(m, at, r, dest).1 == seq![
                EffectModel::Send {
                    client,
                    voxels: seq![(r, b.material)],
                    reason: VoxelReason::Requested { at },
                },
            ],
{
    lemma_generate_idempotent(m.seed, m.cache, r, r);
}

/// LOD monotonicity: the level of detail assigned by distance never
/// decreases as the distance from the observer's anchor grows.
pub proof fn lemma_lod_monotonic(d1: int, d2: int)
    requires
        0 <= d1 <= d2,
    ensures
        spec_lod_index(d1) <= spec_lod_index(d2),
{
}

/// No region appears in both lists a surroundings update emits: a load is
/// only needed where the new anchor wants the cell, an unload only where it
/// does not.
pub proof fn lemma_load_unload_disjoint(o: Position, n: Position, radius: u64, r: Region)
    ensures
        !(load_needed(o, n, radius, r) && unload_needed(o, n, radius, r.pos)),
{
}

/// Registry retirement: the identifier of a resident region has never been
/// retired; revoking the region retires it, exactly then, and removes it
/// from the registry, so every identifier is retired at most once and only
/// after its region leaves the loaded registry.
pub proof fn lemma_registry_retirement(m: GaiaModel, pos: Position)
    requires
        m.wf(),
        m.loaded.contains_key(pos),
    ensures
        !m.retired.contains(m.loaded[pos].id),
        unload_model(m, pos).0.retired.contains(m.loaded[pos].id),
        !unload_model(m, pos).0.loaded.contains_key(pos),
        forall|p2: Position| #[trigger]
            unload_model(m, pos).0.loaded.contains_key(p2) ==> unload_model(
                m,
                pos,
            ).0.loaded[p2].id != m.loaded[pos].id,
        unload_model(m, pos).0.wf(),
{
    assert forall|p2: Position| #[trigger]
        unload_model(m, pos).0.loaded.contains_key(p2) implies unload_model(
        m,
        pos,
    ).0.loaded[p2].id != m.loaded[pos].id by {
        assert(m.loaded.contains_key(p2));
        assert(m.loaded.contains_key(pos));
        assert(p2 != pos);
    }
    crate::gaia::lemma_wf_retire_removed(m, unload_model(m, pos).0, pos);
}

} // verus!
