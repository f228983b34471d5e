//! The load dispatcher ("Gaia"): the single serialization point that
//! accepts load and brush requests from many producers, deduplicates
//! in-flight work, mutates the field store, keeps the per-region LOD and
//! ownership bookkeeping, and routes results into local server state or out
//! to the requesting client.
//!
//! The dispatcher owns its state exclusively; producers hand it messages
//! and collaborators receive the returned effects, so every invariant here
//! holds under the dispatcher's serialization point.

use vstd::prelude::*;
use crate::region::{Position, Region};
use crate::material::Material;
use crate::field::{Brush, FieldStore, content_at};
use crate::region_map::RegionMap;
use crate::pos_map::PosMap;
use crate::registry::IdAllocator;
use crate::protocol::{ServerToClient, ClientToServer, VoxelReason};

verus! {

/// What to do with a loaded region.
#[derive(Clone, Copy, PartialEq, Eq, Structural, Debug)]
pub enum LoadDestination {
    /// The server itself wants the region resident, for the given owner.
    Local { owner: u64 },
    /// A client asked for it; send it there.
    Client { client: u64 },
    /// Drop the loaded region: its demand evaporated before completion.
    Discard,
}

/// A message consumed by the dispatcher.
#[derive(Clone, Debug)]
pub enum Message {
    /// Load these regions, tagged with the request time, for a destination.
    Load { at: u64, regions: Vec<Region>, dest: LoadDestination },
    /// Apply a brush edit and broadcast the changed regions.
    Brush { brush: Brush },
}

/// The bookkeeping entry of a locally resident region: the LOD it is
/// resident at, its stable identifier, and the owner it was loaded for.
#[derive(Clone, Copy, PartialEq, Eq, Structural, Debug)]
pub struct LoadedEntry {
    pub lod: u8,
    pub id: u64,
    pub owner: u64,
}

/// One outward action the dispatcher asks its collaborators to perform.
#[derive(Clone, Debug)]
pub enum Effect {
    /// Transport: send a message to a connected client.
    Send { client: u64, message: ServerToClient },
    /// Rendering/physics: a region became resident under `id`.
    AddRegion { region: Region, material: Material, id: u64 },
    /// Rendering/physics: the region held under `id` is gone.
    RemoveRegion { id: u64 },
}

/// The mathematical value of an effect.
pub ghost enum EffectModel {
    Send { client: u64, voxels: Seq<(Region, Material)>, reason: VoxelReason },
    SendPing { client: u64 },
    AddRegion { region: Region, material: Material, id: u64 },
    RemoveRegion { id: u64 },
}

impl View for Effect {
    type V = EffectModel;

    open spec fn view(&self) -> EffectModel {
        match self {
            Effect::Send { client, message } => match message {
                ServerToClient::Voxels { voxels, reason } => EffectModel::Send {
                    client: *client,
                    voxels: voxels@,
                    reason: *reason,
                },
                ServerToClient::Ping => EffectModel::SendPing { client: *client },
            },
            Effect::AddRegion { region, material, id } => EffectModel::AddRegion {
                region: *region,
                material: *material,
                id: *id,
            },
            Effect::RemoveRegion { id } => EffectModel::RemoveRegion { id: *id },
        }
    }
}

/// The views of a list of effects.
pub open spec fn effect_views(effects: Seq<Effect>) -> Seq<EffectModel> {
    effects.map_values(|e: Effect| e@)
}

/// The dispatcher's whole state as mathematical values.
pub ghost struct GaiaModel {
    pub seed: u64,
    pub cache: Map<Region, Material>,
    pub in_flight: Set<Region>,
    pub loaded: Map<Position, LoadedEntry>,
    pub next_id: u64,
    pub retired: Set<u64>,
    pub clients: Seq<u64>,
}

impl GaiaModel {
    /// Observable field content.
    pub open spec fn content(self, r: Region) -> Material {
        content_at(self.seed, self.cache, r)
    }

    /// The dispatcher's invariant: every registry entry holds an allocated,
    /// unretired identifier; identifiers are not shared between positions;
    /// only allocated identifiers are retired; clients are registered once.
    pub open spec fn wf(self) -> bool {
        &&& forall|p: Position| #[trigger]
            self.loaded.contains_key(p) ==> self.loaded[p].id < self.next_id
                && !self.retired.contains(self.loaded[p].id)
        &&& forall|p1: Position, p2: Position|
            #[trigger] self.loaded.contains_key(p1) && #[trigger] self.loaded.contains_key(p2)
                && p1 != p2 ==> self.loaded[p1].id != self.loaded[p2].id
        &&& forall|id: u64| #[trigger] self.retired.contains(id) ==> id < self.next_id
        &&& forall|i: int, j: int|
            0 <= i < j < self.clients.len() ==> self.clients[i] != self.clients[j]
    }
}

/// The invariant does not depend on the field cache, the in-flight set or
/// the seed, and survives any change of client registration that keeps
/// clients registered at most once.
pub proof fn lemma_wf_same_core(m1: GaiaModel, m2: GaiaModel)
    requires
        m1.wf(),
        m2.loaded == m1.loaded,
        m2.retired == m1.retired,
        m2.next_id == m1.next_id,
        forall|i: int, j: int|
            0 <= i < j < m2.clients.len() ==> m2.clients[i] != m2.clients[j],
    ensures
        m2.wf(),
{
    assert forall|p: Position| #[trigger] m2.loaded.contains_key(p) implies m2.loaded[p].id
        < m2.next_id && !m2.retired.contains(m2.loaded[p].id) by {
        assert(m1.loaded.contains_key(p));
    }
    assert forall|p1: Position, p2: Position|
        #[trigger] m2.loaded.contains_key(p1) && #[trigger] m2.loaded.contains_key(p2) && p1
            != p2 implies m2.loaded[p1].id != m2.loaded[p2].id by {
        assert(m1.loaded.contains_key(p1));
        assert(m1.loaded.contains_key(p2));
    }
    assert forall|id: u64| #[trigger] m2.retired.contains(id) implies id < m2.next_id by {
        assert(m1.retired.contains(id));
    }
}

/// A new load request for `r` is accepted iff `r` is not already in flight;
/// a duplicate is dropped. This is the dedup invariant's gate.
pub open spec fn load_accepted(m: GaiaModel, r: Region) -> bool {
    !m.in_flight.contains(r)
}

/// Accepting a load request puts its region key in flight.
pub open spec fn after_accept(m: GaiaModel, r: Region) -> GaiaModel {
    GaiaModel { in_flight: m.in_flight.insert(r), ..m }
}

/// Routing a locally destined, non-empty region: a prior residency at the
/// same position is superseded (its identifier retired, its removal
/// announced), then a fresh identifier is allocated and the region is
/// entered into the LOD map / loaded registry.
pub open spec fn route_local_model(m: GaiaModel, r: Region, c: Material, owner: u64) -> (
    GaiaModel,
    Seq<EffectModel>,
) {
    if c.spec_is_empty() {
        (m, Seq::empty())
    } else if m.loaded.contains_key(r.pos) {
        let e = m.loaded[r.pos];
        let id = m.next_id;
        let m2 = GaiaModel {
            loaded: m.loaded.remove(r.pos).insert(r.pos, LoadedEntry { lod: r.lod, id, owner }),
            retired: m.retired.insert(e.id),
            next_id: (id + 1) as u64,
            ..m
        };
        (
            m2,
            seq![
                EffectModel::RemoveRegion { id: e.id },
                EffectModel::AddRegion { region: r, material: c, id },
            ],
        )
    } else {
        let id = m.next_id;
        let m2 = GaiaModel {
            loaded: m.loaded.insert(r.pos, LoadedEntry { lod: r.lod, id, owner }),
            next_id: (id + 1) as u64,
            ..m
        };
        (m2, seq![EffectModel::AddRegion { region: r, material: c, id }])
    }
}

/// Generating and routing one region that is not deduplicated: the field
/// caches its content, and the result goes to its destination. A reply to a
/// client is sent only if that client is connected; a send to a stale
/// identifier is dropped silently.
pub open spec fn route_model(m: GaiaModel, at: u64, r: Region, dest: LoadDestination) -> (
    GaiaModel,
    Seq<EffectModel>,
) {
    let c = m.content(r);
    let m1 = GaiaModel { cache: m.cache.insert(r, c), ..m };
    match dest {
        LoadDestination::Discard => (m1, Seq::empty()),
        LoadDestination::Client { client } => (
            m1,
            if m.clients.contains(client) {
                seq![
                    EffectModel::Send {
                        client,
                        voxels: seq![(r, c)],
                        reason: VoxelReason::Requested { at },
                    },
                ]
            } else {
                Seq::empty()
            },
        ),
        LoadDestination::Local { owner } => route_local_model(m1, r, c, owner),
    }
}

/// Processing one region of a `Load` message: a key already in flight is
/// dropped (the dedup invariant), any other key is generated and routed.
pub open spec fn load_one(m: GaiaModel, at: u64, r: Region, dest: LoadDestination) -> (
    GaiaModel,
    Seq<EffectModel>,
) {
    if m.in_flight.contains(r) {
        (m, Seq::empty())
    } else {
        route_model(m, at, r, dest)
    }
}

/// Processing a whole `Load` message, region by region in order.
pub open spec fn load_steps(
    m: GaiaModel,
    at: u64,
    regions: Seq<Region>,
    dest: LoadDestination,
) -> (GaiaModel, Seq<EffectModel>)
    decreases regions.len(),
{
    if regions.len() == 0 {
        (m, Seq::empty())
    } else {
        let prev = load_steps(m, at, regions.drop_last(), dest);
        let step = load_one(prev.0, at, regions.last(), dest);
        (step.0, prev.1 + step.1)
    }
}

/// Completing a load whose key is in flight: the key leaves the in-flight
/// set, then the region is generated and routed.
pub open spec fn complete_model(m: GaiaModel, at: u64, r: Region, dest: LoadDestination) -> (
    GaiaModel,
    Seq<EffectModel>,
) {
    route_model(GaiaModel { in_flight: m.in_flight.remove(r), ..m }, at, r, dest)
}

/// Revoking the residency of a position: its entry leaves the registry and
/// its identifier is retired, exactly once, in that order.
pub open spec fn unload_model(m: GaiaModel, pos: Position) -> (GaiaModel, Seq<EffectModel>) {
    if m.loaded.contains_key(pos) {
        let e = m.loaded[pos];
        (
            GaiaModel { loaded: m.loaded.remove(pos), retired: m.retired.insert(e.id), ..m },
            seq![EffectModel::RemoveRegion { id: e.id }],
        )
    } else {
        (m, Seq::empty())
    }
}

/// The dispatcher's state: the field store, the in-flight set, the LOD map
/// and loaded registry (one entry per resident position), the identifier
/// allocator and the client registry.
pub struct Gaia {
    field: FieldStore,
    in_flight: RegionMap<bool>,
    loaded: PosMap<LoadedEntry>,
    allocator: IdAllocator,
    clients: Vec<u64>,
}

impl Gaia {
    /// The dispatcher's state as mathematical values.
    pub closed spec fn model(self) -> GaiaModel {
        GaiaModel {
            seed: self.field.seed(),
            cache: self.field.cache_map(),
            in_flight: self.in_flight@.dom(),
            loaded: self.loaded@,
            next_id: self.allocator.next_id(),
            retired: self.allocator.retired(),
            clients: self.clients@,
        }
    }

    /// How many times the procedural generator has run for region `r`.
    pub closed spec fn generations(self, r: Region) -> nat {
        self.field.generations(r)
    }

    pub closed spec fn inv(self) -> bool {
        self.field.wf() && self.in_flight.wf() && self.loaded.wf() && self.allocator.wf()
    }

    pub open spec fn wf(self) -> bool {
        self.inv() && self.model().wf()
    }

    pub fn new(seed: u64) -> (g: Self)
        ensures
            g.wf(),
            g.model() == (GaiaModel {
                seed,
                cache: Map::<Region, Material>::empty(),
                in_flight: Set::<Region>::empty(),
                loaded: Map::<Position, LoadedEntry>::empty(),
                next_id: 0,
                retired: Set::<u64>::empty(),
                clients: Seq::<u64>::empty(),
            }),
            forall|r: Region| g.generations(r) == 0,
    {
        let g = Gaia {
            field: FieldStore::new(seed),
            in_flight: RegionMap::new(),
            loaded: PosMap::new(),
            allocator: IdAllocator::new(),
            clients: Vec::new(),
        };
        proof {
            assert(g.model().in_flight =~= Set::<Region>::empty());
        }
        g
    }

    fn clients_contain(&self, client: u64) -> (r: bool)
        ensures
            r == self.clients@.contains(client),
    {
        let n = self.clients.len();
        let mut i: usize = 0;
        while i < n
            invariant
                n == self.clients@.len(),
                0 <= i <= n,
                forall|j: int| 0 <= j < i ==> self.clients@[j] != client,
            decreases n - i,
        {
            if self.clients[i] == client {
                return true;
            }
            i = i + 1;
        }
        false
    }

    /// Registers a client connection; registering an already-connected
    /// client changes nothing.
    pub fn connect(&mut self, client: u64)
        requires
            old(self).wf(),
        ensures
            final(self).wf(),
            final(self).model() == (GaiaModel {
                clients: if old(self).model().clients.contains(client) {
                    old(self).model().clients
                } else {
                    old(self).model().clients.push(client)
                },
                ..old(self).model()
            }),
            forall|r: Region| final(self).generations(r) == old(self).generations(r),
    {
        if !self.clients_contain(client) {
            let ghost s = self.clients@;
            self.clients.push(client);
            proof {
                assert(old(self).model().clients == s);
                assert forall|a: int, b: int|
                    0 <= a < b < self.clients@.len() implies self.clients@[a]
                    != self.clients@[b] by {
                    if b == self.clients@.len() - 1 {
                        assert(s.contains(s[a]));
                    }
                }
                lemma_wf_same_core(old(self).model(), self.model());
            }
        }
    }

    /// Removes a client connection; sends to it are dropped from then on.
    /// Removing an unknown client changes nothing.
    pub fn disconnect(&mut self, client: u64)
        requires
            old(self).wf(),
        ensures
            final(self).wf(),
            final(self).model().seed == old(self).model().seed,
            final(self).model().cache == old(self).model().cache,
            final(self).model().in_flight == old(self).model().in_flight,
            final(self).model().loaded == old(self).model().loaded,
            final(self).model().next_id == old(self).model().next_id,
            final(self).model().retired == old(self).model().retired,
            forall|c: u64|
                #[trigger] final(self).model().clients.contains(c) <==> (old(
                    self,
                ).model().clients.contains(c) && c != client),
            forall|r: Region| final(self).generations(r) == old(self).generations(r),
    {
        let n = self.clients.len();
        let mut i: usize = 0;
        while i < n
            invariant
                n == self.clients@.len(),
                0 <= i <= n,
                self == old(self),
                old(self).wf(),
                forall|j: int| 0 <= j < i ==> self.clients@[j] != client,
            decreases n - i,
        {
            if self.clients[i] == client {
                let ghost s = self.clients@;
                self.clients.swap_remove(i);
                proof {
                    let t = self.clients@;
                    assert(old(self).model().clients == s);
                    assert(t == s.update(i as int, s.last()).drop_last());
                    assert forall|a: int, b: int| 0 <= a < b < t.len() implies t[a] != t[b] by {
                        assert(t[a] == if a == i { s[s.len() - 1] } else { s[a] });
                        assert(t[b] == if b == i { s[s.len() - 1] } else { s[b] });
                    }
                    assert forall|c: u64| t.contains(c) implies (s.contains(c) && c
                        != client) by {
                        let a = choose|a: int| 0 <= a < t.len() && t[a] == c;
                        let b: int = if a == i { s.len() - 1 } else { a };
                        assert(s[b] == c);
                        if b != i {
                            if (i as int) < b {
                                assert(s[i as int] != s[b]);
                            } else {
                                assert(s[b] != s[i as int]);
                            }
                        }
                    }
                    assert forall|c: u64| s.contains(c) && c != client implies t.contains(c) by {
                        let a = choose|a: int| 0 <= a < s.len() && s[a] == c;
                        let b: int = if a == s.len() - 1 { i as int } else { a };
                        assert(t[b] == c);
                    }
                    assert(self.model().clients == t);
                    lemma_wf_same_core(old(self).model(), self.model());
                }
                return ;
            }
            i = i + 1;
        }
        proof {
            assert forall|c: u64| self.clients@.contains(c) implies c != client by {
                let a = choose|a: int| 0 <= a < self.clients@.len() && self.clients@[a] == c;
            }
        }
    }

    /// Accepts or drops a new load request for `r`: accepted iff `r` is not
    /// already in flight; an accepted key enters the in-flight set. This is
    /// the deduplication gate for concurrent producers.
    pub fn begin_load(&mut self, r: Region) -> (accepted: bool)
        requires
            old(self).wf(),
        ensures
            final(self).wf(),
            accepted == load_accepted(old(self).model(), r),
            final(self).model() == (if accepted {
                after_accept(old(self).model(), r)
            } else {
                old(self).model()
            }),
            forall|r2: Region| final(self).generations(r2) == old(self).generations(r2),
    {
        if self.in_flight.contains_key(r) {
            false
        } else {
            self.in_flight.insert(r, true);
            proof {
                assert(self.in_flight@.dom() =~= old(self).in_flight@.dom().insert(r));
                assert(self.model().loaded == old(self).model().loaded);
                assert(self.model().retired == old(self).model().retired);
                assert(self.model().clients == old(self).model().clients);
            }
            true
        }
    }

    /// Revokes the residency of a position: the registry entry (if any) is
    /// removed and its identifier retired, and the rendering/physics
    /// collaborator is told to drop the region.
    pub fn unload(&mut self, pos: Position) -> (effects: Vec<Effect>)
        requires
            old(self).wf(),
        ensures
            final(self).wf(),
            final(self).model() == unload_model(old(self).model(), pos).0,
            effect_views(effects@) == unload_model(old(self).model(), pos).1,
            forall|r: Region| final(self).generations(r) == old(self).generations(r),
    {
        let mut effects: Vec<Effect> = Vec::new();
        match self.loaded.get(pos) {
            Some(entry) => {
                proof {
                    assert(old(self).model().loaded.contains_key(pos));
                    assert(entry.id < old(self).model().next_id);
                    assert(!old(self).model().retired.contains(entry.id));
                }
                self.loaded.remove(pos);
                proof {
                    assert forall|p2: Position| #[trigger]
                        self.loaded@.contains_key(p2) implies self.loaded@[p2].id
                        != entry.id by {
                        assert(old(self).model().loaded.contains_key(p2));
                        assert(old(self).model().loaded.contains_key(pos));
                    }
                }
                self.allocator.retire(entry.id);
                effects.push(Effect::RemoveRegion { id: entry.id });
                proof {
                    assert(effect_views(effects@) =~= unload_model(old(self).model(), pos).1);
                    assert forall|p2: Position| #[trigger]
                        self.model().loaded.contains_key(p2) implies self.model().loaded[p2].id
                        < self.model().next_id && !self.model().retired.contains(
                        self.model().loaded[p2].id,
                    ) by {
                        assert(old(self).model().loaded.contains_key(p2));
                    }
                }
            },
            None => {
                proof {
                    assert(effect_views(effects@) =~= Seq::<EffectModel>::empty());
                }
            },
        }
        effects
    }

    /// Routes a freshly generated region destined for local state: empty
    /// content yields no registry entry; otherwise any prior residency at
    /// the position is superseded and a fresh identifier is allocated.
    fn route_local(&mut self, r: Region, c: Material, owner: u64) -> (effects: Vec<Effect>)
        requires
            old(self).wf(),
            old(self).model().next_id < u64::MAX,
        ensures
            final(self).wf(),
            final(self).model() == route_local_model(old(self).model(), r, c, owner).0,
            effect_views(effects@) == route_local_model(old(self).model(), r, c, owner).1,
            final(self).model().next_id <= old(self).model().next_id + 1,
            forall|r2: Region| final(self).generations(r2) == old(self).generations(r2),
    {
        let mut effects: Vec<Effect> = Vec::new();
        if c.is_empty() {
            proof {
                assert(effect_views(effects@) =~= Seq::<EffectModel>::empty());
            }
            return effects;
        }
        match self.loaded.get(r.pos) {
            Some(e) => {
                proof {
                    assert(old(self).model().loaded.contains_key(r.pos));
                    assert(e == old(self).model().loaded[r.pos]);
                    assert(e.id < old(self).model().next_id);
                    assert(!old(self).model().retired.contains(e.id));
                }
                self.loaded.remove(r.pos);
                self.allocator.retire(e.id);
                effects.push(Effect::RemoveRegion { id: e.id });
                let ghost m_mid = self.model();
                proof {
                    lemma_wf_retire_removed(old(self).model(), m_mid, r.pos);
                }
                let id = self.allocator.allocate();
                self.loaded.insert(r.pos, LoadedEntry { lod: r.lod, id, owner });
                effects.push(Effect::AddRegion { region: r, material: c, id });
                proof {
                    lemma_wf_insert_fresh(
                        m_mid,
                        self.model(),
                        r.pos,
                        LoadedEntry { lod: r.lod, id, owner },
                    );
                    assert(effect_views(effects@) =~= route_local_model(
                        old(self).model(),
                        r,
                        c,
                        owner,
                    ).1);
                }
            },
            None => {
                let id = self.allocator.allocate();
                self.loaded.insert(r.pos, LoadedEntry { lod: r.lod, id, owner });
                effects.push(Effect::AddRegion { region: r, material: c, id });
                proof {
                    lemma_wf_insert_fresh(
                        old(self).model(),
                        self.model(),
                        r.pos,
                        LoadedEntry { lod: r.lod, id, owner },
                    );
                    assert(effect_views(effects@) =~= route_local_model(
                        old(self).model(),
                        r,
                        c,
                        owner,
                    ).1);
                }
            },
        }
        effects
    }

    /// Completes a load whose key was accepted into the in-flight set by
    /// `begin_load`: the key leaves the set, the region is generated, and
    /// the result is routed to its destination.
    pub fn complete_load(&mut self, at: u64, r: Region, dest: LoadDestination) -> (effects: Vec<
        Effect,
    >)
        requires
            old(self).wf(),
            old(self).model().in_flight.contains(r),
            dest is Local ==> old(self).model().next_id < u64::MAX,
        ensures
            final(self).wf(),
            final(self).model() == complete_model(old(self).model(), at, r, dest).0,
            effect_views(effects@) == complete_model(old(self).model(), at, r, dest).1,
    {
        self.in_flight.remove(r);
        let ghost m0 = self.model();
        proof {
            assert(m0.in_flight =~= old(self).model().in_flight.remove(r));
            assert(m0 == GaiaModel { in_flight: old(self).model().in_flight.remove(r), ..old(self).model() });
        }
        let c = self.field.load(r);
        proof {
            assert(self.model().cache == m0.cache.insert(r, c));
        }
        match dest {
            LoadDestination::Discard => {
                let effects: Vec<Effect> = Vec::new();
                proof {
                    assert(effect_views(effects@) =~= Seq::<EffectModel>::empty());
                }
                effects
            },
            LoadDestination::Client { client } => {
                let mut effects: Vec<Effect> = Vec::new();
                if self.clients_contain(client) {
                    let mut voxels: Vec<(Region, Material)> = Vec::new();
                    voxels.push((r, c));
                    effects.push(
                        Effect::Send {
                            client,
                            message: ServerToClient::Voxels {
                                voxels,
                                reason: VoxelReason::Requested { at },
                            },
                        },
                    );
                    proof {
                        assert(effect_views(effects@) =~= complete_model(
                            old(self).model(),
                            at,
                            r,
                            dest,
                        ).1);
                    }
                } else {
                    proof {
                        assert(effect_views(effects@) =~= Seq::<EffectModel>::empty());
                    }
                }
                effects
            },
            LoadDestination::Local { owner } => {
                let effects = self.route_local(r, c, owner);
                effects
            },
        }
    }

    /// Processes a `Load` message: each region not already in flight is
    /// generated (from cache where warm) and routed to the destination;
    /// regions already in flight are dropped, and observable field content
    /// is unchanged everywhere. A key the message lists twice is generated
    /// at most once: the second pass hits the cache.
    pub fn process_load(
        &mut self,
        at: u64,
        regions: &Vec<Region>,
        dest: LoadDestination,
    ) -> (effects: Vec<Effect>)
        requires
            old(self).wf(),
            dest is Local ==> old(self).model().next_id + regions@.len() <= u64::MAX,
        ensures
            final(self).wf(),
            final(self).model() == load_steps(old(self).model(), at, regions@, dest).0,
            effect_views(effects@) == load_steps(old(self).model(), at, regions@, dest).1,
            final(self).model().in_flight == old(self).model().in_flight,
            forall|r2: Region|
                final(self).model().content(r2) == old(self).model().content(r2),
            forall|r2: Region| #[trigger]
                final(self).generations(r2) <= old(self).generations(r2) + 1,
            forall|r2: Region|
                old(self).model().cache.contains_key(r2) ==> final(self).generations(r2) == old(
                    self,
                ).generations(r2),
            forall|r2: Region|
                old(self).model().in_flight.contains(r2) ==> final(self).generations(r2) == old(
                    self,
                ).generations(r2),
    {
        let mut effects: Vec<Effect> = Vec::new();
        let n = regions.len();
        let mut k: usize = 0;
        proof {
            assert(regions@.take(0) =~= Seq::<Region>::empty());
            assert(effect_views(effects@) =~= Seq::<EffectModel>::empty());
        }
        while k < n
            invariant
                old(self).wf(),
                self.wf(),
                n == regions@.len(),
                0 <= k <= n,
                dest is Local ==> old(self).model().next_id + regions@.len() <= u64::MAX,
                dest is Local ==> self.model().next_id <= old(self).model().next_id + k,
                self.model() == load_steps(old(self).model(), at, regions@.take(k as int), dest).0,
                effect_views(effects@) == load_steps(
                    old(self).model(),
                    at,
                    regions@.take(k as int),
                    dest,
                ).1,
                self.model().in_flight == old(self).model().in_flight,
                forall|r2: Region|
                    self.model().content(r2) == old(self).model().content(r2),
                forall|r2: Region|
                    old(self).model().cache.contains_key(r2)
                        ==> self.model().cache.contains_key(r2),
                forall|r2: Region| #[trigger]
                    self.generations(r2) >= old(self).generations(r2),
                forall|r2: Region| #[trigger]
                    self.generations(r2) <= old(self).generations(r2) + 1,
                forall|r2: Region|
                    self.generations(r2) > old(self).generations(r2)
                        ==> self.model().cache.contains_key(r2),
                forall|r2: Region|
                    old(self).model().cache.contains_key(r2) ==> self.generations(r2) == old(
                        self,
                    ).generations(r2),
                forall|r2: Region|
                    old(self).model().in_flight.contains(r2) ==> self.generations(r2) == old(
                        self,
                    ).generations(r2),
            decreases n - k,
        {
            let r = regions[k];
            let ghost self_pre = *self;
            let ghost m_pre = self.model();
            proof {
                lemma_load_steps_snoc(old(self).model(), at, regions@, dest, k as int);
            }
            if self.in_flight.contains_key(r) {
                proof {
                    assert(load_one(m_pre, at, r, dest) == (
                        m_pre,
                        Seq::<EffectModel>::empty(),
                    ));
                    assert(effect_views(effects@) + Seq::<EffectModel>::empty() =~= effect_views(
                        effects@,
                    ));
                }
            } else {
                let c = self.field.load(r);
                let ghost self_mid = *self;
                proof {
                    assert(self.model().cache == m_pre.cache.insert(r, c));
                    assert(c == m_pre.content(r));
                }
                match dest {
                    LoadDestination::Discard => {
                        proof {
                            assert(self.model() == route_model(m_pre, at, r, dest).0);
                            assert(effect_views(effects@) + Seq::<EffectModel>::empty()
                                =~= effect_views(effects@));
                        }
                    },
                    LoadDestination::Client { client } => {
                        if self.clients_contain(client) {
                            let mut voxels: Vec<(Region, Material)> = Vec::new();
                            voxels.push((r, c));
                            let ghost e_before = effects@;
                            effects.push(
                                Effect::Send {
                                    client,
                                    message: ServerToClient::Voxels {
                                        voxels,
                                        reason: VoxelReason::Requested { at },
                                    },
                                },
                            );
                            proof {
                                assert(effect_views(effects@) =~= effect_views(e_before)
                                    + route_model(m_pre, at, r, dest).1);
                            }
                        } else {
                            proof {
                                assert(effect_views(effects@) + Seq::<EffectModel>::empty()
                                    =~= effect_views(effects@));
                            }
                        }
                    },
                    LoadDestination::Local { owner } => {
                        let ghost m_loaded = self.model();
                        let mut step = self.route_local(r, c, owner);
                        proof {
                            assert(route_model(m_pre, at, r, dest)
                                == route_local_model(m_loaded, r, c, owner));
                        }
                        let ghost e_before = effects@;
                        let ghost step_seq = step@;
                        effects.append(&mut step);
                        proof {
                            lemma_effect_views_append(e_before, step_seq, effects@);
                        }
                    },
                }
                proof {
                    assert forall|r2: Region|
                        old(self).generations(r2) <= #[trigger] self.generations(r2) <= old(
                        self,
                    ).generations(r2) + 1 by {
                        if r2 == r {
                            if m_pre.cache.contains_key(r) {
                                assert(self_mid.generations(r2) == self_pre.generations(r2));
                            } else {
                                assert(self_mid.generations(r2) == self_pre.generations(r2) + 1);
                                assert(self_pre.generations(r2) <= old(self).generations(r2));
                            }
                        } else {
                            assert(self_mid.generations(r2) == self_pre.generations(r2));
                        }
                        assert(self.generations(r2) == self_mid.generations(r2));
                    }
                }
            }
            k = k + 1;
        }
        proof {
            assert(regions@.take(n as int) =~= regions@);
        }
        effects
    }

    /// Processes a `Brush` message: applies the edit to the field store,
    /// collects every changed region, and broadcasts the whole list to
    /// every connected client with reason `Updated`. Returns the changed
    /// list and the broadcast effects.
    pub fn process_brush(&mut self, b: Brush) -> (res: (Vec<(Region, Material)>, Vec<Effect>))
        requires
            old(self).wf(),
        ensures
            final(self).wf(),
            brush_voxels_ok(b, res.0@),
            forall|r: Region|
                b.affects(r) ==> final(self).model().content(r) == b.material,
            forall|r: Region|
                !b.affects(r) ==> final(self).model().content(r) == old(self).model().content(r),
            final(self).model().seed == old(self).model().seed,
            final(self).model().in_flight == old(self).model().in_flight,
            final(self).model().loaded == old(self).model().loaded,
            final(self).model().next_id == old(self).model().next_id,
            final(self).model().retired == old(self).model().retired,
            final(self).model().clients == old(self).model().clients,
            res.1@.len() == old(self).model().clients.len(),
            forall|i: int|
                0 <= i < res.1@.len() ==> effect_views(res.1@)[i] == (EffectModel::Send {
                    client: old(self).model().clients[i],
                    voxels: res.0@,
                    reason: VoxelReason::Updated,
                }),
            forall|r2: Region| final(self).generations(r2) == old(self).generations(r2),
    {
        let changed = self.field.apply_brush(b);
        proof {
            lemma_wf_same_core(old(self).model(), self.model());
        }
        let mut effects: Vec<Effect> = Vec::new();
        let n = self.clients.len();
        let mut i: usize = 0;
        while i < n
            invariant
                n == self.clients@.len(),
                0 <= i <= n,
                effects@.len() == i,
                forall|j: int|
                    0 <= j < i ==> effect_views(effects@)[j] == (EffectModel::Send {
                        client: self.clients@[j],
                        voxels: changed@,
                        reason: VoxelReason::Updated,
                    }),
            decreases n - i,
        {
            let vx = copy_voxels(&changed);
            let ghost e_before = effects@;
            effects.push(
                Effect::Send {
                    client: self.clients[i],
                    message: ServerToClient::Voxels { voxels: vx, reason: VoxelReason::Updated },
                },
            );
            proof {
                assert(effect_views(effects@) =~= effect_views(e_before).push(
                    effects@.last()@,
                ));
                assert(effects@.last()@ == (EffectModel::Send {
                    client: self.clients@[i as int],
                    voxels: changed@,
                    reason: VoxelReason::Updated,
                }));
            }
            i = i + 1;
        }
        (changed, effects)
    }

    /// Processes one dispatcher message: the single entry point of the
    /// dispatcher's totally ordered queue. Loads and brushes are fully
    /// serialized against each other: no load observes a half-applied
    /// brush, and no two brushes interleave.
    pub fn update_gaia(&mut self, msg: Message) -> (effects: Vec<Effect>)
        requires
            old(self).wf(),
            msg matches Message::Load { at: _, regions, dest } ==> (dest is Local ==> old(
                self,
            ).model().next_id + regions@.len() <= u64::MAX),
        ensures
            final(self).wf(),
            match msg {
                Message::Load { at, regions, dest } => {
                    &&& final(self).model() == load_steps(
                        old(self).model(),
                        at,
                        regions@,
                        dest,
                    ).0
                    &&& effect_views(effects@) == load_steps(
                        old(self).model(),
                        at,
                        regions@,
                        dest,
                    ).1
                },
                Message::Brush { brush } => {
                    &&& brush_broadcast_ok(brush, old(self).model().clients, effect_views(
                        effects@,
                    ))
                    &&& forall|r: Region|
                        brush.affects(r) ==> final(self).model().content(r) == brush.material
                    &&& forall|r: Region|
                        !brush.affects(r) ==> final(self).model().content(r) == old(
                            self,
                        ).model().content(r)
                    &&& final(self).model().loaded == old(self).model().loaded
                    &&& final(self).model().in_flight == old(self).model().in_flight
                    &&& final(self).model().retired == old(self).model().retired
                    &&& final(self).model().clients == old(self).model().clients
                },
            },
    {
        match msg {
            Message::Load { at, regions, dest } => self.process_load(at, &regions, dest),
            Message::Brush { brush } => {
                let res = self.process_brush(brush);
                proof {
                    let vs = res.0@;
                    let evs = effect_views(res.1@);
                    assert(brush_voxels_ok(brush, vs) && evs.len() == old(
                        self,
                    ).model().clients.len() && (forall|i: int|
                        0 <= i < evs.len() ==> evs[i] == (EffectModel::Send {
                            client: old(self).model().clients[i],
                            voxels: vs,
                            reason: VoxelReason::Updated,
                        })));
                }
                res.1
            },
        }
    }

    /// Handles one inbound client message: a handshake registers the
    /// client, a liveness reply needs no action, an explicit pull is
    /// dispatched as a client-destined load, and an edit submission is
    /// dispatched as a brush.
    pub fn handle_client_message(&mut self, msg: ClientToServer) -> (effects: Vec<Effect>)
        requires
            old(self).wf(),
        ensures
            final(self).wf(),
            match msg {
                ClientToServer::Init { client } => {
                    &&& final(self).model() == (GaiaModel {
                        clients: if old(self).model().clients.contains(client) {
                            old(self).model().clients
                        } else {
                            old(self).model().clients.push(client)
                        },
                        ..old(self).model()
                    })
                    &&& effects@.len() == 0
                },
                ClientToServer::Ping { .. } => {
                    &&& *final(self) == *old(self)
                    &&& effects@.len() == 0
                },
                ClientToServer::LoadVoxels { client, at, regions } => {
                    &&& final(self).model() == load_steps(
                        old(self).model(),
                        at,
                        regions@,
                        LoadDestination::Client { client },
                    ).0
                    &&& effect_views(effects@) == load_steps(
                        old(self).model(),
                        at,
                        regions@,
                        LoadDestination::Client { client },
                    ).1
                },
                ClientToServer::Brush { brush } => {
                    &&& brush_broadcast_ok(brush, old(self).model().clients, effect_views(
                        effects@,
                    ))
                    &&& forall|r: Region|
                        brush.affects(r) ==> final(self).model().content(r) == brush.material
                    &&& forall|r: Region|
                        !brush.affects(r) ==> final(self).model().content(r) == old(
                            self,
                        ).model().content(r)
                },
            },
    {
        match msg {
            ClientToServer::Init { client } => {
                self.connect(client);
                Vec::new()
            },
            ClientToServer::Ping { .. } => Vec::new(),
            ClientToServer::LoadVoxels { client, at, regions } => self.process_load(
                at,
                &regions,
                LoadDestination::Client { client },
            ),
            ClientToServer::Brush { brush } => {
                let res = self.process_brush(brush);
                proof {
                    let vs = res.0@;
                    let evs = effect_views(res.1@);
                    assert(brush_voxels_ok(brush, vs) && evs.len() == old(
                        self,
                    ).model().clients.len() && (forall|i: int|
                        0 <= i < evs.len() ==> evs[i] == (EffectModel::Send {
                            client: old(self).model().clients[i],
                            voxels: vs,
                            reason: VoxelReason::Updated,
                        })));
                }
                res.1
            },
        }
    }
}

/// The changed-region list a brush broadcast carries: exactly the regions
/// the brush touches, each once, each with the brush material.
pub open spec fn brush_voxels_ok(b: Brush, vs: Seq<(Region, Material)>) -> bool {
    &&& forall|i: int|
        0 <= i < vs.len() ==> b.affects((#[trigger] vs[i]).0) && vs[i].1 == b.material
    &&& forall|r: Region|
        b.affects(r) ==> exists|i: int| 0 <= i < vs.len() && (#[trigger] vs[i]).0 == r
    &&& forall|i: int, j: int|
        0 <= i < j < vs.len() ==> (#[trigger] vs[i]).0 != (#[trigger] vs[j]).0
}

/// A brush broadcast: one message per connected client, in registration
/// order, all carrying the same changed-region list with reason `Updated`.
pub open spec fn brush_broadcast_ok(b: Brush, clients: Seq<u64>, evs: Seq<EffectModel>) -> bool {
    exists|vs: Seq<(Region, Material)>|
        #![auto]
        brush_voxels_ok(b, vs) && evs.len() == clients.len() && (forall|i: int|
            0 <= i < evs.len() ==> evs[i] == EffectModel::Send {
                client: clients[i],
                voxels: vs,
                reason: VoxelReason::Updated,
            })
}

fn copy_voxels(v: &Vec<(Region, Material)>) -> (r: Vec<(Region, Material)>)
    ensures
        r@ == v@,
{
    let n = v.len();
    let mut r: Vec<(Region, Material)> = Vec::new();
    let mut i: usize = 0;
    while i < n
        invariant
            n == v@.len(),
            0 <= i <= n,
            r@ == v@.take(i as int),
        decreases n - i,
    {
        r.push(v[i]);
        proof {
            assert(r@ =~= v@.take(i as int + 1));
        }
        i = i + 1;
    }
    proof {
        assert(v@.take(n as int) =~= v@);
    }
    r
}

proof fn lemma_effect_views_append(a: Seq<Effect>, b: Seq<Effect>, c: Seq<Effect>)
    requires
        c == a + b,
    ensures
        effect_views(c) == effect_views(a) + effect_views(b),
{
    assert(effect_views(c) =~= effect_views(a) + effect_views(b));
}

/// One region of a `Load` message appended to the regions already
/// processed: the fold over `k + 1` regions is the fold over `k` regions
/// followed by one step.
pub proof fn lemma_load_steps_snoc(
    m0: GaiaModel,
    at: u64,
    regions: Seq<Region>,
    dest: LoadDestination,
    k: int,
)
    requires
        0 <= k < regions.len(),
    ensures
        load_steps(m0, at, regions.take(k + 1), dest).0 == load_one(
            load_steps(m0, at, regions.take(k), dest).0,
            at,
            regions[k],
            dest,
        ).0,
        load_steps(m0, at, regions.take(k + 1), dest).1 == load_steps(
            m0,
            at,
            regions.take(k),
            dest,
        ).1 + load_one(load_steps(m0, at, regions.take(k), dest).0, at, regions[k], dest).1,
{
    assert(regions.take(k + 1).drop_last() =~= regions.take(k));
    assert(regions.take(k + 1).last() == regions[k]);
}

/// Removing a registry entry and retiring exactly its identifier preserves
/// the dispatcher's invariant.
pub proof fn lemma_wf_retire_removed(m1: GaiaModel, m2: GaiaModel, pos: Position)
    requires
        m1.wf(),
        m1.loaded.contains_key(pos),
        m2.loaded == m1.loaded.remove(pos),
        m2.retired == m1.retired.insert(m1.loaded[pos].id),
        m2.next_id == m1.next_id,
        m2.clients == m1.clients,
    ensures
        m2.wf(),
{
    let retired_id = m1.loaded[pos].id;
    assert forall|p: Position| #[trigger] m2.loaded.contains_key(p) implies m2.loaded[p].id
        < m2.next_id && !m2.retired.contains(m2.loaded[p].id) by {
        assert(m1.loaded.contains_key(p));
        assert(p != pos);
    }
    assert forall|p1: Position, p2: Position|
        #[trigger] m2.loaded.contains_key(p1) && #[trigger] m2.loaded.contains_key(p2) && p1
            != p2 implies m2.loaded[p1].id != m2.loaded[p2].id by {
        assert(m1.loaded.contains_key(p1));
        assert(m1.loaded.contains_key(p2));
    }
    assert forall|id: u64| #[trigger] m2.retired.contains(id) implies id < m2.next_id by {
        if id != retired_id {
            assert(m1.retired.contains(id));
        } else {
            assert(m1.loaded.contains_key(pos));
        }
    }
}

/// Inserting a registry entry under the identifier being allocated
/// preserves the dispatcher's invariant.
pub proof fn lemma_wf_insert_fresh(m1: GaiaModel, m2: GaiaModel, pos: Position, entry: LoadedEntry)
    requires
        m1.wf(),
        !m1.loaded.contains_key(pos),
        entry.id == m1.next_id,
        m1.next_id < u64::MAX,
        m2.loaded == m1.loaded.insert(pos, entry),
        m2.retired == m1.retired,
        m2.next_id == m1.next_id + 1,
        m2.clients == m1.clients,
    ensures
        m2.wf(),
{
    assert forall|p: Position| #[trigger] m2.loaded.contains_key(p) implies m2.loaded[p].id
        < m2.next_id && !m2.retired.contains(m2.loaded[p].id) by {
        if p != pos {
            assert(m1.loaded.contains_key(p));
        }
    }
    assert forall|p1: Position, p2: Position|
        #[trigger] m2.loaded.contains_key(p1) && #[trigger] m2.loaded.contains_key(p2) && p1
            != p2 implies m2.loaded[p1].id != m2.loaded[p2].id by {
        if p1 != pos {
            assert(m1.loaded.contains_key(p1));
        }
        if p2 != pos {
            assert(m1.loaded.contains_key(p2));
        }
    }
    assert forall|id: u64| #[trigger] m2.retired.contains(id) implies id < m2.next_id by {
        assert(m1.retired.contains(id));
    }
}

} // verus!
