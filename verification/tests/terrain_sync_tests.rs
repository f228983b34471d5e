use terrain_sync::field::{Brush, FieldStore};
use terrain_sync::gaia::{Effect, Gaia, LoadDestination, Message};
use terrain_sync::material::{procedural, Material};
use terrain_sync::protocol::{
    apply_server_update, round_trip_latency, ClientAction, ClientToServer, ServerToClient,
    VoxelReason,
};
use terrain_sync::region::{box_cells, chebyshev, Position, Region};
use terrain_sync::registry::IdAllocator;
use terrain_sync::surroundings::{lod_index, surroundings_diff, SurroundingsLoader};

fn pos(x: i32, y: i32, z: i32) -> Position {
    Position { x, y, z }
}

fn reg(x: i32, y: i32, z: i32) -> Region {
    Region { pos: pos(x, y, z), lod: 0 }
}

fn regl(x: i32, y: i32, z: i32, lod: u8) -> Region {
    Region { pos: pos(x, y, z), lod }
}

#[test]
fn chebyshev_exact_values() {
    assert_eq!(chebyshev(pos(0, 0, 0), pos(0, 0, 0)), 0);
    assert_eq!(chebyshev(pos(0, 0, 0), pos(3, -2, 1)), 3);
    assert_eq!(chebyshev(pos(1, 1, 1), pos(1, 1, -4)), 5);
    assert_eq!(chebyshev(pos(-5, 0, 0), pos(5, 0, 0)), 10);
}

#[test]
fn box_cells_small_box() {
    let cells = box_cells(pos(0, 0, 0), pos(1, 2, 0));
    assert_eq!(cells.len(), 6);
    for x in 0..=1 {
        for y in 0..=2 {
            assert!(cells.contains(&pos(x, y, 0)));
        }
    }
    assert!(!cells.contains(&pos(2, 0, 0)));
}

#[test]
fn box_cells_empty_box() {
    let cells = box_cells(pos(1, 0, 0), pos(0, 0, 0));
    assert_eq!(cells.len(), 0);
}

#[test]
fn lod_index_exact_values() {
    assert_eq!(lod_index(0), 0);
    assert_eq!(lod_index(1), 0);
    assert_eq!(lod_index(2), 1);
    assert_eq!(lod_index(4), 1);
    assert_eq!(lod_index(5), 2);
    assert_eq!(lod_index(16), 2);
    assert_eq!(lod_index(17), 3);
    assert_eq!(lod_index(4096), 3);
}

#[test]
fn lod_index_monotonic_samples() {
    let mut last = 0u8;
    for d in 0..200u64 {
        let l = lod_index(d);
        assert!(l >= last);
        last = l;
    }
}

#[test]
fn procedural_exact_values() {
    // Deep cells are bedrock regardless of seed.
    assert_eq!(procedural(0, reg(0, -300, 0)), Material::Bedrock);
    assert_eq!(procedural(123, reg(7, -257, -4)), Material::Bedrock);
    // With seed 0 at column (0, 0) the ground sits at altitude 0:
    // just below it is dirt, far below is stone, at or above is empty.
    assert_eq!(procedural(0, reg(0, -1, 0)), Material::Dirt);
    assert_eq!(procedural(0, reg(0, -100, 0)), Material::Stone);
    assert_eq!(procedural(0, reg(0, 0, 0)), Material::Empty);
    assert_eq!(procedural(0, reg(0, 1000, 0)), Material::Empty);
}

#[test]
fn generate_is_deterministic() {
    for r in [reg(0, -1, 0), reg(5, 3, -2), reg(-8, -40, 19)] {
        assert_eq!(procedural(42, r), procedural(42, r));
    }
}

#[test]
fn field_load_idempotent() {
    let mut f = FieldStore::new(42);
    let r = reg(3, -7, 1);
    let first = f.load(r);
    let second = f.load(r);
    assert_eq!(first, second);
    assert_eq!(first, procedural(42, r));
}

#[test]
fn brush_materializes_and_load_observes_it() {
    let mut f = FieldStore::new(0);
    let b = Brush { lo: pos(0, -100, 0), hi: pos(1, -100, 0), lod: 0, material: Material::Empty };
    let changed = f.apply_brush(b);
    assert_eq!(changed.len(), 2);
    assert!(changed.contains(&(reg(0, -100, 0), Material::Empty)));
    assert!(changed.contains(&(reg(1, -100, 0), Material::Empty)));
    // The load after the brush observes the brushed content, not the
    // procedural content (which would be stone down there).
    assert_eq!(f.load(reg(0, -100, 0)), Material::Empty);
    assert_eq!(f.load(reg(1, -100, 0)), Material::Empty);
    // A region the brush did not touch keeps its content.
    assert_eq!(f.load(reg(2, -100, 0)), procedural(0, reg(2, -100, 0)));
    // The same position at another LOD is a different region key.
    assert_eq!(f.load(regl(0, -100, 0, 1)), procedural(0, regl(0, -100, 0, 1)));
}

#[test]
fn surroundings_far_move_swaps_whole_window() {
    // Observer at (0,0,0) moves to (100,0,0) in one step with radius 2:
    // every old cell is unloaded, every new cell is loaded, and no cell
    // appears in both lists.
    let (loads, unloads) = surroundings_diff(pos(0, 0, 0), pos(100, 0, 0), 2);
    assert_eq!(loads.len(), 125);
    assert_eq!(unloads.len(), 125);
    for l in &loads {
        assert!(chebyshev(pos(100, 0, 0), l.pos) <= 2);
        assert_eq!(l.lod, lod_index(chebyshev(pos(100, 0, 0), l.pos)));
        assert!(!unloads.contains(&l.pos));
    }
    for u in &unloads {
        assert!(chebyshev(pos(0, 0, 0), *u) <= 2);
        assert!(chebyshev(pos(100, 0, 0), *u) > 2);
    }
    // Loads come in distance order, closest first.
    let mut last = 0u64;
    for l in &loads {
        let d = chebyshev(pos(100, 0, 0), l.pos);
        assert!(d >= last);
        last = d;
    }
    assert_eq!(loads[0].pos, pos(100, 0, 0));
}

#[test]
fn surroundings_small_move_emits_boundary_and_lod_changes() {
    let mut loader = SurroundingsLoader::new(pos(0, 0, 0), 2);
    let (loads, unloads) = loader.update(pos(1, 0, 0));
    // The plane that entered the window is loaded.
    assert!(loads.contains(&regl(3, 0, 0, 1)));
    // A cell that moved to a closer shell is reloaded at the finer LOD.
    assert!(loads.contains(&regl(2, 0, 0, 0)));
    // The new anchor cell was already resident at LOD 0 and is not reloaded.
    assert!(!loads.iter().any(|l| l.pos == pos(1, 0, 0)));
    // The plane that left the window is unloaded.
    assert!(unloads.contains(&pos(-2, 0, 0)));
    assert!(!unloads.contains(&pos(2, 0, 0)));
    // No cell appears in both lists.
    for l in &loads {
        assert!(!unloads.contains(&l.pos));
    }
}

#[test]
fn dedup_begin_load_refuses_in_flight_key() {
    let mut g = Gaia::new(0);
    let b = reg(0, -1, 0);
    assert!(g.begin_load(b));
    assert!(!g.begin_load(b));
    assert!(!g.begin_load(b));
    let _ = g.complete_load(0, b, LoadDestination::Discard);
    // After completion the key may be requested again.
    assert!(g.begin_load(b));
}

#[test]
fn process_load_skips_in_flight_keys() {
    let mut g = Gaia::new(0);
    g.connect(1);
    let b = reg(0, -1, 0);
    assert!(g.begin_load(b));
    // While b is in flight, a load request for it is dropped: no reply.
    let effects = g.process_load(9, &vec![b], LoadDestination::Client { client: 1 });
    assert_eq!(effects.len(), 0);
    // Completing the in-flight load produces the reply.
    let effects = g.complete_load(9, b, LoadDestination::Client { client: 1 });
    assert_eq!(effects.len(), 1);
}

#[test]
fn two_pulls_same_region_both_answered() {
    // Two load requests for the same region bounds with destinations
    // Client(1) and Client(2): both clients receive a reply referencing
    // the region's content (the second is served from the cache).
    let mut g = Gaia::new(0);
    g.connect(1);
    g.connect(2);
    let b = reg(0, -1, 0);
    let e1 = g.process_load(5, &vec![b], LoadDestination::Client { client: 1 });
    let e2 = g.process_load(6, &vec![b], LoadDestination::Client { client: 2 });
    assert_eq!(e1.len(), 1);
    assert_eq!(e2.len(), 1);
    let (c1, v1, r1) = expect_voxels(&e1[0]);
    let (c2, v2, r2) = expect_voxels(&e2[0]);
    assert_eq!(c1, 1);
    assert_eq!(c2, 2);
    assert_eq!(r1, VoxelReason::Requested { at: 5 });
    assert_eq!(r2, VoxelReason::Requested { at: 6 });
    assert_eq!(v1, vec![(b, Material::Dirt)]);
    assert_eq!(v2, vec![(b, Material::Dirt)]);
}

fn expect_voxels(e: &Effect) -> (u64, Vec<(Region, Material)>, VoxelReason) {
    match e {
        Effect::Send { client, message: ServerToClient::Voxels { voxels, reason } } => {
            (*client, voxels.clone(), *reason)
        }
        _ => panic!("expected a voxel send"),
    }
}

#[test]
fn brush_broadcast_lists_exactly_the_touched_regions() {
    // A brush touching {B1, B2} where B1 is resident and B2 is not:
    // every connected client hears about exactly {B1, B2}, reason Updated.
    let mut g = Gaia::new(0);
    g.connect(1);
    g.connect(2);
    let b1 = reg(0, -100, 0);
    let b2 = reg(1, -100, 0);
    let _ = g.process_load(0, &vec![b1], LoadDestination::Local { owner: 7 });
    let brush = Brush { lo: b1.pos, hi: b2.pos, lod: 0, material: Material::Dirt };
    let (changed, effects) = g.process_brush(brush);
    assert_eq!(changed.len(), 2);
    assert!(changed.contains(&(b1, Material::Dirt)));
    assert!(changed.contains(&(b2, Material::Dirt)));
    assert_eq!(effects.len(), 2);
    let (c1, v1, r1) = expect_voxels(&effects[0]);
    let (c2, v2, r2) = expect_voxels(&effects[1]);
    assert_eq!((c1, c2), (1, 2));
    assert_eq!(r1, VoxelReason::Updated);
    assert_eq!(r2, VoxelReason::Updated);
    assert_eq!(v1, changed);
    assert_eq!(v2, changed);
}

#[test]
fn pull_reply_carries_request_time_and_latency_is_non_negative() {
    // A client pull sent at time T is answered with Requested { at: T },
    // and the measured round-trip latency is non-negative.
    let mut g = Gaia::new(0);
    g.connect(1);
    let b = reg(0, -1, 0);
    let sent_at = 777u64;
    let effects = g.update_gaia(Message::Load {
        at: sent_at,
        regions: vec![b],
        dest: LoadDestination::Client { client: 1 },
    });
    assert_eq!(effects.len(), 1);
    let (_, voxels, reason) = expect_voxels(&effects[0]);
    assert_eq!(reason, VoxelReason::Requested { at: sent_at });
    assert_eq!(voxels[0].0, b);
    let receive_time = 907u64;
    let latency = round_trip_latency(receive_time, sent_at);
    assert_eq!(latency, Some(130));
    assert!(latency.unwrap() as i64 >= 0);
    assert_eq!(round_trip_latency(sent_at, sent_at), Some(0));
    assert_eq!(round_trip_latency(sent_at - 1, sent_at), None);
}

#[test]
fn local_load_allocates_and_unload_retires_once() {
    let mut g = Gaia::new(0);
    let b = reg(0, -100, 0);
    let effects = g.process_load(0, &vec![b], LoadDestination::Local { owner: 3 });
    assert_eq!(effects.len(), 1);
    let id = match &effects[0] {
        Effect::AddRegion { region, material, id } => {
            assert_eq!(*region, b);
            assert_eq!(*material, Material::Stone);
            *id
        }
        _ => panic!("expected an add-region effect"),
    };
    let effects = g.unload(b.pos);
    assert_eq!(effects.len(), 1);
    match &effects[0] {
        Effect::RemoveRegion { id: removed } => assert_eq!(*removed, id),
        _ => panic!("expected a remove-region effect"),
    }
    // A second revocation of the same position does nothing: the
    // identifier is retired at most once.
    let effects = g.unload(b.pos);
    assert_eq!(effects.len(), 0);
}

#[test]
fn lod_change_supersedes_prior_residency() {
    let mut g = Gaia::new(0);
    let fine = reg(0, -100, 0);
    let coarse = Region { pos: fine.pos, lod: 2 };
    let first = g.process_load(0, &vec![fine], LoadDestination::Local { owner: 3 });
    let first_id = match &first[0] {
        Effect::AddRegion { id, .. } => *id,
        _ => panic!("expected an add-region effect"),
    };
    let second = g.process_load(0, &vec![coarse], LoadDestination::Local { owner: 3 });
    assert_eq!(second.len(), 2);
    match &second[0] {
        Effect::RemoveRegion { id } => assert_eq!(*id, first_id),
        _ => panic!("expected the old residency to be removed first"),
    }
    match &second[1] {
        Effect::AddRegion { region, id, .. } => {
            assert_eq!(*region, coarse);
            assert_ne!(*id, first_id);
        }
        _ => panic!("expected the new residency to be added"),
    }
}

#[test]
fn empty_content_yields_no_registry_entry() {
    let mut g = Gaia::new(0);
    let sky = reg(0, 1000, 0);
    let effects = g.process_load(0, &vec![sky], LoadDestination::Local { owner: 3 });
    assert_eq!(effects.len(), 0);
    assert_eq!(g.unload(sky.pos).len(), 0);
}

#[test]
fn send_to_unknown_client_is_dropped() {
    let mut g = Gaia::new(0);
    let b = reg(0, -1, 0);
    let effects = g.process_load(0, &vec![b], LoadDestination::Client { client: 99 });
    assert_eq!(effects.len(), 0);
}

#[test]
fn disconnect_narrows_the_broadcast() {
    let mut g = Gaia::new(0);
    g.connect(1);
    g.connect(2);
    g.disconnect(1);
    let brush = Brush { lo: pos(0, -100, 0), hi: pos(0, -100, 0), lod: 0, material: Material::Dirt };
    let (_, effects) = g.process_brush(brush);
    assert_eq!(effects.len(), 1);
    let (client, _, _) = expect_voxels(&effects[0]);
    assert_eq!(client, 2);
}

#[test]
fn discard_destination_drops_the_result() {
    let mut g = Gaia::new(0);
    g.connect(1);
    let b = reg(0, -1, 0);
    let effects = g.process_load(0, &vec![b], LoadDestination::Discard);
    assert_eq!(effects.len(), 0);
}

#[test]
fn client_dispatch_tags_pull_replies() {
    let voxels = vec![(reg(0, -1, 0), Material::Dirt)];
    match apply_server_update(4, ServerToClient::Voxels {
        voxels: voxels.clone(),
        reason: VoxelReason::Requested { at: 11 },
    }) {
        ClientAction::LoadTerrain { voxels: v, time_requested } => {
            assert_eq!(v, voxels);
            assert_eq!(time_requested, Some(11));
        }
        _ => panic!("expected a terrain load"),
    }
    match apply_server_update(4, ServerToClient::Voxels {
        voxels: voxels.clone(),
        reason: VoxelReason::Updated,
    }) {
        ClientAction::LoadTerrain { voxels: v, time_requested } => {
            assert_eq!(v, voxels);
            assert_eq!(time_requested, None);
        }
        _ => panic!("expected a terrain load"),
    }
    match apply_server_update(4, ServerToClient::Ping) {
        ClientAction::ReplyPing { client } => assert_eq!(client, 4),
        _ => panic!("expected a ping reply"),
    }
}

#[test]
fn client_messages_drive_the_dispatcher() {
    let mut g = Gaia::new(0);
    assert_eq!(g.handle_client_message(ClientToServer::Init { client: 8 }).len(), 0);
    assert_eq!(g.handle_client_message(ClientToServer::Ping { client: 8 }).len(), 0);
    let b = reg(0, -1, 0);
    let effects = g.handle_client_message(ClientToServer::LoadVoxels {
        client: 8,
        at: 21,
        regions: vec![b],
    });
    assert_eq!(effects.len(), 1);
    let (client, voxels, reason) = expect_voxels(&effects[0]);
    assert_eq!(client, 8);
    assert_eq!(reason, VoxelReason::Requested { at: 21 });
    assert_eq!(voxels, vec![(b, Material::Dirt)]);
    let effects = g.handle_client_message(ClientToServer::Brush {
        brush: Brush { lo: b.pos, hi: b.pos, lod: 0, material: Material::Stone },
    });
    assert_eq!(effects.len(), 1);
    let (client, voxels, reason) = expect_voxels(&effects[0]);
    assert_eq!(client, 8);
    assert_eq!(reason, VoxelReason::Updated);
    assert_eq!(voxels, vec![(b, Material::Stone)]);
}

#[test]
fn zero_radius_window_is_the_anchor_cell() {
    let (loads, unloads) = surroundings_diff(pos(0, 0, 0), pos(5, 5, 5), 0);
    assert_eq!(loads.len(), 1);
    assert_eq!(loads[0], reg(5, 5, 5));
    assert_eq!(unloads.len(), 1);
    assert_eq!(unloads[0], pos(0, 0, 0));
}

#[test]
fn allocator_hands_out_fresh_identifiers() {
    let mut a = IdAllocator::new();
    let first = a.allocate();
    let second = a.allocate();
    assert_ne!(first, second);
    a.retire(first);
    let third = a.allocate();
    assert_ne!(third, first);
    assert_ne!(third, second);
}
