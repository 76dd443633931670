use hyperion_core::{
    apply_bookkeeping, register_spawn, set_parent_links, spawn_run_end, Command, CommandType,
    EntityHandle, EntityMap, Parent, RenderState, SlotData, StagingHead, NO_PARENT, ONE_BITS,
};

fn handle(id: u32) -> EntityHandle {
    EntityHandle { id, generation: 1 }
}

fn no_data() -> SlotData {
    SlotData {
        transform: None,
        position: None,
        radius: None,
        mesh: None,
        primitive: None,
        tex_index: None,
        params: None,
        external_id: None,
    }
}

fn cmd(cmd_type: CommandType, entity_id: u32) -> Command {
    Command { cmd_type, entity_id, payload: [0; 16] }
}

fn bits3(v: [f32; 3]) -> [u32; 3] {
    [v[0].to_bits(), v[1].to_bits(), v[2].to_bits()]
}

#[test]
fn entity_id_recycling() {
    let mut map = EntityMap::new();
    let id0 = map.allocate();
    let id1 = map.allocate();
    assert_eq!(id0, 0);
    assert_eq!(id1, 1);
    map.remove(id0);
    let id2 = map.allocate();
    assert_eq!(id2, 0);
}

#[test]
fn entity_map_remove_never_frees_an_id_not_handed_out() {
    let mut map = EntityMap::new();
    map.insert(7, handle(3));
    map.remove(7);
    assert_eq!(map.get(7), None);
    assert_eq!(map.allocate(), 0);
    assert_eq!(map.allocate(), 1);
}

#[test]
fn entity_map_shrink_to_fit() {
    let mut map = EntityMap::new();
    for i in 0..100u32 {
        let id = map.allocate();
        map.insert(id, handle(i));
    }
    for i in 50..100u32 {
        map.remove(i);
    }
    map.shrink_to_fit();
    assert!(map.capacity() <= 50, "capacity {} should be <= 50 (was {})", map.capacity(), 100);
    for i in 0..50u32 {
        assert_eq!(map.get(i), Some(handle(i)));
    }
    // Freed ids past the end are gone from the free list: the next id is new.
    assert_eq!(map.allocate(), 100);
}

#[test]
fn iter_mapped_lists_pairs_by_ascending_id() {
    let mut map = EntityMap::new();
    map.insert(5, handle(50));
    map.insert(1, handle(10));
    map.insert(3, handle(30));
    map.remove(3);
    assert_eq!(map.iter_mapped(), vec![(1, handle(10)), (5, handle(50))]);
}

#[test]
fn assign_slot_returns_sequential_indices() {
    let mut rs = RenderState::new();
    assert_eq!(rs.assign_slot(handle(0)), 0);
    assert_eq!(rs.assign_slot(handle(1)), 1);
    assert_eq!(rs.gpu_entity_count(), 2);
    assert_eq!(rs.gpu_transforms().len(), 32);
    assert_eq!(rs.gpu_bounds().len(), 8);
    assert_eq!(rs.gpu_render_meta().len(), 4);
    assert_eq!(rs.gpu_tex_indices().len(), 2);
    assert_eq!(rs.gpu_prim_params().len(), 16);
    assert_eq!(rs.gpu_entity_ids().len(), 2);
}

#[test]
fn entity_to_slot_lookup() {
    let mut rs = RenderState::new();
    rs.assign_slot(handle(0));
    rs.assign_slot(handle(1));
    assert_eq!(rs.get_slot(handle(0)), Some(0));
    assert_eq!(rs.get_slot(handle(1)), Some(1));
    assert_eq!(rs.get_slot(handle(2)), None);
}

#[test]
fn assign_slot_marks_all_three_dirty() {
    let mut rs = RenderState::new();
    rs.assign_slot(handle(4));
    let t = rs.dirty_tracker();
    assert!(t.is_transform_dirty(0) && t.is_bounds_dirty(0) && t.is_meta_dirty(0));
}

fn with_bounds_x(x: f32) -> SlotData {
    let mut d = no_data();
    d.position = Some(bits3([x, 0.0, 0.0]));
    d
}

#[test]
fn swap_remove_single_despawn() {
    let mut rs = RenderState::new();
    let (e0, e1, e2) = (handle(0), handle(1), handle(2));
    rs.assign_slot(e0);
    rs.assign_slot(e1);
    rs.assign_slot(e2);
    rs.write_slot(1, &with_bounds_x(99.0));
    rs.write_slot(2, &with_bounds_x(77.0));

    rs.queue_despawn(e1);
    rs.flush_pending_despawns();

    assert_eq!(rs.gpu_entity_count(), 2);
    assert_eq!(rs.get_slot(e0), Some(0));
    assert_eq!(rs.get_slot(e2), Some(1));
    assert_eq!(rs.get_slot(e1), None);
    assert_eq!(f32::from_bits(rs.gpu_bounds()[4]), 77.0);
    assert_eq!(rs.slot_entity(1), e2);
}

#[test]
fn swap_remove_batch_descending() {
    let mut rs = RenderState::new();
    let entities: Vec<EntityHandle> = (0..5).map(handle).collect();
    for &e in &entities {
        rs.assign_slot(e);
    }
    rs.queue_despawn(entities[1]);
    rs.queue_despawn(entities[3]);
    rs.flush_pending_despawns();

    assert_eq!(rs.gpu_entity_count(), 3);
    assert_eq!(rs.get_slot(entities[0]), Some(0));
    assert_eq!(rs.get_slot(entities[1]), None);
    assert_eq!(rs.get_slot(entities[3]), None);
    let mut live: Vec<u32> = [0usize, 2, 4].iter().map(|&i| rs.get_slot(entities[i]).unwrap()).collect();
    live.sort();
    assert_eq!(live, vec![0, 1, 2]);
}

#[test]
fn swap_remove_last_slot() {
    let mut rs = RenderState::new();
    rs.assign_slot(handle(0));
    rs.assign_slot(handle(1));
    rs.queue_despawn(handle(1));
    rs.flush_pending_despawns();
    assert_eq!(rs.gpu_entity_count(), 1);
    assert_eq!(rs.get_slot(handle(0)), Some(0));
    assert_eq!(rs.get_slot(handle(1)), None);
}

#[test]
fn flush_ignores_missing_and_repeated_entities() {
    let mut rs = RenderState::new();
    for i in 0..4 {
        rs.assign_slot(handle(i));
    }
    rs.queue_despawn(handle(9));
    rs.queue_despawn(handle(2));
    rs.queue_despawn(handle(2));
    rs.flush_pending_despawns();
    assert_eq!(rs.gpu_entity_count(), 3);
    for i in [0u32, 1, 3] {
        assert!(rs.get_slot(handle(i)).unwrap() < 3);
    }
}

#[test]
fn distinct_entities_hold_distinct_slots() {
    let mut rs = RenderState::new();
    for i in 0..6 {
        rs.assign_slot(handle(i));
    }
    rs.queue_despawn(handle(0));
    rs.flush_pending_despawns();
    let mut slots: Vec<u32> = (1..6).map(|i| rs.get_slot(handle(i)).unwrap()).collect();
    slots.sort();
    slots.dedup();
    assert_eq!(slots.len(), 5);
}

#[test]
fn write_slot_updates_soa_in_place() {
    let mut rs = RenderState::new();
    let slot = rs.assign_slot(handle(0));
    let mut d = no_data();
    d.position = Some(bits3([5.0, 10.0, 0.0]));
    d.radius = Some(2.0f32.to_bits());
    d.tex_index = Some(7);
    d.mesh = Some(3);
    d.primitive = Some(1);
    d.external_id = Some(42);
    rs.write_slot(slot, &d);

    let s = slot as usize;
    assert_eq!(f32::from_bits(rs.gpu_bounds()[s * 4]), 5.0);
    assert_eq!(f32::from_bits(rs.gpu_bounds()[s * 4 + 1]), 10.0);
    assert_eq!(f32::from_bits(rs.gpu_bounds()[s * 4 + 3]), 2.0);
    assert_eq!(rs.gpu_render_meta(), &[3, 1]);
    assert_eq!(rs.gpu_tex_indices(), &[7]);
    assert_eq!(rs.gpu_entity_ids()[s], 42);
}

fn root_head() -> StagingHead {
    StagingHead { parent: Some(NO_PARENT), position: None, angle: 0, scale: None }
}

#[test]
fn collect_dirty_staging_writes_only_dirty_slots() {
    let mut rs = RenderState::new();
    rs.assign_slot(handle(0));
    rs.assign_slot(handle(1));
    rs.clear_dirty();
    rs.mark_transform_dirty(0);
    rs.mark_bounds_dirty(0);

    let dirty = rs.dirty_slots();
    assert_eq!(dirty, vec![0]);
    let result = rs.collect_dirty_staging(&[root_head()]);
    assert_eq!(result.dirty_count, 1);
    assert_eq!(result.dirty_indices[0], 0);
    assert_eq!(result.staging.len(), 32);
    assert!(rs.dirty_slots().is_empty());
}

#[test]
fn collect_dirty_staging_compressed_root() {
    let mut rs = RenderState::new();
    rs.assign_slot(handle(0));
    rs.clear_dirty();
    rs.mark_transform_dirty(0);
    rs.mark_bounds_dirty(0);
    let angle = std::f32::consts::FRAC_PI_4;
    let head = StagingHead {
        parent: Some(NO_PARENT),
        position: Some(bits3([10.0, 20.0, 0.0])),
        angle: angle.to_bits(),
        scale: Some(bits3([2.0, 3.0, 1.0])),
    };
    let result = rs.collect_dirty_staging(&[head]);
    assert_eq!(result.dirty_count, 1);
    assert_eq!(result.staging[31], 0);
    assert_eq!(f32::from_bits(result.staging[0]), 10.0);
    assert_eq!(f32::from_bits(result.staging[1]), 20.0);
    assert_eq!(f32::from_bits(result.staging[2]), 0.0);
    let got = f32::from_bits(result.staging[3]);
    assert!((got - std::f32::consts::FRAC_PI_4).abs() < 0.001, "expected ~PI/4, got {got}");
    assert_eq!(f32::from_bits(result.staging[4]), 2.0);
    assert_eq!(f32::from_bits(result.staging[5]), 3.0);
    for i in 6..16 {
        assert_eq!(result.staging[i], 0, "padding at index {i} should be 0");
    }
}

#[test]
fn compressed_root_defaults_without_components() {
    let mut rs = RenderState::new();
    rs.assign_slot(handle(0));
    let head = StagingHead { parent: None, position: None, angle: 0, scale: None };
    let result = rs.collect_dirty_staging(&[head]);
    assert_eq!(&result.staging[0..6], &[0, 0, 0, 0, ONE_BITS, ONE_BITS]);
    assert_eq!(result.staging[31], 0);
}

#[test]
fn collect_dirty_staging_precomputed_child() {
    let mut rs = RenderState::new();
    rs.assign_slot(handle(0));
    rs.assign_slot(handle(1));
    let mut m = [0u32; 16];
    for i in [0usize, 5, 10, 15] {
        m[i] = 1.0f32.to_bits();
    }
    m[12] = 5.0f32.to_bits();
    let mut d = no_data();
    d.transform = Some(m);
    rs.write_slot(1, &d);
    rs.clear_dirty();
    rs.mark_transform_dirty(1);

    let head = StagingHead { parent: Some(0), position: None, angle: 0, scale: None };
    let result = rs.collect_dirty_staging(&[head]);
    assert_eq!(result.dirty_count, 1);
    assert_eq!(result.staging[31], 1);
    assert_eq!(f32::from_bits(result.staging[12]), 5.0);
}

#[test]
fn staging_packet_layout_after_the_head() {
    let mut rs = RenderState::new();
    rs.assign_slot(handle(0));
    let mut d = no_data();
    d.position = Some([11, 12, 13]);
    d.radius = Some(14);
    d.mesh = Some(21);
    d.primitive = Some(22);
    d.tex_index = Some(23);
    d.params = Some([31, 32, 33, 34, 35, 36, 37, 38]);
    rs.write_slot(0, &d);
    rs.collect_and_cache_dirty(&[root_head()]);
    let p = rs.staging();
    assert_eq!(p.len(), 32);
    assert_eq!(&p[16..31], &[11, 12, 13, 14, 21, 22, 23, 31, 32, 33, 34, 35, 36, 37, 38]);
    assert_eq!(rs.staging_indices(), &[0]);
    assert_eq!(rs.dirty_count(), 1);
    assert_eq!(rs.staging_u32_len(), 32);
    assert_eq!(rs.staging_indices_len(), 1);
}

#[test]
fn every_dirty_bit_is_clear_after_staging() {
    let mut rs = RenderState::new();
    for i in 0..5 {
        rs.assign_slot(handle(i));
    }
    let n = rs.dirty_slots().len();
    let heads = vec![root_head(); n];
    rs.collect_dirty_staging(&heads);
    let t = rs.dirty_tracker();
    for s in 0..5 {
        assert!(!t.is_transform_dirty(s) && !t.is_bounds_dirty(s) && !t.is_meta_dirty(s));
    }
}

#[test]
fn render_state_shrink_to_fit() {
    let mut rs = RenderState::new();
    for i in 0..1000 {
        rs.assign_slot(handle(i));
    }
    for i in 16..1000 {
        rs.queue_despawn(handle(i));
    }
    rs.flush_pending_despawns();
    rs.shrink_to_fit();
    assert_eq!(rs.gpu_entity_count(), 16);
    assert_eq!(rs.gpu_transforms().len(), 16 * 16);
}

#[test]
fn commands_on_nonexistent_entity_are_ignored() {
    let mut map = EntityMap::new();
    let mut rs = RenderState::new();
    register_spawn(0, handle(0), &no_data(), &mut map, &mut rs);
    rs.clear_dirty();
    for t in [
        CommandType::DespawnEntity,
        CommandType::SetPosition,
        CommandType::SetParent,
        CommandType::SetMeshHandle,
    ] {
        assert_eq!(apply_bookkeeping(&cmd(t, 99), &mut map, &mut rs), None);
    }
    assert_eq!(rs.gpu_entity_count(), 1);
    assert!(rs.dirty_slots().is_empty());
    assert_eq!(map.get(0), Some(handle(0)));
}

#[test]
fn set_commands_mark_the_slot_dirty() {
    let mut map = EntityMap::new();
    let mut rs = RenderState::new();
    register_spawn(4, handle(0), &no_data(), &mut map, &mut rs);
    rs.clear_dirty();
    assert_eq!(apply_bookkeeping(&cmd(CommandType::SetPosition, 4), &mut map, &mut rs), Some(handle(0)));
    assert!(rs.dirty_tracker().is_transform_dirty(0));
    assert!(rs.dirty_tracker().is_bounds_dirty(0));
    assert!(!rs.dirty_tracker().is_meta_dirty(0));
    rs.clear_dirty();
    apply_bookkeeping(&cmd(CommandType::SetVelocity, 4), &mut map, &mut rs);
    assert!(rs.dirty_slots().is_empty());
    apply_bookkeeping(&cmd(CommandType::SetPrimParams1, 4), &mut map, &mut rs);
    assert!(rs.dirty_tracker().is_meta_dirty(0));
    rs.clear_dirty();
    apply_bookkeeping(&cmd(CommandType::SetParent, 4), &mut map, &mut rs);
    assert!(rs.dirty_tracker().is_transform_dirty(0));
    assert!(!rs.dirty_tracker().is_bounds_dirty(0));
}

#[test]
fn despawn_removes_entity() {
    let mut map = EntityMap::new();
    let mut rs = RenderState::new();
    let id = map.allocate();
    register_spawn(id, handle(0), &no_data(), &mut map, &mut rs);
    assert_eq!(apply_bookkeeping(&cmd(CommandType::DespawnEntity, id), &mut map, &mut rs), Some(handle(0)));
    assert_eq!(map.get(id), None);
    rs.flush_pending_despawns();
    assert_eq!(rs.gpu_entity_count(), 0);
    assert_eq!(map.allocate(), id);
}

#[test]
fn spawn_sets_external_id() {
    let mut map = EntityMap::new();
    let mut rs = RenderState::new();
    let mut d = no_data();
    d.external_id = Some(42);
    let slot = register_spawn(42, handle(0), &d, &mut map, &mut rs);
    assert_eq!(map.get(42), Some(handle(0)));
    assert_eq!(rs.gpu_entity_ids()[slot as usize], 42);
}

#[test]
fn batch_spawn_detection() {
    let cmds = vec![
        cmd(CommandType::SpawnEntity, 0),
        cmd(CommandType::SpawnEntity, 1),
        cmd(CommandType::SpawnEntity, 2),
    ];
    assert_eq!(spawn_run_end(&cmds, 0), 3);
}

#[test]
fn batch_spawn_interrupted_by_other_command() {
    let cmds = vec![
        cmd(CommandType::SpawnEntity, 0),
        cmd(CommandType::SpawnEntity, 1),
        cmd(CommandType::SetPosition, 0),
        cmd(CommandType::SpawnEntity, 2),
    ];
    assert_eq!(spawn_run_end(&cmds, 0), 2);
    assert_eq!(spawn_run_end(&cmds, 2), 2);
    assert_eq!(spawn_run_end(&cmds, 3), 4);
}

#[test]
fn flush_keeps_low_survivors_and_marks_filled_slots() {
    let mut rs = RenderState::new();
    for i in 0..6 {
        rs.assign_slot(handle(i));
    }
    rs.clear_dirty();
    rs.queue_despawn(handle(1));
    rs.queue_despawn(handle(4));
    rs.flush_pending_despawns();
    assert_eq!(rs.gpu_entity_count(), 4);
    assert_eq!(rs.get_slot(handle(0)), Some(0));
    assert_eq!(rs.get_slot(handle(2)), Some(2));
    assert_eq!(rs.get_slot(handle(3)), Some(3));
    assert_eq!(rs.get_slot(handle(5)), Some(1));
    assert_eq!(rs.dirty_slots(), vec![1]);
    let t = rs.dirty_tracker();
    assert!(t.is_transform_dirty(1) && t.is_bounds_dirty(1) && t.is_meta_dirty(1));
}

#[test]
fn set_parent_links_names_old_and_new_parent() {
    let mut map = EntityMap::new();
    map.insert(0, handle(10));
    map.insert(1, handle(11));
    let mut p = Some(Parent(0));
    assert_eq!(set_parent_links(&mut p, 1, &map), (Some(handle(10)), Some(handle(11))));
    assert_eq!(p, Some(Parent(1)));
    let mut p = Some(Parent(NO_PARENT));
    assert_eq!(set_parent_links(&mut p, 7, &map), (None, None));
    assert_eq!(p, Some(Parent(7)));
    let mut p = Some(Parent(1));
    assert_eq!(set_parent_links(&mut p, NO_PARENT, &map), (Some(handle(11)), None));
    assert_eq!(p, Some(Parent(NO_PARENT)));
    let mut p: Option<Parent> = None;
    assert_eq!(set_parent_links(&mut p, 1, &map), (None, Some(handle(11))));
    assert_eq!(p, None);
}

#[test]
fn despawn_frees_the_id_only_when_handed_out() {
    let mut map = EntityMap::new();
    let mut rs = RenderState::new();
    register_spawn(9, handle(0), &no_data(), &mut map, &mut rs);
    apply_bookkeeping(&cmd(CommandType::DespawnEntity, 9), &mut map, &mut rs);
    assert_eq!(map.allocate(), 0);
}
