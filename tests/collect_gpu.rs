use hyperion_core::{hierarchy_depths, EntityHandle, RenderState, SlotData};

fn handle(id: u32) -> EntityHandle {
    EntityHandle { id, generation: 1 }
}

fn identity_at(x: f32, y: f32, z: f32) -> [u32; 16] {
    let mut m = [0.0f32; 16];
    m[0] = 1.0;
    m[5] = 1.0;
    m[10] = 1.0;
    m[15] = 1.0;
    m[12] = x;
    m[13] = y;
    m[14] = z;
    m.map(f32::to_bits)
}

fn row(id: u32, pos: [f32; 3], radius: f32, tex: u32, mesh: u32, prim: u8, ext: u32) -> (EntityHandle, SlotData) {
    (
        handle(id),
        SlotData {
            transform: Some(identity_at(pos[0], pos[1], pos[2])),
            position: Some(pos.map(f32::to_bits)),
            radius: Some(radius.to_bits()),
            mesh: Some(mesh),
            primitive: Some(prim),
            tex_index: Some(tex),
            params: Some([0.0f32, 1.0, 2.0, 3.0, 4.0, 5.0, 6.0, 7.0].map(f32::to_bits)),
            external_id: Some(ext),
        },
    )
}

fn floats(v: &[u32]) -> Vec<f32> {
    v.iter().map(|b| f32::from_bits(*b)).collect()
}

#[test]
fn collect_gpu_produces_entity_gpu_data() {
    let mut rs = RenderState::new();
    rs.collect_gpu(&[row(0, [1.0, 2.0, 3.0], 0.5, 0, 0, 0, 0)]);
    assert_eq!(rs.gpu_entity_count(), 1);
    let t = floats(rs.gpu_transforms());
    assert_eq!(t.len(), 16);
    assert_eq!((t[12], t[13], t[14]), (1.0, 2.0, 3.0));
    assert_eq!(floats(rs.gpu_bounds()), vec![1.0, 2.0, 3.0, 0.5]);
    assert_eq!(rs.gpu_render_meta(), &[0, 0]);
    assert_eq!(rs.gpu_tex_indices(), &[0]);
}

#[test]
fn collect_gpu_multiple_entities() {
    let mut rs = RenderState::new();
    rs.collect_gpu(&[row(0, [1.0, 0.0, 0.0], 1.0, 0, 0, 0, 10), row(1, [2.0, 0.0, 0.0], 1.0, 0, 0, 0, 20)]);
    assert_eq!(rs.gpu_entity_count(), 2);
    assert_eq!(rs.gpu_transforms().len(), 32);
    assert_eq!(rs.gpu_bounds().len(), 8);
    assert_eq!(rs.get_slot(handle(1)), Some(1));
    assert_eq!(rs.gpu_entity_ids(), &[10, 20]);
}

#[test]
fn soa_render_meta_packs_mesh_and_primitive() {
    let mut rs = RenderState::new();
    rs.collect_gpu(&[row(0, [0.0; 3], 1.0, (2 << 16) | 10, 3, 2, 0)]);
    assert_eq!(rs.gpu_render_meta(), &[3, 2]);
    assert_eq!(rs.gpu_tex_indices(), &[(2 << 16) | 10]);
    assert_eq!(floats(rs.gpu_prim_params()), vec![0.0, 1.0, 2.0, 3.0, 4.0, 5.0, 6.0, 7.0]);
}

#[test]
fn gpu_tex_indices_empty_when_no_entities() {
    let mut rs = RenderState::new();
    rs.assign_slot(handle(5));
    rs.queue_despawn(handle(5));
    rs.collect_gpu(&[]);
    assert_eq!(rs.gpu_entity_count(), 0);
    assert!(rs.gpu_tex_indices().is_empty());
    assert_eq!(rs.get_slot(handle(5)), None);
    rs.flush_pending_despawns();
    assert_eq!(rs.gpu_entity_count(), 0);
}

#[test]
fn collect_gpu_leaves_nothing_dirty() {
    let mut rs = RenderState::new();
    rs.collect_gpu(&[row(3, [0.0; 3], 1.0, 0, 0, 0, 0), row(4, [0.0; 3], 1.0, 0, 0, 0, 1)]);
    assert!(rs.dirty_slots().is_empty());
}

#[test]
fn hierarchy_depths_order_parents_first() {
    // 0 is a root, 1 and 2 hang below it, 3 below 2; 4 and 5 form a cycle
    // and 6 hangs below the cycle.
    let parents = [None, Some(0), Some(0), Some(2), Some(5), Some(4), Some(4)];
    let d = hierarchy_depths(&parents);
    assert_eq!(d, vec![Some(0), Some(1), Some(1), Some(2), None, None, None]);
}

#[test]
fn hierarchy_depths_of_a_self_parent_is_none() {
    assert_eq!(hierarchy_depths(&[Some(0), None]), vec![None, Some(0)]);
    assert!(hierarchy_depths(&[]).is_empty());
}
