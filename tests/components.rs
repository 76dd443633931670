use hyperion_core::{
    attach_child, detach_child, Children, MeshHandle, OverflowChildren, Parent, RenderPrimitive,
    TextureLayerIndex, NO_PARENT,
};

#[test]
fn default_texture_layer_index_is_zero() {
    let t = TextureLayerIndex::default();
    assert_eq!(t.0, 0);
}

#[test]
fn texture_layer_index_pack_unpack() {
    let tier: u32 = 3;
    let layer: u32 = 42;
    let packed = (tier << 16) | layer;
    let t = TextureLayerIndex(packed);
    assert_eq!(t.0 >> 16, 3);
    assert_eq!(t.0 & 0xFFFF, 42);
}

#[test]
fn mesh_handle_default_is_unit_quad() {
    let mh = MeshHandle::default();
    assert_eq!(mh.0, 0, "MeshHandle 0 = unit quad");
}

#[test]
fn render_primitive_default_is_quad() {
    let rp = RenderPrimitive::default();
    assert_eq!(rp.0, 0, "RenderPrimitive 0 = Quad");
}

#[test]
fn parent_default_is_none_sentinel() {
    let p = Parent::default();
    assert_eq!(p.0, u32::MAX);
    assert_eq!(NO_PARENT, u32::MAX);
}

#[test]
fn children_default_is_empty() {
    let c = Children::default();
    assert_eq!(c.count, 0);
}

#[test]
fn children_add_and_get() {
    let mut c = Children::default();
    c.add(5);
    c.add(10);
    assert_eq!(c.count, 2);
    assert_eq!(c.get(0), Some(5));
    assert_eq!(c.get(1), Some(10));
    assert_eq!(c.get(2), None);
}

#[test]
fn children_remove() {
    let mut c = Children::default();
    c.add(1);
    c.add(2);
    c.add(3);
    c.remove(2);
    assert_eq!(c.count, 2);
    assert_eq!(c.get(0), Some(1));
    assert_eq!(c.get(1), Some(3));
}

#[test]
fn children_max_capacity() {
    let mut c = Children::default();
    for i in 0..Children::MAX_CHILDREN as u32 {
        assert!(c.add(i));
    }
    assert!(!c.add(999));
}

#[test]
fn children_remove_returns_true_when_found() {
    let mut c = Children::default();
    c.add(1);
    c.add(2);
    assert!(c.remove(2));
    assert_eq!(c.count, 1);
}

#[test]
fn children_remove_returns_false_when_not_found() {
    let mut c = Children::default();
    c.add(1);
    assert!(!c.remove(999));
    assert_eq!(c.count, 1);
}

#[test]
fn children_remove_moves_last_into_the_gap() {
    let mut c = Children::default();
    for id in [4, 5, 6, 7] {
        c.add(id);
    }
    assert!(c.remove(5));
    assert_eq!(c.as_slice(), &[4, 7, 6]);
}

#[test]
fn thirty_two_children_fit_inline() {
    let mut c = Children::default();
    let mut o: Option<OverflowChildren> = None;
    for id in 0..32u32 {
        attach_child(&mut c, &mut o, id);
    }
    assert_eq!(c.count, 32);
    assert!(o.is_none());
}

#[test]
fn thirty_third_child_overflows_and_unparenting_it_drops_the_list() {
    let mut c = Children::default();
    let mut o: Option<OverflowChildren> = None;
    for id in 0..33u32 {
        attach_child(&mut c, &mut o, id);
    }
    assert_eq!(c.count, 32);
    assert_eq!(o.as_ref().map(|x| x.items.clone()), Some(vec![32]));
    detach_child(&mut c, &mut o, 32);
    assert_eq!(c.count, 32);
    assert!(o.is_none());
}

#[test]
fn detach_prefers_the_inline_list() {
    let mut c = Children::default();
    let mut o: Option<OverflowChildren> = None;
    for id in 0..34u32 {
        attach_child(&mut c, &mut o, id);
    }
    detach_child(&mut c, &mut o, 3);
    assert_eq!(c.count, 31);
    assert_eq!(c.get(3), Some(31));
    assert_eq!(o.as_ref().map(|x| x.items.clone()), Some(vec![32, 33]));
}

#[test]
fn detach_of_an_unknown_child_changes_nothing() {
    let mut c = Children::default();
    let mut o: Option<OverflowChildren> = None;
    attach_child(&mut c, &mut o, 1);
    detach_child(&mut c, &mut o, 9);
    assert_eq!(c.as_slice(), &[1]);
    assert!(o.is_none());
}

#[test]
fn reparenting_to_the_same_parent_keeps_the_members() {
    let mut c = Children::default();
    let mut o: Option<OverflowChildren> = None;
    for id in 0..40u32 {
        attach_child(&mut c, &mut o, id);
    }
    let mut before: Vec<u32> = c.as_slice().to_vec();
    before.extend(o.as_ref().unwrap().items.iter().copied());
    before.sort();
    for child in [5u32, 35] {
        detach_child(&mut c, &mut o, child);
        attach_child(&mut c, &mut o, child);
    }
    let mut after: Vec<u32> = c.as_slice().to_vec();
    after.extend(o.as_ref().unwrap().items.iter().copied());
    after.sort();
    assert_eq!(before, after);
}
