use vstd::prelude::*;
use crate::command::{Command, CommandType};
use crate::components::{Parent, NO_PARENT};
use crate::entity_map::{EntityHandle, EntityMap};
use crate::render_state::{patched, zero_record, RenderState, SlotData};

verus! {

/// The dirty sets a command marks for its entity's slot: transform,
/// bounds, metadata.
pub open spec fn marks(t: CommandType) -> (bool, bool, bool) {
    match t {
        CommandType::SetPosition | CommandType::SetRotation | CommandType::SetScale => (
            true,
            true,
            false,
        ),
        CommandType::SetTextureLayer | CommandType::SetMeshHandle
        | CommandType::SetRenderPrimitive | CommandType::SetPrimParams0
        | CommandType::SetPrimParams1 => (false, false, true),
        CommandType::SetParent => (true, false, false),
        _ => (false, false, false),
    }
}

/// Applies to the entity map and the render stage what a command other than
/// a spawn does there, and returns the entity whose components the command
/// goes on to change in the store. A command whose external id maps to no
/// entity changes nothing and returns `None`.
pub fn apply_bookkeeping(cmd: &Command, map: &mut EntityMap, rs: &mut RenderState) -> (r: Option<
    EntityHandle,
>)
    requires
        old(map).wf(),
        old(rs).wf(),
    ensures
        final(map).wf(),
        final(rs).wf(),
        old(map).lookup(cmd.entity_id as int) is None || cmd.cmd_type == CommandType::SpawnEntity
            ==> {
            &&& r is None
            &&& *final(map) == *old(map)
            &&& *final(rs) == *old(rs)
        },
        cmd.cmd_type != CommandType::SpawnEntity ==> r == old(map).lookup(cmd.entity_id as int),
        cmd.cmd_type == CommandType::DespawnEntity && r is Some ==> {
            &&& final(rs).pending() == old(rs).pending().push(r.unwrap())
            &&& final(rs).count() == old(rs).count()
            &&& final(rs).tracker() == old(rs).tracker()
            &&& forall|id: int| #[trigger] final(rs).slot_of(id) == old(rs).slot_of(id)
            &&& forall|s: int|
                0 <= s < old(rs).count() ==> #[trigger] final(rs).record(s) == old(rs).record(s)
                    && final(rs).entity_at(s) == old(rs).entity_at(s)
            &&& forall|id: int| #[trigger] final(map).lookup(id) == if id == cmd.entity_id {
                None
            } else {
                old(map).lookup(id)
            }
            &&& final(map).slots().len() == old(map).slots().len()
            &&& final(map).free() == if cmd.entity_id < old(map).next() {
                old(map).free().push(cmd.entity_id)
            } else {
                old(map).free()
            }
            &&& final(map).next() == old(map).next()
        },
        cmd.cmd_type != CommandType::DespawnEntity && cmd.cmd_type != CommandType::SpawnEntity
            && r is Some ==> {
            let slot = old(rs).slot_of(r.unwrap().id as int);
            let (t, b, m) = marks(cmd.cmd_type);
            &&& *final(map) == *old(map)
            &&& final(rs).unchanged_but_tracker(*old(rs))
            &&& final(rs).tracker().transform() == if t && slot is Some {
                old(rs).tracker().transform().insert(slot.unwrap() as int)
            } else {
                old(rs).tracker().transform()
            }
            &&& final(rs).tracker().bounds() == if b && slot is Some {
                old(rs).tracker().bounds().insert(slot.unwrap() as int)
            } else {
                old(rs).tracker().bounds()
            }
            &&& final(rs).tracker().meta() == if m && slot is Some {
                old(rs).tracker().meta().insert(slot.unwrap() as int)
            } else {
                old(rs).tracker().meta()
            }
        },
{
    if cmd.cmd_type == CommandType::SpawnEntity {
        return None;
    }
    let entity = match map.get(cmd.entity_id) {
        Some(e) => e,
        None => {
            return None;
        },
    };
    if cmd.cmd_type == CommandType::DespawnEntity {
        rs.queue_despawn(entity);
        map.remove(cmd.entity_id);
        proof {
            assert forall|s: int| 0 <= s < old(rs).count() implies #[trigger] rs.record(s)
                == old(rs).record(s) && rs.entity_at(s) == old(rs).entity_at(s) by {
                assert(rs.entity_at(s) == old(rs).entity_at(s));
            }
        }
        return Some(entity);
    }
    let (t, b, m) = match cmd.cmd_type {
        CommandType::SetPosition | CommandType::SetRotation | CommandType::SetScale => (
            true,
            true,
            false,
        ),
        CommandType::SetTextureLayer | CommandType::SetMeshHandle
        | CommandType::SetRenderPrimitive | CommandType::SetPrimParams0
        | CommandType::SetPrimParams1 => (false, false, true),
        CommandType::SetParent => (true, false, false),
        _ => (false, false, false),
    };
    if let Some(slot) = rs.get_slot(entity) {
        proof {
            rs.lemma_slots_below_count(entity.id as int);
        }
        let ghost r0 = *rs;
        if t {
            rs.mark_transform_dirty(slot);
        }
        let ghost r1 = *rs;
        if b {
            rs.mark_bounds_dirty(slot);
        }
        let ghost r2 = *rs;
        if m {
            rs.mark_meta_dirty(slot);
        }
        proof {
            assert forall|id: int| #[trigger] rs.slot_of(id) == r0.slot_of(id) by {
                assert(r1.slot_of(id) == r0.slot_of(id));
                assert(r2.slot_of(id) == r1.slot_of(id));
            }
            assert forall|s: int| 0 <= s < rs.count() implies #[trigger] rs.entity_at(s)
                == r0.entity_at(s) by {
                assert(r1.entity_at(s) == r0.entity_at(s));
                assert(r2.entity_at(s) == r1.entity_at(s));
            }
        }
    }
    Some(entity)
}

/// Registers a spawned entity: maps `external_id` to it, gives it the next
/// slot and writes its render data there. Returns the slot.
pub fn register_spawn(
    external_id: u32,
    entity: EntityHandle,
    data: &SlotData,
    map: &mut EntityMap,
    rs: &mut RenderState,
) -> (r: u32)
    requires
        old(rs).wf(),
        old(rs).slot_of(entity.id as int) is None,
        old(rs).count() + 1 < u32::MAX,
        16 * (old(rs).count() + 1) <= usize::MAX,
        (entity.id as int) < usize::MAX,
        (external_id as int) < usize::MAX,
    ensures
        final(rs).wf(),
        forall|id: int| #[trigger] final(map).lookup(id) == if id == external_id {
            Some(entity)
        } else {
            old(map).lookup(id)
        },
        final(map).free() == old(map).free(),
        final(map).next() == old(map).next(),
        r == old(rs).count(),
        final(rs).count() == old(rs).count() + 1,
        final(rs).slot_of(entity.id as int) == Some(r as nat),
        final(rs).entity_at(r as int) == entity,
        forall|id: int|
            id != entity.id ==> #[trigger] final(rs).slot_of(id) == old(rs).slot_of(id),
        final(rs).tracker().any() == old(rs).tracker().any().insert(r as int),
        final(rs).tracker().transform() == old(rs).tracker().transform().insert(r as int),
        final(rs).tracker().bounds() == old(rs).tracker().bounds().insert(r as int),
        final(rs).tracker().meta() == old(rs).tracker().meta().insert(r as int),
        final(rs).pending() == old(rs).pending(),
        final(rs).record(r as int) == patched(zero_record(), *data),
        forall|s: int|
            0 <= s < old(rs).count() ==> #[trigger] final(rs).entity_at(s) == old(rs).entity_at(s)
                && final(rs).record(s) == old(rs).record(s),
{
    map.insert(external_id, entity);
    let slot = rs.assign_slot(entity);
    let ghost r1 = *rs;
    rs.write_slot(slot, data);
    proof {
        assert(rs.tracker().any() =~= old(rs).tracker().any().insert(slot as int));
        assert forall|id: int| id != entity.id implies #[trigger] rs.slot_of(id) == old(rs).slot_of(id) by {
            assert(r1.slot_of(id) == old(rs).slot_of(id));
        }
        assert(r1.slot_of(entity.id as int) == Some(slot as nat));
        assert(r1.entity_at(slot as int) == entity);
        assert forall|s: int| 0 <= s < old(rs).count() implies #[trigger] rs.entity_at(s)
            == old(rs).entity_at(s) && rs.record(s) == old(rs).record(s) by {
            assert(r1.entity_at(s) == old(rs).entity_at(s));
            assert(rs.entity_at(s) == r1.entity_at(s));
            assert(rs.record(s) == r1.record(s));
        }
    }
    slot
}

/// The decisions of a SetParent command for a child whose `Parent`
/// component is `child_parent` (`None` where the child has none): the
/// child's parent becomes `new_parent_id`, and the result names the entity
/// whose child lists lose the child (the old parent, if it had one and it
/// is mapped) and the entity whose lists gain it (the new parent, unless
/// the id is `NO_PARENT` or unmapped). The lists are changed with
/// `detach_child` and then `attach_child`.
pub fn set_parent_links(child_parent: &mut Option<Parent>, new_parent_id: u32, map: &EntityMap) -> (r: (
    Option<EntityHandle>,
    Option<EntityHandle>,
))
    ensures
        r.0 == (match *old(child_parent) {
            Some(p) => if p.0 != NO_PARENT {
                map.lookup(p.0 as int)
            } else {
                None
            },
            None => None,
        }),
        r.1 == if new_parent_id != NO_PARENT {
            map.lookup(new_parent_id as int)
        } else {
            None
        },
        *final(child_parent) == (match *old(child_parent) {
            Some(_) => Some(Parent(new_parent_id)),
            None => None,
        }),
{
    let detach_from = match *child_parent {
        Some(p) => {
            if p.0 != NO_PARENT {
                map.get(p.0)
            } else {
                None
            }
        },
        None => None,
    };
    if child_parent.is_some() {
        *child_parent = Some(Parent(new_parent_id));
    }
    let attach_to = if new_parent_id != NO_PARENT {
        map.get(new_parent_id)
    } else {
        None
    };
    (detach_from, attach_to)
}

/// The end of the run of spawn commands that starts at `start`: commands
/// `start..r` are spawns, and command `r`, if any, is not.
pub fn spawn_run_end(cmds: &[Command], start: usize) -> (r: usize)
    requires
        start <= cmds@.len(),
    ensures
        start <= r <= cmds@.len(),
        forall|k: int| start <= k < r ==> (#[trigger] cmds@[k]).cmd_type == CommandType::SpawnEntity,
        r < cmds@.len() ==> cmds@[r as int].cmd_type != CommandType::SpawnEntity,
{
    let mut i = start;
    while i < cmds.len() && cmds[i].cmd_type == CommandType::SpawnEntity
        invariant
            start <= i <= cmds@.len(),
            forall|k: int| start <= k < i ==> (#[trigger] cmds@[k]).cmd_type == CommandType::SpawnEntity,
        decreases cmds@.len() - i,
    {
        i = i + 1;
    }
    i
}

} // verus!
