//! Deterministic simulation core of a scene engine: a byte-oriented command
//! stream and its ring consumer, an external-id map, parent/child lists with
//! overflow, dirty tracking, and a retained-slot render stage whose buffers
//! a renderer uploads whole or in part.

pub mod command;
pub mod components;
pub mod dirty;
pub mod dispatch;
pub mod entity_map;
pub mod hierarchy;
pub mod render_state;
pub mod ring;
pub mod snapshot;

pub use command::{
    decode_prefix, encode_command, encode_commands, parse_commands, read_u32_le, Command,
    CommandType,
};
pub use components::{
    attach_child, detach_child, Active, Children, ExternalId, MeshHandle, OverflowChildren,
    Parent, RenderPrimitive, TextureLayerIndex, NO_PARENT,
};
pub use dirty::{BitSet, DirtyTracker};
pub use dispatch::{apply_bookkeeping, register_spawn, set_parent_links, spawn_run_end};
pub use entity_map::{EntityHandle, EntityMap};
pub use hierarchy::hierarchy_depths;
pub use render_state::{
    DirtyStagingResult, RenderState, SlotData, StagingHead, NO_SLOT, ONE_BITS,
};
pub use ring::{RingBufferConsumer, HEADER_SIZE};
pub use snapshot::{
    decode_snapshot, encode_snapshot, fixed_components_size, write_tlv, Snapshot,
    SnapshotEntity, CHILDREN_BIT, SNAPSHOT_VERSION,
};
