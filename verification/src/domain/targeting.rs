use vstd::prelude::*;

use crate::domain::block::{state_torch_mount, torch_state, BlockState, TorchMount};
use crate::domain::world::VoxelLayer;

verus! {

/// A tile of the playable layer: a column relative to the origin chunk and a row.
#[derive(Debug, Clone, Copy, PartialEq, Eq, Structural)]
pub struct TilePos {
    pub x: i32,
    pub y: i32,
}

/// The block under the cursor and the free cell beside the face that was hit.
#[derive(Debug, Clone, Copy, PartialEq, Eq, Structural)]
pub struct BlockTarget {
    pub block: Option<TilePos>,
    pub adjacent: Option<TilePos>,
}

impl Default for BlockTarget {
    fn default() -> (result: BlockTarget)
        ensures
            result == (BlockTarget { block: None, adjacent: None }),
    {
        BlockTarget { block: None, adjacent: None }
    }
}

/// The mount of a torch placed at `offset` from the block that carries it: on top of it, or
/// against its left or right face.
pub open spec fn mount_for_offset(x: int, y: int) -> Option<TorchMount> {
    if x == 0 && y == 1 {
        Some(TorchMount::Floor)
    } else if x == -1 && y == 0 {
        Some(TorchMount::WallLeft)
    } else if x == 1 && y == 0 {
        Some(TorchMount::WallRight)
    } else {
        None
    }
}

/// What placing `selected` against `target` puts down: an ordinary block as selected; a torch
/// mounted after the face it is placed on, or nothing where no face carries it.
pub open spec fn placed_state(selected: BlockState, target: BlockTarget) -> Option<BlockState> {
    if state_torch_mount(selected) is None {
        Some(selected)
    } else if target.block is Some && target.adjacent is Some {
        let support = target.block->0;
        let adjacent = target.adjacent->0;
        match mount_for_offset(adjacent.x - support.x, adjacent.y - support.y) {
            Some(mount) => Some(torch_state(mount)),
            None => None,
        }
    } else {
        None
    }
}

/// Whether the offset from the carrying block to the free cell fits in an `i32`.
pub open spec fn offset_in_range(target: BlockTarget) -> bool {
    target.block is Some && target.adjacent is Some ==> {
        let support = target.block->0;
        let adjacent = target.adjacent->0;
        &&& i32::MIN <= adjacent.x - support.x <= i32::MAX
        &&& i32::MIN <= adjacent.y - support.y <= i32::MAX
    }
}

/// The state to place for the selected hotbar item against the targeted face.
pub fn placement_state(selected: BlockState, target: BlockTarget) -> (result: Option<BlockState>)
    requires
        offset_in_range(target),
    ensures
        result == placed_state(selected, target),
{
    if selected.torch_mount().is_none() {
        return Some(selected);
    }
    match (target.block, target.adjacent) {
        (Some(support), Some(adjacent)) => {
            match TorchMount::from_placement_offset(adjacent.x - support.x, adjacent.y - support.y) {
                Some(mount) => Some(BlockState::torch(mount)),
                None => None,
            }
        },
        _ => None,
    }
}

/// The other of the two layers that blocks are placed in and broken from.
pub open spec fn other_layer(layer: VoxelLayer) -> VoxelLayer {
    match layer {
        VoxelLayer::Foreground => VoxelLayer::Backwall,
        VoxelLayer::Backwall => VoxelLayer::Foreground,
    }
}

/// The layer that the layer key switches to.
pub fn toggled_layer(layer: VoxelLayer) -> (result: VoxelLayer)
    ensures
        result == other_layer(layer),
        result != layer,
{
    match layer {
        VoxelLayer::Foreground => VoxelLayer::Backwall,
        VoxelLayer::Backwall => VoxelLayer::Foreground,
    }
}

/// Toggling the layer twice comes back to the layer it started from.
pub proof fn lemma_toggle_round_trips(layer: VoxelLayer)
    ensures
        other_layer(other_layer(layer)) == layer,
{
}

/// The label that shows which layer the player works in, with the key that switches it.
pub fn active_layer_label(layer: VoxelLayer) -> (result: &'static str)
    ensures
        result@ == match layer {
            VoxelLayer::Foreground => "Layer: Foreground [Tab]"@,
            VoxelLayer::Backwall => "Layer: Backwall [Tab]"@,
        },
{
    match layer {
        VoxelLayer::Foreground => "Layer: Foreground [Tab]",
        VoxelLayer::Backwall => "Layer: Backwall [Tab]",
    }
}

} // verus!
