use vstd::prelude::*;

verus! {

/// One of the placeable block kinds.
///
/// The numeric identifiers `1..=9` are the persistent ids of the kinds, in declaration order;
/// id `0` is reserved for air and is never a block.
#[allow(non_camel_case_types)]
#[derive(Debug, Clone, Copy, PartialEq, Eq, Structural, Hash, PartialOrd, Ord)]
pub enum BlockId {
    GRASS,
    DIRT,
    STONE,
    COAL_ORE,
    IRON_ORE,
    WOOD,
    LEAVES,
    TORCH,
    BEDROCK,
}

/// A placeable block kind together with its variant.
///
/// Only torches carry a variant (their mount); every other kind has variant `0`. Each valid
/// `(id, variant)` pair is exactly one variant of this enum, declared in `(id, variant)` order.
#[allow(non_camel_case_types)]
#[derive(Debug, Clone, Copy, PartialEq, Eq, Structural, Hash, PartialOrd, Ord)]
pub enum BlockState {
    GRASS,
    DIRT,
    STONE,
    COAL_ORE,
    IRON_ORE,
    WOOD,
    LEAVES,
    TORCH,
    WALL_TORCH_LEFT,
    WALL_TORCH_RIGHT,
    BEDROCK,
}

/// Where a torch rests: on the block below it, or on the block to its right or left.
#[derive(Debug, Clone, Copy, PartialEq, Eq, Structural, Hash, PartialOrd, Ord)]
pub enum TorchMount {
    Floor,
    WallLeft,
    WallRight,
}

/// The gameplay properties of a block kind that the world's rules read.
#[derive(Debug, Clone, Copy, PartialEq, Eq)]
pub struct BlockDef {
    pub solid: bool,
    pub light_opacity: u8,
    pub emitted_light: u8,
    pub hotbar_slot: Option<u8>,
}

/// The persistent identifier of a block kind.
pub open spec fn id_value(id: BlockId) -> u16 {
    match id {
        BlockId::GRASS => 1,
        BlockId::DIRT => 2,
        BlockId::STONE => 3,
        BlockId::COAL_ORE => 4,
        BlockId::IRON_ORE => 5,
        BlockId::WOOD => 6,
        BlockId::LEAVES => 7,
        BlockId::TORCH => 8,
        BlockId::BEDROCK => 9,
    }
}

/// The block kind with persistent identifier `value`, if there is one.
pub open spec fn id_from_value(value: int) -> Option<BlockId> {
    if value == 1 {
        Some(BlockId::GRASS)
    } else if value == 2 {
        Some(BlockId::DIRT)
    } else if value == 3 {
        Some(BlockId::STONE)
    } else if value == 4 {
        Some(BlockId::COAL_ORE)
    } else if value == 5 {
        Some(BlockId::IRON_ORE)
    } else if value == 6 {
        Some(BlockId::WOOD)
    } else if value == 7 {
        Some(BlockId::LEAVES)
    } else if value == 8 {
        Some(BlockId::TORCH)
    } else if value == 9 {
        Some(BlockId::BEDROCK)
    } else {
        None
    }
}

/// The properties of each block kind.
pub open spec fn id_def(id: BlockId) -> BlockDef {
    match id {
        BlockId::GRASS => BlockDef { solid: true, light_opacity: 15, emitted_light: 0, hotbar_slot: None },
        BlockId::DIRT => BlockDef { solid: true, light_opacity: 15, emitted_light: 0, hotbar_slot: Some(1) },
        BlockId::STONE => BlockDef { solid: true, light_opacity: 15, emitted_light: 0, hotbar_slot: Some(2) },
        BlockId::COAL_ORE => BlockDef { solid: true, light_opacity: 15, emitted_light: 0, hotbar_slot: Some(3) },
        BlockId::IRON_ORE => BlockDef { solid: true, light_opacity: 15, emitted_light: 0, hotbar_slot: Some(4) },
        BlockId::WOOD => BlockDef { solid: true, light_opacity: 15, emitted_light: 0, hotbar_slot: Some(5) },
        BlockId::LEAVES => BlockDef { solid: true, light_opacity: 2, emitted_light: 0, hotbar_slot: Some(6) },
        BlockId::TORCH => BlockDef { solid: false, light_opacity: 0, emitted_light: 14, hotbar_slot: Some(7) },
        BlockId::BEDROCK => BlockDef { solid: true, light_opacity: 15, emitted_light: 0, hotbar_slot: None },
    }
}

/// The kind of a block state.
pub open spec fn state_id(state: BlockState) -> BlockId {
    match state {
        BlockState::GRASS => BlockId::GRASS,
        BlockState::DIRT => BlockId::DIRT,
        BlockState::STONE => BlockId::STONE,
        BlockState::COAL_ORE => BlockId::COAL_ORE,
        BlockState::IRON_ORE => BlockId::IRON_ORE,
        BlockState::WOOD => BlockId::WOOD,
        BlockState::LEAVES => BlockId::LEAVES,
        BlockState::TORCH => BlockId::TORCH,
        BlockState::WALL_TORCH_LEFT => BlockId::TORCH,
        BlockState::WALL_TORCH_RIGHT => BlockId::TORCH,
        BlockState::BEDROCK => BlockId::BEDROCK,
    }
}

/// The variant of a block state: a torch's mount number, `0` for every other kind.
pub open spec fn state_variant(state: BlockState) -> u8 {
    match state {
        BlockState::WALL_TORCH_LEFT => 1,
        BlockState::WALL_TORCH_RIGHT => 2,
        _ => 0,
    }
}

/// The dense storage code of a block state: the kind's identifier, except that wall torches
/// take the codes `10` and `11`. Code `0` is reserved for air.
pub open spec fn state_code(state: BlockState) -> u8 {
    match state {
        BlockState::WALL_TORCH_LEFT => 10,
        BlockState::WALL_TORCH_RIGHT => 11,
        _ => id_value(state_id(state)) as u8,
    }
}

/// The block state whose dense storage code is `code`, if there is one.
pub open spec fn state_from_code(code: int) -> Option<BlockState> {
    if code == 10 {
        Some(BlockState::WALL_TORCH_LEFT)
    } else if code == 11 {
        Some(BlockState::WALL_TORCH_RIGHT)
    } else {
        match id_from_value(code) {
            Some(id) => Some(state_from_id(id)),
            None => None,
        }
    }
}

/// The variant-0 state of a block kind.
pub open spec fn state_from_id(id: BlockId) -> BlockState {
    match id {
        BlockId::GRASS => BlockState::GRASS,
        BlockId::DIRT => BlockState::DIRT,
        BlockId::STONE => BlockState::STONE,
        BlockId::COAL_ORE => BlockState::COAL_ORE,
        BlockId::IRON_ORE => BlockState::IRON_ORE,
        BlockId::WOOD => BlockState::WOOD,
        BlockId::LEAVES => BlockState::LEAVES,
        BlockId::TORCH => BlockState::TORCH,
        BlockId::BEDROCK => BlockState::BEDROCK,
    }
}

/// The state with the given kind and variant, when that pair names a valid state.
pub open spec fn state_from_parts(id: BlockId, variant: u8) -> Option<BlockState> {
    if variant == 0 {
        Some(state_from_id(id))
    } else if id == BlockId::TORCH && variant == 1 {
        Some(BlockState::WALL_TORCH_LEFT)
    } else if id == BlockId::TORCH && variant == 2 {
        Some(BlockState::WALL_TORCH_RIGHT)
    } else {
        None
    }
}

/// The mount of a torch state; `None` for every other kind.
pub open spec fn state_torch_mount(state: BlockState) -> Option<TorchMount> {
    match state {
        BlockState::TORCH => Some(TorchMount::Floor),
        BlockState::WALL_TORCH_LEFT => Some(TorchMount::WallLeft),
        BlockState::WALL_TORCH_RIGHT => Some(TorchMount::WallRight),
        _ => None,
    }
}

/// The torch state with the given mount.
pub open spec fn torch_state(mount: TorchMount) -> BlockState {
    match mount {
        TorchMount::Floor => BlockState::TORCH,
        TorchMount::WallLeft => BlockState::WALL_TORCH_LEFT,
        TorchMount::WallRight => BlockState::WALL_TORCH_RIGHT,
    }
}

/// The offset from a torch to the block that carries it.
pub open spec fn mount_support_offset(mount: TorchMount) -> (i32, i32) {
    match mount {
        TorchMount::Floor => (0i32, -1i32),
        TorchMount::WallLeft => (1i32, 0i32),
        TorchMount::WallRight => (-1i32, 0i32),
    }
}

/// The display name of a block kind.
pub open spec fn id_display_name(id: BlockId) -> Seq<char> {
    match id {
        BlockId::GRASS => "Grass"@,
        BlockId::DIRT => "Dirt"@,
        BlockId::STONE => "Stone"@,
        BlockId::COAL_ORE => "Coal ore"@,
        BlockId::IRON_ORE => "Iron ore"@,
        BlockId::WOOD => "Wood"@,
        BlockId::LEAVES => "Leaves"@,
        BlockId::TORCH => "Torch"@,
        BlockId::BEDROCK => "Bedrock"@,
    }
}

impl BlockId {
    /// Every block kind, in identifier order.
    pub const ALL: [BlockId; 9] = [
        BlockId::GRASS,
        BlockId::DIRT,
        BlockId::STONE,
        BlockId::COAL_ORE,
        BlockId::IRON_ORE,
        BlockId::WOOD,
        BlockId::LEAVES,
        BlockId::TORCH,
        BlockId::BEDROCK,
    ];

    /// The kinds offered on the hotbar, in slot order.
    pub const HOTBAR: [BlockId; 7] = [
        BlockId::DIRT,
        BlockId::STONE,
        BlockId::COAL_ORE,
        BlockId::IRON_ORE,
        BlockId::WOOD,
        BlockId::LEAVES,
        BlockId::TORCH,
    ];

    /// The kind with persistent identifier `value`; `None` outside `1..=9`.
    pub fn new(value: u16) -> (result: Option<BlockId>)
        ensures
            result == id_from_value(value as int),
            result is Some <==> 1 <= value <= 9,
    {
        match value {
            1 => Some(BlockId::GRASS),
            2 => Some(BlockId::DIRT),
            3 => Some(BlockId::STONE),
            4 => Some(BlockId::COAL_ORE),
            5 => Some(BlockId::IRON_ORE),
            6 => Some(BlockId::WOOD),
            7 => Some(BlockId::LEAVES),
            8 => Some(BlockId::TORCH),
            9 => Some(BlockId::BEDROCK),
            _ => None,
        }
    }

    /// The persistent identifier of this kind.
    pub fn value(self) -> (result: u16)
        ensures
            result == id_value(self),
            1 <= result <= 9,
    {
        match self {
            BlockId::GRASS => 1,
            BlockId::DIRT => 2,
            BlockId::STONE => 3,
            BlockId::COAL_ORE => 4,
            BlockId::IRON_ORE => 5,
            BlockId::WOOD => 6,
            BlockId::LEAVES => 7,
            BlockId::TORCH => 8,
            BlockId::BEDROCK => 9,
        }
    }

    /// The gameplay properties of this kind.
    pub fn def(self) -> (result: BlockDef)
        ensures
            result == id_def(self),
    {
        match self {
            BlockId::GRASS => BlockDef::solid(15, None),
            BlockId::DIRT => BlockDef::solid(15, Some(1)),
            BlockId::STONE => BlockDef::solid(15, Some(2)),
            BlockId::COAL_ORE => BlockDef::solid(15, Some(3)),
            BlockId::IRON_ORE => BlockDef::solid(15, Some(4)),
            BlockId::WOOD => BlockDef::solid(15, Some(5)),
            BlockId::LEAVES => BlockDef::solid(2, Some(6)),
            BlockId::TORCH => BlockDef {
                solid: false,
                light_opacity: 0,
                emitted_light: 14,
                hotbar_slot: Some(7),
            },
            BlockId::BEDROCK => BlockDef::solid(15, None),
        }
    }

    /// The name shown for this kind.
    pub fn display_name(self) -> (result: &'static str)
        ensures
            result@ == id_display_name(self),
    {
        proof {
            reveal_strlit("Grass");
            reveal_strlit("Dirt");
            reveal_strlit("Stone");
            reveal_strlit("Coal ore");
            reveal_strlit("Iron ore");
            reveal_strlit("Wood");
            reveal_strlit("Leaves");
            reveal_strlit("Torch");
            reveal_strlit("Bedrock");
        }
        match self {
            BlockId::GRASS => "Grass",
            BlockId::DIRT => "Dirt",
            BlockId::STONE => "Stone",
            BlockId::COAL_ORE => "Coal ore",
            BlockId::IRON_ORE => "Iron ore",
            BlockId::WOOD => "Wood",
            BlockId::LEAVES => "Leaves",
            BlockId::TORCH => "Torch",
            BlockId::BEDROCK => "Bedrock",
        }
    }

    /// Whether the player can break blocks of this kind: every kind but bedrock.
    pub fn breakable(self) -> (result: bool)
        ensures
            result == (self != BlockId::BEDROCK),
    {
        !matches!(self, BlockId::BEDROCK)
    }

    /// The dense storage code of this kind's variant-0 state, equal to its identifier.
    pub fn code(self) -> (result: u8)
        ensures
            result == id_value(self),
            result == state_code(state_from_id(self)),
    {
        self.value() as u8
    }

    /// The kind whose identifier is `code`.
    pub fn from_code(code: u8) -> (result: Option<BlockId>)
        ensures
            result == id_from_value(code as int),
    {
        BlockId::new(code as u16)
    }
}

impl BlockDef {
    fn solid(light_opacity: u8, hotbar_slot: Option<u8>) -> (result: BlockDef)
        ensures
            result == (BlockDef { solid: true, light_opacity, emitted_light: 0, hotbar_slot }),
    {
        BlockDef { solid: true, light_opacity, emitted_light: 0, hotbar_slot }
    }
}

impl BlockState {
    /// Every block state: the variant-0 state of each kind, then the two wall torches.
    pub const ALL: [BlockState; 11] = [
        BlockState::GRASS,
        BlockState::DIRT,
        BlockState::STONE,
        BlockState::COAL_ORE,
        BlockState::IRON_ORE,
        BlockState::WOOD,
        BlockState::LEAVES,
        BlockState::TORCH,
        BlockState::BEDROCK,
        BlockState::WALL_TORCH_LEFT,
        BlockState::WALL_TORCH_RIGHT,
    ];

    /// The states offered on the hotbar, in slot order.
    pub const HOTBAR: [BlockState; 7] = [
        BlockState::DIRT,
        BlockState::STONE,
        BlockState::COAL_ORE,
        BlockState::IRON_ORE,
        BlockState::WOOD,
        BlockState::LEAVES,
        BlockState::TORCH,
    ];

    /// The state with the given kind and variant: variant `0` for any kind, `1` and `2` for
    /// torches only.
    pub fn new(id: BlockId, variant: u8) -> (result: Option<BlockState>)
        ensures
            result == state_from_parts(id, variant),
            result is Some <==> (variant == 0 || (id == BlockId::TORCH && variant <= 2)),
            result matches Some(state) ==> state_id(state) == id && state_variant(state) == variant,
    {
        if variant == 0 {
            Some(BlockState::from_id(id))
        } else if id == BlockId::TORCH && variant == 1 {
            Some(BlockState::WALL_TORCH_LEFT)
        } else if id == BlockId::TORCH && variant == 2 {
            Some(BlockState::WALL_TORCH_RIGHT)
        } else {
            None
        }
    }

    /// The variant-0 state of a kind.
    pub fn from_id(id: BlockId) -> (result: BlockState)
        ensures
            result == state_from_id(id),
            state_id(result) == id,
            state_variant(result) == 0,
    {
        match id {
            BlockId::GRASS => BlockState::GRASS,
            BlockId::DIRT => BlockState::DIRT,
            BlockId::STONE => BlockState::STONE,
            BlockId::COAL_ORE => BlockState::COAL_ORE,
            BlockId::IRON_ORE => BlockState::IRON_ORE,
            BlockId::WOOD => BlockState::WOOD,
            BlockId::LEAVES => BlockState::LEAVES,
            BlockId::TORCH => BlockState::TORCH,
            BlockId::BEDROCK => BlockState::BEDROCK,
        }
    }

    /// The state stored under a dense code; `None` for air (`0`) and unknown codes.
    pub fn from_code(code: u8) -> (result: Option<BlockState>)
        ensures
            result == state_from_code(code as int),
            result is Some <==> 1 <= code <= 11,
            result matches Some(state) ==> state_code(state) == code,
    {
        if code == 10 {
            return Some(BlockState::WALL_TORCH_LEFT);
        }
        if code == 11 {
            return Some(BlockState::WALL_TORCH_RIGHT);
        }
        match BlockId::from_code(code) {
            Some(id) => Some(BlockState::from_id(id)),
            None => None,
        }
    }

    /// The kind of this state.
    pub fn id(self) -> (result: BlockId)
        ensures
            result == state_id(self),
    {
        match self {
            BlockState::GRASS => BlockId::GRASS,
            BlockState::DIRT => BlockId::DIRT,
            BlockState::STONE => BlockId::STONE,
            BlockState::COAL_ORE => BlockId::COAL_ORE,
            BlockState::IRON_ORE => BlockId::IRON_ORE,
            BlockState::WOOD => BlockId::WOOD,
            BlockState::LEAVES => BlockId::LEAVES,
            BlockState::TORCH => BlockId::TORCH,
            BlockState::WALL_TORCH_LEFT => BlockId::TORCH,
            BlockState::WALL_TORCH_RIGHT => BlockId::TORCH,
            BlockState::BEDROCK => BlockId::BEDROCK,
        }
    }

    /// The variant of this state: the torch mount number, `0` for other kinds.
    pub fn variant(self) -> (result: u8)
        ensures
            result == state_variant(self),
    {
        match self {
            BlockState::WALL_TORCH_LEFT => 1,
            BlockState::WALL_TORCH_RIGHT => 2,
            _ => 0,
        }
    }

    /// The torch with the given mount.
    pub fn torch(mount: TorchMount) -> (result: BlockState)
        ensures
            result == torch_state(mount),
            state_torch_mount(result) == Some(mount),
    {
        match mount {
            TorchMount::Floor => BlockState::TORCH,
            TorchMount::WallLeft => BlockState::WALL_TORCH_LEFT,
            TorchMount::WallRight => BlockState::WALL_TORCH_RIGHT,
        }
    }

    /// The mount of a torch; `None` for every other kind.
    pub fn torch_mount(self) -> (result: Option<TorchMount>)
        ensures
            result == state_torch_mount(self),
            result is Some <==> state_id(self) == BlockId::TORCH,
    {
        match self {
            BlockState::TORCH => Some(TorchMount::Floor),
            BlockState::WALL_TORCH_LEFT => Some(TorchMount::WallLeft),
            BlockState::WALL_TORCH_RIGHT => Some(TorchMount::WallRight),
            _ => None,
        }
    }

    /// The gameplay properties of this state's kind.
    pub fn def(self) -> (result: BlockDef)
        ensures
            result == id_def(state_id(self)),
    {
        self.id().def()
    }

    /// The name shown for this state's kind.
    pub fn display_name(self) -> (result: &'static str)
        ensures
            result@ == id_display_name(state_id(self)),
    {
        self.id().display_name()
    }

    /// Whether the player can break this state: every state but bedrock.
    pub fn breakable(self) -> (result: bool)
        ensures
            result == (self != BlockState::BEDROCK),
    {
        self.id().breakable()
    }

    /// The dense storage code of this state, never `0`.
    pub fn code(self) -> (result: u8)
        ensures
            result == state_code(self),
            1 <= result <= 11,
            state_from_code(result as int) == Some(self),
    {
        match self.torch_mount() {
            Some(TorchMount::WallLeft) => 10,
            Some(TorchMount::WallRight) => 11,
            _ => self.id().code(),
        }
    }
}

impl TorchMount {
    /// The offset from a torch with this mount to the block that supports it.
    pub fn support_offset(self) -> (result: (i32, i32))
        ensures
            result == mount_support_offset(self),
    {
        match self {
            TorchMount::Floor => (0, -1),
            TorchMount::WallLeft => (1, 0),
            TorchMount::WallRight => (-1, 0),
        }
    }

    /// The mount for a torch placed at `(x, y)` relative to the face it was placed against:
    /// on top of a block, or against its left or right side.
    pub fn from_placement_offset(x: i32, y: i32) -> (result: Option<TorchMount>)
        ensures
            result == (if x == 0 && y == 1 {
                Some(TorchMount::Floor)
            } else if x == -1 && y == 0 {
                Some(TorchMount::WallLeft)
            } else if x == 1 && y == 0 {
                Some(TorchMount::WallRight)
            } else {
                None::<TorchMount>
            }),
    {
        if x == 0 && y == 1 {
            Some(TorchMount::Floor)
        } else if x == -1 && y == 0 {
            Some(TorchMount::WallLeft)
        } else if x == 1 && y == 0 {
            Some(TorchMount::WallRight)
        } else {
            None
        }
    }
}

/// Decoding a state's code gives the state back, and every code that decodes is the code of
/// what it decodes to.
pub proof fn lemma_code_round_trip(state: BlockState, code: u8)
    ensures
        state_from_code(state_code(state) as int) == Some(state),
        state_from_code(code as int) matches Some(decoded) ==> state_code(decoded) == code,
        state_code(state) != 0,
{
}

/// A torch state's mount gives the same torch back, and `new` accepts exactly the parts of
/// some state.
pub proof fn lemma_parts_round_trip(state: BlockState)
    ensures
        state_from_parts(state_id(state), state_variant(state)) == Some(state),
        state_torch_mount(state) matches Some(mount) ==> torch_state(mount) == state,
{
}

} // verus!
