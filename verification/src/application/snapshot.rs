use vstd::prelude::*;
use vstd::string::StrSliceExecFns;
use vstd::string::StringExecFns;
use vstd::string::StringSliceAdditionalSpecFns;

use crate::domain::block::{state_from_code, BlockState};
use crate::domain::simulation::queue::{in_drain_order, tick_before, tick_chunk};
use crate::domain::world::{chunk_is_representable, representable, ScheduledTick};
use crate::domain::{CHUNK_AREA, GENERATOR_VERSION, WORLD_HEIGHT};
use crate::storage::names::{decimal_text, push_signed_wide};

verus! {

/// Why a snapshot was refused.
#[derive(Debug, Clone, PartialEq, Eq)]
pub struct SnapshotError(pub String);

/// One saved chunk: both dense block layers and the simulation work it owes.
#[derive(Debug, Clone, PartialEq, Eq)]
pub struct ChunkSnapshot {
    pub x: i64,
    pub foreground: Vec<u8>,
    pub backwall: Vec<u8>,
    pub pending_ticks: Vec<ScheduledTick>,
}

/// The saved player. The position within the chunk is kept as the IEEE-754 bits of its two
/// coordinates; the library carries them through unchanged and never reads them.
#[derive(Debug, Clone, Copy, PartialEq, Eq, Structural)]
pub struct PlayerSnapshot {
    pub chunk_x: i64,
    pub local_x_bits: u32,
    pub y_bits: u32,
    pub selected_slot: u8,
}

/// Everything a save holds.
#[derive(Debug, Clone, PartialEq, Eq)]
pub struct WorldSnapshot {
    pub generator_version: u32,
    pub height: i32,
    pub name: String,
    pub seed: u64,
    pub created_at_unix_s: u64,
    pub last_played_unix_s: u64,
    pub day_time_ticks: u64,
    pub world_tick: u64,
    pub next_tick_sequence: u64,
    pub player: PlayerSnapshot,
    pub chunks: Vec<ChunkSnapshot>,
}

/// Unicode white space, as `char::is_whitespace` and `str::trim` understand it.
pub open spec fn white_space(c: char) -> bool {
    ||| '\u{9}' <= c <= '\u{d}'
    ||| c == ' '
    ||| c == '\u{85}'
    ||| c == '\u{a0}'
    ||| c == '\u{1680}'
    ||| '\u{2000}' <= c <= '\u{200a}'
    ||| c == '\u{2028}'
    ||| c == '\u{2029}'
    ||| c == '\u{202f}'
    ||| c == '\u{205f}'
    ||| c == '\u{3000}'
}

/// A world name holds something besides white space and is at most 80 bytes of UTF-8.
pub open spec fn valid_world_name(name: Seq<char>) -> bool {
    &&& exists|i: int| 0 <= i < name.len() && !white_space(#[trigger] name[i])
    &&& vstd::utf8::encode_utf8(name).len() <= 80
}

/// A dense layer holds `CHUNK_AREA` codes, each air or a block state.
pub open spec fn valid_layer(codes: Seq<u8>) -> bool {
    &&& codes.len() == CHUNK_AREA
    &&& forall|i: int| 0 <= i < codes.len() ==> #[trigger] codes[i] == 0 || state_from_code(codes[i] as int) is Some
}

/// A chunk's owed work: every tick inside the chunk and the world height, in strict drain
/// order, with a sequence that was already allocated.
pub open spec fn valid_pending(chunk_x: i64, ticks: Seq<ScheduledTick>, next_tick_sequence: u64) -> bool {
    &&& forall|i: int|
        0 <= i < ticks.len() ==> {
            let t = #[trigger] ticks[i];
            &&& tick_chunk(t) == chunk_x
            &&& 0 <= t.position.y < WORLD_HEIGHT
            &&& t.sequence < next_tick_sequence
        }
    &&& in_drain_order(ticks)
}

/// A saved chunk is addressable, has two valid layers and valid owed work.
pub open spec fn valid_chunk(chunk: ChunkSnapshot, next_tick_sequence: u64) -> bool {
    &&& representable(chunk.x as int)
    &&& valid_layer(chunk.foreground@)
    &&& valid_layer(chunk.backwall@)
    &&& valid_pending(chunk.x, chunk.pending_ticks@, next_tick_sequence)
}

/// Everything `validate_snapshot` checks, except the player's position, which the caller
/// checks.
pub open spec fn valid_snapshot(snapshot: WorldSnapshot) -> bool {
    &&& snapshot.generator_version == GENERATOR_VERSION
    &&& snapshot.height == WORLD_HEIGHT
    &&& valid_world_name(snapshot.name@)
    &&& 1 <= snapshot.player.selected_slot <= 7
    &&& representable(snapshot.player.chunk_x as int)
    &&& forall|i: int| 0 <= i < snapshot.chunks@.len() ==> valid_chunk(#[trigger] snapshot.chunks@[i], snapshot.next_tick_sequence)
    &&& forall|i: int, j: int| 0 <= i < j < snapshot.chunks@.len() ==> #[trigger] snapshot.chunks@[i].x < #[trigger] snapshot.chunks@[j].x
}

/// The message for a dense layer of `length` codes where `CHUNK_AREA` belong.
pub open spec fn layer_length_text(x: i64, layer: Seq<char>, length: int) -> Seq<char> {
    "chunk "@ + decimal_text(x as int) + " "@ + layer + " has "@ + decimal_text(length) + " blocks; expected 2560"@
}

/// What is wrong with a saved chunk, in the order `validate_snapshot` checks it;
/// `previous_x` is the coordinate of the chunk saved before it, if any.
pub open spec fn chunk_problem(chunk: ChunkSnapshot, next_tick_sequence: u64, previous_x: Option<i64>) -> Option<
    Seq<char>,
> {
    if !representable(chunk.x as int) {
        Some("chunk "@ + decimal_text(chunk.x as int) + " cannot be represented as global block coordinates"@)
    } else if chunk.foreground@.len() != CHUNK_AREA {
        Some(layer_length_text(chunk.x, "foreground"@, chunk.foreground@.len() as int))
    } else if !valid_layer(chunk.foreground@) {
        Some("chunk "@ + decimal_text(chunk.x as int) + " foreground contains an invalid block code"@)
    } else if chunk.backwall@.len() != CHUNK_AREA {
        Some(layer_length_text(chunk.x, "backwall"@, chunk.backwall@.len() as int))
    } else if !valid_layer(chunk.backwall@) {
        Some("chunk "@ + decimal_text(chunk.x as int) + " backwall contains an invalid block code"@)
    } else if !valid_pending(chunk.x, chunk.pending_ticks@, next_tick_sequence) {
        Some("invalid pending ticks in chunk "@ + decimal_text(chunk.x as int))
    } else if previous_x matches Some(px) && px >= chunk.x {
        Some("chunks must be unique and sorted by x"@)
    } else {
        None
    }
}

/// The first problem among the saved chunks from index `i` on.
pub open spec fn first_chunk_problem(chunks: Seq<ChunkSnapshot>, next_tick_sequence: u64, i: int) -> Option<
    Seq<char>,
>
    decreases chunks.len() - i,
{
    if i < 0 || i >= chunks.len() {
        None
    } else {
        let previous_x = if i > 0 {
            Some(chunks[i - 1].x)
        } else {
            None
        };
        match chunk_problem(chunks[i], next_tick_sequence, previous_x) {
            Some(message) => Some(message),
            None => first_chunk_problem(chunks, next_tick_sequence, i + 1),
        }
    }
}

/// The message `validate_snapshot` reports for a snapshot: the first check that fails, or
/// `None` when all pass.
pub open spec fn snapshot_problem(snapshot: WorldSnapshot, player_position_ok: bool) -> Option<Seq<char>> {
    if snapshot.generator_version != GENERATOR_VERSION {
        Some("unsupported generator version "@ + decimal_text(snapshot.generator_version as int))
    } else if snapshot.height != WORLD_HEIGHT {
        Some("expected chunk height "@ + decimal_text(WORLD_HEIGHT as int))
    } else if !valid_world_name(snapshot.name@) {
        Some("world name must contain 1 to 80 characters"@)
    } else if !player_position_ok {
        Some("player position must be finite and local x must be inside its chunk"@)
    } else if !(1 <= snapshot.player.selected_slot <= 7) {
        Some("selected hotbar slot is invalid"@)
    } else if !representable(snapshot.player.chunk_x as int) {
        Some("player chunk cannot be represented as global block coordinates"@)
    } else {
        first_chunk_problem(snapshot.chunks@, snapshot.next_tick_sequence, 0)
    }
}

/// A message that ends in a number, written in decimal.
fn numbered(text: &str, number: i128) -> (result: String)
    ensures
        result@ == text@ + decimal_text(number as int),
{
    let mut message = String::from_str(text);
    push_signed_wide(&mut message, number);
    message
}

/// `chunk <x><rest>`: a message about one chunk.
fn chunk_message(x: i64, rest: &str) -> (result: String)
    ensures
        result@ == "chunk "@ + decimal_text(x as int) + rest@,
{
    let mut message = String::from_str("chunk ");
    push_signed_wide(&mut message, x as i128);
    message.append(rest);
    message
}

/// The message for a dense layer of the wrong length.
fn layer_length_message(x: i64, layer: &str, length: usize) -> (result: String)
    ensures
        result@ == "chunk "@ + decimal_text(x as int) + " "@ + layer@ + " has "@ + decimal_text(length as int)
            + " blocks; expected 2560"@,
{
    let mut message = chunk_message(x, " ");
    message.append(layer);
    message.append(" has ");
    push_signed_wide(&mut message, length as i128);
    message.append(" blocks; expected 2560");
    message
}

/// Whether `c` is white space as `char::is_whitespace` counts it.
pub fn is_white_space(c: char) -> (result: bool)
    ensures
        result == white_space(c),
{
    ('\u{9}' <= c && c <= '\u{d}') || c == ' ' || c == '\u{85}' || c == '\u{a0}' || c == '\u{1680}' || ('\u{2000}'
        <= c && c <= '\u{200a}') || c == '\u{2028}' || c == '\u{2029}' || c == '\u{202f}' || c == '\u{205f}' || c
        == '\u{3000}'
}

/// Whether a name is acceptable: something besides white space, at most 80 bytes.
fn check_name(name: &String) -> (result: bool)
    ensures
        result == valid_world_name(name@),
{
    let text = name.as_str();
    if text.as_bytes().len() > 80 {
        return false;
    }
    let n = text.unicode_len();
    let mut i: usize = 0;
    while i < n
        invariant
            text@ == name@,
            n == name@.len(),
            vstd::utf8::encode_utf8(name@).len() <= 80,
            i <= n,
            forall|j: int| 0 <= j < i ==> white_space(#[trigger] name@[j]),
        decreases n - i,
    {
        let c = text.get_char(i);
        if !is_white_space(c) {
            proof {
                assert(!white_space(name@[i as int]));
            }
            return true;
        }
        i += 1;
    }
    false
}

fn check_layer(codes: &Vec<u8>) -> (result: bool)
    ensures
        result == valid_layer(codes@),
{
    if codes.len() != CHUNK_AREA {
        return false;
    }
    let mut i: usize = 0;
    while i < codes.len()
        invariant
            i <= codes@.len(),
            forall|j: int| 0 <= j < i ==> #[trigger] codes@[j] == 0 || state_from_code(codes@[j] as int) is Some,
        decreases codes@.len() - i,
    {
        if codes[i] != 0 && BlockState::from_code(codes[i]).is_none() {
            return false;
        }
        i += 1;
    }
    true
}

fn tick_precedes(a: &ScheduledTick, b: &ScheduledTick) -> (result: bool)
    ensures
        result == tick_before(*a, *b),
{
    if a.due_world_tick != b.due_world_tick {
        return a.due_world_tick < b.due_world_tick;
    }
    if a.priority.0 != b.priority.0 {
        return a.priority.0 < b.priority.0;
    }
    if a.position.global_x != b.position.global_x {
        return a.position.global_x < b.position.global_x;
    }
    if a.position.y != b.position.y {
        return a.position.y < b.position.y;
    }
    let da = a.position.layer.depth();
    let db = b.position.layer.depth();
    if da != db {
        return da < db;
    }
    proof {
        assert(a.priority == b.priority);
        assert(a.position.layer == b.position.layer);
    }
    a.sequence < b.sequence
}

proof fn lemma_adjacent_order(s: Seq<ScheduledTick>)
    requires
        forall|i: int| 0 <= i < s.len() - 1 ==> tick_before(#[trigger] s[i], s[i + 1]),
    ensures
        in_drain_order(s),
    decreases s.len(),
{
    if s.len() > 1 {
        let t = s.drop_last();
        assert forall|i: int| 0 <= i < t.len() - 1 implies tick_before(#[trigger] t[i], t[i + 1]) by {
            assert(t[i] == s[i] && t[i + 1] == s[i + 1]);
        }
        lemma_adjacent_order(t);
        assert forall|i: int, j: int| 0 <= i < j < s.len() implies tick_before(#[trigger] s[i], #[trigger] s[j]) by {
            if j < s.len() - 1 {
                assert(tick_before(t[i], t[j]));
            } else if i < j - 1 {
                assert(tick_before(t[i], t[j - 1]));
                assert(tick_before(s[j - 1], s[j]));
            }
        }
    }
}

fn check_pending(chunk_x: i64, ticks: &Vec<ScheduledTick>, next_tick_sequence: u64) -> (result: bool)
    ensures
        result == valid_pending(chunk_x, ticks@, next_tick_sequence),
{
    let mut i: usize = 0;
    while i < ticks.len()
        invariant
            i <= ticks@.len(),
            forall|j: int|
                0 <= j < i ==> {
                    let t = #[trigger] ticks@[j];
                    &&& tick_chunk(t) == chunk_x
                    &&& 0 <= t.position.y < WORLD_HEIGHT
                    &&& t.sequence < next_tick_sequence
                },
            forall|j: int| 0 <= j < i as int - 1 ==> tick_before(#[trigger] ticks@[j], ticks@[j + 1]),
        decreases ticks@.len() - i,
    {
        let t = ticks[i];
        let chunk = crate::domain::world::world_to_chunk(t.position.global_x);
        if chunk != chunk_x || t.position.y < 0 || t.position.y >= WORLD_HEIGHT || t.sequence >= next_tick_sequence {
            return false;
        }
        if i > 0 && !tick_precedes(&ticks[i - 1], &t) {
            proof {
                assert(!in_drain_order(ticks@)) by {
                    assert(!tick_before(ticks@[i - 1], ticks@[i as int]));
                }
            }
            return false;
        }
        i += 1;
    }
    proof {
        lemma_adjacent_order(ticks@);
    }
    true
}

/// Checks a snapshot before it is saved or after it is loaded; the error says what is wrong.
/// `player_position_ok` is the caller's verdict on the player's position (finite, with the
/// local column inside its chunk), which the library cannot inspect. The checks run in a
/// fixed order and the first failure is reported.
pub fn validate_snapshot(snapshot: &WorldSnapshot, player_position_ok: bool) -> (result: Result<(), SnapshotError>)
    ensures
        result is Ok <==> valid_snapshot(*snapshot) && player_position_ok,
        result is Ok ==> snapshot_problem(*snapshot, player_position_ok) is None,
        result matches Err(e) ==> snapshot_problem(*snapshot, player_position_ok) == Some(e.0@),
{
    if snapshot.generator_version != GENERATOR_VERSION {
        return Err(SnapshotError(numbered("unsupported generator version ", snapshot.generator_version as i128)));
    }
    if snapshot.height != WORLD_HEIGHT {
        return Err(SnapshotError(numbered("expected chunk height ", WORLD_HEIGHT as i128)));
    }
    if !check_name(&snapshot.name) {
        return Err(SnapshotError(String::from_str("world name must contain 1 to 80 characters")));
    }
    if !player_position_ok {
        return Err(
            SnapshotError(String::from_str("player position must be finite and local x must be inside its chunk")),
        );
    }
    if snapshot.player.selected_slot < 1 || snapshot.player.selected_slot as usize > BlockState::HOTBAR.len() {
        return Err(SnapshotError(String::from_str("selected hotbar slot is invalid")));
    }
    if !chunk_is_representable(snapshot.player.chunk_x) {
        return Err(
            SnapshotError(String::from_str("player chunk cannot be represented as global block coordinates")),
        );
    }
    let mut i: usize = 0;
    while i < snapshot.chunks.len()
        invariant
            i <= snapshot.chunks@.len(),
            forall|j: int| 0 <= j < i ==> valid_chunk(#[trigger] snapshot.chunks@[j], snapshot.next_tick_sequence),
            forall|a: int, b: int| 0 <= a < b < i ==> #[trigger] snapshot.chunks@[a].x < #[trigger] snapshot.chunks@[b].x,
            snapshot_problem(*snapshot, player_position_ok) == first_chunk_problem(
                snapshot.chunks@,
                snapshot.next_tick_sequence,
                i as int,
            ),
        decreases snapshot.chunks@.len() - i,
    {
        let chunk = &snapshot.chunks[i];
        if !chunk_is_representable(chunk.x) {
            return Err(SnapshotError(chunk_message(chunk.x, " cannot be represented as global block coordinates")));
        }
        if chunk.foreground.len() != CHUNK_AREA {
            return Err(SnapshotError(layer_length_message(chunk.x, "foreground", chunk.foreground.len())));
        }
        if !check_layer(&chunk.foreground) {
            return Err(SnapshotError(chunk_message(chunk.x, " foreground contains an invalid block code")));
        }
        if chunk.backwall.len() != CHUNK_AREA {
            return Err(SnapshotError(layer_length_message(chunk.x, "backwall", chunk.backwall.len())));
        }
        if !check_layer(&chunk.backwall) {
            return Err(SnapshotError(chunk_message(chunk.x, " backwall contains an invalid block code")));
        }
        if !check_pending(chunk.x, &chunk.pending_ticks, snapshot.next_tick_sequence) {
            return Err(SnapshotError(numbered("invalid pending ticks in chunk ", chunk.x as i128)));
        }
        if i > 0 && snapshot.chunks[i - 1].x >= chunk.x {
            return Err(SnapshotError(String::from_str("chunks must be unique and sorted by x")));
        }
        proof {
            assert forall|a: int, b: int| 0 <= a < b < i + 1 implies #[trigger] snapshot.chunks@[a].x
                < #[trigger] snapshot.chunks@[b].x by {
                if b == i && a < i - 1 {
                    assert(snapshot.chunks@[a].x < snapshot.chunks@[i - 1].x);
                }
            }
        }
        i += 1;
    }
    Ok(())
}

/// A new world's snapshot: current generator and height, the clock at sunrise, no ticks yet.
pub fn blank_snapshot(seed: u64, name: String, chunks: Vec<ChunkSnapshot>, player: PlayerSnapshot, now_unix_s: u64) -> (result: WorldSnapshot)
    ensures
        result.generator_version == GENERATOR_VERSION,
        result.height == WORLD_HEIGHT,
        result.name == name,
        result.seed == seed,
        result.created_at_unix_s == now_unix_s,
        result.last_played_unix_s == now_unix_s,
        result.day_time_ticks == 0,
        result.world_tick == 0,
        result.next_tick_sequence == 0,
        result.player == player,
        result.chunks == chunks,
{
    WorldSnapshot {
        generator_version: GENERATOR_VERSION,
        height: WORLD_HEIGHT,
        name,
        seed,
        created_at_unix_s: now_unix_s,
        last_played_unix_s: now_unix_s,
        day_time_ticks: 0,
        world_tick: 0,
        next_tick_sequence: 0,
        player,
        chunks,
    }
}

} // verus!
