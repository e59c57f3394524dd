use vstd::prelude::*;

use crate::application::snapshot::ChunkSnapshot;
use crate::domain::block::{lemma_code_round_trip, state_from_code};
use crate::domain::world::ScheduledTick;
use crate::domain::CHUNK_AREA;
use crate::storage::region::{
    chunk_decodes, code_used, codes_valid, decoded_layer, decodes_to, dense_backwall, dense_foreground,
    encoded_chunks, encoded_layer, entry_lt, header_ok, lemma_palette_code_round_trip, lemma_region_palette,
    palette_entry, palette_order, palette_prefix, pending_total, persisted_tick, persisted_ticks, region_of,
    region_palette, restored_tick, restored_ticks, ScwRegionHeader, MAX_PENDING_TICKS_PER_REGION, REGION_CHUNKS,
};

verus! {

/// The entry of the `m`-th code in palette order.
pub open spec fn order_entry(m: int) -> crate::storage::region::ScwPaletteBlock {
    palette_entry(state_from_code(palette_order()[m] as int)->0)
}

proof fn lemma_order_entries_ascend()
    ensures
        forall|a: int, b: int| 0 <= a < b < 11 ==> entry_lt(#[trigger] order_entry(a), #[trigger] order_entry(b)),
{
    assert(order_entry(0).id == 1 && order_entry(0).variant == 0);
    assert(order_entry(1).id == 2 && order_entry(1).variant == 0);
    assert(order_entry(2).id == 3 && order_entry(2).variant == 0);
    assert(order_entry(3).id == 4 && order_entry(3).variant == 0);
    assert(order_entry(4).id == 5 && order_entry(4).variant == 0);
    assert(order_entry(5).id == 6 && order_entry(5).variant == 0);
    assert(order_entry(6).id == 7 && order_entry(6).variant == 0);
    assert(order_entry(7).id == 8 && order_entry(7).variant == 0);
    assert(order_entry(8).id == 8 && order_entry(8).variant == 1);
    assert(order_entry(9).id == 8 && order_entry(9).variant == 2);
    assert(order_entry(10).id == 9 && order_entry(10).variant == 0);
}

proof fn lemma_prefix_sorted(chunks: Seq<ChunkSnapshot>, n: int)
    requires
        0 <= n <= 11,
    ensures
        forall|i: int| 0 <= i < palette_prefix(chunks, n).len() - 1 ==> entry_lt(
            #[trigger] palette_prefix(chunks, n)[i],
            palette_prefix(chunks, n)[i + 1],
        ),
        palette_prefix(chunks, n).len() > 0 ==> exists|m: int|
            0 <= m < n && palette_prefix(chunks, n).last() == #[trigger] order_entry(m),
    decreases n,
{
    if n > 0 {
        lemma_prefix_sorted(chunks, n - 1);
        lemma_order_entries_ascend();
        let rest = palette_prefix(chunks, n - 1);
        let code = palette_order()[n - 1];
        if code_used(chunks, code) {
            let p = rest.push(order_entry(n - 1));
            assert(p == palette_prefix(chunks, n));
            assert forall|i: int| 0 <= i < p.len() - 1 implies entry_lt(#[trigger] p[i], p[i + 1]) by {
                if i < rest.len() - 1 {
                    assert(p[i] == rest[i] && p[i + 1] == rest[i + 1]);
                } else {
                    let m = choose|m: int| 0 <= m < n - 1 && rest.last() == #[trigger] order_entry(m);
                    assert(p[i] == order_entry(m));
                    assert(entry_lt(order_entry(m), order_entry(n - 1)));
                }
            }
            assert(p.last() == order_entry(n - 1));
        } else {
            if rest.len() > 0 {
                let m = choose|m: int| 0 <= m < n - 1 && rest.last() == #[trigger] order_entry(m);
                assert(palette_prefix(chunks, n).last() == order_entry(m));
            }
        }
    }
}

/// A region's palette is sorted by identifier, then variant, without repeats.
pub proof fn lemma_region_palette_sorted(chunks: Seq<ChunkSnapshot>)
    ensures
        forall|i: int| 0 <= i < region_palette(chunks).len() - 1 ==> entry_lt(
            #[trigger] region_palette(chunks)[i],
            region_palette(chunks)[i + 1],
        ),
{
    lemma_prefix_sorted(chunks, 11);
}


/// Every layer of every chunk holds `CHUNK_AREA` codes.
pub open spec fn layers_full(chunks: Seq<ChunkSnapshot>) -> bool {
    forall|k: int|
        0 <= k < chunks.len() ==> #[trigger] chunks[k].foreground@.len() == CHUNK_AREA && chunks[k].backwall@.len()
            == CHUNK_AREA
}

/// The dense array of a region holds each chunk's two encoded layers in place.
pub proof fn lemma_encoded_layout(palette: Seq<crate::storage::region::ScwPaletteBlock>, chunks: Seq<ChunkSnapshot>)
    requires
        layers_full(chunks),
    ensures
        encoded_chunks(palette, chunks).len() == chunks.len() * CHUNK_AREA * 2,
        forall|k: int|
            0 <= k < chunks.len() ==> #[trigger] dense_foreground(encoded_chunks(palette, chunks), k) == encoded_layer(
                palette,
                chunks[k].foreground@,
            ) && dense_backwall(encoded_chunks(palette, chunks), k) == encoded_layer(palette, chunks[k].backwall@),
    decreases chunks.len(),
{
    if chunks.len() > 0 {
        let front = chunks.drop_last();
        assert forall|k: int| 0 <= k < front.len() implies #[trigger] front[k].foreground@.len() == CHUNK_AREA
            && front[k].backwall@.len() == CHUNK_AREA by {
            assert(front[k] == chunks[k]);
        }
        lemma_encoded_layout(palette, front);
        let head = encoded_chunks(palette, front);
        let last = chunks.last();
        let all = encoded_chunks(palette, chunks);
        let area = CHUNK_AREA as int;
        let n = chunks.len() as int;
        assert(all == head + encoded_layer(palette, last.foreground@) + encoded_layer(palette, last.backwall@));
        assert(chunks[n - 1] == last);
        assert forall|k: int| 0 <= k < chunks.len() implies #[trigger] dense_foreground(all, k) == encoded_layer(
            palette,
            chunks[k].foreground@,
        ) && dense_backwall(all, k) == encoded_layer(palette, chunks[k].backwall@) by {
            if k < n - 1 {
                assert(front[k] == chunks[k]);
                assert(2 * k * area + 2 * area <= (n - 1) * area * 2);
                assert(dense_foreground(all, k) =~= dense_foreground(head, k));
                assert(dense_backwall(all, k) =~= dense_backwall(head, k));
            } else {
                assert(head.len() == 2 * k * area);
                assert(dense_foreground(all, k) =~= encoded_layer(palette, last.foreground@));
                assert(dense_backwall(all, k) =~= encoded_layer(palette, last.backwall@));
            }
        }
    }
}

/// A layer encoded against a palette that holds the entries of its codes decodes back to it.
pub proof fn lemma_layer_round_trip(palette: Seq<crate::storage::region::ScwPaletteBlock>, codes: Seq<u8>)
    requires
        palette.len() <= 255,
        forall|i: int, j: int| 0 <= i < j < palette.len() ==> #[trigger] palette[i] != #[trigger] palette[j],
        forall|i: int| 0 <= i < codes.len() ==> #[trigger] codes[i] <= 11,
        forall|c: u8| 1 <= c <= 11 && #[trigger] codes.contains(c) ==> palette.contains(palette_entry(state_from_code(c as int)->0)),
    ensures
        decoded_layer(palette, encoded_layer(palette, codes)) == Some(codes),
{
    let encoded = encoded_layer(palette, codes);
    assert forall|i: int| 0 <= i < encoded.len() implies #[trigger] crate::storage::region::decoded_code(palette, encoded[i])
        == Some(codes[i]) by {
        assert(codes.contains(codes[i]));
        lemma_palette_code_round_trip(palette, codes[i]);
    }
    assert(encoded.map_values(|c: u8| crate::storage::region::decoded_code(palette, c)->0) =~= codes);
}

/// Persisted ticks restore to the ticks they were persisted from.
pub proof fn lemma_ticks_round_trip(ticks: Seq<ScheduledTick>)
    ensures
        restored_ticks(persisted_ticks(ticks)) == Some(ticks),
{
    let persisted = persisted_ticks(ticks);
    assert forall|i: int| 0 <= i < persisted.len() implies #[trigger] restored_tick(persisted[i]) == Some(ticks[i]) by {
        let t = ticks[i];
        if let Some(state) = t.expected {
            lemma_code_round_trip(state, 0);
        }
    }
    assert(persisted.map_values(|t: crate::storage::region::ScwScheduledTick| restored_tick(t)->0) =~= ticks);
}


/// The number of ticks the first `n` chunks owe.
pub open spec fn tick_total(chunks: Seq<ChunkSnapshot>, n: int) -> int
    decreases n,
{
    if n <= 0 {
        0
    } else {
        tick_total(chunks, n - 1) + chunks[n - 1].pending_ticks@.len()
    }
}

/// What a region must hold to be written and read back: 1 to `REGION_CHUNKS` chunks of region
/// `region_x` in ascending order, each with two full layers of air and block codes, owing at
/// most `MAX_PENDING_TICKS_PER_REGION` ticks together.
pub open spec fn region_chunks_ok(region_x: i64, chunks: Seq<ChunkSnapshot>) -> bool {
    &&& 1 <= chunks.len() <= REGION_CHUNKS
    &&& forall|i: int, j: int| 0 <= i < j < chunks.len() ==> #[trigger] chunks[i].x < #[trigger] chunks[j].x
    &&& forall|i: int| 0 <= i < chunks.len() ==> region_of(#[trigger] chunks[i].x as int) == region_x
    &&& layers_full(chunks)
    &&& codes_valid(chunks)
    &&& tick_total(chunks, chunks.len() as int) <= MAX_PENDING_TICKS_PER_REGION
}

proof fn lemma_pending_total_matches(header: ScwRegionHeader, chunks: Seq<ChunkSnapshot>, n: int)
    requires
        0 <= n <= chunks.len(),
        header.pending_ticks@.len() == chunks.len(),
        forall|k: int| 0 <= k < chunks.len() ==> #[trigger] header.pending_ticks@[k]@ == persisted_ticks(chunks[k].pending_ticks@),
    ensures
        pending_total(header.pending_ticks@, n) == tick_total(chunks, n),
    decreases n,
{
    if n > 0 {
        lemma_pending_total_matches(header, chunks, n - 1);
        assert(header.pending_ticks@[n - 1]@ == persisted_ticks(chunks[n - 1].pending_ticks@));
    }
}

/// Reading back what was written: the header and dense array that encode a valid region pass
/// every check of `decode_region_body`, and each chunk decodes to the chunk it was encoded
/// from, with the same coordinate, layers and owed work.
pub proof fn lemma_region_round_trip(
    region_x: i64,
    seed: u64,
    generator_version: u32,
    chunks: Seq<ChunkSnapshot>,
    header: ScwRegionHeader,
    dense: Seq<u8>,
)
    requires
        region_chunks_ok(region_x, chunks),
        crate::storage::region::encodes_region(header, dense, region_x, seed, generator_version, chunks),
    ensures
        header_ok(header, dense.len() as int, region_x, seed, generator_version),
        forall|k: int|
            0 <= k < chunks.len() ==> #[trigger] chunk_decodes(header, dense, k) && decodes_to(header, dense, k, chunks[k]),
{
    let palette = header.palette@;
    let n = chunks.len() as int;
    lemma_region_palette(chunks);
    lemma_region_palette_sorted(chunks);
    lemma_encoded_layout(palette, chunks);
    lemma_pending_total_matches(header, chunks, n);
    assert forall|i: int| 0 <= i < header.chunk_xs@.len() - 1 implies #[trigger] header.chunk_xs@[i] < header.chunk_xs@[i + 1] by {
        assert(chunks[i].x < chunks[i + 1].x);
    }
    assert forall|i: int| 0 <= i < header.chunk_xs@.len() implies region_of(#[trigger] header.chunk_xs@[i] as int) == region_x by {
        assert(header.chunk_xs@[i] == chunks[i].x);
    }
    assert forall|k: int| 0 <= k < n implies #[trigger] chunk_decodes(header, dense, k) && decodes_to(header, dense, k, chunks[k]) by {
        let c = chunks[k];
        assert forall|cc: u8| 1 <= cc <= 11 && #[trigger] c.foreground@.contains(cc) implies palette.contains(
            palette_entry(state_from_code(cc as int)->0),
        ) by {
            assert(code_used(chunks, cc));
        }
        assert forall|cc: u8| 1 <= cc <= 11 && #[trigger] c.backwall@.contains(cc) implies palette.contains(
            palette_entry(state_from_code(cc as int)->0),
        ) by {
            assert(code_used(chunks, cc));
        }
        lemma_layer_round_trip(palette, c.foreground@);
        lemma_layer_round_trip(palette, c.backwall@);
        lemma_ticks_round_trip(c.pending_ticks@);
        assert(header.pending_ticks@[k]@ == persisted_ticks(c.pending_ticks@));
        assert(header.chunk_xs@[k] == c.x);
    }
}

} // verus!
