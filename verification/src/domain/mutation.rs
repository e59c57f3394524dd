use vstd::prelude::*;

use crate::domain::block::BlockState;
use crate::domain::world::{ChunkChange, ChunkLayer, VoxelLayer, BlockChunk,
    layer_depth, BlockGrid, BlockPrecondition, BlockWrite, CellChange, MutationBatchResult,
    MutationProposal, MutationRejection, MutationReport, ProposalOutcome, VoxelPos,
};

verus! {

// ---------------------------------------------------------------------------------------------
// Ordering
// ---------------------------------------------------------------------------------------------

/// Strict order on positions: by global column, then row, then layer.
pub open spec fn pos_lt(a: VoxelPos, b: VoxelPos) -> bool {
    ||| a.global_x < b.global_x
    ||| a.global_x == b.global_x && a.y < b.y
    ||| a.global_x == b.global_x && a.y == b.y && layer_depth(a.layer) < layer_depth(b.layer)
}

/// Strict order on proposals by their ordering key `(priority, source, sequence)`.
pub open spec fn key_lt(a: MutationProposal, b: MutationProposal) -> bool {
    ||| a.priority.0 < b.priority.0
    ||| a.priority == b.priority && pos_lt(a.source, b.source)
    ||| a.priority == b.priority && a.source == b.source && a.sequence < b.sequence
}

/// Whether two proposals share their ordering key.
pub open spec fn same_key(a: MutationProposal, b: MutationProposal) -> bool {
    a.priority == b.priority && a.source == b.source && a.sequence == b.sequence
}

/// The first index at or after `j` whose proposal orders strictly after `p`.
pub open spec fn insert_index_from(t: Seq<MutationProposal>, p: MutationProposal, j: int) -> int
    decreases t.len() - j,
{
    if j >= t.len() {
        t.len() as int
    } else if key_lt(p, t[j]) {
        j
    } else {
        insert_index_from(t, p, j + 1)
    }
}

/// The proposals stably sorted by ordering key: each one goes after every earlier one whose key
/// is not greater, so proposals with equal keys keep their input order.
pub open spec fn stable_sort(s: Seq<MutationProposal>) -> Seq<MutationProposal>
    decreases s.len(),
{
    if s.len() == 0 {
        Seq::empty()
    } else {
        let t = stable_sort(s.drop_last());
        t.insert(insert_index_from(t, s.last(), 0), s.last())
    }
}

/// Whether two different proposals of the batch share `p`'s ordering key.
pub open spec fn duplicated(all: Seq<MutationProposal>, p: MutationProposal) -> bool {
    exists|i: int, j: int|
        0 <= i < all.len() && 0 <= j < all.len() && i != j && same_key(#[trigger] all[i], p)
            && same_key(#[trigger] all[j], p)
}

// ---------------------------------------------------------------------------------------------
// Validation of one proposal
// ---------------------------------------------------------------------------------------------

pub open spec fn precondition_positions(p: MutationProposal) -> Seq<VoxelPos> {
    p.preconditions@.map_values(|c: BlockPrecondition| c.position)
}

pub open spec fn write_positions(p: MutationProposal) -> Seq<VoxelPos> {
    p.writes@.map_values(|w: BlockWrite| w.position)
}

/// The first position at or after `i` that already occurred earlier in `s`.
pub open spec fn first_duplicate_from(s: Seq<VoxelPos>, i: int) -> Option<VoxelPos>
    decreases s.len() - i,
{
    if i < 0 || i >= s.len() {
        None
    } else if s.take(i).contains(s[i]) {
        Some(s[i])
    } else {
        first_duplicate_from(s, i + 1)
    }
}

/// The first position at or after `i` that the grid cannot read.
pub open spec fn first_unavailable_from(grid: BlockGrid, s: Seq<VoxelPos>, i: int) -> Option<VoxelPos>
    decreases s.len() - i,
{
    if i < 0 || i >= s.len() {
        None
    } else if grid.contents_at(s[i]) is None {
        Some(s[i])
    } else {
        first_unavailable_from(grid, s, i + 1)
    }
}

/// The first unreadable position among the source, the preconditions and the writes.
pub open spec fn first_unavailable(grid: BlockGrid, p: MutationProposal) -> Option<VoxelPos> {
    if grid.contents_at(p.source) is None {
        Some(p.source)
    } else {
        match first_unavailable_from(grid, precondition_positions(p), 0) {
            Some(pos) => Some(pos),
            None => first_unavailable_from(grid, write_positions(p), 0),
        }
    }
}

/// What a position holds once the writes already applied in this batch are taken into account.
pub open spec fn current(
    grid: BlockGrid,
    overlay: Map<VoxelPos, Option<BlockState>>,
    pos: VoxelPos,
) -> Option<BlockState> {
    if overlay.contains_key(pos) {
        overlay[pos]
    } else {
        match grid.contents_at(pos) {
            Some(contents) => contents,
            None => None,
        }
    }
}

/// The first precondition at or after `i` that does not hold.
pub open spec fn first_failed_from(
    grid: BlockGrid,
    overlay: Map<VoxelPos, Option<BlockState>>,
    pres: Seq<BlockPrecondition>,
    i: int,
) -> Option<MutationRejection>
    decreases pres.len() - i,
{
    if i < 0 || i >= pres.len() {
        None
    } else if current(grid, overlay, pres[i].position) != pres[i].expected {
        Some(
            MutationRejection::PreconditionFailed {
                position: pres[i].position,
                expected: pres[i].expected,
                actual: current(grid, overlay, pres[i].position),
            },
        )
    } else {
        first_failed_from(grid, overlay, pres, i + 1)
    }
}

/// The first write at or after `i` whose position an earlier proposal of the batch wrote.
pub open spec fn first_conflict_from(
    overlay: Map<VoxelPos, Option<BlockState>>,
    writes: Seq<BlockWrite>,
    i: int,
) -> Option<VoxelPos>
    decreases writes.len() - i,
{
    if i < 0 || i >= writes.len() {
        None
    } else if overlay.contains_key(writes[i].position) {
        Some(writes[i].position)
    } else {
        first_conflict_from(overlay, writes, i + 1)
    }
}

/// Why a proposal is rejected at its turn in the batch, checked in this order; `None` when it
/// applies.
pub open spec fn rejection_reason(
    grid: BlockGrid,
    all: Seq<MutationProposal>,
    overlay: Map<VoxelPos, Option<BlockState>>,
    p: MutationProposal,
) -> Option<MutationRejection> {
    if duplicated(all, p) {
        Some(MutationRejection::DuplicateOrderingKey)
    } else if p.writes@.len() == 0 {
        Some(MutationRejection::EmptyWrites)
    } else if first_duplicate_from(precondition_positions(p), 0) is Some {
        Some(MutationRejection::DuplicatePrecondition(first_duplicate_from(precondition_positions(p), 0)->0))
    } else if first_duplicate_from(write_positions(p), 0) is Some {
        Some(MutationRejection::DuplicateWrite(first_duplicate_from(write_positions(p), 0)->0))
    } else if first_unavailable(grid, p) is Some {
        Some(MutationRejection::Unavailable(first_unavailable(grid, p)->0))
    } else if first_failed_from(grid, overlay, p.preconditions@, 0) is Some {
        first_failed_from(grid, overlay, p.preconditions@, 0)
    } else if first_conflict_from(overlay, p.writes@, 0) is Some {
        Some(MutationRejection::WriteConflict(first_conflict_from(overlay, p.writes@, 0)->0))
    } else {
        None
    }
}

/// Applies the writes from index `i` on: each write records the cell it overwrites in the
/// overlay, and reports a change when the block actually differs.
pub open spec fn apply_writes_from(
    grid: BlockGrid,
    overlay: Map<VoxelPos, Option<BlockState>>,
    changes: Seq<CellChange>,
    writes: Seq<BlockWrite>,
    i: int,
) -> (Map<VoxelPos, Option<BlockState>>, Seq<CellChange>)
    decreases writes.len() - i,
{
    if i < 0 || i >= writes.len() {
        (overlay, changes)
    } else {
        let w = writes[i];
        let before = current(grid, overlay, w.position);
        let next_changes = if before != w.state {
            changes.push(CellChange { position: w.position, before, after: w.state })
        } else {
            changes
        };
        apply_writes_from(grid, overlay.insert(w.position, w.state), next_changes, writes, i + 1)
    }
}

/// The state a batch carries from one proposal to the next: the writes applied so far, the
/// outcomes and the cell changes.
pub type BatchState = (Map<VoxelPos, Option<BlockState>>, Seq<ProposalOutcome>, Seq<CellChange>);

/// One proposal's turn in the batch.
pub open spec fn step(
    grid: BlockGrid,
    all: Seq<MutationProposal>,
    state: BatchState,
    p: MutationProposal,
) -> BatchState {
    match rejection_reason(grid, all, state.0, p) {
        Some(reason) => (
            state.0,
            state.1.push(ProposalOutcome::Rejected { sequence: p.sequence, reason }),
            state.2,
        ),
        None => {
            let (overlay, changes) = apply_writes_from(grid, state.0, state.2, p.writes@, 0);
            (overlay, state.1.push(ProposalOutcome::Applied { sequence: p.sequence }), changes)
        },
    }
}

/// The batch state after the first `n` proposals of `order`.
pub open spec fn run(
    grid: BlockGrid,
    all: Seq<MutationProposal>,
    order: Seq<MutationProposal>,
    n: int,
) -> BatchState
    decreases n,
{
    if n <= 0 {
        (Map::empty(), Seq::empty(), Seq::empty())
    } else {
        step(grid, all, run(grid, all, order, n - 1), order[n - 1])
    }
}

/// The whole batch: every proposal in stable key order.
pub open spec fn batch(grid: BlockGrid, all: Seq<MutationProposal>) -> BatchState {
    run(grid, all, stable_sort(all), all.len() as int)
}

} // verus!

verus! {

// ---------------------------------------------------------------------------------------------
// Facts about the specification
// ---------------------------------------------------------------------------------------------

proof fn lemma_insert_index_bounds(t: Seq<MutationProposal>, p: MutationProposal, j: int)
    requires
        0 <= j <= t.len(),
    ensures
        j <= insert_index_from(t, p, j) <= t.len(),
        forall|m: int| j <= m < insert_index_from(t, p, j) ==> !key_lt(p, #[trigger] t[m]),
        insert_index_from(t, p, j) < t.len() ==> key_lt(p, t[insert_index_from(t, p, j)]),
    decreases t.len() - j,
{
    if j < t.len() && !key_lt(p, t[j]) {
        lemma_insert_index_bounds(t, p, j + 1);
    }
}

/// Sorting keeps the number of proposals.
pub proof fn lemma_stable_sort_len(s: Seq<MutationProposal>)
    ensures
        stable_sort(s).len() == s.len(),
    decreases s.len(),
{
    if s.len() > 0 {
        lemma_stable_sort_len(s.drop_last());
        lemma_insert_index_bounds(stable_sort(s.drop_last()), s.last(), 0);
    }
}

proof fn lemma_no_duplicate(s: Seq<VoxelPos>, i: int)
    requires
        0 <= i,
        first_duplicate_from(s, i) is None,
    ensures
        forall|a: int, b: int| 0 <= a < b < s.len() && i <= b ==> s[a] != s[b],
    decreases s.len() - i,
{
    if i < s.len() {
        assert(!s.take(i).contains(s[i]));
        assert forall|a: int| 0 <= a < i implies s[a] != s[i] by {
            assert(s.take(i)[a] == s[a]);
        }
        lemma_no_duplicate(s, i + 1);
    }
}

proof fn lemma_no_conflict(
    overlay: Map<VoxelPos, Option<BlockState>>,
    writes: Seq<BlockWrite>,
    i: int,
)
    requires
        0 <= i,
        first_conflict_from(overlay, writes, i) is None,
    ensures
        forall|a: int| i <= a < writes.len() ==> !overlay.contains_key(#[trigger] writes[a].position),
    decreases writes.len() - i,
{
    if i < writes.len() {
        lemma_no_conflict(overlay, writes, i + 1);
    }
}

proof fn lemma_all_available(grid: BlockGrid, s: Seq<VoxelPos>, i: int)
    requires
        0 <= i,
        first_unavailable_from(grid, s, i) is None,
    ensures
        forall|a: int| i <= a < s.len() ==> grid.contents_at(#[trigger] s[a]) is Some,
    decreases s.len() - i,
{
    if i < s.len() {
        lemma_all_available(grid, s, i + 1);
    }
}

/// What the batch state guarantees at every step: every reported change lies in the overlay
/// with its final block and records the grid's block as `before`, no position is reported
/// twice, and every overlaid position is readable and either unchanged or reported.
pub open spec fn batch_inv(grid: BlockGrid, state: BatchState) -> bool {
    let overlay = state.0;
    let changes = state.2;
    &&& forall|k: int|
        #![trigger changes[k]]
        0 <= k < changes.len() ==> {
            &&& overlay.contains_key(changes[k].position)
            &&& overlay[changes[k].position] == changes[k].after
            &&& grid.contents_at(changes[k].position) == Some(changes[k].before)
        }
    &&& forall|k: int, l: int|
        0 <= k < l < changes.len() ==> #[trigger] changes[k].position != #[trigger] changes[l].position
    &&& forall|pos: VoxelPos| #[trigger]
        overlay.contains_key(pos) ==> {
            &&& grid.contents_at(pos) is Some
            &&& (overlay[pos] != grid.contents_at(pos)->0 ==> exists|k: int|
                0 <= k < changes.len() && changes[k].position == pos)
        }
}

proof fn lemma_apply_writes_inv(
    grid: BlockGrid,
    overlay: Map<VoxelPos, Option<BlockState>>,
    outcomes: Seq<ProposalOutcome>,
    changes: Seq<CellChange>,
    writes: Seq<BlockWrite>,
    i: int,
)
    requires
        0 <= i,
        batch_inv(grid, (overlay, outcomes, changes)),
        forall|a: int| i <= a < writes.len() ==> !overlay.contains_key(#[trigger] writes[a].position),
        forall|a: int| i <= a < writes.len() ==> grid.contents_at(#[trigger] writes[a].position) is Some,
        forall|a: int, b: int|
            i <= a < b < writes.len() ==> #[trigger] writes[a].position != #[trigger] writes[b].position,
    ensures
        ({
            let (o, c) = apply_writes_from(grid, overlay, changes, writes, i);
            &&& batch_inv(grid, (o, outcomes, c))
            &&& c.len() >= changes.len()
            &&& c.subrange(0, changes.len() as int) == changes
            &&& forall|pos: VoxelPos| overlay.contains_key(pos) ==> #[trigger] o.contains_key(pos) && o[pos] == overlay[pos]
        }),
    decreases writes.len() - i,
{
    if i < writes.len() {
        let w = writes[i];
        let before = current(grid, overlay, w.position);
        let next_changes = if before != w.state {
            changes.push(CellChange { position: w.position, before, after: w.state })
        } else {
            changes
        };
        let next_overlay = overlay.insert(w.position, w.state);
        assert(before == grid.contents_at(w.position)->0);
        assert(batch_inv(grid, (next_overlay, outcomes, next_changes))) by {
            assert forall|k: int, l: int|
                0 <= k < l < next_changes.len() implies #[trigger] next_changes[k].position
                != #[trigger] next_changes[l].position by {
                if l == changes.len() {
                    assert(overlay.contains_key(changes[k].position));
                }
            }
            assert forall|pos: VoxelPos| #[trigger]
                next_overlay.contains_key(pos) implies {
                &&& grid.contents_at(pos) is Some
                &&& (next_overlay[pos] != grid.contents_at(pos)->0 ==> exists|k: int|
                    0 <= k < next_changes.len() && next_changes[k].position == pos)
            } by {
                if pos == w.position {
                    if next_overlay[pos] != grid.contents_at(pos)->0 {
                        assert(next_changes[changes.len() as int].position == pos);
                    }
                } else {
                    if next_overlay[pos] != grid.contents_at(pos)->0 {
                        let k = choose|k: int| 0 <= k < changes.len() && changes[k].position == pos;
                        assert(next_changes[k] == changes[k]);
                    }
                }
            }
            assert forall|k: int| 0 <= k < next_changes.len() implies {
                &&& next_overlay.contains_key(#[trigger] next_changes[k].position)
                &&& next_overlay[next_changes[k].position] == next_changes[k].after
                &&& grid.contents_at(next_changes[k].position) == Some(next_changes[k].before)
            } by {
                if k < changes.len() {
                    assert(next_changes[k] == changes[k]);
                    assert(overlay.contains_key(changes[k].position));
                }
            }
        }
        lemma_apply_writes_inv(grid, next_overlay, outcomes, next_changes, writes, i + 1);
        let (o, c) = apply_writes_from(grid, next_overlay, next_changes, writes, i + 1);
        assert(c.subrange(0, changes.len() as int) =~= changes) by {
            assert(c.subrange(0, next_changes.len() as int) == next_changes);
            assert forall|k: int| 0 <= k < changes.len() implies c[k] == changes[k] by {
                assert(c.subrange(0, next_changes.len() as int)[k] == c[k]);
                assert(next_changes[k] == changes[k]);
            }
        }
    }
}

proof fn lemma_distinct_no_duplicate(s: Seq<VoxelPos>, i: int)
    requires
        0 <= i,
        forall|a: int, b: int| 0 <= a < b < s.len() ==> #[trigger] s[a] != #[trigger] s[b],
    ensures
        first_duplicate_from(s, i) is None,
    decreases s.len() - i,
{
    if i < s.len() {
        assert(!s.take(i).contains(s[i])) by {
            if s.take(i).contains(s[i]) {
                let k = choose|k: int| 0 <= k < s.take(i).len() && s.take(i)[k] == s[i];
                assert(s[k] == s[i]);
            }
        }
        lemma_distinct_no_duplicate(s, i + 1);
    }
}

proof fn lemma_readable_available(grid: BlockGrid, s: Seq<VoxelPos>, i: int)
    requires
        0 <= i,
        forall|a: int| 0 <= a < s.len() ==> grid.contents_at(#[trigger] s[a]) is Some,
    ensures
        first_unavailable_from(grid, s, i) is None,
    decreases s.len() - i,
{
    if i < s.len() {
        lemma_readable_available(grid, s, i + 1);
    }
}

proof fn lemma_preconditions_met(grid: BlockGrid, pres: Seq<BlockPrecondition>, i: int)
    requires
        0 <= i,
        forall|a: int| 0 <= a < pres.len() ==> grid.contents_at((#[trigger] pres[a]).position) == Some(pres[a].expected),
    ensures
        first_failed_from(grid, Map::empty(), pres, i) is None,
    decreases pres.len() - i,
{
    if i < pres.len() {
        lemma_preconditions_met(grid, pres, i + 1);
    }
}

proof fn lemma_fresh_writes_no_conflict(writes: Seq<BlockWrite>, i: int)
    requires
        0 <= i,
    ensures
        first_conflict_from(Map::empty(), writes, i) is None,
    decreases writes.len() - i,
{
    if i < writes.len() {
        lemma_fresh_writes_no_conflict(writes, i + 1);
    }
}

proof fn lemma_apply_overlay(
    grid: BlockGrid,
    overlay: Map<VoxelPos, Option<BlockState>>,
    changes: Seq<CellChange>,
    writes: Seq<BlockWrite>,
    i: int,
)
    requires
        0 <= i,
        forall|a: int, b: int| i <= a < b < writes.len() ==> #[trigger] writes[a].position != #[trigger] writes[b].position,
    ensures
        ({
            let o = apply_writes_from(grid, overlay, changes, writes, i).0;
            &&& forall|a: int| i <= a < writes.len() ==> #[trigger] o.contains_key(writes[a].position) && o[writes[a].position] == writes[a].state
            &&& forall|pos: VoxelPos| #[trigger] o.contains_key(pos) ==> overlay.contains_key(pos) || exists|a: int| i <= a < writes.len() && writes[a].position == pos
            &&& forall|pos: VoxelPos| overlay.contains_key(pos) && (forall|a: int| i <= a < writes.len() ==> writes[a].position != pos) ==> #[trigger] o.contains_key(pos) && o[pos] == overlay[pos]
        }),
    decreases writes.len() - i,
{
    if i < writes.len() {
        let w = writes[i];
        let before = current(grid, overlay, w.position);
        let next_changes = if before != w.state {
            changes.push(CellChange { position: w.position, before, after: w.state })
        } else {
            changes
        };
        lemma_apply_overlay(grid, overlay.insert(w.position, w.state), next_changes, writes, i + 1);
    }
}

/// A proposal in a batch of its own applies when it writes something, names no precondition
/// or write cell twice, can read every cell it names, and finds every precondition met; it then
/// leaves exactly its writes in the batch's overlay.
#[verifier::spinoff_prover]
pub proof fn lemma_sole_proposal_applies(grid: BlockGrid, p: MutationProposal)
    requires
        p.writes@.len() > 0,
        forall|a: int, b: int|
            0 <= a < b < p.preconditions@.len() ==> #[trigger] p.preconditions@[a].position != #[trigger] p.preconditions@[b].position,
        forall|a: int, b: int| 0 <= a < b < p.writes@.len() ==> #[trigger] p.writes@[a].position != #[trigger] p.writes@[b].position,
        grid.contents_at(p.source) is Some,
        forall|a: int| 0 <= a < p.writes@.len() ==> grid.contents_at((#[trigger] p.writes@[a]).position) is Some,
        forall|a: int|
            0 <= a < p.preconditions@.len() ==> grid.contents_at((#[trigger] p.preconditions@[a]).position) == Some(
                p.preconditions@[a].expected,
            ),
    ensures
        batch(grid, seq![p]).1 == seq![ProposalOutcome::Applied { sequence: p.sequence }],
        forall|a: int|
            0 <= a < p.writes@.len() ==> #[trigger] batch(grid, seq![p]).0.contains_key(p.writes@[a].position) && batch(
                grid,
                seq![p],
            ).0[p.writes@[a].position] == p.writes@[a].state,
        forall|pos: VoxelPos| #[trigger]
            batch(grid, seq![p]).0.contains_key(pos) ==> exists|a: int| 0 <= a < p.writes@.len() && p.writes@[a].position == pos,
        batch(grid, seq![p]).2 == apply_writes_from(grid, Map::empty(), Seq::empty(), p.writes@, 0).1,
{
    let all = seq![p];
    assert(stable_sort(all) =~= all) by {
        let e = Seq::<MutationProposal>::empty();
        assert(all.drop_last() =~= e);
        assert(stable_sort(e) == e);
        assert(insert_index_from(e, p, 0) == 0);
        assert(e.insert(0, p) =~= all);
    }
    assert(!duplicated(all, p));
    let pres = precondition_positions(p);
    let ws = write_positions(p);
    lemma_distinct_no_duplicate(pres, 0);
    lemma_distinct_no_duplicate(ws, 0);
    lemma_readable_available(grid, pres, 0);
    lemma_readable_available(grid, ws, 0);
    lemma_preconditions_met(grid, p.preconditions@, 0);
    lemma_fresh_writes_no_conflict(p.writes@, 0);
    assert(rejection_reason(grid, all, Map::empty(), p) is None);
    lemma_apply_overlay(grid, Map::empty(), Seq::empty(), p.writes@, 0);
    assert(run(grid, all, all, 0) == (Map::<VoxelPos, Option<BlockState>>::empty(), Seq::<ProposalOutcome>::empty(), Seq::<CellChange>::empty()));
    assert(batch(grid, all) == run(grid, all, all, 1));
    assert(run(grid, all, all, 1) == step(grid, all, run(grid, all, all, 0), p));
    let o = apply_writes_from(grid, Map::empty(), Seq::empty(), p.writes@, 0).0;
    assert(batch(grid, all).0 == o);
    assert forall|a: int| 0 <= a < p.writes@.len() implies #[trigger] batch(grid, all).0.contains_key(
        p.writes@[a].position,
    ) && batch(grid, all).0[p.writes@[a].position] == p.writes@[a].state by {
        assert(o.contains_key(p.writes@[a].position));
    }
}

/// Applying writes only ever adds cell changes.
pub proof fn lemma_changes_grow(
    grid: BlockGrid,
    overlay: Map<VoxelPos, Option<BlockState>>,
    changes: Seq<CellChange>,
    writes: Seq<BlockWrite>,
    i: int,
)
    ensures
        apply_writes_from(grid, overlay, changes, writes, i).1.len() >= changes.len(),
    decreases writes.len() - i,
{
    if 0 <= i < writes.len() {
        let w = writes[i];
        let before = current(grid, overlay, w.position);
        let next_changes = if before != w.state {
            changes.push(CellChange { position: w.position, before, after: w.state })
        } else {
            changes
        };
        lemma_changes_grow(grid, overlay.insert(w.position, w.state), next_changes, writes, i + 1);
    }
}

/// Every step of a batch keeps [`batch_inv`].
pub proof fn lemma_run_inv(
    grid: BlockGrid,
    all: Seq<MutationProposal>,
    order: Seq<MutationProposal>,
    n: int,
)
    requires
        0 <= n <= order.len(),
    ensures
        batch_inv(grid, run(grid, all, order, n)),
    decreases n,
{
    if n > 0 {
        lemma_run_inv(grid, all, order, n - 1);
        let state = run(grid, all, order, n - 1);
        let p = order[n - 1];
        if rejection_reason(grid, all, state.0, p) is None {
            lemma_no_conflict(state.0, p.writes@, 0);
            lemma_no_duplicate(write_positions(p), 0);
            lemma_all_available(grid, write_positions(p), 0);
            assert forall|a: int| 0 <= a < p.writes@.len() implies grid.contents_at(
                #[trigger] p.writes@[a].position,
            ) is Some by {
                assert(write_positions(p)[a] == p.writes@[a].position);
            }
            assert forall|a: int, b: int|
                0 <= a < b < p.writes@.len() implies #[trigger] p.writes@[a].position
                != #[trigger] p.writes@[b].position by {
                assert(write_positions(p)[a] == p.writes@[a].position);
                assert(write_positions(p)[b] == p.writes@[b].position);
            }
            lemma_apply_writes_inv(grid, state.0, state.1, state.2, p.writes@, 0);
            let (o, c) = apply_writes_from(grid, state.0, state.2, p.writes@, 0);
            assert(batch_inv(grid, (o, state.1.push(ProposalOutcome::Applied { sequence: p.sequence }), c)));
        }
    }
}

/// A precondition that does not hold at index `c` (at or after `i`) makes the scan from `i`
/// report a failure.
proof fn lemma_failed_precondition_found(
    grid: BlockGrid,
    overlay: Map<VoxelPos, Option<BlockState>>,
    pres: Seq<BlockPrecondition>,
    i: int,
    c: int,
)
    requires
        0 <= i <= c < pres.len(),
        current(grid, overlay, pres[c].position) != pres[c].expected,
    ensures
        first_failed_from(grid, overlay, pres, i) is Some,
    decreases c - i,
{
    if i < c && current(grid, overlay, pres[i].position) == pres[i].expected {
        lemma_failed_precondition_found(grid, overlay, pres, i + 1, c);
    }
}

/// Preconditions are judged against the batch so far. Once proposal `p` applies at its turn,
/// every cell it wrote holds the written state for the proposals after it: a later proposal
/// `q` whose precondition `c` on a cell `p` wrote (write `w`) expects anything else is
/// rejected. When that precondition is `q`'s first, the failure names the written state as
/// the cell's actual state; and a `q` that would apply at the start of the batch is rejected
/// for exactly that failure.
pub proof fn lemma_preconditions_see_earlier_writes(
    grid: BlockGrid,
    all: Seq<MutationProposal>,
    state: BatchState,
    p: MutationProposal,
    q: MutationProposal,
    w: int,
    c: int,
)
    requires
        rejection_reason(grid, all, state.0, p) is None,
        0 <= w < p.writes@.len(),
        0 <= c < q.preconditions@.len(),
        q.preconditions@[c].position == p.writes@[w].position,
        q.preconditions@[c].expected != p.writes@[w].state,
    ensures
        step(grid, all, state, p).1 == state.1.push(ProposalOutcome::Applied { sequence: p.sequence }),
        current(grid, step(grid, all, state, p).0, p.writes@[w].position) == p.writes@[w].state,
        rejection_reason(grid, all, step(grid, all, state, p).0, q) is Some,
        c == 0 ==> first_failed_from(grid, step(grid, all, state, p).0, q.preconditions@, 0) == Some(
            MutationRejection::PreconditionFailed {
                position: p.writes@[w].position,
                expected: q.preconditions@[0].expected,
                actual: p.writes@[w].state,
            },
        ),
        c == 0 && rejection_reason(grid, all, Map::empty(), q) is None ==> rejection_reason(
            grid,
            all,
            step(grid, all, state, p).0,
            q,
        ) == Some(
            MutationRejection::PreconditionFailed {
                position: p.writes@[w].position,
                expected: q.preconditions@[0].expected,
                actual: p.writes@[w].state,
            },
        ),
{
    lemma_no_duplicate(write_positions(p), 0);
    assert forall|a: int, b: int| 0 <= a < b < p.writes@.len() implies #[trigger] p.writes@[a].position
        != #[trigger] p.writes@[b].position by {
        assert(write_positions(p)[a] == p.writes@[a].position);
        assert(write_positions(p)[b] == p.writes@[b].position);
    }
    lemma_apply_overlay(grid, state.0, state.2, p.writes@, 0);
    let after = step(grid, all, state, p);
    assert(after.0 == apply_writes_from(grid, state.0, state.2, p.writes@, 0).0);
    assert(after.0.contains_key(p.writes@[w].position));
    lemma_failed_precondition_found(grid, after.0, q.preconditions@, 0, c);
}

/// A write at index `k` (at or after `i`) to a cell the overlay already holds makes the scan
/// from `i` report a conflict.
proof fn lemma_conflict_found(overlay: Map<VoxelPos, Option<BlockState>>, writes: Seq<BlockWrite>, i: int, k: int)
    requires
        0 <= i <= k < writes.len(),
        overlay.contains_key(writes[k].position),
    ensures
        first_conflict_from(overlay, writes, i) is Some,
    decreases k - i,
{
    if i < k && !overlay.contains_key(writes[i].position) {
        lemma_conflict_found(overlay, writes, i + 1, k);
    }
}

/// A cell is written at most once per batch: once proposal `p` applies at its turn, a later
/// proposal `q` that writes a cell `p` wrote (`q`'s write `k`, `p`'s write `w`) is rejected;
/// and a `q` that would apply at the start of the batch and has no preconditions is rejected
/// as a write conflict on the first such cell it writes.
pub proof fn lemma_writes_claim_their_cells(
    grid: BlockGrid,
    all: Seq<MutationProposal>,
    state: BatchState,
    p: MutationProposal,
    q: MutationProposal,
    w: int,
    k: int,
)
    requires
        rejection_reason(grid, all, state.0, p) is None,
        0 <= w < p.writes@.len(),
        0 <= k < q.writes@.len(),
        q.writes@[k].position == p.writes@[w].position,
    ensures
        rejection_reason(grid, all, step(grid, all, state, p).0, q) is Some,
        k == 0 && q.preconditions@.len() == 0 && rejection_reason(grid, all, Map::empty(), q) is None
            ==> rejection_reason(grid, all, step(grid, all, state, p).0, q) == Some(
            MutationRejection::WriteConflict(p.writes@[w].position),
        ),
{
    lemma_no_duplicate(write_positions(p), 0);
    assert forall|a: int, b: int| 0 <= a < b < p.writes@.len() implies #[trigger] p.writes@[a].position
        != #[trigger] p.writes@[b].position by {
        assert(write_positions(p)[a] == p.writes@[a].position);
        assert(write_positions(p)[b] == p.writes@[b].position);
    }
    lemma_apply_overlay(grid, state.0, state.2, p.writes@, 0);
    let after = step(grid, all, state, p);
    assert(after.0 == apply_writes_from(grid, state.0, state.2, p.writes@, 0).0);
    assert(after.0.contains_key(p.writes@[w].position));
    lemma_conflict_found(after.0, q.writes@, 0, k);
}

// ---------------------------------------------------------------------------------------------
// Order of submission
// ---------------------------------------------------------------------------------------------

/// Whether no two proposals share an ordering key.
pub open spec fn keys_distinct(s: Seq<MutationProposal>) -> bool {
    forall|i: int, j: int|
        0 <= i < s.len() && 0 <= j < s.len() && i != j ==> !same_key(
            #[trigger] s[i],
            #[trigger] s[j],
        )
}

/// Whether the proposals stand in strictly increasing key order.
pub open spec fn strictly_sorted(s: Seq<MutationProposal>) -> bool {
    forall|i: int, j: int| 0 <= i < j < s.len() ==> key_lt(#[trigger] s[i], #[trigger] s[j])
}

/// The key order is a strict total order on keys.
proof fn lemma_key_order(a: MutationProposal, b: MutationProposal, c: MutationProposal)
    ensures
        !key_lt(a, a),
        key_lt(a, b) && key_lt(b, c) ==> key_lt(a, c),
        key_lt(a, b) || key_lt(b, a) || same_key(a, b),
        same_key(a, b) ==> !key_lt(a, b),
{
    if layer_depth(a.source.layer) == layer_depth(b.source.layer) {
        assert(a.source.layer == b.source.layer);
    }
    if a.priority.0 == b.priority.0 {
        assert(a.priority == b.priority);
    }
}

/// Sorting keeps the proposals: the same ones, as many.
proof fn lemma_stable_sort_contents(s: Seq<MutationProposal>)
    ensures
        stable_sort(s).len() == s.len(),
        forall|x: MutationProposal| #[trigger] stable_sort(s).contains(x) <==> s.contains(x),
    decreases s.len(),
{
    if s.len() > 0 {
        let rest = s.drop_last();
        let x = s.last();
        lemma_stable_sort_contents(rest);
        let t = stable_sort(rest);
        lemma_insert_index_bounds(t, x, 0);
        let k = insert_index_from(t, x, 0);
        t.insert_ensures(k, x);
        let r = t.insert(k, x);
        assert forall|y: MutationProposal| r.contains(y) <==> s.contains(y) by {
            if r.contains(y) {
                let i = choose|i: int| 0 <= i < r.len() && r[i] == y;
                if i == k {
                    assert(s[s.len() - 1] == y);
                } else {
                    let m = if i < k { i } else { i - 1 };
                    assert(t[m] == y);
                    assert(t.contains(y));
                    assert(rest.contains(y));
                    let n = choose|n: int| 0 <= n < rest.len() && rest[n] == y;
                    assert(s[n] == y);
                }
            }
            if s.contains(y) {
                let n = choose|n: int| 0 <= n < s.len() && s[n] == y;
                if n == s.len() - 1 {
                    assert(r[k] == y);
                } else {
                    assert(rest[n] == y);
                    assert(rest.contains(y));
                    assert(t.contains(y));
                    let i = choose|i: int| 0 <= i < t.len() && t[i] == y;
                    if i < k {
                        assert(r[i] == y);
                    } else {
                        assert(r[i + 1] == y);
                    }
                }
            }
        }
    }
}

/// With distinct keys, sorting puts the proposals in strictly increasing key order.
proof fn lemma_stable_sort_sorted(s: Seq<MutationProposal>)
    requires
        keys_distinct(s),
    ensures
        strictly_sorted(stable_sort(s)),
    decreases s.len(),
{
    if s.len() > 0 {
        let rest = s.drop_last();
        let x = s.last();
        assert(keys_distinct(rest)) by {
            assert forall|i: int, j: int|
                0 <= i < rest.len() && 0 <= j < rest.len() && i != j implies !same_key(
                #[trigger] rest[i],
                #[trigger] rest[j],
            ) by {
                assert(rest[i] == s[i] && rest[j] == s[j]);
            }
        }
        lemma_stable_sort_sorted(rest);
        lemma_stable_sort_contents(rest);
        let t = stable_sort(rest);
        lemma_insert_index_bounds(t, x, 0);
        let k = insert_index_from(t, x, 0);
        t.insert_ensures(k, x);
        let r = t.insert(k, x);
        assert forall|m: int| 0 <= m < t.len() implies !same_key(#[trigger] t[m], x) by {
            assert(t.contains(t[m]));
            assert(rest.contains(t[m]));
            let i = choose|i: int| 0 <= i < rest.len() && rest[i] == t[m];
            assert(s[i] == t[m]);
            assert(!same_key(s[i], s[s.len() - 1]));
        }
        assert forall|m: int| 0 <= m < k implies key_lt(#[trigger] t[m], x) by {
            lemma_key_order(t[m], x, x);
        }
        assert forall|m: int| k <= m < t.len() implies key_lt(x, #[trigger] t[m]) by {
            if m > k {
                assert(key_lt(t[k], t[m]));
                lemma_key_order(x, t[k], t[m]);
            }
        }
        assert forall|i: int, j: int| 0 <= i < j < r.len() implies key_lt(
            #[trigger] r[i],
            #[trigger] r[j],
        ) by {
            if j < k {
                assert(r[i] == t[i] && r[j] == t[j]);
            } else if j == k {
                assert(r[i] == t[i]);
            } else if i < k {
                assert(r[i] == t[i] && r[j] == t[j - 1]);
                assert(key_lt(t[i], t[j - 1]));
            } else if i == k {
                assert(r[j] == t[j - 1]);
            } else {
                assert(r[i] == t[i - 1] && r[j] == t[j - 1]);
                assert(key_lt(t[i - 1], t[j - 1]));
            }
        }
    }
}

/// Two strictly sorted sequences that hold the same proposals are equal.
proof fn lemma_sorted_unique(r1: Seq<MutationProposal>, r2: Seq<MutationProposal>)
    requires
        strictly_sorted(r1),
        strictly_sorted(r2),
        forall|x: MutationProposal| #[trigger] r1.contains(x) <==> r2.contains(x),
    ensures
        r1 == r2,
    decreases r1.len(),
{
    if r1.len() == 0 {
        if r2.len() > 0 {
            assert(r2.contains(r2[0]));
            assert(!r1.contains(r2[0]));
        }
        assert(r1 =~= r2);
    } else {
        assert(r1.contains(r1[0]));
        assert(r2.contains(r1[0]));
        let j = choose|j: int| 0 <= j < r2.len() && r2[j] == r1[0];
        assert(r2.contains(r2[0]));
        assert(r1.contains(r2[0]));
        let i = choose|i: int| 0 <= i < r1.len() && r1[i] == r2[0];
        if i > 0 && j > 0 {
            assert(key_lt(r1[0], r1[i]));
            assert(key_lt(r2[0], r2[j]));
            lemma_key_order(r1[0], r2[0], r1[0]);
        }
        assert(r1[0] == r2[0]);
        let t1 = r1.subrange(1, r1.len() as int);
        let t2 = r2.subrange(1, r2.len() as int);
        assert(strictly_sorted(t1)) by {
            assert forall|a: int, b: int| 0 <= a < b < t1.len() implies key_lt(
                #[trigger] t1[a],
                #[trigger] t1[b],
            ) by {
                assert(t1[a] == r1[a + 1] && t1[b] == r1[b + 1]);
            }
        }
        assert(strictly_sorted(t2)) by {
            assert forall|a: int, b: int| 0 <= a < b < t2.len() implies key_lt(
                #[trigger] t2[a],
                #[trigger] t2[b],
            ) by {
                assert(t2[a] == r2[a + 1] && t2[b] == r2[b + 1]);
            }
        }
        assert forall|x: MutationProposal| #[trigger] t1.contains(x) <==> t2.contains(x) by {
            if t1.contains(x) {
                let a = choose|a: int| 0 <= a < t1.len() && t1[a] == x;
                assert(r1[a + 1] == x);
                assert(key_lt(r1[0], r1[a + 1]));
                lemma_key_order(x, x, x);
                assert(r1.contains(x));
                let b = choose|b: int| 0 <= b < r2.len() && r2[b] == x;
                assert(b != 0);
                assert(t2[b - 1] == x);
            }
            if t2.contains(x) {
                let b = choose|b: int| 0 <= b < t2.len() && t2[b] == x;
                assert(r2[b + 1] == x);
                assert(key_lt(r2[0], r2[b + 1]));
                lemma_key_order(x, x, x);
                assert(r2.contains(x));
                assert(r1.contains(x));
                let a = choose|a: int| 0 <= a < r1.len() && r1[a] == x;
                assert(a != 0);
                assert(t1[a - 1] == x);
            }
        }
        lemma_sorted_unique(t1, t2);
        assert forall|m: int| 0 <= m < r1.len() implies r1[m] == r2[m] by {
            if m > 0 {
                assert(r1[m] == t1[m - 1] && r2[m] == t2[m - 1]);
            }
        }
        assert(r1 =~= r2);
    }
}

/// With distinct keys no proposal of the batch counts as a duplicate.
proof fn lemma_no_duplicated(s: Seq<MutationProposal>)
    requires
        keys_distinct(s),
    ensures
        forall|p: MutationProposal| !#[trigger] duplicated(s, p),
{
    assert forall|p: MutationProposal| !#[trigger] duplicated(s, p) by {
        if duplicated(s, p) {
            let (i, j) = choose|i: int, j: int|
                0 <= i < s.len() && 0 <= j < s.len() && i != j && same_key(#[trigger] s[i], p)
                    && same_key(#[trigger] s[j], p);
            assert(same_key(s[i], s[j]));
        }
    }
}

/// Two batches that flag no duplicates run alike on any order.
proof fn lemma_run_without_duplicates(
    grid: BlockGrid,
    a: Seq<MutationProposal>,
    b: Seq<MutationProposal>,
    order: Seq<MutationProposal>,
    n: int,
)
    requires
        forall|p: MutationProposal| !#[trigger] duplicated(a, p),
        forall|p: MutationProposal| !#[trigger] duplicated(b, p),
    ensures
        run(grid, a, order, n) == run(grid, b, order, n),
    decreases n,
{
    if n > 0 {
        lemma_run_without_duplicates(grid, a, b, order, n - 1);
        assert(!duplicated(a, order[n - 1]) && !duplicated(b, order[n - 1]));
    }
}

/// A batch whose proposals have pairwise distinct ordering keys comes out the same whatever
/// order they were submitted in: the same writes, outcomes and cell changes.
pub proof fn lemma_batch_ignores_submission_order(
    grid: BlockGrid,
    a: Seq<MutationProposal>,
    b: Seq<MutationProposal>,
)
    requires
        a.to_multiset() == b.to_multiset(),
        keys_distinct(a),
    ensures
        batch(grid, a) == batch(grid, b),
{
    broadcast use vstd::seq_lib::group_to_multiset_ensures;

    a.to_multiset_ensures();
    b.to_multiset_ensures();
    assert(a.len() == b.len());
    assert forall|x: MutationProposal| a.contains(x) <==> b.contains(x) by {
        assert(a.contains(x) <==> a.to_multiset().count(x) > 0);
        assert(b.contains(x) <==> b.to_multiset().count(x) > 0);
    }
    assert(a.no_duplicates()) by {
        assert forall|i: int, j: int| 0 <= i < a.len() && 0 <= j < a.len() && i != j implies a[i]
            != a[j] by {
            assert(!same_key(a[i], a[j]));
        }
    }
    a.lemma_multiset_has_no_duplicates();
    b.lemma_multiset_has_no_duplicates_conv();
    assert(keys_distinct(b)) by {
        assert forall|i: int, j: int|
            0 <= i < b.len() && 0 <= j < b.len() && i != j implies !same_key(
            #[trigger] b[i],
            #[trigger] b[j],
        ) by {
            assert(b.contains(b[i]) && b.contains(b[j]));
            let ia = choose|k: int| 0 <= k < a.len() && a[k] == b[i];
            let ja = choose|k: int| 0 <= k < a.len() && a[k] == b[j];
            assert(b[i] != b[j]);
            assert(ia != ja);
        }
    }
    lemma_stable_sort_sorted(a);
    lemma_stable_sort_sorted(b);
    lemma_stable_sort_contents(a);
    lemma_stable_sort_contents(b);
    lemma_sorted_unique(stable_sort(a), stable_sort(b));
    lemma_no_duplicated(a);
    lemma_no_duplicated(b);
    lemma_run_without_duplicates(grid, a, b, stable_sort(a), a.len() as int);
}

} // verus!

verus! {

// ---------------------------------------------------------------------------------------------
// Executable pieces
// ---------------------------------------------------------------------------------------------

fn layer_rank(layer: crate::domain::world::VoxelLayer) -> (result: u8)
    ensures
        result == layer_depth(layer),
{
    layer.depth()
}

fn pos_less(a: VoxelPos, b: VoxelPos) -> (result: bool)
    ensures
        result == pos_lt(a, b),
{
    a.global_x < b.global_x || (a.global_x == b.global_x && (a.y < b.y || (a.y == b.y
        && layer_rank(a.layer) < layer_rank(b.layer))))
}

fn key_less(a: &MutationProposal, b: &MutationProposal) -> (result: bool)
    ensures
        result == key_lt(*a, *b),
{
    a.priority.0 < b.priority.0 || (a.priority == b.priority && (pos_less(a.source, b.source) || (
    a.source == b.source && a.sequence < b.sequence)))
}

fn keys_equal(a: &MutationProposal, b: &MutationProposal) -> (result: bool)
    ensures
        result == same_key(*a, *b),
{
    a.priority == b.priority && a.source == b.source && a.sequence == b.sequence
}

/// Indices of the proposals in stable key order.
fn sorted_order(proposals: &Vec<MutationProposal>) -> (order: Vec<usize>)
    ensures
        order@.len() == proposals@.len(),
        forall|k: int| 0 <= k < order@.len() ==> #[trigger] order@[k] < proposals@.len(),
        order@.map_values(|i: usize| proposals@[i as int]) == stable_sort(proposals@),
{
    let mut order: Vec<usize> = Vec::new();
    let n = proposals.len();
    let mut i: usize = 0;
    while i < n
        invariant
            n == proposals@.len(),
            i <= n,
            order@.len() == i,
            forall|k: int| 0 <= k < order@.len() ==> #[trigger] order@[k] < i,
            order@.map_values(|x: usize| proposals@[x as int]) == stable_sort(proposals@.take(i as int)),
        decreases n - i,
    {
        let ghost t = order@.map_values(|x: usize| proposals@[x as int]);
        let ghost p = proposals@[i as int];
        let mut j: usize = 0;
        while j < order.len() && !key_less(&proposals[i], &proposals[order[j]])
            invariant
                n == proposals@.len(),
                i < n,
                j <= order@.len(),
                forall|k: int| 0 <= k < order@.len() ==> #[trigger] order@[k] < i,
                t == order@.map_values(|x: usize| proposals@[x as int]),
                p == proposals@[i as int],
                insert_index_from(t, p, 0) == insert_index_from(t, p, j as int),
            decreases order@.len() - j,
        {
            j += 1;
        }
        proof {
            assert(insert_index_from(t, p, j as int) == j);
        }
        order.insert(j, i);
        proof {
            let s = proposals@.take(i as int + 1);
            assert(s.drop_last() =~= proposals@.take(i as int));
            assert(s.last() == p);
            assert(order@.map_values(|x: usize| proposals@[x as int]) =~= t.insert(j as int, p));
        }
        i += 1;
    }
    proof {
        assert(proposals@.take(n as int) =~= proposals@);
    }
    order
}

/// Whether another proposal shares the ordering key of proposal `index`.
fn is_duplicated(proposals: &Vec<MutationProposal>, index: usize) -> (result: bool)
    requires
        index < proposals@.len(),
    ensures
        result == duplicated(proposals@, proposals@[index as int]),
{
    let mut j: usize = 0;
    while j < proposals.len()
        invariant
            index < proposals@.len(),
            j <= proposals@.len(),
            forall|k: int|
                0 <= k < j && k != index ==> !same_key(#[trigger] proposals@[k], proposals@[index as int]),
        decreases proposals@.len() - j,
    {
        if j != index && keys_equal(&proposals[j], &proposals[index]) {
            proof {
                assert(same_key(proposals@[index as int], proposals@[index as int]));
            }
            return true;
        }
        j += 1;
    }
    proof {
        let all = proposals@;
        let p = all[index as int];
        if duplicated(all, p) {
            let (a, b) = choose|a: int, b: int|
                0 <= a < all.len() && 0 <= b < all.len() && a != b && same_key(#[trigger] all[a], p)
                    && same_key(#[trigger] all[b], p);
            if a != index {
                assert(!same_key(all[a], p));
            } else {
                assert(!same_key(all[b], p));
            }
        }
    }
    false
}

fn precondition_positions_vec(p: &MutationProposal) -> (result: Vec<VoxelPos>)
    ensures
        result@ == precondition_positions(*p),
{
    let mut result: Vec<VoxelPos> = Vec::new();
    let mut i: usize = 0;
    while i < p.preconditions.len()
        invariant
            i <= p.preconditions@.len(),
            result@ == precondition_positions(*p).take(i as int),
        decreases p.preconditions@.len() - i,
    {
        result.push(p.preconditions[i].position);
        i += 1;
        proof {
            assert(result@ =~= precondition_positions(*p).take(i as int));
        }
    }
    proof {
        assert(precondition_positions(*p).take(i as int) =~= precondition_positions(*p));
    }
    result
}

fn write_positions_vec(p: &MutationProposal) -> (result: Vec<VoxelPos>)
    ensures
        result@ == write_positions(*p),
{
    let mut result: Vec<VoxelPos> = Vec::new();
    let mut i: usize = 0;
    while i < p.writes.len()
        invariant
            i <= p.writes@.len(),
            result@ == write_positions(*p).take(i as int),
        decreases p.writes@.len() - i,
    {
        result.push(p.writes[i].position);
        i += 1;
        proof {
            assert(result@ =~= write_positions(*p).take(i as int));
        }
    }
    proof {
        assert(write_positions(*p).take(i as int) =~= write_positions(*p));
    }
    result
}

/// The first position that already occurred earlier in the list.
fn first_duplicate(positions: &Vec<VoxelPos>) -> (result: Option<VoxelPos>)
    ensures
        result == first_duplicate_from(positions@, 0),
{
    let s = Ghost(positions@);
    let mut i: usize = 0;
    while i < positions.len()
        invariant
            s@ == positions@,
            i <= positions@.len(),
            first_duplicate_from(s@, 0) == first_duplicate_from(s@, i as int),
        decreases positions@.len() - i,
    {
        let mut j: usize = 0;
        while j < i
            invariant
                s@ == positions@,
                j <= i < positions@.len(),
                first_duplicate_from(s@, 0) == first_duplicate_from(s@, i as int),
                forall|k: int| 0 <= k < j ==> positions@[k] != positions@[i as int],
            decreases i - j,
        {
            if positions[j] == positions[i] {
                proof {
                    assert(positions@[j as int] == positions@[i as int]);
                    assert(s@.take(i as int)[j as int] == s@[i as int]);
                    assert(s@.take(i as int).contains(s@[i as int]));
                    assert(first_duplicate_from(s@, i as int) == Some(s@[i as int]));
                }
                return Some(positions[i]);
            }
            j += 1;
        }
        proof {
            assert(!s@.take(i as int).contains(s@[i as int])) by {
                if s@.take(i as int).contains(s@[i as int]) {
                    let k = choose|k: int| 0 <= k < i && s@.take(i as int)[k] == s@[i as int];
                    assert(positions@[k] != positions@[i as int]);
                }
            }
        }
        i += 1;
    }
    None
}

/// The first position the grid cannot read.
fn first_unreadable(grid: &BlockGrid, positions: &Vec<VoxelPos>) -> (result: Option<VoxelPos>)
    requires
        grid.wf(),
    ensures
        result == first_unavailable_from(*grid, positions@, 0),
{
    let mut i: usize = 0;
    while i < positions.len()
        invariant
            grid.wf(),
            i <= positions@.len(),
            first_unavailable_from(*grid, positions@, 0) == first_unavailable_from(
                *grid,
                positions@,
                i as int,
            ),
        decreases positions@.len() - i,
    {
        if readable(grid, positions[i]).is_none() {
            return Some(positions[i]);
        }
        i += 1;
    }
    None
}

fn readable(grid: &BlockGrid, position: VoxelPos) -> (result: Option<Option<BlockState>>)
    requires
        grid.wf(),
    ensures
        result == grid.contents_at(position),
{
    match grid.cell(position) {
        crate::domain::world::VoxelCell::Air => Some(None),
        crate::domain::world::VoxelCell::Block(state) => Some(Some(state)),
        _ => None,
    }
}

/// Whether `applied` lists exactly the entries of `overlay`, each position once.
pub open spec fn represents(
    applied: Seq<(VoxelPos, Option<BlockState>)>,
    overlay: Map<VoxelPos, Option<BlockState>>,
) -> bool {
    &&& forall|k: int|
        #![trigger applied[k]]
        0 <= k < applied.len() ==> overlay.contains_key(applied[k].0) && overlay[applied[k].0]
            == applied[k].1
    &&& forall|pos: VoxelPos| #[trigger]
        overlay.contains_key(pos) ==> exists|k: int| 0 <= k < applied.len() && applied[k].0 == pos
}

fn lookup(
    applied: &Vec<(VoxelPos, Option<BlockState>)>,
    Ghost(overlay): Ghost<Map<VoxelPos, Option<BlockState>>>,
    position: VoxelPos,
) -> (result: Option<Option<BlockState>>)
    requires
        represents(applied@, overlay),
    ensures
        result == (if overlay.contains_key(position) {
            Some(overlay[position])
        } else {
            None::<Option<BlockState>>
        }),
{
    let mut k: usize = 0;
    while k < applied.len()
        invariant
            represents(applied@, overlay),
            k <= applied@.len(),
            forall|j: int| 0 <= j < k ==> applied@[j].0 != position,
        decreases applied@.len() - k,
    {
        if applied[k].0 == position {
            return Some(applied[k].1);
        }
        k += 1;
    }
    None
}

fn current_state(
    grid: &BlockGrid,
    applied: &Vec<(VoxelPos, Option<BlockState>)>,
    Ghost(overlay): Ghost<Map<VoxelPos, Option<BlockState>>>,
    position: VoxelPos,
) -> (result: Option<BlockState>)
    requires
        grid.wf(),
        represents(applied@, overlay),
    ensures
        result == current(*grid, overlay, position),
{
    match lookup(applied, Ghost(overlay), position) {
        Some(state) => state,
        None => match readable(grid, position) {
            Some(contents) => contents,
            None => None,
        },
    }
}

fn first_failed(
    grid: &BlockGrid,
    applied: &Vec<(VoxelPos, Option<BlockState>)>,
    Ghost(overlay): Ghost<Map<VoxelPos, Option<BlockState>>>,
    preconditions: &Vec<BlockPrecondition>,
) -> (result: Option<MutationRejection>)
    requires
        grid.wf(),
        represents(applied@, overlay),
    ensures
        result == first_failed_from(*grid, overlay, preconditions@, 0),
{
    let mut i: usize = 0;
    while i < preconditions.len()
        invariant
            grid.wf(),
            represents(applied@, overlay),
            i <= preconditions@.len(),
            first_failed_from(*grid, overlay, preconditions@, 0) == first_failed_from(
                *grid,
                overlay,
                preconditions@,
                i as int,
            ),
        decreases preconditions@.len() - i,
    {
        let precondition = preconditions[i];
        let actual = current_state(grid, applied, Ghost(overlay), precondition.position);
        if actual != precondition.expected {
            return Some(
                MutationRejection::PreconditionFailed {
                    position: precondition.position,
                    expected: precondition.expected,
                    actual,
                },
            );
        }
        i += 1;
    }
    None
}

fn first_conflict(
    applied: &Vec<(VoxelPos, Option<BlockState>)>,
    Ghost(overlay): Ghost<Map<VoxelPos, Option<BlockState>>>,
    writes: &Vec<BlockWrite>,
) -> (result: Option<VoxelPos>)
    requires
        represents(applied@, overlay),
    ensures
        result == first_conflict_from(overlay, writes@, 0),
{
    let mut i: usize = 0;
    while i < writes.len()
        invariant
            represents(applied@, overlay),
            i <= writes@.len(),
            first_conflict_from(overlay, writes@, 0) == first_conflict_from(overlay, writes@, i as int),
        decreases writes@.len() - i,
    {
        if lookup(applied, Ghost(overlay), writes[i].position).is_some() {
            return Some(writes[i].position);
        }
        i += 1;
    }
    None
}

} // verus!

verus! {

fn rejection(
    grid: &BlockGrid,
    proposals: &Vec<MutationProposal>,
    index: usize,
    applied: &Vec<(VoxelPos, Option<BlockState>)>,
    Ghost(overlay): Ghost<Map<VoxelPos, Option<BlockState>>>,
) -> (result: Option<MutationRejection>)
    requires
        grid.wf(),
        index < proposals@.len(),
        represents(applied@, overlay),
    ensures
        result == rejection_reason(*grid, proposals@, overlay, proposals@[index as int]),
{
    let p = &proposals[index];
    if is_duplicated(proposals, index) {
        return Some(MutationRejection::DuplicateOrderingKey);
    }
    if p.writes.len() == 0 {
        return Some(MutationRejection::EmptyWrites);
    }
    let preconditions = precondition_positions_vec(p);
    if let Some(position) = first_duplicate(&preconditions) {
        return Some(MutationRejection::DuplicatePrecondition(position));
    }
    let writes = write_positions_vec(p);
    if let Some(position) = first_duplicate(&writes) {
        return Some(MutationRejection::DuplicateWrite(position));
    }
    if readable(grid, p.source).is_none() {
        return Some(MutationRejection::Unavailable(p.source));
    }
    if let Some(position) = first_unreadable(grid, &preconditions) {
        return Some(MutationRejection::Unavailable(position));
    }
    if let Some(position) = first_unreadable(grid, &writes) {
        return Some(MutationRejection::Unavailable(position));
    }
    if let Some(reason) = first_failed(grid, applied, Ghost(overlay), &p.preconditions) {
        return Some(reason);
    }
    if let Some(position) = first_conflict(applied, Ghost(overlay), &p.writes) {
        return Some(MutationRejection::WriteConflict(position));
    }
    None
}

fn apply_writes(
    grid: &BlockGrid,
    writes: &Vec<BlockWrite>,
    applied: &mut Vec<(VoxelPos, Option<BlockState>)>,
    changes: &mut Vec<CellChange>,
    Ghost(overlay): Ghost<Map<VoxelPos, Option<BlockState>>>,
) -> (result: Ghost<Map<VoxelPos, Option<BlockState>>>)
    requires
        grid.wf(),
        represents(old(applied)@, overlay),
        forall|a: int| 0 <= a < writes@.len() ==> !overlay.contains_key(#[trigger] writes@[a].position),
        forall|a: int, b: int|
            0 <= a < b < writes@.len() ==> #[trigger] writes@[a].position != #[trigger] writes@[b].position,
    ensures
        represents(final(applied)@, result@),
        (result@, final(changes)@) == apply_writes_from(*grid, overlay, old(changes)@, writes@, 0),
{
    let ghost mut current_overlay = overlay;
    let mut i: usize = 0;
    while i < writes.len()
        invariant
            grid.wf(),
            i <= writes@.len(),
            represents(applied@, current_overlay),
            forall|a: int| i <= a < writes@.len() ==> !current_overlay.contains_key(#[trigger] writes@[a].position),
            forall|a: int, b: int|
                0 <= a < b < writes@.len() ==> #[trigger] writes@[a].position != #[trigger] writes@[b].position,
            apply_writes_from(*grid, overlay, old(changes)@, writes@, 0) == apply_writes_from(
                *grid,
                current_overlay,
                changes@,
                writes@,
                i as int,
            ),
        decreases writes@.len() - i,
    {
        let write = writes[i];
        let before = current_state(grid, applied, Ghost(current_overlay), write.position);
        if before != write.state {
            changes.push(CellChange { position: write.position, before, after: write.state });
        }
        let ghost previous = applied@;
        applied.push((write.position, write.state));
        proof {
            let next = current_overlay.insert(write.position, write.state);
            assert(represents(applied@, next)) by {
                assert forall|k: int| 0 <= k < applied@.len() implies next.contains_key(
                    #[trigger] applied@[k].0,
                ) && next[applied@[k].0] == applied@[k].1 by {
                    if k < previous.len() {
                        assert(applied@[k] == previous[k]);
                        assert(current_overlay.contains_key(previous[k].0));
                    }
                }
                assert forall|pos: VoxelPos| #[trigger] next.contains_key(pos) implies exists|k: int|
                    0 <= k < applied@.len() && applied@[k].0 == pos by {
                    if pos == write.position {
                        assert(applied@[previous.len() as int].0 == pos);
                    } else {
                        let k = choose|k: int| 0 <= k < previous.len() && previous[k].0 == pos;
                        assert(applied@[k] == previous[k]);
                    }
                }
            }
            current_overlay = next;
        }
        i += 1;
    }
    Ghost(current_overlay)
}

impl BlockGrid {
    /// Applies a batch of proposals atomically per proposal.
    ///
    /// Proposals are taken in stable order of `(priority, source, sequence)`. A proposal that
    /// shares its key with another is rejected, as is one with no writes, repeated positions,
    /// an unreadable position, a failed precondition (judged against the writes applied before
    /// it) or a write to a cell an earlier proposal already wrote. A rejected proposal changes
    /// nothing; an applied one writes all its cells. The grid receives every applied write.
    pub fn commit_batch(&mut self, proposals: Vec<MutationProposal>) -> (result: MutationBatchResult)
        requires
            old(self).wf(),
        ensures
            final(self).wf(),
            final(self).spec_height() == old(self).spec_height(),
            final(self).spec_chunks().dom() == old(self).spec_chunks().dom(),
            ({
                let st = batch(*old(self), proposals@);
                &&& result.outcomes@ == st.1
                &&& result.report.cell_changes@ == st.2
                &&& result.report.chunk_changes@.len() == 0
                &&& forall|pos: VoxelPos|
                    #[trigger] final(self).contents_at(pos) == (if st.0.contains_key(pos) {
                        Some(st.0[pos])
                    } else {
                        old(self).contents_at(pos)
                    })
            }),
    {
        let ghost original = *old(self);
        let ghost sorted = stable_sort(proposals@);
        proof {
            lemma_stable_sort_len(proposals@);
        }
        let order = sorted_order(&proposals);
        let mut outcomes: Vec<ProposalOutcome> = Vec::new();
        let mut changes: Vec<CellChange> = Vec::new();
        let mut applied: Vec<(VoxelPos, Option<BlockState>)> = Vec::new();
        let ghost mut overlay: Map<VoxelPos, Option<BlockState>> = Map::empty();
        let mut k: usize = 0;
        while k < order.len()
            invariant
                *self == original,
                original.wf(),
                k <= order@.len(),
                order@.len() == proposals@.len(),
                sorted.len() == proposals@.len(),
                forall|j: int| 0 <= j < order@.len() ==> #[trigger] order@[j] < proposals@.len(),
                order@.map_values(|i: usize| proposals@[i as int]) == sorted,
                represents(applied@, overlay),
                (overlay, outcomes@, changes@) == run(original, proposals@, sorted, k as int),
            decreases order@.len() - k,
        {
            let index = order[k];
            proof {
                assert(sorted[k as int] == proposals@[index as int]);
            }
            match rejection(self, &proposals, index, &applied, Ghost(overlay)) {
                Some(reason) => {
                    outcomes.push(ProposalOutcome::Rejected { sequence: proposals[index].sequence, reason });
                },
                None => {
                    let ghost p = proposals@[index as int];
                    proof {
                        lemma_no_conflict(overlay, p.writes@, 0);
                        lemma_no_duplicate(write_positions(p), 0);
                        assert forall|a: int, b: int|
                            0 <= a < b < p.writes@.len() implies #[trigger] p.writes@[a].position
                            != #[trigger] p.writes@[b].position by {
                            assert(write_positions(p)[a] == p.writes@[a].position);
                            assert(write_positions(p)[b] == p.writes@[b].position);
                        }
                    }
                    let next = apply_writes(self, &proposals[index].writes, &mut applied, &mut changes, Ghost(overlay));
                    proof {
                        overlay = next@;
                    }
                    outcomes.push(ProposalOutcome::Applied { sequence: proposals[index].sequence });
                },
            }
            k += 1;
        }
        proof {
            lemma_run_inv(original, proposals@, sorted, proposals@.len() as int);
        }
        let mut m: usize = 0;
        while m < changes.len()
            invariant
                original.wf(),
                self.wf(),
                m <= changes@.len(),
                self.spec_height() == original.spec_height(),
                self.spec_chunks().dom() == original.spec_chunks().dom(),
                batch_inv(original, (overlay, outcomes@, changes@)),
                forall|pos: VoxelPos|
                    #[trigger] self.contents_at(pos) == (if exists|j: int|
                        0 <= j < m && changes@[j].position == pos {
                        Some(overlay[pos])
                    } else {
                        original.contents_at(pos)
                    }),
            decreases changes@.len() - m,
        {
            let change = changes[m];
            proof {
                assert(changes@[m as int] == change);
                assert(original.contents_at(change.position) is Some);
                if exists|j: int| 0 <= j < m && changes@[j].position == change.position {
                    let j = choose|j: int| 0 <= j < m && changes@[j].position == change.position;
                    assert(changes@[j].position != changes@[m as int].position);
                }
            }
            self.set_cell(change.position, change.after);
            m += 1;
        }
        proof {
            assert forall|pos: VoxelPos|
                #[trigger] self.contents_at(pos) == (if overlay.contains_key(pos) {
                    Some(overlay[pos])
                } else {
                    original.contents_at(pos)
                }) by {
                if exists|j: int| 0 <= j < m && changes@[j].position == pos {
                    let j = choose|j: int| 0 <= j < m && changes@[j].position == pos;
                    assert(overlay.contains_key(changes@[j].position));
                } else if overlay.contains_key(pos) {
                    assert(overlay[pos] == original.contents_at(pos)->0);
                }
            }
        }
        MutationBatchResult {
            outcomes,
            report: MutationReport { cell_changes: changes, chunk_changes: Vec::new() },
        }
    }
}

} // verus!

verus! {

/// The report of a chunk column entering or leaving the world: one entry per layer,
/// foreground first.
pub open spec fn chunk_report(chunk_x: i64, integrated: bool) -> Seq<ChunkChange> {
    if integrated {
        seq![
            ChunkChange::Integrated(ChunkLayer { chunk_x, layer: VoxelLayer::Foreground }),
            ChunkChange::Integrated(ChunkLayer { chunk_x, layer: VoxelLayer::Backwall }),
        ]
    } else {
        seq![
            ChunkChange::Unloaded(ChunkLayer { chunk_x, layer: VoxelLayer::Foreground }),
            ChunkChange::Unloaded(ChunkLayer { chunk_x, layer: VoxelLayer::Backwall }),
        ]
    }
}

impl BlockGrid {
    /// Loads a chunk, replacing any chunk already loaded at its coordinate, and reports both
    /// of its layers as integrated.
    pub fn integrate_chunk(&mut self, chunk: BlockChunk) -> (result: MutationReport)
        requires
            old(self).wf(),
            chunk.wf(),
        ensures
            final(self).wf(),
            final(self).spec_height() == old(self).spec_height(),
            final(self).spec_chunks() == old(self).spec_chunks().insert(chunk.spec_x(), chunk),
            result.cell_changes@.len() == 0,
            result.chunk_changes@ == chunk_report(chunk.spec_x(), true),
    {
        let chunk_x = chunk.x();
        self.insert_chunk(chunk);
        let mut chunk_changes: Vec<ChunkChange> = Vec::new();
        chunk_changes.push(ChunkChange::Integrated(ChunkLayer::foreground(chunk_x)));
        chunk_changes.push(ChunkChange::Integrated(ChunkLayer::backwall(chunk_x)));
        proof {
            assert(chunk_changes@ =~= chunk_report(chunk_x, true));
        }
        MutationReport { cell_changes: Vec::new(), chunk_changes }
    }

    /// Unloads a chunk and hands it back; both layers are reported only when it was loaded.
    pub fn unload_chunk(&mut self, chunk_x: i64) -> (result: (Option<BlockChunk>, MutationReport))
        requires
            old(self).wf(),
        ensures
            final(self).wf(),
            final(self).spec_height() == old(self).spec_height(),
            final(self).spec_chunks() == old(self).spec_chunks().remove(chunk_x),
            result.0 is Some <==> old(self).spec_chunks().contains_key(chunk_x),
            result.0 matches Some(chunk) ==> chunk == old(self).spec_chunks()[chunk_x] && chunk.wf(),
            result.1.cell_changes@.len() == 0,
            result.1.chunk_changes@ == (if result.0 is Some {
                chunk_report(chunk_x, false)
            } else {
                Seq::<ChunkChange>::empty()
            }),
    {
        let removed = self.remove_chunk(chunk_x);
        let mut chunk_changes: Vec<ChunkChange> = Vec::new();
        if removed.is_some() {
            chunk_changes.push(ChunkChange::Unloaded(ChunkLayer::foreground(chunk_x)));
            chunk_changes.push(ChunkChange::Unloaded(ChunkLayer::backwall(chunk_x)));
        }
        proof {
            if removed is Some {
                assert(chunk_changes@ =~= chunk_report(chunk_x, false));
            } else {
                assert(chunk_changes@ =~= Seq::<ChunkChange>::empty());
            }
        }
        (removed, MutationReport { cell_changes: Vec::new(), chunk_changes })
    }
}

} // verus!
