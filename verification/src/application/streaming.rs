use std::collections::{BTreeSet, HashSet};
use vstd::prelude::*;

use crate::application::repository::WorldId;
use crate::application::session::{SessionInstanceId, WorldSession};
use crate::domain::world::BlockChunk;

verus! {

/// How far around the player chunks are simulated, kept rendered, and kept loaded.
#[derive(Debug, Clone, Copy, PartialEq, Eq, Structural)]
pub struct StreamConfig {
    pub simulation_radius: u32,
    pub render_radius: u32,
    pub unload_radius: u32,
}

impl Default for StreamConfig {
    fn default() -> (result: StreamConfig)
        ensures
            result == (StreamConfig { simulation_radius: 3, render_radius: 5, unload_radius: 7 }),
    {
        StreamConfig { simulation_radius: 3, render_radius: 5, unload_radius: 7 }
    }
}

/// The bands nest: every simulated chunk is rendered, and unloading starts strictly beyond
/// the rendered band.
pub open spec fn bands_nested(config: StreamConfig) -> bool {
    config.simulation_radius <= config.render_radius && config.render_radius < config.unload_radius
}

/// How many chunks apart two chunk columns are.
pub open spec fn chunk_distance(a: i64, b: i64) -> int {
    if a >= b {
        a - b
    } else {
        b - a
    }
}

/// The chunk window around the player's chunk.
#[derive(Debug, Clone, Copy, PartialEq, Eq, Structural)]
pub struct StreamWindow {
    center_chunk: i64,
    config: StreamConfig,
}

impl StreamWindow {
    pub closed spec fn spec_center(&self) -> i64 {
        self.center_chunk
    }

    pub closed spec fn spec_config(&self) -> StreamConfig {
        self.config
    }

    /// The window's bands nest.
    pub open spec fn wf(&self) -> bool {
        bands_nested(self.spec_config())
    }

    /// A window around `center_chunk`; its bands must nest.
    pub fn new(center_chunk: i64, config: StreamConfig) -> (result: StreamWindow)
        requires
            bands_nested(config),
        ensures
            result.wf(),
            result.spec_center() == center_chunk,
            result.spec_config() == config,
    {
        StreamWindow { center_chunk, config }
    }

    pub fn center_chunk(self) -> (result: i64)
        ensures
            result == self.spec_center(),
    {
        self.center_chunk
    }

    pub fn config(self) -> (result: StreamConfig)
        ensures
            result == self.spec_config(),
    {
        self.config
    }

    /// Whether the chunk is simulated.
    pub fn contains_simulation(self, chunk_x: i64) -> (result: bool)
        ensures
            result == (chunk_distance(self.spec_center(), chunk_x) <= self.spec_config().simulation_radius),
    {
        self.distance(chunk_x) <= self.config.simulation_radius as u64
    }

    /// Whether the chunk is rendered.
    pub fn contains_render(self, chunk_x: i64) -> (result: bool)
        ensures
            result == (chunk_distance(self.spec_center(), chunk_x) <= self.spec_config().render_radius),
    {
        self.distance(chunk_x) <= self.config.render_radius as u64
    }

    /// Whether the chunk lies beyond the retention band and should be unloaded.
    pub fn should_unload(self, chunk_x: i64) -> (result: bool)
        ensures
            result == (chunk_distance(self.spec_center(), chunk_x) > self.spec_config().unload_radius),
    {
        self.distance(chunk_x) > self.config.unload_radius as u64
    }

    /// The order in which finished chunks are taken in: nearest first, then the side toward
    /// larger coordinates, then by coordinate.
    pub fn request_priority(self, chunk_x: i64) -> (result: (u64, bool, i64))
        ensures
            result == (chunk_distance(self.spec_center(), chunk_x) as u64, chunk_x < self.spec_center(), chunk_x),
    {
        (self.distance(chunk_x), chunk_x < self.center_chunk, chunk_x)
    }

    fn distance(self, chunk_x: i64) -> (result: u64)
        ensures
            result == chunk_distance(self.center_chunk, chunk_x),
    {
        if self.center_chunk >= chunk_x {
            (self.center_chunk as i128 - chunk_x as i128) as u64
        } else {
            (chunk_x as i128 - self.center_chunk as i128) as u64
        }
    }
}

/// The bands of a window nest: a simulated chunk is rendered, and a rendered chunk is never
/// unloaded.
pub proof fn lemma_bands_nest(window: StreamWindow, chunk_x: i64)
    requires
        window.wf(),
    ensures
        chunk_distance(window.spec_center(), chunk_x) <= window.spec_config().simulation_radius ==> chunk_distance(
            window.spec_center(),
            chunk_x,
        ) <= window.spec_config().render_radius,
        chunk_distance(window.spec_center(), chunk_x) <= window.spec_config().render_radius ==> !(chunk_distance(
            window.spec_center(),
            chunk_x,
        ) > window.spec_config().unload_radius),
{
}

/// Which world, run and generator a chunk generation belongs to.
#[derive(Debug, PartialEq, Eq, Hash)]
pub struct GenerationIdentity {
    pub session_instance: SessionInstanceId,
    pub world_id: WorldId,
    pub generator_version: u32,
    pub seed: u64,
}

impl GenerationIdentity {
    /// Whether two identities name the same world, run and generator.
    pub open spec fn same_as(&self, other: &GenerationIdentity) -> bool {
        &&& self.session_instance == other.session_instance
        &&& self.world_id@ == other.world_id@
        &&& self.generator_version == other.generator_version
        &&& self.seed == other.seed
    }

    /// The identity of a session's generations.
    pub fn for_session(session: &WorldSession) -> (result: GenerationIdentity)
        ensures
            result.session_instance == session.instance_id,
            result.world_id@ == session.id@,
            result.generator_version == session.generator_version,
            result.seed == session.seed,
    {
        GenerationIdentity {
            session_instance: session.instance_id,
            world_id: session.id.clone(),
            generator_version: session.generator_version,
            seed: session.seed,
        }
    }
}

impl Clone for GenerationIdentity {
    fn clone(&self) -> (result: GenerationIdentity)
        ensures
            result.same_as(self),
    {
        GenerationIdentity {
            session_instance: self.session_instance,
            world_id: self.world_id.clone(),
            generator_version: self.generator_version,
            seed: self.seed,
        }
    }
}

/// A request to generate one chunk.
#[derive(Debug, PartialEq, Eq, Hash)]
pub struct GenerationRequest {
    pub identity: GenerationIdentity,
    pub global_chunk_x: i64,
}

impl Clone for GenerationRequest {
    fn clone(&self) -> (result: GenerationRequest)
        ensures
            result.identity.same_as(&self.identity),
            result.global_chunk_x == self.global_chunk_x,
    {
        GenerationRequest { identity: self.identity.clone(), global_chunk_x: self.global_chunk_x }
    }
}

/// A generated chunk, with the request it answers.
#[derive(Debug)]
pub struct GenerationResult {
    pub request: GenerationRequest,
    pub chunk: BlockChunk,
}

/// The chunks at distance `d` from `center`, larger coordinate first, leaving out those that
/// do not fit in an `i64`.
pub open spec fn ring(center: i64, d: int) -> Seq<i64> {
    if d == 0 {
        seq![center]
    } else {
        let up = if center + d <= i64::MAX {
            seq![(center + d) as i64]
        } else {
            Seq::<i64>::empty()
        };
        let down = if center - d >= i64::MIN {
            seq![(center - d) as i64]
        } else {
            Seq::<i64>::empty()
        };
        up + down
    }
}

/// Every chunk within `radius` of `center`, nearest first.
pub open spec fn candidates(center: i64, radius: int) -> Seq<i64>
    decreases radius + 1,
{
    if radius < 0 {
        Seq::empty()
    } else {
        candidates(center, radius - 1) + ring(center, radius)
    }
}

/// The first `budget` candidates that are in neither set, in candidate order.
pub open spec fn planned(cands: Seq<i64>, skip: Set<i64>, budget: nat) -> Seq<i64>
    decreases cands.len(),
{
    if cands.len() == 0 {
        Seq::empty()
    } else {
        let p = planned(cands.drop_last(), skip, budget);
        if p.len() >= budget || skip.contains(cands.last()) {
            p
        } else {
            p.push(cands.last())
        }
    }
}

proof fn lemma_planned_bound(cands: Seq<i64>, skip: Set<i64>, budget: nat)
    ensures
        planned(cands, skip, budget).len() <= budget,
    decreases cands.len(),
{
    if cands.len() > 0 {
        lemma_planned_bound(cands.drop_last(), skip, budget);
    }
}

proof fn lemma_planned_saturated(a: Seq<i64>, b: Seq<i64>, skip: Set<i64>, budget: nat)
    requires
        planned(a, skip, budget).len() >= budget,
    ensures
        planned(a + b, skip, budget) == planned(a, skip, budget),
    decreases b.len(),
{
    if b.len() == 0 {
        assert(a + b =~= a);
    } else {
        lemma_planned_saturated(a, b.drop_last(), skip, budget);
        assert((a + b).drop_last() =~= a + b.drop_last());
    }
}

proof fn lemma_candidates_saturated(center: i64, d: int, radius: int, skip: Set<i64>, budget: nat)
    requires
        -1 <= d <= radius,
        planned(candidates(center, d), skip, budget).len() >= budget,
    ensures
        planned(candidates(center, radius), skip, budget) == planned(candidates(center, d), skip, budget),
    decreases radius - d,
{
    if d < radius {
        lemma_candidates_saturated(center, d, radius - 1, skip, budget);
        lemma_planned_saturated(candidates(center, radius - 1), ring(center, radius), skip, budget);
    }
}

/// Takes candidate `chunk_x` into the plan unless it is loaded, in flight, or the plan is full.
fn consider(
    requests: &mut Vec<GenerationRequest>,
    identity: &GenerationIdentity,
    chunk_x: i64,
    loaded: &HashSet<i64>,
    in_flight: &HashSet<i64>,
    request_budget: usize,
)
    requires
        old(requests)@.len() <= request_budget,
    ensures
        ({
            let before = old(requests)@.map_values(|r: GenerationRequest| r.global_chunk_x);
            let after = final(requests)@.map_values(|r: GenerationRequest| r.global_chunk_x);
            if before.len() >= request_budget || loaded@.union(in_flight@).contains(chunk_x) {
                after == before
            } else {
                after == before.push(chunk_x)
            }
        }),
        final(requests)@.len() <= request_budget,
        forall|i: int| 0 <= i < old(requests)@.len() ==> #[trigger] final(requests)@[i] == old(requests)@[i],
        forall|i: int| old(requests)@.len() <= i < final(requests)@.len() ==> (#[trigger] final(requests)@[i]).identity.same_as(identity),
{
    broadcast use vstd::std_specs::hash::group_hash_axioms;

    if requests.len() == request_budget || loaded.contains(&chunk_x) || in_flight.contains(&chunk_x) {
        return;
    }
    let ghost before = requests@;
    requests.push(GenerationRequest { identity: identity.clone(), global_chunk_x: chunk_x });
    proof {
        assert(requests@.map_values(|r: GenerationRequest| r.global_chunk_x) =~= before.map_values(
            |r: GenerationRequest| r.global_chunk_x,
        ).push(chunk_x));
    }
}

/// The chunks to request generation for, nearest first and at most `request_budget` of them:
/// every chunk within the render radius, larger coordinate first at each distance, that is
/// neither loaded nor already being generated. Coordinates past the `i64` range are skipped.
pub fn plan_generation_requests(
    window: StreamWindow,
    identity: &GenerationIdentity,
    loaded: &HashSet<i64>,
    in_flight: &HashSet<i64>,
    request_budget: usize,
) -> (requests: Vec<GenerationRequest>)
    ensures
        requests@.map_values(|r: GenerationRequest| r.global_chunk_x) == planned(
            candidates(window.spec_center(), window.spec_config().render_radius as int),
            loaded@.union(in_flight@),
            request_budget as nat,
        ),
        forall|i: int| 0 <= i < requests@.len() ==> (#[trigger] requests@[i]).identity.same_as(identity),
{
    let ghost skip = loaded@.union(in_flight@);
    let ghost budget = request_budget as nat;
    let center = window.center_chunk;
    let radius: i64 = window.config.render_radius as i64;
    let mut requests: Vec<GenerationRequest> = Vec::new();
    let mut d: i64 = 0;
    proof {
        assert(candidates(center, -1) =~= Seq::<i64>::empty());
        assert(requests@.map_values(|r: GenerationRequest| r.global_chunk_x) =~= Seq::<i64>::empty());
    }
    while d <= radius
        invariant
            0 <= d <= radius + 1,
            radius == window.spec_config().render_radius,
            center == window.spec_center(),
            skip == loaded@.union(in_flight@),
            budget == request_budget,
            requests@.len() <= request_budget,
            requests@.map_values(|r: GenerationRequest| r.global_chunk_x) == planned(candidates(center, d - 1), skip, budget),
            forall|i: int| 0 <= i < requests@.len() ==> (#[trigger] requests@[i]).identity.same_as(identity),
        decreases radius + 1 - d,
    {
        if requests.len() == request_budget {
            proof {
                lemma_candidates_saturated(center, d - 1, radius as int, skip, budget);
            }
            return requests;
        }
        let ghost prefix = candidates(center, d - 1);
        if d == 0 {
            consider(&mut requests, identity, center, loaded, in_flight, request_budget);
            proof {
                assert(candidates(center, 0) =~= prefix.push(center));
                assert(prefix.push(center).drop_last() =~= prefix);
                assert(requests@.map_values(|r: GenerationRequest| r.global_chunk_x) == planned(prefix.push(center), skip, budget));
            }
        } else {
            let ghost r = ring(center, d as int);
            let ghost mut mid = prefix;
            match center.checked_add(d) {
                Some(x) => {
                    consider(&mut requests, identity, x, loaded, in_flight, request_budget);
                    proof {
                        assert(prefix.push(x).drop_last() =~= prefix);
                        mid = prefix.push(x);
                        assert(requests@.map_values(|r: GenerationRequest| r.global_chunk_x) == planned(mid, skip, budget));
                    }
                },
                None => {},
            }
            match center.checked_sub(d) {
                Some(y) => {
                    consider(&mut requests, identity, y, loaded, in_flight, request_budget);
                    proof {
                        assert(mid.push(y).drop_last() =~= mid);
                        mid = mid.push(y);
                        assert(requests@.map_values(|r: GenerationRequest| r.global_chunk_x) == planned(mid, skip, budget));
                    }
                },
                None => {},
            }
            proof {
                assert(mid =~= prefix + r);
                assert(candidates(center, d as int) == prefix + r);
            }
        }
        d += 1;
    }
    requests
}

/// The chunks of `loaded` that lie beyond the window's retention band, in their given order.
pub open spec fn beyond_retention(window: StreamWindow, loaded: Seq<i64>) -> Seq<i64>
    decreases loaded.len(),
{
    if loaded.len() == 0 {
        Seq::empty()
    } else {
        let rest = beyond_retention(window, loaded.drop_last());
        if chunk_distance(window.spec_center(), loaded.last()) > window.spec_config().unload_radius {
            rest.push(loaded.last())
        } else {
            rest
        }
    }
}

/// The loaded chunks to unload, in increasing order: exactly those beyond the window's
/// retention band, each as often as it was given.
pub fn plan_unloads(window: StreamWindow, loaded: Vec<i64>) -> (result: Vec<i64>)
    ensures
        forall|i: int, j: int| 0 <= i < j < result@.len() ==> #[trigger] result@[i] <= #[trigger] result@[j],
        result@.to_multiset() == beyond_retention(window, loaded@).to_multiset(),
{
    broadcast use vstd::seq_lib::to_multiset_insert;

    let mut result: Vec<i64> = Vec::new();
    let mut i: usize = 0;
    proof {
        assert(loaded@.take(0) =~= Seq::<i64>::empty());
        assert(result@.to_multiset() =~= Seq::<i64>::empty().to_multiset());
    }
    while i < loaded.len()
        invariant
            i <= loaded@.len(),
            forall|a: int, b: int| 0 <= a < b < result@.len() ==> #[trigger] result@[a] <= #[trigger] result@[b],
            result@.to_multiset() == beyond_retention(window, loaded@.take(i as int)).to_multiset(),
        decreases loaded@.len() - i,
    {
        let x = loaded[i];
        proof {
            assert(loaded@.take(i as int + 1).drop_last() =~= loaded@.take(i as int));
            assert(loaded@.take(i as int + 1).last() == x);
        }
        if window.should_unload(x) {
            let mut p: usize = 0;
            while p < result.len() && result[p] <= x
                invariant
                    p <= result@.len(),
                    forall|k: int| 0 <= k < p ==> #[trigger] result@[k] <= x,
                decreases result@.len() - p,
            {
                p += 1;
            }
            let ghost before = result@;
            result.insert(p, x);
            proof {
                assert forall|a: int, b: int| 0 <= a < b < result@.len() implies #[trigger] result@[a]
                    <= #[trigger] result@[b] by {
                    if b < p {
                    } else if a < p && b == p {
                    } else if a < p {
                        assert(result@[b] == before[b - 1]);
                    } else if a == p {
                        assert(result@[b] == before[b - 1]);
                        assert(before[p as int] > x);
                        assert(before[p as int] <= before[b - 1]);
                    } else {
                        assert(result@[a] == before[a - 1]);
                        assert(result@[b] == before[b - 1]);
                    }
                }
                assert(result@ == before.insert(p as int, x));
                vstd::seq_lib::to_multiset_build(beyond_retention(window, loaded@.take(i as int)), x);
                assert(beyond_retention(window, loaded@.take(i as int + 1)) == beyond_retention(window, loaded@.take(i as int)).push(x));
                vstd::seq_lib::to_multiset_insert(before, p as int, x);
                assert(result@.to_multiset() == before.to_multiset().insert(x));
            }
        } else {
            proof {
                assert(beyond_retention(window, loaded@.take(i as int + 1)) == beyond_retention(window, loaded@.take(i as int)));
            }
        }
        i += 1;
    }
    proof {
        assert(loaded@.take(i as int) =~= loaded@);
    }
    result
}

/// Whether two requests are for the same chunk of the same generation.
pub open spec fn same_request(a: &GenerationRequest, b: &GenerationRequest) -> bool {
    a.identity.same_as(&b.identity) && a.global_chunk_x == b.global_chunk_x
}

fn same_identity(a: &GenerationIdentity, b: &GenerationIdentity) -> (result: bool)
    ensures
        result == a.same_as(b),
{
    a.session_instance == b.session_instance && a.generator_version == b.generator_version && a.seed
        == b.seed && a.world_id.same(&b.world_id)
}

/// Whether a finished generation should be taken into the world: it answers the request that
/// was started, for the current world, run and generator; its chunk is the one requested; the
/// chunk is not loaded yet; and it is still within the render radius.
pub fn result_is_still_requested(
    task_request: &GenerationRequest,
    result: &GenerationResult,
    current_identity: &GenerationIdentity,
    window: StreamWindow,
    already_loaded: bool,
) -> (still: bool)
    requires
        result.chunk.wf(),
    ensures
        still == (same_request(task_request, &result.request) && result.request.identity.same_as(current_identity)
            && result.chunk.spec_x() == result.request.global_chunk_x && !already_loaded && chunk_distance(
            window.spec_center(),
            result.request.global_chunk_x,
        ) <= window.spec_config().render_radius),
{
    same_identity(&task_request.identity, &result.request.identity) && task_request.global_chunk_x
        == result.request.global_chunk_x && same_identity(&result.request.identity, current_identity)
        && result.chunk.x() == result.request.global_chunk_x && !already_loaded && window.contains_render(
        result.request.global_chunk_x,
    )
}


/// What becomes of a running generation task this frame.
#[derive(Debug, Clone, Copy, PartialEq, Eq, Structural)]
pub enum GenerationTaskDisposition {
    Hold,
    PollForCommit,
    PollForDiscard,
}

/// A task started for the current world, run and generator is polled once its result can be
/// committed and held until then; a task of anything else is polled so that its result can
/// be dropped.
pub fn generation_task_disposition(
    can_commit: bool,
    task_identity: &GenerationIdentity,
    current_identity: Option<&GenerationIdentity>,
) -> (result: GenerationTaskDisposition)
    ensures
        result == if current_identity is Some && task_identity.same_as(current_identity->0) {
            if can_commit {
                GenerationTaskDisposition::PollForCommit
            } else {
                GenerationTaskDisposition::Hold
            }
        } else {
            GenerationTaskDisposition::PollForDiscard
        },
{
    let current = match current_identity {
        Some(identity) => same_identity(task_identity, identity),
        None => false,
    };
    if current {
        if can_commit {
            GenerationTaskDisposition::PollForCommit
        } else {
            GenerationTaskDisposition::Hold
        }
    } else {
        GenerationTaskDisposition::PollForDiscard
    }
}

/// Whether `x` is among the first `n` elements of `s`.
pub open spec fn in_prefix(s: Seq<i64>, n: int, x: i64) -> bool {
    exists|j: int| 0 <= j < n && s[j] == x
}

/// Whether a chunk lies inside the rendered band of the window.
pub open spec fn in_render_band(window: StreamWindow, chunk_x: i64) -> bool {
    chunk_distance(window.spec_center(), chunk_x) <= window.spec_config().render_radius
}

/// The chunks whose scenes appear once the window has moved: loaded, inside the rendered band
/// and not shown yet.
pub open spec fn entering_chunks(window: StreamWindow, loaded: Seq<i64>, presented: Seq<i64>) -> Set<i64> {
    Set::new(|c: i64| loaded.contains(c) && in_render_band(window, c) && !presented.contains(c))
}

/// The shown chunks that the moved window leaves outside its rendered band.
pub open spec fn leaving_chunks(window: StreamWindow, presented: Seq<i64>) -> Set<i64> {
    Set::new(|c: i64| presented.contains(c) && !in_render_band(window, c))
}

/// The scenes to add and to remove when the window moves: a loaded chunk that enters the
/// rendered band and is not shown yet appears, and a shown chunk outside the band goes.
pub fn presentation_window_changes(window: StreamWindow, loaded: &[i64], presented: &[i64]) -> (result: (
    BTreeSet<i64>,
    BTreeSet<i64>,
))
    ensures
        result.0@ == entering_chunks(window, loaded@, presented@),
        result.1@ == leaving_chunks(window, presented@),
{
    broadcast use vstd::std_specs::btree::group_btree_axioms;

    let mut shown: BTreeSet<i64> = BTreeSet::new();
    let mut leaving: BTreeSet<i64> = BTreeSet::new();
    for i in 0..presented.len()
        invariant
            shown@ == Set::new(|c: i64| in_prefix(presented@, i as int, c)),
            leaving@ == Set::new(|c: i64| in_prefix(presented@, i as int, c) && !in_render_band(window, c)),
    {
        let c = presented[i];
        proof {
            crate::domain::lighting::lemma_i64_keys_ordered();
        }
        shown.insert(c);
        if !window.contains_render(c) {
            leaving.insert(c);
        }
        proof {
            assert(shown@ =~= Set::new(|x: i64| in_prefix(presented@, i + 1, x)));
            assert(leaving@ =~= Set::new(|x: i64| in_prefix(presented@, i + 1, x) && !in_render_band(window, x)));
        }
    }
    let mut entering: BTreeSet<i64> = BTreeSet::new();
    for i in 0..loaded.len()
        invariant
            shown@ == Set::new(|c: i64| in_prefix(presented@, presented@.len() as int, c)),
            entering@ == Set::new(
                |c: i64| in_prefix(loaded@, i as int, c) && in_render_band(window, c) && !presented@.contains(c),
            ),
    {
        let c = loaded[i];
        proof {
            crate::domain::lighting::lemma_i64_keys_ordered();
            assert(shown@.contains(c) == presented@.contains(c));
        }
        if window.contains_render(c) && !shown.contains(&c) {
            entering.insert(c);
        }
        proof {
            assert(entering@ =~= Set::new(
                |x: i64| in_prefix(loaded@, i + 1, x) && in_render_band(window, x) && !presented@.contains(x),
            ));
        }
    }
    proof {
        assert(entering@ =~= entering_chunks(window, loaded@, presented@));
        assert(leaving@ =~= leaving_chunks(window, presented@));
    }
    (entering, leaving)
}

} // verus!
