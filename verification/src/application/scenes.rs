use std::collections::BTreeSet;
use vstd::prelude::*;

use crate::application::dirty::WorldDirtySets;
use crate::application::light::columns_of;
use crate::application::streaming::{in_prefix, in_render_band, StreamWindow};
use crate::domain::world::{BlockGrid, ChunkLayer, WorldView};

verus! {

/// What becomes of the scene of one chunk when the presentation is brought up to date.
#[derive(Debug, Clone, Copy, PartialEq, Eq, Structural)]
pub enum SceneWork {
    /// The chunk left the rendered band or the world: its scene goes.
    Despawn { chunk_x: i64 },
    /// The chunk is shown, `local_chunk` chunks from the origin: its scene is spawned when it
    /// has none, and its meshes and collider are rebuilt where stale or new.
    Build { chunk_x: i64, local_chunk: i32, spawn: bool, meshes: bool, collider: bool },
}

/// The chunk a piece of work is about.
pub open spec fn work_chunk(work: SceneWork) -> i64 {
    match work {
        SceneWork::Despawn { chunk_x } => chunk_x,
        SceneWork::Build { chunk_x, .. } => chunk_x,
    }
}

/// What to do with the scene of a chunk whose meshes (`render`) or collider (`collision`) went
/// stale, given which chunks have a scene (`presented`). A chunk outside the rendered band or
/// not loaded loses its scene; a shown chunk too far from the origin to place is left alone;
/// any other chunk gets its stale parts rebuilt, and everything built when it had no scene.
pub open spec fn scene_work(
    window: StreamWindow,
    grid: BlockGrid,
    origin_chunk: i64,
    presented: Set<i64>,
    render: Set<i64>,
    collision: Set<i64>,
    chunk_x: i64,
) -> Option<SceneWork> {
    if !in_render_band(window, chunk_x) || !grid.spec_chunks().contains_key(chunk_x) {
        Some(SceneWork::Despawn { chunk_x })
    } else if !(i32::MIN <= chunk_x - origin_chunk <= i32::MAX) {
        None
    } else {
        let spawn = !presented.contains(chunk_x);
        Some(
            SceneWork::Build {
                chunk_x,
                local_chunk: (chunk_x - origin_chunk) as i32,
                spawn,
                meshes: render.contains(chunk_x) || spawn,
                collider: collision.contains(chunk_x) || spawn,
            },
        )
    }
}

/// Whether each stale chunk that would be built lies within an `i64` of the origin.
pub open spec fn stale_chunks_placeable(
    window: StreamWindow,
    grid: BlockGrid,
    origin_chunk: i64,
    stale: Set<i64>,
) -> bool {
    forall|c: i64|
        #[trigger] stale.contains(c) && in_render_band(window, c) && grid.spec_chunks().contains_key(c) ==> i64::MIN
            <= c - origin_chunk <= i64::MAX
}

/// The work that `work_for` gives the first `n` chunks of `order`, in that order.
pub open spec fn planned(work_for: spec_fn(i64) -> Option<SceneWork>, order: Seq<i64>, n: nat) -> Seq<SceneWork>
    decreases n,
{
    if n == 0 {
        Seq::empty()
    } else {
        let previous = planned(work_for, order, (n - 1) as nat);
        match work_for(order[n - 1]) {
            Some(work) => previous.push(work),
            None => previous,
        }
    }
}

/// The planned work names chunks of `order` with their own work, every chunk of `order` that
/// has work, and keeps the order of `order` when that increases.
proof fn lemma_planned(work_for: spec_fn(i64) -> Option<SceneWork>, order: Seq<i64>, n: nat)
    requires
        n <= order.len(),
        forall|a: int, b: int| 0 <= a < b < order.len() ==> #[trigger] order[a] < #[trigger] order[b],
        forall|c: i64| #[trigger] work_for(c) is Some ==> work_chunk(work_for(c)->0) == c,
    ensures
        ({
            let plan = planned(work_for, order, n);
            &&& forall|p: int|
                0 <= p < plan.len() ==> exists|q: int|
                    0 <= q < n && order[q] == work_chunk(#[trigger] plan[p]) && work_for(order[q]) == Some(plan[p])
            &&& forall|q: int|
                0 <= q < n && (#[trigger] work_for(order[q])) is Some ==> exists|p: int|
                    0 <= p < plan.len() && work_chunk(#[trigger] plan[p]) == order[q]
            &&& forall|a: int, b: int| 0 <= a < b < plan.len() ==> work_chunk(#[trigger] plan[a]) < work_chunk(#[trigger] plan[b])
        }),
    decreases n,
{
    if n > 0 {
        let m = (n - 1) as nat;
        lemma_planned(work_for, order, m);
        let before = planned(work_for, order, m);
        let plan = planned(work_for, order, n);
        let c = order[n - 1];
        if let Some(work) = work_for(c) {
            assert(plan == before.push(work));
            let last = plan.len() - 1;
            assert forall|a: int, b: int| 0 <= a < b < plan.len() implies work_chunk(#[trigger] plan[a]) < work_chunk(
                #[trigger] plan[b],
            ) by {
                assert(plan[a] == before[a]);
                if b == last {
                    let q = choose|q: int| 0 <= q < m && order[q] == work_chunk(before[a]) && work_for(order[q]) == Some(before[a]);
                    assert(order[q] < order[n - 1]);
                } else {
                    assert(plan[b] == before[b]);
                }
            }
            assert forall|p: int| 0 <= p < plan.len() implies exists|q: int|
                0 <= q < n && order[q] == work_chunk(#[trigger] plan[p]) && work_for(order[q]) == Some(plan[p]) by {
                if p == last {
                    assert(order[n - 1] == work_chunk(plan[p]));
                } else {
                    assert(before[p] == plan[p]);
                }
            }
            assert forall|q: int| 0 <= q < n && (#[trigger] work_for(order[q])) is Some implies exists|p: int|
                0 <= p < plan.len() && work_chunk(#[trigger] plan[p]) == order[q] by {
                if q == n - 1 {
                    assert(work_chunk(plan[last]) == order[q]);
                } else {
                    let p = choose|p: int| 0 <= p < before.len() && work_chunk(#[trigger] before[p]) == order[q];
                    assert(plan[p] == before[p]);
                }
            }
        } else {
            assert(plan == before);
        }
    }
}

/// Plans the scene work for every chunk whose meshes or collider went stale, in increasing
/// chunk order (see [`scene_work`]), and clears those two stale sets.
pub fn plan_scene_refresh(
    dirty: &mut WorldDirtySets,
    window: StreamWindow,
    view: &WorldView<'_>,
    origin_chunk: i64,
    presented: &BTreeSet<i64>,
) -> (plan: Vec<SceneWork>)
    requires
        stale_chunks_placeable(window, *view.grid, origin_chunk, old(dirty).render@ + old(dirty).collision@),
    ensures
        forall|i: int|
            0 <= i < plan@.len() ==> (old(dirty).render@ + old(dirty).collision@).contains(work_chunk(#[trigger] plan@[i]))
                && scene_work(
                window,
                *view.grid,
                origin_chunk,
                presented@,
                old(dirty).render@,
                old(dirty).collision@,
                work_chunk(plan@[i]),
            ) == Some(plan@[i]),
        forall|c: i64|
            (old(dirty).render@ + old(dirty).collision@).contains(c) && scene_work(
                window,
                *view.grid,
                origin_chunk,
                presented@,
                old(dirty).render@,
                old(dirty).collision@,
                c,
            ) is Some ==> exists|i: int| 0 <= i < plan@.len() && work_chunk(#[trigger] plan@[i]) == c,
        forall|i: int, j: int|
            0 <= i < j < plan@.len() ==> work_chunk(#[trigger] plan@[i]) < work_chunk(#[trigger] plan@[j]),
        final(dirty).render@ == Set::<i64>::empty(),
        final(dirty).collision@ == Set::<i64>::empty(),
        final(dirty).lighting@ == old(dirty).lighting@,
        final(dirty).simulation@ == old(dirty).simulation@,
{
    broadcast use vstd::std_specs::btree::group_btree_axioms;

    let ghost render = dirty.render@;
    let ghost collision = dirty.collision@;
    let ghost stale = render + collision;
    let mut work = dirty.render.clone();
    let extra = columns_of(&dirty.collision);
    for k in 0..extra.len()
        invariant
            work@ == render + Set::new(|x: i64| in_prefix(extra@, k as int, x)),
    {
        proof {
            crate::domain::lighting::lemma_i64_keys_ordered();
        }
        work.insert(extra[k]);
        proof {
            assert(work@ =~= render + Set::new(|x: i64| in_prefix(extra@, k + 1, x)));
        }
    }
    proof {
        assert(Set::new(|x: i64| in_prefix(extra@, extra@.len() as int, x)) =~= extra@.to_set());
        assert(work@ =~= stale);
    }
    let order = columns_of(&work);
    let ghost work_for = |c: i64| scene_work(window, *view.grid, origin_chunk, presented@, render, collision, c);
    let mut plan: Vec<SceneWork> = Vec::new();
    for i in 0..order.len()
        invariant
            order@.to_set() == stale,
            stale_chunks_placeable(window, *view.grid, origin_chunk, stale),
            dirty.render@ == render,
            dirty.collision@ == collision,
            plan@ == planned(work_for, order@, i as nat),
            forall|x: i64|
                #[trigger] work_for(x) == scene_work(window, *view.grid, origin_chunk, presented@, render, collision, x),
    {
        let c = order[i];
        let ghost before = plan@;
        proof {
            assert(order@.to_set().contains(c));
            assert(work_for(c) == scene_work(window, *view.grid, origin_chunk, presented@, render, collision, c));
        }
        if !window.contains_render(c) || !view.contains_chunk(ChunkLayer::foreground(c)) {
            plan.push(SceneWork::Despawn { chunk_x: c });
        } else {
            let offset = c - origin_chunk;
            if i32::MIN as i64 <= offset && offset <= i32::MAX as i64 {
                proof {
                    crate::domain::lighting::lemma_i64_keys_ordered();
                }
                let spawn = !presented.contains(&c);
                let meshes = dirty.render.contains(&c) || spawn;
                let collider = dirty.collision.contains(&c) || spawn;
                plan.push(SceneWork::Build { chunk_x: c, local_chunk: offset as i32, spawn, meshes, collider });
            }
        }
        proof {
            assert(planned(work_for, order@, (i + 1) as nat) == match work_for(order@[i as int]) {
                Some(w) => before.push(w),
                None => before,
            });
        }
    }
    dirty.render.clear();
    dirty.collision.clear();
    proof {
        assert forall|c: i64| #[trigger] work_for(c) is Some implies work_chunk(work_for(c)->0) == c by {}
        lemma_planned(work_for, order@, order@.len() as nat);
        assert forall|c: i64|
            stale.contains(c) && scene_work(window, *view.grid, origin_chunk, presented@, render, collision, c) is Some implies exists|i: int|
            0 <= i < plan@.len() && work_chunk(#[trigger] plan@[i]) == c by {
            assert(order@.to_set().contains(c));
            let q = choose|q: int| 0 <= q < order@.len() && order@[q] == c;
            assert(work_for(order@[q]) is Some);
        }
        assert forall|i: int| 0 <= i < plan@.len() implies stale.contains(work_chunk(#[trigger] plan@[i])) && scene_work(
            window,
            *view.grid,
            origin_chunk,
            presented@,
            render,
            collision,
            work_chunk(plan@[i]),
        ) == Some(plan@[i]) by {
            let q = choose|q: int|
                0 <= q < order@.len() && order@[q] == work_chunk(plan@[i]) && scene_work(
                    window,
                    *view.grid,
                    origin_chunk,
                    presented@,
                    render,
                    collision,
                    order@[q],
                ) == Some(plan@[i]);
            assert(order@.to_set().contains(order@[q]));
        }
    }
    plan
}

} // verus!
