use vstd::prelude::*;

use crate::math::IVec2;

verus! {

/// What to do with a dirty chunk in one scheduling pass.
#[derive(Clone, Copy, Debug, PartialEq, Eq, Structural)]
pub enum DirtyChunkStep {
    /// Keep waiting for changes to settle; the chunk's new tick.
    Wait { tick: u32 },
    /// Keep the chunk dirty and try again in a later pass.
    Postpone,
    /// Gather the chunk's colliders and build its navigation mesh.
    Build,
}

/// One pass over a dirty chunk that has waited `tick` passes: wait until
/// `change_delay` passes went by, then build it unless `max_tasks_in_flight`
/// builds are running or the chunk is being built already.
pub fn dirty_chunk_step(
    tick: u32,
    change_delay: u32,
    tasks_in_flight: usize,
    max_tasks_in_flight: usize,
    has_task: bool,
) -> (r: DirtyChunkStep)
    ensures
        tick < change_delay ==> r == (DirtyChunkStep::Wait { tick: (tick + 1) as u32 }),
        tick >= change_delay && (tasks_in_flight >= max_tasks_in_flight || has_task) ==> r
            == DirtyChunkStep::Postpone,
        tick >= change_delay && tasks_in_flight < max_tasks_in_flight && !has_task ==> r
            == DirtyChunkStep::Build,
{
    if tick < change_delay {
        return DirtyChunkStep::Wait { tick: tick + 1 };
    }
    if tasks_in_flight >= max_tasks_in_flight {
        return DirtyChunkStep::Postpone;
    }
    if has_task {
        return DirtyChunkStep::Postpone;
    }
    DirtyChunkStep::Build
}

/// What happens to the navigation mesh of a chunk once its colliders are
/// known or its build is done.
#[derive(Clone, Copy, Debug, PartialEq, Eq, Structural)]
pub enum ChunkOutcome {
    /// The chunk has nothing to walk on: drop its mesh.
    Remove,
    /// Build the mesh (for colliders) or store it (for a finished build).
    Keep,
}

/// A chunk without colliders, or whose finished mesh is empty, loses its
/// mesh; any other chunk keeps going.
pub fn chunk_outcome(is_empty: bool) -> (r: ChunkOutcome)
    ensures
        r == (if is_empty { ChunkOutcome::Remove } else { ChunkOutcome::Keep }),
{
    if is_empty {
        ChunkOutcome::Remove
    } else {
        ChunkOutcome::Keep
    }
}

/// The chunks `(x, y)` with `min.x <= x <= max.x` and `min.y <= y <= max.y`,
/// the first `n` values of `x` only, `x` varying slowest.
pub open spec fn chunks_in_rows(min: IVec2, max: IVec2, n: nat) -> Seq<IVec2>
    decreases n,
{
    if n == 0 {
        seq![]
    } else {
        chunks_in_rows(min, max, (n - 1) as nat) + Seq::new(
            (max.y - min.y + 1) as nat,
            |j: int| IVec2 { x: (min.x + n - 1) as i32, y: (min.y + j) as i32 },
        )
    }
}

/// Every chunk of the rectangle from `min` to `max`, bounds included, `x`
/// varying slowest: the chunks an affector with these bounds touches.
pub fn chunks_in_bounds(min: IVec2, max: IVec2) -> (r: Vec<IVec2>)
    requires
        min.x <= max.x && min.y <= max.y ==> (max.x - min.x + 1) * (max.y - min.y + 1)
            <= usize::MAX,
    ensures
        min.x > max.x || min.y > max.y ==> r@ == Seq::<IVec2>::empty(),
        min.x <= max.x && min.y <= max.y ==> r@ == chunks_in_rows(
            min,
            max,
            (max.x - min.x + 1) as nat,
        ),
{
    let mut r: Vec<IVec2> = Vec::new();
    if min.x > max.x || min.y > max.y {
        return r;
    }
    let mut x: i64 = min.x as i64;
    while x <= max.x as i64
        invariant
            min.x <= x <= max.x + 1,
            min.y <= max.y,
            r@ == chunks_in_rows(min, max, (x - min.x) as nat),
        decreases max.x + 1 - x,
    {
        let ghost before = r@;
        let mut y: i64 = min.y as i64;
        while y <= max.y as i64
            invariant
                min.x <= x <= max.x,
                min.y <= y <= max.y + 1,
                r@ == before + Seq::new(
                    (y - min.y) as nat,
                    |j: int| IVec2 { x: x as i32, y: (min.y + j) as i32 },
                ),
            decreases max.y + 1 - y,
        {
            r.push(IVec2 { x: x as i32, y: y as i32 });
            proof {
                assert(r@ =~= before + Seq::new(
                    (y + 1 - min.y) as nat,
                    |j: int| IVec2 { x: x as i32, y: (min.y + j) as i32 },
                ));
            }
            y = y + 1;
        }
        proof {
            assert(r@ =~= chunks_in_rows(min, max, (x + 1 - min.x) as nat));
        }
        x = x + 1;
    }
    r
}

/// The result of one scheduling pass over the dirty chunks.
pub struct SchedulePass {
    /// The chunks still dirty, with their ticks, in the order they came.
    pub dirty: Vec<(IVec2, u32)>,
    /// The chunks whose navigation mesh is now being built.
    pub spawned: Vec<IVec2>,
    /// The chunks without colliders, whose mesh is dropped.
    pub removed: Vec<IVec2>,
}

/// Whether `p` is one of `v`.
fn holds_chunk(v: &Vec<IVec2>, p: IVec2) -> (r: bool)
    ensures
        r == v@.contains(p),
{
    let mut i: usize = 0;
    while i < v.len()
        invariant
            i <= v.len(),
            forall|j: int| 0 <= j < i ==> v@[j] != p,
        decreases v.len() - i,
    {
        if v[i] == p {
            return true;
        }
        i = i + 1;
    }
    false
}

/// The tick a dirty chunk keeps after a pass in which it stays dirty.
pub open spec fn next_tick(tick: u32, change_delay: u32) -> u32 {
    if tick < change_delay {
        (tick + 1) as u32
    } else {
        tick
    }
}

/// Entry `e` is a chunk of `dirty` with the tick it keeps after a pass.
pub open spec fn kept_from(dirty: Seq<(IVec2, u32)>, e: (IVec2, u32), change_delay: u32) -> bool {
    exists|i: int| 0 <= i < dirty.len() && e == (dirty[i].0, next_tick(dirty[i].1, change_delay))
}

/// One pass over the dirty chunks `dirty` (distinct positions with their
/// ticks), while the chunks of `in_flight` (distinct) are being built. Each
/// chunk takes the step of [`dirty_chunk_step`], counting the builds started
/// earlier in the pass; a chunk due for a build is dropped from the mesh
/// when `collider_empty` says it has no colliders, and is built otherwise.
///
/// The pass keeps the scheduling rules: no more than `max_tasks_in_flight`
/// builds run at once, no chunk gets a second build while one is running, a
/// chunk stops being dirty only once its tick reached `change_delay` and it
/// was built or dropped, a chunk whose tick reached `change_delay` stays
/// dirty only while it is being built already or every build slot is taken,
/// and every chunk still waiting has its tick raised by one.
pub fn schedule_pass<F: Fn(IVec2) -> bool>(
    dirty: &Vec<(IVec2, u32)>,
    in_flight: &Vec<IVec2>,
    change_delay: u32,
    max_tasks_in_flight: usize,
    collider_empty: F,
) -> (r: SchedulePass)
    requires
        forall|p: IVec2| collider_empty.requires((p,)),
        forall|i: int, j: int| 0 <= i < j < dirty@.len() ==> dirty@[i].0 != dirty@[j].0,
        in_flight@.no_duplicates(),
    ensures
        in_flight@.len() <= max_tasks_in_flight ==> in_flight@.len() + r.spawned@.len() <= max_tasks_in_flight,
        r.spawned@.no_duplicates(),
        forall|q: IVec2| r.spawned@.contains(q) ==> !in_flight@.contains(q),
        forall|q: IVec2| r.removed@.contains(q) ==> !in_flight@.contains(q),
        forall|i: int|
            0 <= i < dirty@.len() && (#[trigger] dirty@[i]).1 >= change_delay && in_flight@.contains(dirty@[i].0)
                ==> {
                &&& r.dirty@.contains(dirty@[i])
                &&& !r.spawned@.contains(dirty@[i].0)
                &&& !r.removed@.contains(dirty@[i].0)
            },
        forall|i: int|
            0 <= i < dirty@.len() ==> {
                let (p, tick) = #[trigger] dirty@[i];
                if tick < change_delay {
                    r.dirty@.contains((p, (tick + 1) as u32))
                } else {
                    ||| r.dirty@.contains((p, tick)) && (in_flight@.contains(p) || in_flight@.len()
                        + r.spawned@.len() >= max_tasks_in_flight)
                    ||| r.spawned@.contains(p)
                    ||| r.removed@.contains(p)
                }
            },
        forall|k: int| 0 <= k < r.dirty@.len() ==> kept_from(dirty@, #[trigger] r.dirty@[k], change_delay),
        forall|q: IVec2|
            #[trigger] r.spawned@.contains(q) ==> collider_empty.ensures((q,), false) && exists|i: int|
                0 <= i < dirty@.len() && dirty@[i].0 == q && dirty@[i].1 >= change_delay,
        forall|q: IVec2|
            #[trigger] r.removed@.contains(q) ==> collider_empty.ensures((q,), true) && exists|i: int|
                0 <= i < dirty@.len() && dirty@[i].0 == q && dirty@[i].1 >= change_delay,
{
    let mut kept: Vec<(IVec2, u32)> = Vec::new();
    let mut spawned: Vec<IVec2> = Vec::new();
    let mut removed: Vec<IVec2> = Vec::new();
    let mut k: usize = 0;
    while k < dirty.len()
        invariant
            k <= dirty@.len(),
            forall|p: IVec2| collider_empty.requires((p,)),
            forall|i: int, j: int| 0 <= i < j < dirty@.len() ==> dirty@[i].0 != dirty@[j].0,
            in_flight@.no_duplicates(),
            spawned@.no_duplicates(),
            forall|q: IVec2| spawned@.contains(q) ==> !in_flight@.contains(q),
            forall|q: IVec2| removed@.contains(q) ==> !in_flight@.contains(q),
            forall|i: int|
                0 <= i < k && (#[trigger] dirty@[i]).1 >= change_delay && in_flight@.contains(dirty@[i].0)
                    ==> kept@.contains(dirty@[i]),
            in_flight@.len() <= max_tasks_in_flight ==> in_flight@.len() + spawned@.len() <= max_tasks_in_flight,
            spawned@.len() <= k,
            forall|i: int|
                0 <= i < k ==> {
                    let (p, tick) = #[trigger] dirty@[i];
                    if tick < change_delay {
                        kept@.contains((p, (tick + 1) as u32))
                    } else {
                        ||| kept@.contains((p, tick)) && (in_flight@.contains(p) || in_flight@.len()
                            + spawned@.len() >= max_tasks_in_flight)
                        ||| spawned@.contains(p)
                        ||| removed@.contains(p)
                    }
                },
            forall|j: int| 0 <= j < kept@.len() ==> kept_from(dirty@, #[trigger] kept@[j], change_delay),
            forall|q: IVec2|
                #[trigger] spawned@.contains(q) ==> collider_empty.ensures((q,), false) && exists|i: int|
                    0 <= i < k && dirty@[i].0 == q && dirty@[i].1 >= change_delay,
            forall|q: IVec2|
                #[trigger] removed@.contains(q) ==> collider_empty.ensures((q,), true) && exists|i: int|
                    0 <= i < k && dirty@[i].0 == q && dirty@[i].1 >= change_delay,
        decreases dirty.len() - k,
    {
        let (p, tick) = dirty[k];
        let ghost old_kept = kept@;
        let ghost old_spawned = spawned@;
        let ghost old_removed = removed@;
        let running = if in_flight.len() >= max_tasks_in_flight {
            max_tasks_in_flight
        } else {
            in_flight.len() + spawned.len()
        };
        let has_task = holds_chunk(in_flight, p) || holds_chunk(&spawned, p);
        match dirty_chunk_step(tick, change_delay, running, max_tasks_in_flight, has_task) {
            DirtyChunkStep::Wait { tick: t } => {
                kept.push((p, t));
            },
            DirtyChunkStep::Postpone => {
                kept.push((p, tick));
            },
            DirtyChunkStep::Build => {
                let empty = collider_empty(p);
                match chunk_outcome(empty) {
                    ChunkOutcome::Remove => {
                        removed.push(p);
                    },
                    ChunkOutcome::Keep => {
                        spawned.push(p);
                    },
                }
            },
        }
        proof {
            let e = dirty@[k as int];
            assert(e == (p, tick));
            assert forall|i: int| 0 <= i <= k implies {
                let (p2, tick2) = #[trigger] dirty@[i];
                if tick2 < change_delay {
                    kept@.contains((p2, (tick2 + 1) as u32))
                } else {
                    ||| kept@.contains((p2, tick2)) && (in_flight@.contains(p2) || in_flight@.len()
                        + spawned@.len() >= max_tasks_in_flight)
                    ||| spawned@.contains(p2)
                    ||| removed@.contains(p2)
                }
            } by {
                if i < k {
                    let (p2, tick2) = dirty@[i];
                    if old_kept.contains((p2, (tick2 + 1) as u32)) {
                        let j = choose|j: int| 0 <= j < old_kept.len() && old_kept[j] == (p2, (tick2 + 1) as u32);
                        assert(kept@[j] == old_kept[j]);
                    }
                    if old_kept.contains((p2, tick2)) {
                        let j = choose|j: int| 0 <= j < old_kept.len() && old_kept[j] == (p2, tick2);
                        assert(kept@[j] == old_kept[j]);
                    }
                    if old_spawned.contains(p2) {
                        let j = choose|j: int| 0 <= j < old_spawned.len() && old_spawned[j] == p2;
                        assert(spawned@[j] == old_spawned[j]);
                    }
                    if old_removed.contains(p2) {
                        let j = choose|j: int| 0 <= j < old_removed.len() && old_removed[j] == p2;
                        assert(removed@[j] == old_removed[j]);
                    }
                } else {
                    if old_spawned.contains(p) {
                        let i2 = choose|i2: int|
                            0 <= i2 < k && dirty@[i2].0 == p && dirty@[i2].1 >= change_delay;
                        assert(dirty@[i2].0 != dirty@[k as int].0);
                    }
                    if kept@.len() > old_kept.len() {
                        assert(kept@[kept@.len() - 1] == kept@.last());
                    }
                    if spawned@.len() > old_spawned.len() {
                        assert(spawned@[spawned@.len() - 1] == p);
                    }
                    if removed@.len() > old_removed.len() {
                        assert(removed@[removed@.len() - 1] == p);
                    }
                }
            }
            assert forall|j: int| 0 <= j < kept@.len() implies kept_from(dirty@, #[trigger] kept@[j], change_delay) by {
                if j < old_kept.len() {
                    assert(kept@[j] == old_kept[j]);
                } else {
                    assert(kept@[j] == (dirty@[k as int].0, next_tick(dirty@[k as int].1, change_delay)));
                }
            }
            assert forall|q: IVec2| #[trigger] spawned@.contains(q) implies collider_empty.ensures((q,), false)
                && exists|i: int| 0 <= i < k + 1 && dirty@[i].0 == q && dirty@[i].1 >= change_delay by {
                let j = choose|j: int| 0 <= j < spawned@.len() && spawned@[j] == q;
                if j < old_spawned.len() {
                    assert(old_spawned[j] == q);
                    assert(old_spawned.contains(q));
                } else {
                    assert(dirty@[k as int].0 == q);
                }
            }
            assert forall|q: IVec2| #[trigger] removed@.contains(q) implies collider_empty.ensures((q,), true)
                && exists|i: int| 0 <= i < k + 1 && dirty@[i].0 == q && dirty@[i].1 >= change_delay by {
                let j = choose|j: int| 0 <= j < removed@.len() && removed@[j] == q;
                if j < old_removed.len() {
                    assert(old_removed[j] == q);
                    assert(old_removed.contains(q));
                } else {
                    assert(dirty@[k as int].0 == q);
                }
            }
            assert(spawned@.no_duplicates()) by {
                if spawned@.len() > old_spawned.len() {
                    assert forall|a: int, b: int| 0 <= a < b < spawned@.len() implies spawned@[a] != spawned@[b] by {
                        if b == spawned@.len() - 1 {
                            assert(old_spawned[a] == spawned@[a]);
                            assert(old_spawned.contains(spawned@[a]));
                        } else {
                            assert(old_spawned[a] == spawned@[a]);
                            assert(old_spawned[b] == spawned@[b]);
                        }
                    }
                }
            }
            assert forall|q: IVec2| spawned@.contains(q) implies !in_flight@.contains(q) by {
                let j = choose|j: int| 0 <= j < spawned@.len() && spawned@[j] == q;
                if j < old_spawned.len() {
                    assert(old_spawned.contains(old_spawned[j]));
                }
            }
            assert forall|q: IVec2| removed@.contains(q) implies !in_flight@.contains(q) by {
                let j = choose|j: int| 0 <= j < removed@.len() && removed@[j] == q;
                if j < old_removed.len() {
                    assert(old_removed.contains(old_removed[j]));
                }
            }
            assert forall|i: int|
                0 <= i < k + 1 && (#[trigger] dirty@[i]).1 >= change_delay && in_flight@.contains(dirty@[i].0)
                    implies kept@.contains(dirty@[i]) by {
                if i < k {
                    let j = choose|j: int| 0 <= j < old_kept.len() && old_kept[j] == dirty@[i];
                    assert(kept@[j] == old_kept[j]);
                } else {
                    assert(kept@[kept@.len() - 1] == (p, tick));
                }
            }
        }
        k = k + 1;
    }
    proof {
        assert forall|i: int|
            0 <= i < dirty@.len() && (#[trigger] dirty@[i]).1 >= change_delay && in_flight@.contains(dirty@[i].0)
                implies !spawned@.contains(dirty@[i].0) && !removed@.contains(dirty@[i].0) by {
        }
    }
    SchedulePass { dirty: kept, spawned, removed }
}

} // verus!
