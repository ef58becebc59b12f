use vstd::prelude::*;

verus! {

/// The counters of a progress tracker: the current stage, a task counter
/// in the high 32 bits and a subtask counter in the low 32 bits of
/// `counter`, and the number of subtasks of the current task.
#[derive(Clone, Copy, Debug, PartialEq, Eq, Structural)]
pub struct ProgressCounter {
    stage: u32,
    counter: u64,
    num_subtasks: u32,
}

/// The task number held in a packed counter.
pub open spec fn task_of(counter: u64) -> u32 {
    (counter >> 32u64) as u32
}

/// The subtask number held in a packed counter.
pub open spec fn subtask_of(counter: u64) -> u32 {
    counter as u32
}

impl ProgressCounter {
    pub closed spec fn spec_stage(&self) -> u32 {
        self.stage
    }

    pub closed spec fn spec_counter(&self) -> u64 {
        self.counter
    }

    pub closed spec fn spec_num_subtasks(&self) -> u32 {
        self.num_subtasks
    }

    /// Counters at stage 0, task 0, subtask 0.
    pub fn new() -> (r: ProgressCounter)
        ensures
            r.spec_stage() == 0,
            r.spec_counter() == 0,
            r.spec_num_subtasks() == 0,
    {
        ProgressCounter { stage: 0, counter: 0, num_subtasks: 0 }
    }

    pub fn set_stage(&mut self, stage: u32)
        ensures
            final(self).spec_stage() == stage,
            final(self).spec_counter() == old(self).spec_counter(),
            final(self).spec_num_subtasks() == old(self).spec_num_subtasks(),
    {
        self.stage = stage;
    }

    pub fn get_stage(&self) -> (r: u32)
        ensures
            r == self.spec_stage(),
    {
        self.stage
    }

    pub fn get_num_subtasks(&self) -> (r: u32)
        ensures
            r == self.spec_num_subtasks(),
    {
        self.num_subtasks
    }

    /// The current task and subtask numbers.
    pub fn get_task_subtask(&self) -> (r: (u32, u32))
        ensures
            r == (task_of(self.spec_counter()), subtask_of(self.spec_counter())),
    {
        ((self.counter >> 32u64) as u32, self.counter as u32)
    }

    /// Starts a task of `num_subtasks` subtasks: the subtask counter goes
    /// back to 0, the task number stays. Returns the counter before the
    /// call.
    pub fn begin_task(&mut self, num_subtasks: u32) -> (r: u64)
        ensures
            r == old(self).spec_counter(),
            task_of(final(self).spec_counter()) == task_of(old(self).spec_counter()),
            subtask_of(final(self).spec_counter()) == 0,
            final(self).spec_num_subtasks() == num_subtasks,
            final(self).spec_stage() == old(self).spec_stage(),
    {
        let old_counter = self.counter;
        let mask: u64 = 0xffff_ffffu64;
        self.counter = self.counter & !mask;
        self.num_subtasks = num_subtasks;
        proof {
            let c = old_counter;
            assert(((c & !mask) >> 32u64) as u32 == (c >> 32u64) as u32 && (c & !mask) as u32 == 0u32) by (bit_vector)
                requires
                    mask == 0xffff_ffffu64,
            ;
        }
        old_counter
    }

    /// Counts one more finished subtask; the counter wraps around at
    /// `u64::MAX`.
    pub fn subtask_completed(&mut self)
        ensures
            final(self).spec_counter() == old(self).spec_counter().wrapping_add(1),
            subtask_of(old(self).spec_counter()) < u32::MAX ==> {
                &&& task_of(final(self).spec_counter()) == task_of(old(self).spec_counter())
                &&& subtask_of(final(self).spec_counter()) == subtask_of(old(self).spec_counter()) + 1
            },
            final(self).spec_stage() == old(self).spec_stage(),
            final(self).spec_num_subtasks() == old(self).spec_num_subtasks(),
    {
        let c = self.counter;
        self.counter = c.wrapping_add(1);
        proof {
            let d = c.wrapping_add(1);
            assert((c as u32) < 0xffff_ffffu32 ==> ((d >> 32u64) as u32 == (c >> 32u64) as u32 && (d as u32) as int
                == (c as u32) as int + 1)) by (bit_vector)
                requires
                    d == c.wrapping_add(1),
            ;
        }
    }

    /// Ends the current task: the task number goes up by one, wrapping
    /// around past `u32::MAX`. Returns the counter before the call.
    pub fn end_task(&mut self) -> (r: u64)
        ensures
            r == old(self).spec_counter(),
            final(self).spec_counter() == old(self).spec_counter().wrapping_add(0x1_0000_0000u64),
            task_of(final(self).spec_counter()) == task_of(old(self).spec_counter()).wrapping_add(1),
            subtask_of(final(self).spec_counter()) == subtask_of(old(self).spec_counter()),
            final(self).spec_stage() == old(self).spec_stage(),
            final(self).spec_num_subtasks() == old(self).spec_num_subtasks(),
    {
        let c = self.counter;
        self.counter = c.wrapping_add(0x1_0000_0000u64);
        proof {
            let d = c.wrapping_add(0x1_0000_0000u64);
            let t = ((c >> 32u64) as u32).wrapping_add(1);
            assert((d >> 32u64) as u32 == t && d as u32 == c as u32) by (bit_vector)
                requires
                    d == c.wrapping_add(0x1_0000_0000u64),
                    t == ((c >> 32u64) as u32).wrapping_add(1),
            ;
        }
        c
    }
}

/// How long a recorded task ran, in nanoseconds: from its start to its end
/// (nothing when the end comes first), or zero unless both were recorded.
pub fn task_duration(begin: Option<u64>, end: Option<u64>) -> (r: u64)
    ensures
        r == match (begin, end) {
            (Some(b), Some(e)) => if e >= b {
                (e - b) as u64
            } else {
                0
            },
            _ => 0,
        },
{
    match (begin, end) {
        (Some(b), Some(e)) => e.saturating_sub(b),
        _ => 0,
    }
}

/// The summed durations of the tasks of `stage` among `tasks`
/// ((stage, task), nanoseconds).
pub open spec fn stage_total(tasks: Seq<((u32, u32), u64)>, stage: u32) -> int
    decreases tasks.len(),
{
    if tasks.len() == 0 {
        0
    } else {
        stage_total(tasks.drop_last(), stage) + if tasks.last().0.0 == stage {
            tasks.last().1 as int
        } else {
            0
        }
    }
}

proof fn lemma_stage_total_bound(tasks: Seq<((u32, u32), u64)>, stage: u32)
    ensures
        0 <= stage_total(tasks, stage) <= tasks.len() * u64::MAX,
    decreases tasks.len(),
{
    if tasks.len() > 0 {
        lemma_stage_total_bound(tasks.drop_last(), stage);
        assert((tasks.len() - 1) * u64::MAX + u64::MAX == tasks.len() * u64::MAX) by (nonlinear_arith);
    }
}

/// For each of `stages`, the summed duration of its tasks.
pub fn stage_durations(tasks: &[((u32, u32), u64)], stages: &[u32]) -> (r: Vec<u128>)
    ensures
        r@.len() == stages@.len(),
        forall|i: int| 0 <= i < stages@.len() ==> #[trigger] r@[i] == stage_total(tasks@, stages@[i]),
{
    let mut r: Vec<u128> = Vec::with_capacity(stages.len());
    let mut i: usize = 0;
    while i < stages.len()
        invariant
            0 <= i <= stages@.len(),
            r@.len() == i,
            forall|k: int| 0 <= k < i ==> #[trigger] r@[k] == stage_total(tasks@, stages@[k]),
        decreases stages.len() - i,
    {
        let stage = stages[i];
        let mut total: u128 = 0;
        let mut k: usize = 0;
        while k < tasks.len()
            invariant
                0 <= k <= tasks@.len(),
                total == stage_total(tasks@.take(k as int), stage),
            decreases tasks.len() - k,
        {
            proof {
                assert(tasks@.take(k + 1).drop_last() =~= tasks@.take(k as int));
                lemma_stage_total_bound(tasks@.take(k as int), stage);
                assert(k * u64::MAX + u64::MAX < u128::MAX) by (nonlinear_arith)
                    requires
                        k < usize::MAX,
                ;
            }
            let ((s, _), d) = tasks[k];
            if s == stage {
                total = total + d as u128;
            }
            k += 1;
        }
        proof {
            assert(tasks@.take(tasks@.len() as int) =~= tasks@);
        }
        r.push(total);
        i += 1;
    }
    r
}

/// Each value is smaller than the next.
pub open spec fn strictly_increasing(s: Seq<u32>) -> bool {
    forall|i: int, j: int| 0 <= i < j < s.len() ==> #[trigger] s[i] < #[trigger] s[j]
}

/// Adds `x` to a strictly increasing list unless it is already there.
fn insert_sorted(v: &mut Vec<u32>, x: u32)
    requires
        strictly_increasing(old(v)@),
    ensures
        strictly_increasing(final(v)@),
        forall|y: u32| final(v)@.contains(y) <==> (old(v)@.contains(y) || y == x),
{
    let mut i: usize = 0;
    while i < v.len() && v[i] < x
        invariant
            v@ == old(v)@,
            strictly_increasing(v@),
            i <= v@.len(),
            forall|k: int| 0 <= k < i ==> v@[k] < x,
        decreases v.len() - i,
    {
        i = i + 1;
    }
    if i < v.len() && v[i] == x {
        proof {
            assert(v@[i as int] == x);
            assert(v@.contains(x));
        }
        return;
    }
    let ghost old_v = v@;
    v.insert(i, x);
    proof {
        assert forall|a: int, b: int| 0 <= a < b < v@.len() implies #[trigger] v@[a] < #[trigger] v@[b] by {
            if b < i {
                assert(old_v[a] < old_v[b]);
            } else if b == i {
                assert(old_v[a] < x);
            } else if a < i {
                assert(old_v[a] < x);
                assert(x < old_v[b - 1]);
            } else if a == i {
                assert(x < old_v[b - 1]);
            } else {
                assert(old_v[a - 1] < old_v[b - 1]);
            }
        }
        assert forall|y: u32| (old_v.contains(y) || y == x) implies v@.contains(y) by {
            if y == x {
                assert(v@[i as int] == x);
            } else {
                let k = choose|k: int| 0 <= k < old_v.len() && old_v[k] == y;
                if k < i {
                    assert(v@[k] == y);
                } else {
                    assert(v@[k + 1] == y);
                }
            }
        }
        assert forall|y: u32| v@.contains(y) implies (old_v.contains(y) || y == x) by {
            let k = choose|k: int| 0 <= k < v@.len() && v@[k] == y;
            if k < i {
                assert(old_v[k] == y);
            } else if k > i {
                assert(old_v[k - 1] == y);
            }
        }
        assert forall|y: u32| v@.contains(y) <==> (old_v.contains(y) || y == x) by {
            if v@.contains(y) {
                assert(old_v.contains(y) || y == x);
            }
            if old_v.contains(y) || y == x {
                assert(v@.contains(y));
            }
        }
    }
}

/// The distinct stages among `keys` (stage, task), in ascending order.
pub fn sorted_stages(keys: &[(u32, u32)]) -> (r: Vec<u32>)
    ensures
        strictly_increasing(r@),
        forall|s: u32| r@.contains(s) <==> exists|i: int| 0 <= i < keys@.len() && #[trigger] keys@[i].0 == s,
{
    let mut r: Vec<u32> = Vec::new();
    let mut i: usize = 0;
    while i < keys.len()
        invariant
            i <= keys@.len(),
            strictly_increasing(r@),
            forall|s: u32| r@.contains(s) <==> exists|k: int| 0 <= k < i && #[trigger] keys@[k].0 == s,
        decreases keys.len() - i,
    {
        insert_sorted(&mut r, keys[i].0);
        proof {
            assert forall|s: u32| r@.contains(s) <==> exists|k: int| 0 <= k < i + 1 && #[trigger] keys@[k].0 == s by {
                if exists|k: int| 0 <= k < i + 1 && #[trigger] keys@[k].0 == s {
                    let k = choose|k: int| 0 <= k < i + 1 && #[trigger] keys@[k].0 == s;
                    if k < i {
                        assert(exists|k2: int| 0 <= k2 < i && #[trigger] keys@[k2].0 == s);
                    }
                }
            }
        }
        i = i + 1;
    }
    r
}

/// The distinct tasks recorded for `stage` among `keys` (stage, task), in
/// ascending order.
pub fn sorted_tasks(keys: &[(u32, u32)], stage: u32) -> (r: Vec<u32>)
    ensures
        strictly_increasing(r@),
        forall|t: u32|
            r@.contains(t) <==> exists|i: int| 0 <= i < keys@.len() && #[trigger] keys@[i] == (stage, t),
{
    let mut r: Vec<u32> = Vec::new();
    let mut i: usize = 0;
    while i < keys.len()
        invariant
            i <= keys@.len(),
            strictly_increasing(r@),
            forall|t: u32| r@.contains(t) <==> exists|k: int| 0 <= k < i && #[trigger] keys@[k] == (stage, t),
        decreases keys.len() - i,
    {
        if keys[i].0 == stage {
            insert_sorted(&mut r, keys[i].1);
        }
        proof {
            assert forall|t: u32| r@.contains(t) <==> exists|k: int| 0 <= k < i + 1 && #[trigger] keys@[k] == (stage, t) by {
                if exists|k: int| 0 <= k < i + 1 && #[trigger] keys@[k] == (stage, t) {
                    let k = choose|k: int| 0 <= k < i + 1 && #[trigger] keys@[k] == (stage, t);
                    if k < i {
                        assert(exists|k2: int| 0 <= k2 < i && #[trigger] keys@[k2] == (stage, t));
                    }
                }
            }
        }
        i = i + 1;
    }
    r
}

} // verus!
