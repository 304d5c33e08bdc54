//! The recursive task-splitting policy, studied on its own: each divider
//! walks a half-open index range, splits it at the midpoint, and applies the
//! threshold policy at every level — fall back to a single unit of work
//! below `min_split_size`, continue in place, or mark a half as eligible for
//! its own worker at `min_thread_size`. The dividers return exact call and
//! worker counts, which satisfy closed recurrences stated here; a benchmark
//! driver adds the simulated per-item delay and real workers around these
//! decisions without changing any count. The process-wide atomic counters of
//! a live run are modelled by an explicit metrics context with an
//! init/reset/read lifecycle owned by the caller.

use vstd::prelude::*;

verus! {

/// How many units of work the whole-range divider performs: one for this
/// level, plus either the two halves' counts or a single unit of leaf work.
pub open spec fn defer_high_calls(low: int, high: int, min_split: int) -> int
    decreases high - low,
    when low <= high && min_split >= 2
{
    let mid = (low + high) / 2;
    if high - low >= min_split {
        1 + defer_high_calls(low, mid, min_split) + defer_high_calls(mid, high, min_split)
    } else {
        2
    }
}

/// How many units of work the half-tested divider performs: one for this
/// level, plus, for each half, its own count when the half reaches the
/// splitting threshold and a single unit of leaf work otherwise.
pub open spec fn defer_low_calls(low: int, high: int, min_split: int) -> int
    decreases high - low,
    when low <= high && min_split >= 2
{
    let mid = (low + high) / 2;
    1 + (if mid - low >= min_split {
        defer_low_calls(low, mid, min_split)
    } else {
        1
    }) + (if high - mid >= min_split {
        defer_low_calls(mid, high, min_split)
    } else {
        1
    })
}

/// The parallel divider's unit-of-work count. The first half recurses when
/// it reaches either threshold — a half large enough for its own worker is
/// always divided further — while the second half recurses only at the
/// splitting threshold, as in the half-tested divider.
pub open spec fn parallel_calls(low: int, high: int, min_split: int, min_thread: int) -> int
    decreases high - low,
    when low <= high && min_split >= 2 && min_thread >= 1
{
    let mid = (low + high) / 2;
    1 + (if mid - low >= min_thread || mid - low >= min_split {
        parallel_calls(low, mid, min_split, min_thread)
    } else {
        1
    }) + (if high - mid >= min_split {
        parallel_calls(mid, high, min_split, min_thread)
    } else {
        1
    })
}

/// How many workers the parallel divider hands out: one whenever the first
/// half reaches `min_thread`, plus whatever the recursive levels hand out.
pub open spec fn parallel_threads(low: int, high: int, min_split: int, min_thread: int) -> int
    decreases high - low,
    when low <= high && min_split >= 2 && min_thread >= 1
{
    let mid = (low + high) / 2;
    (if mid - low >= min_thread {
        1 + parallel_threads(low, mid, min_split, min_thread)
    } else if mid - low >= min_split {
        parallel_threads(low, mid, min_split, min_thread)
    } else {
        0
    }) + (if high - mid >= min_split {
        parallel_threads(mid, high, min_split, min_thread)
    } else {
        0
    })
}

/// The whole-range count is small: at most four units per index, and never
/// less than two.
pub proof fn lemma_defer_high_calls_bound(low: int, high: int, min_split: int)
    requires
        low <= high,
        min_split >= 2,
    ensures
        2 <= defer_high_calls(low, high, min_split) <= 4 * (high - low) + 3,
        high - low >= 1 ==> defer_high_calls(low, high, min_split) <= 4 * (high - low) - 1,
    decreases high - low,
{
    let mid = (low + high) / 2;
    if high - low >= min_split {
        lemma_defer_high_calls_bound(low, mid, min_split);
        lemma_defer_high_calls_bound(mid, high, min_split);
    }
}

/// The half-tested count is small: at most four units per index, and never
/// less than three.
pub proof fn lemma_defer_low_calls_bound(low: int, high: int, min_split: int)
    requires
        low <= high,
        min_split >= 2,
    ensures
        3 <= defer_low_calls(low, high, min_split) <= 4 * (high - low) + 3,
        high - low >= 1 ==> defer_low_calls(low, high, min_split) <= 4 * (high - low) - 1,
    decreases high - low,
{
    let mid = (low + high) / 2;
    if mid - low >= min_split {
        lemma_defer_low_calls_bound(low, mid, min_split);
    }
    if high - mid >= min_split {
        lemma_defer_low_calls_bound(mid, high, min_split);
    }
}

/// The parallel count is small in the same way.
pub proof fn lemma_parallel_calls_bound(low: int, high: int, min_split: int, min_thread: int)
    requires
        low <= high,
        min_split >= 2,
        min_thread >= 1,
    ensures
        3 <= parallel_calls(low, high, min_split, min_thread) <= 4 * (high - low) + 3,
        high - low >= 1 ==> parallel_calls(low, high, min_split, min_thread) <= 4 * (high - low)
            - 1,
    decreases high - low,
{
    let mid = (low + high) / 2;
    if mid - low >= min_thread || mid - low >= min_split {
        lemma_parallel_calls_bound(low, mid, min_split, min_thread);
    }
    if high - mid >= min_split {
        lemma_parallel_calls_bound(mid, high, min_split, min_thread);
    }
}

/// Workers are never handed out more often than units of work are counted.
pub proof fn lemma_parallel_threads_bound(low: int, high: int, min_split: int, min_thread: int)
    requires
        low <= high,
        min_split >= 2,
        min_thread >= 1,
    ensures
        0 <= parallel_threads(low, high, min_split, min_thread) <= parallel_calls(
            low,
            high,
            min_split,
            min_thread,
        ),
    decreases high - low,
{
    let mid = (low + high) / 2;
    if mid - low >= min_thread || mid - low >= min_split {
        lemma_parallel_calls_bound(low, mid, min_split, min_thread);
        lemma_parallel_threads_bound(low, mid, min_split, min_thread);
    }
    if high - mid >= min_split {
        lemma_parallel_calls_bound(mid, high, min_split, min_thread);
        lemma_parallel_threads_bound(mid, high, min_split, min_thread);
    }
}

/// The memory-ordering selection for the diagnostic counters, as a value
/// the policy can carry. Which ordering a live run selects changes only how
/// quickly the diagnostics become visible, never any count, so the dividers
/// carry the selection without reading it; a driver converts it to the
/// platform's own ordering when it touches real atomics.
#[derive(Clone, Copy, Debug, PartialEq, Eq, Structural)]
pub enum MemoryOrdering {
    Relaxed,
    Release,
    Acquire,
    AcqRel,
    SeqCst,
}

/// The metrics context that replaces process-wide counters: unit-of-work,
/// worker, and live-worker tallies, created and read by one top-level call.
#[derive(Clone, Copy, Debug, PartialEq, Eq, Structural)]
pub struct CallCounters {
    pub calls: usize,
    pub threads: usize,
    pub live_threads: usize,
}

impl CallCounters {
    pub fn new() -> (c: CallCounters)
        ensures
            c.calls == 0,
            c.threads == 0,
            c.live_threads == 0,
    {
        CallCounters { calls: 0, threads: 0, live_threads: 0 }
    }
}

/// A single unit of leaf work. The simulated delay of `nsec_per_item`
/// nanoseconds per index is a benchmark driver's business; the policy counts
/// the unit.
fn fake_work(low: usize, high: usize, nsec_per_item: u64) -> (r: usize)
    ensures
        r == 1,
{
    1
}

/// The same unit of leaf work, offered for inlining.
#[inline]
fn fake_work_inline(low: usize, high: usize, nsec_per_item: u64) -> (r: usize)
    ensures
        r == 1,
{
    1
}

/// The unit of leaf work for the narrow-typed dividers.
fn fake_work_2(low: u32, high: u32, nsec_per_item: u8) -> (r: u32)
    ensures
        r == 1,
{
    1
}

/// The same narrow-typed unit, offered for inlining.
#[inline]
fn fake_work_inline_2(low: u32, high: u32, nsec_per_item: u8) -> (r: u32)
    ensures
        r == 1,
{
    1
}

/// The unit of leaf work for the fixed-policy divider.
#[inline]
fn fake_work_inline_few_parms(low: usize, high: usize) -> (r: usize)
    ensures
        r == 1,
{
    1
}

/// The fixed splitting threshold of the parameterless divider.
pub const MIN_SPLIT_SIZE: usize = 10;

/// Divide `[low, high)` by testing the whole range against the splitting
/// threshold before halving, and return the number of units of work
/// performed.
pub fn divide_simple_defer_high(
    low: usize,
    high: usize,
    min_split_size: usize,
    nsec_per_item: u64,
    inline_fake_work: bool,
) -> (count: usize)
    requires
        low <= high,
        min_split_size >= 2,
        high - low <= usize::MAX / 8,
    ensures
        count == defer_high_calls(low as int, high as int, min_split_size as int),
    decreases high - low,
{
    proof {
        lemma_defer_high_calls_bound(low as int, high as int, min_split_size as int);
    }
    1 + if high - low >= min_split_size {
        let mid = low + (high - low) / 2;
        proof {
            lemma_defer_high_calls_bound(low as int, mid as int, min_split_size as int);
            lemma_defer_high_calls_bound(mid as int, high as int, min_split_size as int);
        }
        divide_simple_defer_high(low, mid, min_split_size, nsec_per_item, inline_fake_work)
            + divide_simple_defer_high(mid, high, min_split_size, nsec_per_item, inline_fake_work)
    } else if inline_fake_work {
        fake_work_inline(low, high, nsec_per_item)
    } else {
        fake_work(low, high, nsec_per_item)
    }
}

/// Divide `[low, high)` by testing each half against the splitting
/// threshold, and return the number of units of work performed.
pub fn divide_simple_defer_low(
    low: usize,
    high: usize,
    min_split_size: usize,
    nsec_per_item: u64,
    inline_fake_work: bool,
) -> (count: usize)
    requires
        low <= high,
        min_split_size >= 2,
        high - low <= usize::MAX / 8,
    ensures
        count == defer_low_calls(low as int, high as int, min_split_size as int),
    decreases high - low,
{
    proof {
        lemma_defer_low_calls_bound(low as int, high as int, min_split_size as int);
    }
    let mid = low + (high - low) / 2;
    proof {
        if mid - low >= min_split_size {
            lemma_defer_low_calls_bound(low as int, mid as int, min_split_size as int);
        }
        if high - mid >= min_split_size {
            lemma_defer_low_calls_bound(mid as int, high as int, min_split_size as int);
        }
    }
    1 + if mid - low >= min_split_size {
        divide_simple_defer_low(low, mid, min_split_size, nsec_per_item, inline_fake_work)
    } else if inline_fake_work {
        fake_work_inline(low, mid, nsec_per_item)
    } else {
        fake_work(low, mid, nsec_per_item)
    } + if high - mid >= min_split_size {
        divide_simple_defer_low(mid, high, min_split_size, nsec_per_item, inline_fake_work)
    } else if inline_fake_work {
        fake_work_inline(mid, high, nsec_per_item)
    } else {
        fake_work(mid, high, nsec_per_item)
    }
}

/// The half-tested divider with the policy fixed: the splitting threshold is
/// a module constant and the leaf work is always the inlined unit.
pub fn divide_simple_defer_low_few_parms(low: usize, high: usize) -> (count: usize)
    requires
        low <= high,
        high - low <= usize::MAX / 8,
    ensures
        count == defer_low_calls(low as int, high as int, MIN_SPLIT_SIZE as int),
    decreases high - low,
{
    proof {
        lemma_defer_low_calls_bound(low as int, high as int, MIN_SPLIT_SIZE as int);
    }
    let mid = low + (high - low) / 2;
    proof {
        if mid - low >= MIN_SPLIT_SIZE {
            lemma_defer_low_calls_bound(low as int, mid as int, MIN_SPLIT_SIZE as int);
        }
        if high - mid >= MIN_SPLIT_SIZE {
            lemma_defer_low_calls_bound(mid as int, high as int, MIN_SPLIT_SIZE as int);
        }
    }
    1 + if mid - low >= MIN_SPLIT_SIZE {
        divide_simple_defer_low_few_parms(low, mid)
    } else {
        fake_work_inline_few_parms(low, mid)
    } + if high - mid >= MIN_SPLIT_SIZE {
        divide_simple_defer_low_few_parms(mid, high)
    } else {
        fake_work_inline_few_parms(mid, high)
    }
}

/// The parallel divider with its policy spelled out as plain parameters at
/// every level: the first half earns its own worker at `min_thread_size`,
/// recurses in place at `min_split_size`, and is leaf work below both; the
/// second half recurses at the splitting threshold. Returns the unit-of-work
/// count and the number of workers handed out.
pub fn divide_simple_parallel(
    low: usize,
    high: usize,
    min_split_size: usize,
    min_thread_size: usize,
    nsec_per_item: u64,
    inline_fake_work: bool,
    use_atomic_counter: bool,
) -> (r: (usize, usize))
    requires
        low <= high,
        min_split_size >= 2,
        min_thread_size >= 1,
        high - low <= usize::MAX / 8,
    ensures
        r.0 == parallel_calls(low as int, high as int, min_split_size as int, min_thread_size as int),
        r.1 == parallel_threads(
            low as int,
            high as int,
            min_split_size as int,
            min_thread_size as int,
        ),
    decreases high - low,
{
    let ghost ms = min_split_size as int;
    let ghost mt = min_thread_size as int;
    proof {
        lemma_parallel_calls_bound(low as int, high as int, ms, mt);
        lemma_parallel_threads_bound(low as int, high as int, ms, mt);
    }
    let mid = low + (high - low) / 2;
    let first_len = mid - low;
    proof {
        lemma_parallel_calls_bound(low as int, mid as int, ms, mt);
        lemma_parallel_threads_bound(low as int, mid as int, ms, mt);
        lemma_parallel_calls_bound(mid as int, high as int, ms, mt);
        lemma_parallel_threads_bound(mid as int, high as int, ms, mt);
    }
    let first: (usize, usize);
    let first_spawned: bool;
    if first_len >= min_thread_size {
        first = divide_simple_parallel(
            low,
            mid,
            min_split_size,
            min_thread_size,
            nsec_per_item,
            inline_fake_work,
            use_atomic_counter,
        );
        first_spawned = true;
    } else if first_len >= min_split_size {
        first = divide_simple_parallel(
            low,
            mid,
            min_split_size,
            min_thread_size,
            nsec_per_item,
            inline_fake_work,
            use_atomic_counter,
        );
        first_spawned = false;
    } else {
        let work = if inline_fake_work {
            fake_work_inline(low, mid, nsec_per_item)
        } else {
            fake_work(low, mid, nsec_per_item)
        };
        first = (work, 0);
        first_spawned = false;
    }
    let second: (usize, usize) = if high - mid >= min_split_size {
        divide_simple_parallel(
            mid,
            high,
            min_split_size,
            min_thread_size,
            nsec_per_item,
            inline_fake_work,
            use_atomic_counter,
        )
    } else {
        if inline_fake_work {
            (fake_work_inline(mid, high, nsec_per_item), 0)
        } else {
            (fake_work(mid, high, nsec_per_item), 0)
        }
    };
    let first_threads = if first_spawned {
        first.1 + 1
    } else {
        first.1
    };
    (1 + first.0 + second.0, first_threads + second.1)
}

/// The parallel divider's policy, copied by value into every level.
#[derive(Copy, Clone)]
pub struct DivideParallelSettings {
    min_split_size: usize,
    min_thread_size: usize,
    nsec_per_item: u64,
    inline_fake_work: bool,
    use_atomic_counter: bool,
}

/// The narrow-typed policy, with an optional ordering selection for the
/// diagnostic call counter.
#[derive(Copy, Clone)]
pub struct DivideParallelSettings2 {
    min_split_size: u8,
    min_thread_size: u32,
    nsec_per_item: u8,
    inline_fake_work: bool,
    atomic_counter_ordering: Option<MemoryOrdering>,
}

/// The policy of the divider that reports only through the metrics context.
#[derive(Copy, Clone)]
pub struct DivideParallelSettingsNoReturn {
    min_split_size: u8,
    min_thread_size: u32,
    nsec_per_item: u8,
    inline_fake_work: bool,
    ordering: MemoryOrdering,
}

/// The policy of the divider whose live-worker tally a monitor watches.
#[derive(Copy, Clone)]
pub struct DivideParallelSettingsMonitor {
    min_split_size: u8,
    min_thread_size: u32,
    nsec_per_item: u8,
    ordering: MemoryOrdering,
}

/// The policy of the divider that tallies calls through a shared counter.
#[derive(Copy, Clone)]
pub struct DivideParallelSettingsMutex {
    min_split_size: u8,
    min_thread_size: u32,
    nsec_per_item: u8,
    inline_fake_work: bool,
}

/// The policy with both thresholds widened to thirty-two bits.
#[derive(Copy, Clone)]
pub struct DivideParallelSettings3 {
    min_split_size: u32,
    min_thread_size: u32,
    nsec_per_item: u8,
    inline_fake_work: bool,
    use_atomic_counter: bool,
}

/// Divide `[low, high)` under the threshold policy and return the unit-of-
/// work count and the number of halves that earned their own worker.
pub fn divide_parallel_settings(
    low: usize,
    high: usize,
    min_split_size: usize,
    min_thread_size: usize,
    nsec_per_item: u64,
    inline_fake_work: bool,
    use_atomic_counter: bool,
) -> (r: (usize, usize))
    requires
        low <= high,
        min_split_size >= 2,
        min_thread_size >= 1,
        high - low <= usize::MAX / 8,
    ensures
        r.0 == parallel_calls(low as int, high as int, min_split_size as int, min_thread_size as int),
        r.1 == parallel_threads(
            low as int,
            high as int,
            min_split_size as int,
            min_thread_size as int,
        ),
{
    divide_parallel_settings_internal(
        low,
        high,
        DivideParallelSettings {
            min_split_size,
            min_thread_size,
            nsec_per_item,
            inline_fake_work,
            use_atomic_counter,
        },
    )
}

fn divide_parallel_settings_internal(low: usize, high: usize, settings: DivideParallelSettings) -> (r:
    (usize, usize))
    requires
        low <= high,
        settings.min_split_size >= 2,
        settings.min_thread_size >= 1,
        high - low <= usize::MAX / 8,
    ensures
        r.0 == parallel_calls(
            low as int,
            high as int,
            settings.min_split_size as int,
            settings.min_thread_size as int,
        ),
        r.1 == parallel_threads(
            low as int,
            high as int,
            settings.min_split_size as int,
            settings.min_thread_size as int,
        ),
    decreases high - low,
{
    let ghost ms = settings.min_split_size as int;
    let ghost mt = settings.min_thread_size as int;
    proof {
        lemma_parallel_calls_bound(low as int, high as int, ms, mt);
        lemma_parallel_threads_bound(low as int, high as int, ms, mt);
    }
    let mid = low + (high - low) / 2;
    let first_len = mid - low;
    proof {
        lemma_parallel_calls_bound(low as int, mid as int, ms, mt);
        lemma_parallel_threads_bound(low as int, mid as int, ms, mt);
        lemma_parallel_calls_bound(mid as int, high as int, ms, mt);
        lemma_parallel_threads_bound(mid as int, high as int, ms, mt);
    }
    let first: (usize, usize);
    let first_spawned: bool;
    if first_len >= settings.min_thread_size {
        // A live run hands this half to a fresh worker and joins it before
        // the level's result is taken; the counts do not depend on that.
        first = divide_parallel_settings_internal(low, mid, settings);
        first_spawned = true;
    } else if first_len >= settings.min_split_size {
        first = divide_parallel_settings_internal(low, mid, settings);
        first_spawned = false;
    } else {
        let work = if settings.inline_fake_work {
            fake_work_inline(low, mid, settings.nsec_per_item)
        } else {
            fake_work(low, mid, settings.nsec_per_item)
        };
        first = (work, 0);
        first_spawned = false;
    }
    let second: (usize, usize) = if high - mid >= settings.min_split_size {
        divide_parallel_settings_internal(mid, high, settings)
    } else {
        if settings.inline_fake_work {
            (fake_work_inline(mid, high, settings.nsec_per_item), 0)
        } else {
            (fake_work(mid, high, settings.nsec_per_item), 0)
        }
    };
    let first_threads = if first_spawned {
        first.1 + 1
    } else {
        first.1
    };
    (1 + first.0 + second.0, first_threads + second.1)
}

/// The narrow-typed parallel divider. When an ordering is selected, the
/// metrics context's call tally is raised by the unit-of-work count, as the
/// diagnostic counter of a live run would be.
pub fn divide_parallel_settings_2(
    low: u32,
    high: u32,
    min_split_size: u8,
    min_thread_size: u32,
    nsec_per_item: u8,
    inline_fake_work: bool,
    atomic_counter_ordering: Option<MemoryOrdering>,
    counters: &mut CallCounters,
) -> (r: (u32, u32))
    requires
        low <= high,
        min_split_size >= 2,
        min_thread_size >= 1,
        high - low <= u32::MAX / 8,
        old(counters).calls + parallel_calls(
            low as int,
            high as int,
            min_split_size as int,
            min_thread_size as int,
        ) <= usize::MAX,
    ensures
        r.0 == parallel_calls(low as int, high as int, min_split_size as int, min_thread_size as int),
        r.1 == parallel_threads(
            low as int,
            high as int,
            min_split_size as int,
            min_thread_size as int,
        ),
        atomic_counter_ordering is Some ==> final(counters).calls == old(counters).calls
            + parallel_calls(
            low as int,
            high as int,
            min_split_size as int,
            min_thread_size as int,
        ),
        atomic_counter_ordering is None ==> final(counters).calls == old(counters).calls,
        final(counters).threads == old(counters).threads,
        final(counters).live_threads == old(counters).live_threads,
{
    divide_parallel_settings_internal_2(
        low,
        high,
        DivideParallelSettings2 {
            min_split_size,
            min_thread_size,
            nsec_per_item,
            inline_fake_work,
            atomic_counter_ordering,
        },
        counters,
    )
}

fn divide_parallel_settings_internal_2(
    low: u32,
    high: u32,
    settings: DivideParallelSettings2,
    counters: &mut CallCounters,
) -> (r: (u32, u32))
    requires
        low <= high,
        settings.min_split_size >= 2,
        settings.min_thread_size >= 1,
        high - low <= u32::MAX / 8,
        old(counters).calls + parallel_calls(
            low as int,
            high as int,
            settings.min_split_size as int,
            settings.min_thread_size as int,
        ) <= usize::MAX,
    ensures
        r.0 == parallel_calls(
            low as int,
            high as int,
            settings.min_split_size as int,
            settings.min_thread_size as int,
        ),
        r.1 == parallel_threads(
            low as int,
            high as int,
            settings.min_split_size as int,
            settings.min_thread_size as int,
        ),
        settings.atomic_counter_ordering is Some ==> final(counters).calls == old(counters).calls
            + parallel_calls(
            low as int,
            high as int,
            settings.min_split_size as int,
            settings.min_thread_size as int,
        ),
        settings.atomic_counter_ordering is None ==> final(counters).calls == old(counters).calls,
        final(counters).threads == old(counters).threads,
        final(counters).live_threads == old(counters).live_threads,
    decreases high - low,
{
    let ghost ms = settings.min_split_size as int;
    let ghost mt = settings.min_thread_size as int;
    proof {
        lemma_parallel_calls_bound(low as int, high as int, ms, mt);
        lemma_parallel_threads_bound(low as int, high as int, ms, mt);
    }
    let min_thread_size = settings.min_thread_size;
    let min_split_size = settings.min_split_size as u32;
    let mut internal_call_count: u32 = 1;
    let mid = low + (high - low) / 2;
    let first_len = mid - low;
    proof {
        lemma_parallel_calls_bound(low as int, mid as int, ms, mt);
        lemma_parallel_threads_bound(low as int, mid as int, ms, mt);
        lemma_parallel_calls_bound(mid as int, high as int, ms, mt);
        lemma_parallel_threads_bound(mid as int, high as int, ms, mt);
    }
    let first: (u32, u32);
    let first_spawned: bool;
    if first_len >= min_thread_size {
        first = divide_parallel_settings_internal_2(low, mid, settings, counters);
        first_spawned = true;
    } else if first_len >= min_split_size {
        first = divide_parallel_settings_internal_2(low, mid, settings, counters);
        first_spawned = false;
    } else {
        internal_call_count = internal_call_count + 1;
        let work = if settings.inline_fake_work {
            fake_work_inline_2(low, mid, settings.nsec_per_item)
        } else {
            fake_work_2(low, mid, settings.nsec_per_item)
        };
        first = (work, 0);
        first_spawned = false;
    }
    let second: (u32, u32) = if high - mid >= min_split_size {
        divide_parallel_settings_internal_2(mid, high, settings, counters)
    } else {
        internal_call_count = internal_call_count + 1;
        if settings.inline_fake_work {
            (fake_work_inline_2(mid, high, settings.nsec_per_item), 0)
        } else {
            (fake_work_2(mid, high, settings.nsec_per_item), 0)
        }
    };
    if settings.atomic_counter_ordering.is_some() {
        counters.calls = counters.calls + internal_call_count as usize;
    }
    let first_threads = if first_spawned {
        first.1 + 1
    } else {
        first.1
    };
    (1 + first.0 + second.0, first_threads + second.1)
}

/// The parallel divider that reports nothing back directly: every level adds
/// its units of work and its spawned workers to the metrics context, under
/// the selected ordering, exactly as a live run's diagnostic counters would
/// be raised.
pub fn divide_parallel_no_return(
    low: u32,
    high: u32,
    min_split_size: u8,
    min_thread_size: u32,
    nsec_per_item: u8,
    inline_fake_work: bool,
    ordering: MemoryOrdering,
    counters: &mut CallCounters,
)
    requires
        low <= high,
        min_split_size >= 2,
        min_thread_size >= 1,
        high - low <= u32::MAX / 8,
        old(counters).calls + parallel_calls(
            low as int,
            high as int,
            min_split_size as int,
            min_thread_size as int,
        ) <= usize::MAX,
        old(counters).threads + parallel_threads(
            low as int,
            high as int,
            min_split_size as int,
            min_thread_size as int,
        ) <= usize::MAX,
    ensures
        final(counters).calls == old(counters).calls + parallel_calls(
            low as int,
            high as int,
            min_split_size as int,
            min_thread_size as int,
        ),
        final(counters).threads == old(counters).threads + parallel_threads(
            low as int,
            high as int,
            min_split_size as int,
            min_thread_size as int,
        ),
        final(counters).live_threads == old(counters).live_threads,
{
    divide_parallel_no_return_internal(
        low,
        high,
        DivideParallelSettingsNoReturn {
            min_split_size,
            min_thread_size,
            nsec_per_item,
            inline_fake_work,
            ordering,
        },
        counters,
    )
}

fn divide_parallel_no_return_internal(
    low: u32,
    high: u32,
    settings: DivideParallelSettingsNoReturn,
    counters: &mut CallCounters,
)
    requires
        low <= high,
        settings.min_split_size >= 2,
        settings.min_thread_size >= 1,
        high - low <= u32::MAX / 8,
        old(counters).calls + parallel_calls(
            low as int,
            high as int,
            settings.min_split_size as int,
            settings.min_thread_size as int,
        ) <= usize::MAX,
        old(counters).threads + parallel_threads(
            low as int,
            high as int,
            settings.min_split_size as int,
            settings.min_thread_size as int,
        ) <= usize::MAX,
    ensures
        final(counters).calls == old(counters).calls + parallel_calls(
            low as int,
            high as int,
            settings.min_split_size as int,
            settings.min_thread_size as int,
        ),
        final(counters).threads == old(counters).threads + parallel_threads(
            low as int,
            high as int,
            settings.min_split_size as int,
            settings.min_thread_size as int,
        ),
        final(counters).live_threads == old(counters).live_threads,
    decreases high - low,
{
    let ghost ms = settings.min_split_size as int;
    let ghost mt = settings.min_thread_size as int;
    proof {
        lemma_parallel_calls_bound(low as int, high as int, ms, mt);
        lemma_parallel_threads_bound(low as int, high as int, ms, mt);
    }
    let min_thread_size = settings.min_thread_size;
    let min_split_size = settings.min_split_size as u32;
    let mut internal_call_count: u32 = 1;
    let mid = low + (high - low) / 2;
    let first_len = mid - low;
    proof {
        lemma_parallel_calls_bound(low as int, mid as int, ms, mt);
        lemma_parallel_threads_bound(low as int, mid as int, ms, mt);
        lemma_parallel_calls_bound(mid as int, high as int, ms, mt);
        lemma_parallel_threads_bound(mid as int, high as int, ms, mt);
    }
    if first_len >= min_thread_size {
        counters.threads = counters.threads + 1;
        divide_parallel_no_return_internal(low, mid, settings, counters);
    } else if first_len >= min_split_size {
        divide_parallel_no_return_internal(low, mid, settings, counters);
    } else {
        internal_call_count = internal_call_count + 1;
        if settings.inline_fake_work {
            fake_work_inline_2(low, mid, settings.nsec_per_item);
        } else {
            fake_work_2(low, mid, settings.nsec_per_item);
        }
    }
    if high - mid >= min_split_size {
        divide_parallel_no_return_internal(mid, high, settings, counters);
    } else {
        internal_call_count = internal_call_count + 1;
        if settings.inline_fake_work {
            fake_work_inline_2(mid, high, settings.nsec_per_item);
        } else {
            fake_work_2(mid, high, settings.nsec_per_item);
        }
    }
    counters.calls = counters.calls + internal_call_count as usize;
}

/// The monitored parallel divider: like the no-return form, it raises the
/// worker tally when a half earns a worker, and additionally raises the
/// live-worker tally while that worker would be running, lowering it at the
/// join. Over a whole call the live tally always returns to where it began.
pub fn divide_parallel_monitor(
    low: u32,
    high: u32,
    min_split_size: u8,
    min_thread_size: u32,
    nsec_per_item: u8,
    ordering: MemoryOrdering,
    counters: &mut CallCounters,
)
    requires
        low <= high,
        min_split_size >= 2,
        min_thread_size >= 1,
        high - low <= u32::MAX / 8,
        old(counters).calls + parallel_calls(
            low as int,
            high as int,
            min_split_size as int,
            min_thread_size as int,
        ) <= usize::MAX,
        old(counters).threads + parallel_threads(
            low as int,
            high as int,
            min_split_size as int,
            min_thread_size as int,
        ) <= usize::MAX,
        old(counters).live_threads + parallel_threads(
            low as int,
            high as int,
            min_split_size as int,
            min_thread_size as int,
        ) <= usize::MAX,
    ensures
        final(counters).calls == old(counters).calls + parallel_calls(
            low as int,
            high as int,
            min_split_size as int,
            min_thread_size as int,
        ),
        final(counters).threads == old(counters).threads + parallel_threads(
            low as int,
            high as int,
            min_split_size as int,
            min_thread_size as int,
        ),
        final(counters).live_threads == old(counters).live_threads,
{
    divide_parallel_monitor_internal(
        low,
        high,
        DivideParallelSettingsMonitor { min_split_size, min_thread_size, nsec_per_item, ordering },
        counters,
    )
}

fn divide_parallel_monitor_internal(
    low: u32,
    high: u32,
    settings: DivideParallelSettingsMonitor,
    counters: &mut CallCounters,
)
    requires
        low <= high,
        settings.min_split_size >= 2,
        settings.min_thread_size >= 1,
        high - low <= u32::MAX / 8,
        old(counters).calls + parallel_calls(
            low as int,
            high as int,
            settings.min_split_size as int,
            settings.min_thread_size as int,
        ) <= usize::MAX,
        old(counters).threads + parallel_threads(
            low as int,
            high as int,
            settings.min_split_size as int,
            settings.min_thread_size as int,
        ) <= usize::MAX,
        old(counters).live_threads + parallel_threads(
            low as int,
            high as int,
            settings.min_split_size as int,
            settings.min_thread_size as int,
        ) <= usize::MAX,
    ensures
        final(counters).calls == old(counters).calls + parallel_calls(
            low as int,
            high as int,
            settings.min_split_size as int,
            settings.min_thread_size as int,
        ),
        final(counters).threads == old(counters).threads + parallel_threads(
            low as int,
            high as int,
            settings.min_split_size as int,
            settings.min_thread_size as int,
        ),
        final(counters).live_threads == old(counters).live_threads,
    decreases high - low,
{
    let ghost ms = settings.min_split_size as int;
    let ghost mt = settings.min_thread_size as int;
    proof {
        lemma_parallel_calls_bound(low as int, high as int, ms, mt);
        lemma_parallel_threads_bound(low as int, high as int, ms, mt);
    }
    let min_thread_size = settings.min_thread_size;
    let min_split_size = settings.min_split_size as u32;
    let mut internal_call_count: u32 = 1;
    let mid = low + (high - low) / 2;
    let first_len = mid - low;
    proof {
        lemma_parallel_calls_bound(low as int, mid as int, ms, mt);
        lemma_parallel_threads_bound(low as int, mid as int, ms, mt);
        lemma_parallel_calls_bound(mid as int, high as int, ms, mt);
        lemma_parallel_threads_bound(mid as int, high as int, ms, mt);
    }
    let mut joined_worker = false;
    if first_len >= min_thread_size {
        counters.threads = counters.threads + 1;
        counters.live_threads = counters.live_threads + 1;
        divide_parallel_monitor_internal(low, mid, settings, counters);
        joined_worker = true;
    } else if first_len >= min_split_size {
        divide_parallel_monitor_internal(low, mid, settings, counters);
    } else {
        internal_call_count = internal_call_count + 1;
        fake_work_inline_2(low, mid, settings.nsec_per_item);
    }
    if high - mid >= min_split_size {
        divide_parallel_monitor_internal(mid, high, settings, counters);
    } else {
        internal_call_count = internal_call_count + 1;
        fake_work_inline_2(mid, high, settings.nsec_per_item);
    }
    if joined_worker {
        counters.live_threads = counters.live_threads - 1;
    }
    counters.calls = counters.calls + internal_call_count as usize;
}

/// The parallel divider whose call tally travels through a shared counter
/// handle: the returned triple holds the unit-of-work count, the worker
/// count, and the tally read back from the counter, which always agree.
pub fn divide_parallel_mutex(
    low: u32,
    high: u32,
    min_split_size: u8,
    min_thread_size: u32,
    nsec_per_item: u8,
    inline_fake_work: bool,
) -> (r: (u32, u32, u32))
    requires
        low <= high,
        min_split_size >= 2,
        min_thread_size >= 1,
        high - low <= u32::MAX / 8,
    ensures
        r.0 == parallel_calls(low as int, high as int, min_split_size as int, min_thread_size as int),
        r.1 == parallel_threads(
            low as int,
            high as int,
            min_split_size as int,
            min_thread_size as int,
        ),
        r.2 == r.0,
{
    let settings = DivideParallelSettingsMutex {
        min_split_size,
        min_thread_size,
        nsec_per_item,
        inline_fake_work,
    };
    let mut counter_call_count: u32 = 0;
    proof {
        lemma_parallel_calls_bound(
            low as int,
            high as int,
            min_split_size as int,
            min_thread_size as int,
        );
    }
    let (call_count, thread_count) = divide_parallel_mutex_internal(
        low,
        high,
        settings,
        &mut counter_call_count,
    );
    (call_count, thread_count, counter_call_count)
}

fn divide_parallel_mutex_internal(
    low: u32,
    high: u32,
    settings: DivideParallelSettingsMutex,
    counter: &mut u32,
) -> (r: (u32, u32))
    requires
        low <= high,
        settings.min_split_size >= 2,
        settings.min_thread_size >= 1,
        high - low <= u32::MAX / 8,
        *old(counter) + parallel_calls(
            low as int,
            high as int,
            settings.min_split_size as int,
            settings.min_thread_size as int,
        ) <= u32::MAX,
    ensures
        r.0 == parallel_calls(
            low as int,
            high as int,
            settings.min_split_size as int,
            settings.min_thread_size as int,
        ),
        r.1 == parallel_threads(
            low as int,
            high as int,
            settings.min_split_size as int,
            settings.min_thread_size as int,
        ),
        *final(counter) == *old(counter) + parallel_calls(
            low as int,
            high as int,
            settings.min_split_size as int,
            settings.min_thread_size as int,
        ),
    decreases high - low,
{
    let ghost ms = settings.min_split_size as int;
    let ghost mt = settings.min_thread_size as int;
    proof {
        lemma_parallel_calls_bound(low as int, high as int, ms, mt);
        lemma_parallel_threads_bound(low as int, high as int, ms, mt);
    }
    let min_thread_size = settings.min_thread_size;
    let min_split_size = settings.min_split_size as u32;
    let mut internal_call_count: u32 = 1;
    let mid = low + (high - low) / 2;
    let first_len = mid - low;
    proof {
        lemma_parallel_calls_bound(low as int, mid as int, ms, mt);
        lemma_parallel_threads_bound(low as int, mid as int, ms, mt);
        lemma_parallel_calls_bound(mid as int, high as int, ms, mt);
        lemma_parallel_threads_bound(mid as int, high as int, ms, mt);
    }
    let first: (u32, u32);
    let first_spawned: bool;
    if first_len >= min_thread_size {
        first = divide_parallel_mutex_internal(low, mid, settings, counter);
        first_spawned = true;
    } else if first_len >= min_split_size {
        first = divide_parallel_mutex_internal(low, mid, settings, counter);
        first_spawned = false;
    } else {
        internal_call_count = internal_call_count + 1;
        let work = if settings.inline_fake_work {
            fake_work_inline_2(low, mid, settings.nsec_per_item)
        } else {
            fake_work_2(low, mid, settings.nsec_per_item)
        };
        first = (work, 0);
        first_spawned = false;
    }
    let second: (u32, u32) = if high - mid >= min_split_size {
        divide_parallel_mutex_internal(mid, high, settings, counter)
    } else {
        internal_call_count = internal_call_count + 1;
        if settings.inline_fake_work {
            (fake_work_inline_2(mid, high, settings.nsec_per_item), 0)
        } else {
            (fake_work_2(mid, high, settings.nsec_per_item), 0)
        }
    };
    *counter = *counter + internal_call_count;
    let first_threads = if first_spawned {
        first.1 + 1
    } else {
        first.1
    };
    (1 + first.0 + second.0, first_threads + second.1)
}

/// The parallel divider with both thresholds carried as thirty-two-bit
/// values.
pub fn divide_parallel_settings_3(
    low: u32,
    high: u32,
    min_split_size: u32,
    min_thread_size: u32,
    nsec_per_item: u8,
    inline_fake_work: bool,
    use_atomic_counter: bool,
) -> (r: (u32, u32))
    requires
        low <= high,
        min_split_size >= 2,
        min_thread_size >= 1,
        high - low <= u32::MAX / 8,
    ensures
        r.0 == parallel_calls(low as int, high as int, min_split_size as int, min_thread_size as int),
        r.1 == parallel_threads(
            low as int,
            high as int,
            min_split_size as int,
            min_thread_size as int,
        ),
{
    divide_parallel_settings_internal_3(
        low,
        high,
        DivideParallelSettings3 {
            min_split_size,
            min_thread_size,
            nsec_per_item,
            inline_fake_work,
            use_atomic_counter,
        },
    )
}

fn divide_parallel_settings_internal_3(low: u32, high: u32, settings: DivideParallelSettings3) -> (r:
    (u32, u32))
    requires
        low <= high,
        settings.min_split_size >= 2,
        settings.min_thread_size >= 1,
        high - low <= u32::MAX / 8,
    ensures
        r.0 == parallel_calls(
            low as int,
            high as int,
            settings.min_split_size as int,
            settings.min_thread_size as int,
        ),
        r.1 == parallel_threads(
            low as int,
            high as int,
            settings.min_split_size as int,
            settings.min_thread_size as int,
        ),
    decreases high - low,
{
    let ghost ms = settings.min_split_size as int;
    let ghost mt = settings.min_thread_size as int;
    proof {
        lemma_parallel_calls_bound(low as int, high as int, ms, mt);
        lemma_parallel_threads_bound(low as int, high as int, ms, mt);
    }
    let mid = low + (high - low) / 2;
    let first_len = mid - low;
    proof {
        lemma_parallel_calls_bound(low as int, mid as int, ms, mt);
        lemma_parallel_threads_bound(low as int, mid as int, ms, mt);
        lemma_parallel_calls_bound(mid as int, high as int, ms, mt);
        lemma_parallel_threads_bound(mid as int, high as int, ms, mt);
    }
    let first: (u32, u32);
    let first_spawned: bool;
    if first_len >= settings.min_thread_size {
        first = divide_parallel_settings_internal_3(low, mid, settings);
        first_spawned = true;
    } else if first_len >= settings.min_split_size {
        first = divide_parallel_settings_internal_3(low, mid, settings);
        first_spawned = false;
    } else {
        let work = if settings.inline_fake_work {
            fake_work_inline_2(low, mid, settings.nsec_per_item)
        } else {
            fake_work_2(low, mid, settings.nsec_per_item)
        };
        first = (work, 0);
        first_spawned = false;
    }
    let second: (u32, u32) = if high - mid >= settings.min_split_size {
        divide_parallel_settings_internal_3(mid, high, settings)
    } else {
        if settings.inline_fake_work {
            (fake_work_inline_2(mid, high, settings.nsec_per_item), 0)
        } else {
            (fake_work_2(mid, high, settings.nsec_per_item), 0)
        }
    };
    let first_threads = if first_spawned {
        first.1 + 1
    } else {
        first.1
    };
    (1 + first.0 + second.0, first_threads + second.1)
}

} // verus!
