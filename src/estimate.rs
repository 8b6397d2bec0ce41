use vstd::prelude::*;

verus! {

/// Entries read before a directory counts as large.
pub const LARGE_DIR_THRESHOLD: usize = 1000;

/// Entries whose sizes are sampled by the size estimate.
pub const SIZE_SAMPLE_LIMIT: usize = 100;

/// Entries counted, at most, by the size estimate.
pub const ENTRY_COUNT_CAP: usize = 10000;

/// The item count that stands for a large directory in the progress total.
pub const LARGE_DIR_ITEM_ESTIMATE: usize = 5000;

/// `a * n / k`, rounded to the nearest integer, halves up.
pub open spec fn rounded_scale(a: int, n: int, k: int) -> int
    recommends
        k > 0,
{
    a * n / k + if 2 * (a * n % k) >= k {
        1int
    } else {
        0int
    }
}

/// The sampled size estimate of a directory: with `samples` entries of
/// `sampled_bytes` in all among `entries` entries, the average sample size
/// times `entries`, or the sampled bytes alone when nothing is left to
/// extrapolate.
pub open spec fn estimated_size(sampled_bytes: u64, samples: u64, entries: u64) -> int {
    if samples > 0 && entries > samples {
        let x = rounded_scale(sampled_bytes as int, entries as int, samples as int);
        if x <= u64::MAX {
            x
        } else {
            u64::MAX as int
        }
    } else {
        sampled_bytes as int
    }
}

/// Extrapolates a directory's size from a sample of its entries.
pub fn extrapolate_size(sampled_bytes: u64, samples: u64, entries: u64) -> (r: u64)
    ensures
        r == estimated_size(sampled_bytes, samples, entries),
{
    if samples > 0 && entries > samples {
        assert((sampled_bytes as int) * (entries as int) <= (u64::MAX as int) * (u64::MAX as int))
            by (nonlinear_arith)
            requires
                sampled_bytes <= u64::MAX,
                entries <= u64::MAX,
        ;
        let p: u128 = (sampled_bytes as u128) * (entries as u128);
        let k: u128 = samples as u128;
        let q: u128 = p / k;
        let up: u128 = if 2 * (p % k) >= k {
            1
        } else {
            0
        };
        assert(q <= p);
        let x: u128 = q + up;
        if x <= u64::MAX as u128 {
            x as u64
        } else {
            u64::MAX
        }
    } else {
        sampled_bytes
    }
}

/// Whether the count of entries read by the probe makes a directory large.
pub fn is_large_count(entries_read: usize) -> (r: bool)
    ensures
        r == (entries_read >= LARGE_DIR_THRESHOLD),
{
    entries_read >= LARGE_DIR_THRESHOLD
}

/// The depth with which a subdirectory is counted for the progress total:
/// counting descends fully only through the two shallowest levels.
pub open spec fn count_depth_spec(depth: nat) -> nat {
    if depth > 2 {
        0
    } else {
        (depth - 1) as nat
    }
}

/// How one path adds to the progress total.
pub enum CountPlan {
    /// Not a directory: it counts one.
    One,
    /// A large directory: it counts a fixed estimate, and is not read.
    Fixed(usize),
    /// A directory to read: it counts one for itself and, for each entry,
    /// one for a file, one for a directory when `depth` is 0, and otherwise
    /// the count of the directory at `child_depth`.
    Expand { child_depth: usize },
}

/// Decides how a path adds to the progress total.
pub fn count_plan(is_dir: bool, is_large: bool, depth: usize) -> (r: CountPlan)
    ensures
        !is_dir ==> r == CountPlan::One,
        is_dir && is_large ==> r == CountPlan::Fixed(LARGE_DIR_ITEM_ESTIMATE),
        is_dir && !is_large && depth > 0 ==> r == (CountPlan::Expand {
            child_depth: count_depth_spec(depth as nat) as usize,
        }),
        is_dir && !is_large && depth == 0 ==> r == (CountPlan::Expand { child_depth: 0 }),
{
    if !is_dir {
        CountPlan::One
    } else if is_large {
        CountPlan::Fixed(LARGE_DIR_ITEM_ESTIMATE)
    } else if depth > 2 {
        CountPlan::Expand { child_depth: 0 }
    } else if depth > 0 {
        CountPlan::Expand { child_depth: depth - 1 }
    } else {
        CountPlan::Expand { child_depth: 0 }
    }
}

/// Whether an entry of a directory read at `depth` is itself expanded.
pub fn expands_child(entry_is_dir: bool, depth: usize) -> (r: bool)
    ensures
        r == (entry_is_dir && depth > 0),
{
    entry_is_dir && depth > 0
}

/// Adds one entry's count to a running count, saturating.
pub fn add_count(acc: usize, n: usize) -> (r: usize)
    ensures
        r == if acc + n <= usize::MAX { (acc + n) as usize } else { usize::MAX },
{
    acc.saturating_add(n)
}


/// The sum of a sequence of counts.
pub open spec fn counts_sum(s: Seq<usize>) -> int
    decreases s.len(),
{
    if s.len() == 0 {
        0
    } else {
        counts_sum(s.drop_last()) + s.last()
    }
}

/// The count of a directory that was read: one for itself plus what each of
/// its entries counts, saturating.
pub fn listing_count(entry_counts: &Vec<usize>) -> (r: usize)
    ensures
        r == if 1 + counts_sum(entry_counts@) <= usize::MAX {
            (1 + counts_sum(entry_counts@)) as usize
        } else {
            usize::MAX
        },
{
    let mut acc: usize = 1;
    let mut i: usize = 0;
    while i < entry_counts.len()
        invariant
            i <= entry_counts@.len(),
            counts_sum(entry_counts@.take(i as int)) >= 0,
            acc == if 1 + counts_sum(entry_counts@.take(i as int)) <= usize::MAX {
                (1 + counts_sum(entry_counts@.take(i as int))) as usize
            } else {
                usize::MAX
            },
        decreases entry_counts.len() - i,
    {
        assert(entry_counts@.take(i + 1).drop_last() == entry_counts@.take(i as int));
        acc = add_count(acc, entry_counts[i]);
        i = i + 1;
    }
    assert(entry_counts@.take(i as int) == entry_counts@);
    acc
}

} // verus!
