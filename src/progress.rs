use vstd::prelude::*;

verus! {

/// Progress of a running scan, as reported to the host.
pub struct ScanProgress {
    pub current_path: String,
    pub processed_items: usize,
    pub total_items: usize,
}

/// Whether the entry that brought the count to `current` is reported: every
/// one below 100, then every twentieth directory and every hundredth file.
pub open spec fn emits(current: nat, is_dir: bool) -> bool {
    current < 100 || current % (if is_dir { 20nat } else { 100nat }) == 0
}

/// The throttle that keeps progress reports sparse on large scans.
pub fn should_emit(current: usize, is_dir: bool) -> (r: bool)
    ensures
        r == emits(current as nat, is_dir),
{
    let step: usize = if is_dir { 20 } else { 100 };
    current < 100 || current % step == 0
}

/// A progress record.
pub fn progress_record(current_path: String, processed: usize, total: usize) -> (r: ScanProgress)
    ensures
        r.current_path == current_path,
        r.processed_items == processed,
        r.total_items == total,
{
    ScanProgress { current_path, processed_items: processed, total_items: total }
}

} // verus!
