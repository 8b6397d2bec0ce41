use vstd::prelude::*;
use vstd::string::StrSliceExecFns;
use crate::tree::hidden_name;

verus! {

/// What the scan is told to leave out.
#[derive(Clone, Copy, PartialEq, Eq, Structural)]
pub struct ScanOptions {
    pub fast_mode: bool,
    pub skip_hidden: bool,
}

impl ScanOptions {
    /// Fast mode, hidden entries skipped.
    pub fn defaults() -> (r: ScanOptions)
        ensures
            r.fast_mode && r.skip_hidden,
    {
        ScanOptions { fast_mode: true, skip_hidden: true }
    }
}

/// `p` is a prefix of `s`.
pub open spec fn has_prefix(s: Seq<char>, p: Seq<char>) -> bool {
    p.len() <= s.len() && s.take(p.len() as int) == p
}

/// A lower-cased path under one of the system locations that deny access.
pub open spec fn is_system_spec(lower: Seq<char>) -> bool {
    has_prefix(lower, "c:\\$recycle.bin"@) || has_prefix(lower, "c:\\config.msi"@) || has_prefix(
        lower,
        "c:\\system volume information"@,
    ) || has_prefix(lower, "c:\\windows"@) || has_prefix(lower, "c:\\programdata\\packages"@)
        || has_prefix(lower, "c:\\programdata\\tailscale"@) || has_prefix(
        lower,
        "c:\\programdata\\windowsholographicdevices"@,
    ) || has_prefix(lower, "c:\\document and settings"@)
}

/// What `str::to_lowercase` returns for a string.
pub uninterp spec fn lower_of(s: Seq<char>) -> Seq<char>;

/// Relies on `str::to_lowercase`: the result depends on the characters alone.
#[verifier::external_body]
fn lowercase(s: &str) -> (r: String)
    ensures
        r@ == lower_of(s@),
{
    s.to_lowercase()
}

/// Whether `s` starts with `p`.
pub fn starts_with(s: &str, p: &str) -> (r: bool)
    ensures
        r == has_prefix(s@, p@),
{
    let n = p.unicode_len();
    if n > s.unicode_len() {
        return false;
    }
    let mut i: usize = 0;
    while i < n
        invariant
            n == p@.len(),
            n <= s@.len(),
            i <= n,
            forall|k: int| 0 <= k < i ==> s@[k] == p@[k],
        decreases n - i,
    {
        if s.get_char(i) != p.get_char(i) {
            assert(s@.take(n as int)[i as int] != p@[i as int]);
            return false;
        }
        i = i + 1;
    }
    assert(s@.take(n as int) =~= p@);
    true
}

/// Whether a leaf name is hidden: it starts with a dot.
pub fn is_hidden(name: &str) -> (r: bool)
    ensures
        r == hidden_name(name@),
{
    name.unicode_len() > 0 && name.get_char(0) == '.'
}

/// Whether an already lower-cased path lies under a system location.
pub fn is_system_path_lower(lower: &str) -> (r: bool)
    ensures
        r == is_system_spec(lower@),
{
    starts_with(lower, "c:\\$recycle.bin") || starts_with(lower, "c:\\config.msi") || starts_with(
        lower,
        "c:\\system volume information",
    ) || starts_with(lower, "c:\\windows") || starts_with(lower, "c:\\programdata\\packages")
        || starts_with(lower, "c:\\programdata\\tailscale") || starts_with(
        lower,
        "c:\\programdata\\windowsholographicdevices",
    ) || starts_with(lower, "c:\\document and settings")
}

/// Whether a path, compared without regard to case, lies under a system
/// location.
pub fn is_system_path(path: &str) -> (r: bool)
    ensures
        r == is_system_spec(lower_of(path@)),
{
    let lower = lowercase(path);
    is_system_path_lower(lower.as_str())
}

} // verus!
