use vstd::prelude::*;
use crate::model::ModuleType;

verus! {

/// What `str::to_lowercase` makes of a string.
pub uninterp spec fn lower_of(s: Seq<char>) -> Seq<char>;

/// Relies on `str::to_lowercase`: the result depends on the characters alone.
#[verifier::external_body]
fn lowercase(s: &str) -> (r: String)
    ensures
        r@ == lower_of(s@),
{
    s.to_lowercase()
}

/// Relies on `str::chars`: the characters of the string, in order.
#[verifier::external_body]
pub(crate) fn chars_of(s: &str) -> (r: Vec<char>)
    ensures
        r@ == s@,
{
    s.chars().collect()
}

/// `p` occurs in `s` as a contiguous run.
pub open spec fn has_infix(s: Seq<char>, p: Seq<char>) -> bool {
    exists|i: int| 0 <= i && i + p.len() <= s.len() && #[trigger] s.subrange(i, i + p.len()) == p
}

/// The layer that a (lower-case) module path points to.
pub open spec fn layer_of_path(p: Seq<char>) -> ModuleType {
    if has_infix(p, "/core/"@) || has_infix(p, "core.module"@) {
        ModuleType::Core
    } else if has_infix(p, "/shared/"@) || has_infix(p, "shared.module"@) {
        ModuleType::Shared
    } else if has_infix(p, "/feature/"@) || has_infix(p, "/features/"@) || (!has_infix(
        p,
        "/core/"@,
    ) && !has_infix(p, "/shared/"@)) {
        ModuleType::Feature
    } else {
        ModuleType::Unknown
    }
}

pub(crate) fn matches_at(s: &Vec<char>, p: &Vec<char>, i: usize) -> (r: bool)
    requires
        i + p@.len() <= s@.len(),
    ensures
        r == (s@.subrange(i as int, i + p@.len()) == p@),
{
    let len = s.len();
    let mut k: usize = 0;
    while k < p.len()
        invariant
            len == s@.len(),
            i + p@.len() <= s@.len(),
            k <= p@.len(),
            forall|j: int| 0 <= j < k ==> s@[i + j] == p@[j],
        decreases p@.len() - k,
    {
        if s[i + k] != p[k] {
            assert(s@.subrange(i as int, i + p@.len())[k as int] != p@[k as int]);
            return false;
        }
        k = k + 1;
    }
    assert(s@.subrange(i as int, i + p@.len()) =~= p@);
    true
}

/// Whether `p` occurs in `s`.
pub fn contains_infix(s: &Vec<char>, p: &Vec<char>) -> (r: bool)
    ensures
        r == has_infix(s@, p@),
{
    if p.len() > s.len() {
        return false;
    }
    if p.len() == 0 {
        assert(s@.subrange(0, 0) =~= p@);
        assert(s@.subrange(0int, 0int + p@.len()) == p@);
        return true;
    }
    let len = s.len();
    let last = len - p.len();
    let mut i: usize = 0;
    while i <= last
        invariant
            len == s@.len(),
            last == s@.len() - p@.len(),
            0 < p@.len() <= s@.len(),
            i <= last + 1,
            forall|j: int| 0 <= j < i ==> #[trigger] s@.subrange(j, j + p@.len()) != p@,
        decreases last + 1 - i,
    {
        if matches_at(s, p, i) {
            return true;
        }
        i = i + 1;
    }
    false
}

fn occurs(s: &Vec<char>, pattern: &str) -> (r: bool)
    ensures
        r == has_infix(s@, pattern@),
{
    let p = chars_of(pattern);
    contains_infix(s, &p)
}

/// Classifies a module by its lower-case path.
pub fn classify_lowercase_path(p: &Vec<char>) -> (r: ModuleType)
    ensures
        r == layer_of_path(p@),
{
    if occurs(p, "/core/") || occurs(p, "core.module") {
        ModuleType::Core
    } else if occurs(p, "/shared/") || occurs(p, "shared.module") {
        ModuleType::Shared
    } else if occurs(p, "/feature/") || occurs(p, "/features/") || (!occurs(p, "/core/") && !occurs(
        p,
        "/shared/",
    )) {
        ModuleType::Feature
    } else {
        ModuleType::Unknown
    }
}

/// Classifies a module by its path, case-insensitively.
pub fn determine_module_type(path: &str) -> (r: ModuleType)
    ensures
        r == layer_of_path(lower_of(path@)),
{
    let lower = lowercase(path);
    let chars = chars_of(lower.as_str());
    classify_lowercase_path(&chars)
}

} // verus!
