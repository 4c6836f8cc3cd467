use vstd::prelude::*;
use crate::classify::chars_of;

verus! {

/// `a` sorts before `b`, comparing code points from position `i` on; a
/// proper prefix sorts first.
pub open spec fn lex_less_from(a: Seq<char>, b: Seq<char>, i: int) -> bool
    decreases a.len() - i,
{
    if i >= b.len() {
        false
    } else if i >= a.len() {
        true
    } else if a[i] != b[i] {
        (a[i] as u32) < (b[i] as u32)
    } else {
        lex_less_from(a, b, i + 1)
    }
}

/// Lexicographic order of names by code point.
pub open spec fn lex_less(a: Seq<char>, b: Seq<char>) -> bool {
    lex_less_from(a, b, 0)
}

/// Position of the least of the first `k` names; the earliest on ties.
pub open spec fn least_pos(s: Seq<Seq<char>>, k: int) -> int
    decreases k,
{
    if k <= 1 {
        0
    } else {
        let m = least_pos(s, k - 1);
        if lex_less(s[k - 1], s[m]) {
            k - 1
        } else {
            m
        }
    }
}

pub proof fn lemma_least_pos_in_range(s: Seq<Seq<char>>, k: int)
    requires
        1 <= k,
    ensures
        0 <= least_pos(s, k) < k,
    decreases k,
{
    if k > 1 {
        lemma_least_pos_in_range(s, k - 1);
    }
}

/// Whether `a` sorts before `b`.
pub fn name_less(a: &String, b: &String) -> (r: bool)
    ensures
        r == lex_less(a@, b@),
{
    let x = chars_of(a.as_str());
    let y = chars_of(b.as_str());
    let mut i: usize = 0;
    while i < x.len() && i < y.len()
        invariant
            x@ == a@,
            y@ == b@,
            i <= x@.len(),
            i <= y@.len(),
            lex_less(a@, b@) == lex_less_from(a@, b@, i as int),
        decreases x@.len() - i,
    {
        if x[i] != y[i] {
            return (x[i] as u32) < (y[i] as u32);
        }
        i = i + 1;
    }
    i < y.len()
}

/// Position of the least name; the earliest on ties.
pub fn least_position(names: &Vec<String>) -> (r: usize)
    requires
        names@.len() >= 1,
    ensures
        r as int == least_pos(names@.map_values(|s: String| s@), names@.len() as int),
        r < names@.len(),
{
    let ghost v = names@.map_values(|s: String| s@);
    let n = names.len();
    let mut m: usize = 0;
    let mut k: usize = 1;
    while k < n
        invariant
            n == names@.len(),
            v == names@.map_values(|s: String| s@),
            1 <= k <= n,
            m as int == least_pos(v, k as int),
        decreases n - k,
    {
        proof {
            lemma_least_pos_in_range(v, k as int);
        }
        if name_less(&names[k], &names[m]) {
            m = k;
        }
        k = k + 1;
    }
    proof {
        lemma_least_pos_in_range(v, n as int);
    }
    m
}

} // verus!
