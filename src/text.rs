//! Sequence helpers shared by the parsers: searching and character access.
use vstd::prelude::*;

verus! {

/// Index of the first occurrence of `x` in `s` at or after `from`, or `s.len()` if none.
pub open spec fn first_index_from<T>(s: Seq<T>, x: T, from: int) -> int
    decreases s.len() - from,
{
    if from >= s.len() {
        s.len() as int
    } else if s[from] == x {
        from
    } else {
        first_index_from(s, x, from + 1)
    }
}

/// Stepping past one element that differs from `x` keeps the search result.
pub proof fn lemma_first_index_step<T>(s: Seq<T>, x: T, from: int)
    requires
        0 <= from < s.len(),
        s[from] != x,
    ensures
        first_index_from(s, x, from) == first_index_from(s, x, from + 1),
{
}

/// The search result lies in `[from, s.len()]`, holds `x` when inside, and nothing
/// between `from` and it equals `x`.
pub proof fn lemma_first_index_bounds<T>(s: Seq<T>, x: T, from: int)
    requires
        0 <= from <= s.len(),
    ensures
        from <= first_index_from(s, x, from) <= s.len(),
        first_index_from(s, x, from) < s.len() ==> s[first_index_from(s, x, from)] == x,
        forall|k: int| from <= k < first_index_from(s, x, from) ==> s[k] != x,
    decreases s.len() - from,
{
    if from < s.len() && s[from] != x {
        lemma_first_index_bounds(s, x, from + 1);
    }
}

/// Appending an element does not move an earlier occurrence; with none earlier, the
/// search finds the new last element when it matches, and nothing otherwise.
pub proof fn lemma_first_index_push<T>(s: Seq<T>, y: T, x: T, from: int)
    requires
        0 <= from <= s.len(),
    ensures
        first_index_from(s.push(y), x, from) == if first_index_from(s, x, from) < s.len() {
            first_index_from(s, x, from)
        } else if y == x {
            s.len() as int
        } else {
            s.len() + 1int
        },
    decreases s.len() - from,
{
    if from < s.len() {
        assert(s.push(y)[from] == s[from]);
        if s[from] != x {
            lemma_first_index_push(s, y, x, from + 1);
        }
    } else {
        assert(s.push(y)[from] == y);
        if y != x {
            assert(first_index_from(s.push(y), x, from + 1) == s.len() + 1);
        }
    }
}

pub open spec fn all_distinct<T>(s: Seq<T>) -> bool {
    forall|i: int, j: int| 0 <= i < j < s.len() ==> s[i] != s[j]
}

/// In a sequence without repeats, the search for an element finds its own place.
pub proof fn lemma_first_index_distinct<T>(s: Seq<T>, i: int)
    requires
        all_distinct(s),
        0 <= i < s.len(),
    ensures
        first_index_from(s, s[i], 0) == i,
{
    lemma_first_index_bounds(s, s[i], 0);
    let r = first_index_from(s, s[i], 0);
    if r < i {
        assert(s[r] == s[i]);
    }
}

/// The characters of a string, one per element.
pub fn chars_of(s: &str) -> (r: Vec<char>)
    ensures
        r@ == s@,
{
    let mut r: Vec<char> = Vec::new();
    for c in it: s.chars()
        invariant
            r@ == it.seq().take(it.index() as int),
    {
        r.push(c);
    }
    r
}

} // verus!
