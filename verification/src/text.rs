//! Searching in text, held as a vector of characters.

use vstd::prelude::*;

verus! {

/// `pattern` stands in `text` at offset `i`.
pub open spec fn occurs_at(text: Seq<char>, pattern: Seq<char>, i: int) -> bool {
    &&& 0 <= i
    &&& i + pattern.len() <= text.len()
    &&& text.subrange(i, i + pattern.len()) == pattern
}

/// `pattern` stands in `text` at offset `i` and at no smaller offset.
pub open spec fn is_first_occurrence(text: Seq<char>, pattern: Seq<char>, i: int) -> bool {
    &&& occurs_at(text, pattern, i)
    &&& forall|j: int| 0 <= j < i ==> !occurs_at(text, pattern, j)
}

/// The smallest offset at which `pattern` stands in `text`, if it stands
/// there at all.
pub open spec fn first_occurrence(text: Seq<char>, pattern: Seq<char>) -> Option<int> {
    if exists|i: int| is_first_occurrence(text, pattern, i) {
        Some(choose|i: int| is_first_occurrence(text, pattern, i))
    } else {
        None
    }
}

/// A first occurrence is the only one: `first_occurrence` is that offset.
pub proof fn lemma_first_occurrence_is(text: Seq<char>, pattern: Seq<char>, i: int)
    requires
        is_first_occurrence(text, pattern, i),
    ensures
        first_occurrence(text, pattern) == Some(i),
{
    let c = choose|c: int| is_first_occurrence(text, pattern, c);
    if c < i {
        assert(!occurs_at(text, pattern, c));
    } else if i < c {
        assert(!occurs_at(text, pattern, i));
    }
}

/// Where `pattern` stands nowhere, there is no first occurrence.
pub proof fn lemma_first_occurrence_none(text: Seq<char>, pattern: Seq<char>)
    requires
        forall|j: int| 0 <= j && j + pattern.len() <= text.len() ==> !occurs_at(text, pattern, j),
    ensures
        first_occurrence(text, pattern) is None,
{
    if exists|i: int| is_first_occurrence(text, pattern, i) {
        let c = choose|c: int| is_first_occurrence(text, pattern, c);
        assert(occurs_at(text, pattern, c));
    }
}

/// The characters of `s`, in order.
pub fn chars_of(s: &str) -> (v: Vec<char>)
    ensures
        v@ == s@,
{
    let mut v: Vec<char> = Vec::new();
    for c in it: s.chars()
        invariant
            v@ == it.seq().take(it.index() as int),
            it.seq() == s@,
    {
        v.push(c);
    }
    v
}

/// Whether `pattern` stands in `text` at index `at`.
pub fn matches_at(text: &Vec<char>, at: usize, pattern: &Vec<char>) -> (found: bool)
    requires
        at + pattern.len() <= text.len(),
    ensures
        found == (text@.subrange(at as int, at + pattern.len()) == pattern@),
{
    let m = pattern.len();
    let mut k: usize = 0;
    while k < m
        invariant
            m == pattern.len(),
            at + m <= text.len(),
            k <= m,
            forall|j: int| 0 <= j < k ==> text@[at + j] == pattern@[j],
        decreases m - k,
    {
        if text[at + k] != pattern[k] {
            assert(text@.subrange(at as int, at + m)[k as int] != pattern@[k as int]);
            return false;
        }
        k += 1;
    }
    assert(text@.subrange(at as int, at + m) =~= pattern@);
    true
}

/// The index of the first occurrence of `pattern` in `text[from..to]`, if any.
pub fn find(text: &Vec<char>, from: usize, to: usize, pattern: &Vec<char>) -> (found: Option<usize>)
    requires
        from <= to <= text.len(),
    ensures
        match found {
            Some(i) => from <= i && i + pattern.len() <= to && first_occurrence(
                text@.subrange(from as int, to as int),
                pattern@,
            ) == Some(i - from),
            None => first_occurrence(text@.subrange(from as int, to as int), pattern@) is None,
        },
{
    let m = pattern.len();
    let ghost part = text@.subrange(from as int, to as int);
    if to - from < m {
        proof {
            lemma_first_occurrence_none(part, pattern@);
        }
        return None;
    }
    let last = to - m;
    let mut i = from;
    loop
        invariant
            m == pattern.len(),
            from <= i <= last,
            last + m == to,
            to <= text.len(),
            part == text@.subrange(from as int, to as int),
            forall|j: int| 0 <= j < i - from ==> !occurs_at(part, pattern@, j),
        decreases last - i,
    {
        let here = matches_at(text, i, pattern);
        assert(part.subrange(i - from, i - from + m) =~= text@.subrange(i as int, i + m));
        if here {
            proof {
                lemma_first_occurrence_is(part, pattern@, i - from);
            }
            return Some(i);
        }
        if i == last {
            proof {
                lemma_first_occurrence_none(part, pattern@);
            }
            return None;
        }
        i += 1;
    }
}

} // verus!
