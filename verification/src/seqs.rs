//! Small facts about sequences that the rule proofs share, and the
//! sequence searches that the rules run on relations held in vectors.

use vstd::prelude::*;

verus! {

/// `v` lists the relation `s`: every member once, and nothing else.
pub open spec fn lists<T>(v: Seq<T>, s: Set<T>) -> bool {
    &&& v.no_duplicates()
    &&& forall|x: T| #[trigger] v.contains(x) <==> s.contains(x)
}

/// The distinct values among the `Some` members of `marks`, in the order
/// in which each first occurs.
pub open spec fn first_occurrences<T>(marks: Seq<Option<T>>) -> Seq<T>
    decreases marks.len(),
{
    if marks.len() == 0 {
        Seq::empty()
    } else {
        let before = first_occurrences(marks.drop_last());
        match marks.last() {
            Some(x) => if before.contains(x) {
                before
            } else {
                before.push(x)
            },
            None => before,
        }
    }
}

/// The first occurrences list the values that are marked, each once.
pub proof fn lemma_first_occurrences<T>(marks: Seq<Option<T>>)
    ensures
        first_occurrences(marks).no_duplicates(),
        forall|x: T| #[trigger] first_occurrences(marks).contains(x) <==> marks.contains(Some(x)),
    decreases marks.len(),
{
    if marks.len() > 0 {
        let rest = marks.drop_last();
        let before = first_occurrences(rest);
        lemma_first_occurrences(rest);
        assert(rest.push(marks.last()) =~= marks);
        assert forall|x: T| #[trigger]
            first_occurrences(marks).contains(x) <==> marks.contains(Some(x)) by {
            lemma_push_contains(rest, marks.last(), Some(x));
            match marks.last() {
                Some(y) => {
                    if !before.contains(y) {
                        lemma_push_contains(before, y, x);
                    }
                },
                None => {},
            }
        }
        match marks.last() {
            Some(y) => {
                if !before.contains(y) {
                    lemma_push_no_duplicates(before, y);
                }
            },
            None => {},
        }
    }
}

/// What one more mark adds to the first occurrences.
pub proof fn lemma_first_occurrences_step<T>(marks: Seq<Option<T>>, k: int)
    requires
        0 <= k < marks.len(),
    ensures
        first_occurrences(marks.take(k + 1)) == match marks[k] {
            Some(x) => if first_occurrences(marks.take(k)).contains(x) {
                first_occurrences(marks.take(k))
            } else {
                first_occurrences(marks.take(k)).push(x)
            },
            None => first_occurrences(marks.take(k)),
        },
{
    assert(marks.take(k + 1).drop_last() =~= marks.take(k));
}

/// A sequence with one more member holds that member and what it held.
pub proof fn lemma_push_contains<T>(s: Seq<T>, y: T, x: T)
    ensures
        s.push(y).contains(x) <==> (s.contains(x) || y == x),
{
    let p = s.push(y);
    if s.contains(x) {
        let i = choose|i: int| 0 <= i < s.len() && s[i] == x;
        assert(p[i] == x);
    }
    if y == x {
        assert(p[s.len() as int] == x);
    }
    if p.contains(x) {
        let i = choose|i: int| 0 <= i < p.len() && p[i] == x;
        if i < s.len() {
            assert(s[i] == x);
        }
    }
}

/// Appending a member that is new keeps a sequence free of duplicates.
pub proof fn lemma_push_no_duplicates<T>(s: Seq<T>, y: T)
    requires
        s.no_duplicates(),
        !s.contains(y),
    ensures
        s.push(y).no_duplicates(),
{
    let p = s.push(y);
    assert forall|i: int, j: int| 0 <= i < p.len() && 0 <= j < p.len() && i != j implies p[i]
        != p[j] by {
        if i < s.len() && j < s.len() {
        } else if i < s.len() {
            assert(s[i] == p[i]);
        } else {
            assert(s[j] == p[j]);
        }
    }
}

/// Whether `needle` occurs in `haystack`.
pub fn contains_text(haystack: &Vec<String>, needle: &String) -> (found: bool)
    ensures
        found == haystack.deep_view().contains(needle@),
{
    let mut i: usize = 0;
    while i < haystack.len()
        invariant
            i <= haystack.len(),
            forall|k: int| 0 <= k < i ==> haystack.deep_view()[k] != needle@,
        decreases haystack.len() - i,
    {
        if haystack[i] == *needle {
            assert(haystack.deep_view()[i as int] == needle@);
            return true;
        }
        i += 1;
    }
    false
}

} // verus!
