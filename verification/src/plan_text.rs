//! Reading a plan that was printed as a nested list.
//!
//! Such a line holds, after the opening `nil, [`, one item for each stop,
//! separated by `]], [`. An item is the name of the stop, a comma, and what
//! follows the last comma; the last item may end in closing brackets.

use vstd::prelude::*;
use vstd::string::StrSliceExecFns;

verus! {

/// A plan line that is no printed list of stops.
#[derive(Debug, Clone, Copy, PartialEq, Eq, Structural)]
pub enum ParseError {
    /// The line lacks the opening of the list, or an item lacks its comma.
    UnexpectedOutput,
}

impl ParseError {
    /// A short human-readable description of the condition.
    pub fn message(&self) -> (text: String)
        ensures
            text@ == "unexpected output from plan enumeration"@,
    {
        "unexpected output from plan enumeration".to_owned()
    }
}

/// What opens the list of stops.
pub open spec fn list_start() -> Seq<char> {
    "nil, ["@
}

/// What separates two items of the list.
pub open spec fn item_separator() -> Seq<char> {
    "]], ["@
}

/// `pattern` occurs in `text` at position `at`.
pub open spec fn occurs_at(text: Seq<char>, pattern: Seq<char>, at: int) -> bool {
    0 <= at && at + pattern.len() <= text.len() && text.subrange(at, at + pattern.len())
        == pattern
}

/// The first position at or after `from` where the non-empty `pattern`
/// occurs in `text`.
pub open spec fn first_occurrence(text: Seq<char>, pattern: Seq<char>, from: int) -> Option<int>
    decreases text.len() - from,
{
    if from < 0 || pattern.len() == 0 || from + pattern.len() > text.len() {
        None
    } else if occurs_at(text, pattern, from) {
        Some(from)
    } else {
        first_occurrence(text, pattern, from + 1)
    }
}

/// The pieces that the occurrences of `pattern` cut `text` into, from left
/// to right and without overlap, for the piece that began at `start` and
/// has been searched up to `at`, and all pieces after it.
pub open spec fn pieces_from(text: Seq<char>, pattern: Seq<char>, start: int, at: int) -> Seq<
    Seq<char>,
>
    decreases text.len() - at,
{
    if pattern.len() == 0 || at < 0 || at + pattern.len() > text.len() {
        seq![text.subrange(start, text.len() as int)]
    } else if occurs_at(text, pattern, at) {
        seq![text.subrange(start, at)] + pieces_from(
            text,
            pattern,
            at + pattern.len(),
            at + pattern.len(),
        )
    } else {
        pieces_from(text, pattern, start, at + 1)
    }
}

/// The pieces of `text` from position `from` on.
pub open spec fn split_after(text: Seq<char>, pattern: Seq<char>, from: int) -> Seq<Seq<char>> {
    pieces_from(text, pattern, from, from)
}

/// The last position of `c` in `s`.
pub open spec fn last_index_of(s: Seq<char>, c: char) -> Option<int>
    decreases s.len(),
{
    if s.len() == 0 {
        None
    } else if s.last() == c {
        Some(s.len() - 1)
    } else {
        last_index_of(s.drop_last(), c)
    }
}

/// `s` without the run of `c` at its end.
pub open spec fn trim_end(s: Seq<char>, c: char) -> Seq<char>
    decreases s.len(),
{
    if s.len() > 0 && s.last() == c {
        trim_end(s.drop_last(), c)
    } else {
        s
    }
}

/// The name in an item: what stands before its last comma.
pub open spec fn name_of_item(item: Seq<char>) -> Option<Seq<char>> {
    match last_index_of(item, ',') {
        Some(i) => Some(item.take(i)),
        None => None,
    }
}

/// The names of the stops of a printed plan, the last one without the
/// closing brackets at its end: `None` where the line lacks the opening of
/// the list or an item lacks its comma.
pub open spec fn stop_names(plan: Seq<char>) -> Option<Seq<Seq<char>>> {
    match first_occurrence(plan, list_start(), 0) {
        None => None,
        Some(i) => {
            let items = split_after(plan, item_separator(), i + list_start().len());
            if forall|k: int| 0 <= k < items.len() ==> name_of_item(#[trigger] items[k]) is Some {
                Some(
                    Seq::new(
                        items.len(),
                        |k: int|
                            if k == items.len() - 1 {
                                trim_end(name_of_item(items[k])->0, ']')
                            } else {
                                name_of_item(items[k])->0
                            },
                    ),
                )
            } else {
                None
            }
        },
    }
}

/// What separates two fields of an item.
pub open spec fn field_separator() -> Seq<char> {
    ", "@
}

/// The items of a printed plan, the last one without the closing
/// brackets at its end: `None` where the line lacks the opening of the list.
pub open spec fn stop_items(plan: Seq<char>) -> Option<Seq<Seq<char>>> {
    match first_occurrence(plan, list_start(), 0) {
        None => None,
        Some(i) => {
            let items = split_after(plan, item_separator(), i + list_start().len());
            Some(
                Seq::new(
                    items.len(),
                    |k: int|
                        if k == items.len() - 1 {
                            trim_end(items[k], ']')
                        } else {
                            items[k]
                        },
                ),
            )
        },
    }
}

/// The fields of each item of a printed plan: what the commas, each with
/// the space after it, cut the item into.
pub open spec fn stop_fields(plan: Seq<char>) -> Option<Seq<Seq<Seq<char>>>> {
    match stop_items(plan) {
        None => None,
        Some(items) => Some(
            items.map_values(|item: Seq<char>| split_after(item, field_separator(), 0)),
        ),
    }
}

/// The characters of `s`.
pub fn chars_of(s: &str) -> (chars: Vec<char>)
    ensures
        chars@ == s@,
{
    let mut chars: Vec<char> = Vec::new();
    for c in it: s.chars()
        invariant
            chars@ == it.seq().take(it.index() as int),
            it.seq() == s@,
    {
        chars.push(c);
    }
    chars
}

/// Whether `pattern` occurs in `text` at position `at`.
pub fn matches_at(text: &Vec<char>, pattern: &Vec<char>, at: usize) -> (found: bool)
    ensures
        found == occurs_at(text@, pattern@, at as int),
{
    let n = text.len();
    let m = pattern.len();
    if m > n || at > n - m {
        return false;
    }
    let mut j: usize = 0;
    while j < m
        invariant
            n == text.len(),
            m == pattern.len(),
            m <= n,
            at <= n - m,
            j <= m,
            forall|k: int| 0 <= k < j ==> text@[at + k] == pattern@[k],
        decreases m - j,
    {
        if text[at + j] != pattern[j] {
            assert(text@.subrange(at as int, at + m)[j as int] != pattern@[j as int]);
            return false;
        }
        j += 1;
    }
    assert(text@.subrange(at as int, at + m) =~= pattern@);
    true
}

/// Finds the first position at or after `from` where `pattern` occurs.
pub fn find_from(text: &Vec<char>, pattern: &Vec<char>, from: usize) -> (found: Option<usize>)
    requires
        pattern.len() > 0,
    ensures
        match found {
            Some(i) => from <= i && i + pattern.len() <= text.len() && first_occurrence(
                text@,
                pattern@,
                from as int,
            ) == Some(i as int),
            None => first_occurrence(text@, pattern@, from as int) is None,
        },
{
    let n = text.len();
    let m = pattern.len();
    if m > n {
        return None;
    }
    let mut at: usize = from;
    while at <= n - m
        invariant
            n == text.len(),
            m == pattern.len(),
            0 < m <= n,
            from <= at,
            first_occurrence(text@, pattern@, from as int) == first_occurrence(
                text@,
                pattern@,
                at as int,
            ),
        decreases n - at,
    {
        if matches_at(text, pattern, at) {
            return Some(at);
        }
        at += 1;
    }
    None
}

/// Cuts `text` from position `from` on at the occurrences of `pattern`,
/// and returns where each piece begins and ends.
pub fn split_ranges(text: &Vec<char>, pattern: &Vec<char>, from: usize) -> (ranges: Vec<
    (usize, usize),
>)
    requires
        pattern.len() > 0,
        from <= text.len(),
    ensures
        ranges.len() == split_after(text@, pattern@, from as int).len(),
        ranges.len() > 0,
        forall|k: int|
            0 <= k < ranges.len() ==> {
                &&& (#[trigger] ranges[k]).0 <= ranges[k].1 <= text.len()
                &&& text@.subrange(ranges[k].0 as int, ranges[k].1 as int) == split_after(
                    text@,
                    pattern@,
                    from as int,
                )[k]
            },
{
    let n = text.len();
    let m = pattern.len();
    let ghost all = split_after(text@, pattern@, from as int);
    let mut ranges: Vec<(usize, usize)> = Vec::new();
    let mut start: usize = from;
    let mut at: usize = from;
    while m <= n && at <= n - m
        invariant
            n == text.len(),
            m == pattern.len(),
            0 < m,
            from <= start <= at <= n,
            all == split_after(text@, pattern@, from as int),
            all =~= Seq::new(
                ranges.len() as nat,
                |k: int| text@.subrange(ranges[k].0 as int, ranges[k].1 as int),
            ) + pieces_from(text@, pattern@, start as int, at as int),
            forall|k: int| 0 <= k < ranges.len() ==> (#[trigger] ranges[k]).0 <= ranges[k].1 <= n,
        decreases n - at,
    {
        if matches_at(text, pattern, at) {
            let ghost before = ranges@;
            ranges.push((start, at));
            proof {
                let old_pieces = Seq::new(
                    before.len(),
                    |k: int| text@.subrange(before[k].0 as int, before[k].1 as int),
                );
                let new_pieces = Seq::new(
                    ranges.len() as nat,
                    |k: int| text@.subrange(ranges[k].0 as int, ranges[k].1 as int),
                );
                assert(new_pieces =~= old_pieces + seq![text@.subrange(start as int, at as int)]);
            }
            start = at + m;
            at = start;
        } else {
            at += 1;
        }
    }
    let ghost before = ranges@;
    ranges.push((start, n));
    proof {
        let old_pieces = Seq::new(
            before.len(),
            |k: int| text@.subrange(before[k].0 as int, before[k].1 as int),
        );
        let new_pieces = Seq::new(
            ranges.len() as nat,
            |k: int| text@.subrange(ranges[k].0 as int, ranges[k].1 as int),
        );
        assert(new_pieces =~= old_pieces + seq![text@.subrange(start as int, n as int)]);
        assert(all =~= new_pieces);
        assert forall|k: int| 0 <= k < ranges.len() implies text@.subrange(
            (#[trigger] ranges[k]).0 as int,
            ranges[k].1 as int,
        ) == all[k] by {
            assert(new_pieces[k] == all[k]);
        }
    }
    ranges
}

/// Finds the last `c` among the characters of `text` from `from` up to,
/// but not including, `to`.
pub fn find_last(text: &Vec<char>, from: usize, to: usize, c: char) -> (found: Option<usize>)
    requires
        from <= to <= text.len(),
    ensures
        match found {
            Some(i) => from <= i < to && last_index_of(text@.subrange(from as int, to as int), c)
                == Some(i - from),
            None => last_index_of(text@.subrange(from as int, to as int), c) is None,
        },
{
    let mut end: usize = to;
    while end > from
        invariant
            from <= end <= to <= text.len(),
            last_index_of(text@.subrange(from as int, to as int), c) == last_index_of(
                text@.subrange(from as int, end as int),
                c,
            ),
        decreases end,
    {
        if text[end - 1] == c {
            assert(text@.subrange(from as int, end as int).last() == c);
            return Some(end - 1);
        }
        proof {
            assert(text@.subrange(from as int, end as int).drop_last() =~= text@.subrange(
                from as int,
                end - 1,
            ));
        }
        end -= 1;
    }
    None
}

/// Finds where the characters of `text` from `from` up to `to` end once
/// the run of `c` at their end is left out.
pub fn trimmed_end(text: &Vec<char>, from: usize, to: usize, c: char) -> (end: usize)
    requires
        from <= to <= text.len(),
    ensures
        from <= end <= to,
        text@.subrange(from as int, end as int) == trim_end(
            text@.subrange(from as int, to as int),
            c,
        ),
{
    let mut end: usize = to;
    while end > from && text[end - 1] == c
        invariant
            from <= end <= to <= text.len(),
            trim_end(text@.subrange(from as int, to as int), c) == trim_end(
                text@.subrange(from as int, end as int),
                c,
            ),
        decreases end,
    {
        proof {
            assert(text@.subrange(from as int, end as int).drop_last() =~= text@.subrange(
                from as int,
                end - 1,
            ));
        }
        end -= 1;
    }
    end
}

/// Reads the names of the stops from a printed plan. Fails exactly when
/// the line lacks the opening of the list or an item lacks its comma.
pub fn parse_stops(plan: &str) -> (parsed: Result<Vec<String>, ParseError>)
    ensures
        match parsed {
            Ok(names) => stop_names(plan@) == Some(names.deep_view()),
            Err(_) => stop_names(plan@) is None,
        },
{
    let text = chars_of(plan);
    let opening = chars_of("nil, [");
    let separator = chars_of("]], [");
    proof {
        reveal_strlit("nil, [");
        reveal_strlit("]], [");
    }
    let begin = match find_from(&text, &opening, 0) {
        Some(i) => i + opening.len(),
        None => {
            return Err(ParseError::UnexpectedOutput);
        },
    };
    let ranges = split_ranges(&text, &separator, begin);
    let ghost items = split_after(plan@, item_separator(), begin as int);
    let mut names: Vec<String> = Vec::new();
    let mut k: usize = 0;
    while k < ranges.len()
        invariant
            k <= ranges.len(),
            text@ == plan@,
            first_occurrence(plan@, list_start(), 0) == Some(begin - list_start().len()),
            items == split_after(plan@, item_separator(), begin as int),
            ranges.len() == items.len(),
            names.len() == k,
            forall|j: int|
                0 <= j < ranges.len() ==> {
                    &&& (#[trigger] ranges[j]).0 <= ranges[j].1 <= text.len()
                    &&& text@.subrange(ranges[j].0 as int, ranges[j].1 as int) == items[j]
                },
            forall|j: int| 0 <= j < k ==> name_of_item(#[trigger] items[j]) is Some,
            forall|j: int|
                0 <= j < k ==> (#[trigger] names.deep_view()[j]) == (if j == items.len() - 1 {
                    trim_end(name_of_item(items[j])->0, ']')
                } else {
                    name_of_item(items[j])->0
                }),
        decreases ranges.len() - k,
    {
        let from = ranges[k].0;
        let to = ranges[k].1;
        let comma = match find_last(&text, from, to, ',') {
            Some(i) => i,
            None => {
                assert(name_of_item(items[k as int]) is None);
                return Err(ParseError::UnexpectedOutput);
            },
        };
        proof {
            assert(items[k as int].take(comma - from) =~= text@.subrange(from as int, comma as int));
        }
        let end = if k == ranges.len() - 1 {
            trimmed_end(&text, from, comma, ']')
        } else {
            comma
        };
        let ghost before = names.deep_view();
        let name = plan.substring_char(from, end).to_owned();
        names.push(name);
        assert(names.deep_view() =~= before.push(name@));
        k += 1;
    }
    assert(stop_names(plan@)->0 =~= names.deep_view());
    Ok(names)
}

/// Copies the characters of `text` from `from` up to, but not
/// including, `to`.
pub fn copy_range(text: &Vec<char>, from: usize, to: usize) -> (part: Vec<char>)
    requires
        from <= to <= text.len(),
    ensures
        part@ == text@.subrange(from as int, to as int),
{
    let mut part: Vec<char> = Vec::new();
    let mut i: usize = from;
    while i < to
        invariant
            from <= i <= to <= text.len(),
            part@ == text@.subrange(from as int, i as int),
        decreases to - i,
    {
        part.push(text[i]);
        assert(part@ =~= text@.subrange(from as int, i + 1));
        i += 1;
    }
    part
}

/// Reads the fields of every item of a printed plan. Fails exactly when
/// the line lacks the opening of the list.
pub fn parse_stop_fields(plan: &str) -> (parsed: Result<Vec<Vec<String>>, ParseError>)
    ensures
        match parsed {
            Ok(fields) => stop_fields(plan@) == Some(fields.deep_view()),
            Err(_) => stop_fields(plan@) is None,
        },
{
    let text = chars_of(plan);
    let opening = chars_of("nil, [");
    let separator = chars_of("]], [");
    let comma = chars_of(", ");
    proof {
        reveal_strlit("nil, [");
        reveal_strlit("]], [");
        reveal_strlit(", ");
    }
    let begin = match find_from(&text, &opening, 0) {
        Some(i) => i + opening.len(),
        None => {
            return Err(ParseError::UnexpectedOutput);
        },
    };
    let ranges = split_ranges(&text, &separator, begin);
    let ghost raw = split_after(plan@, item_separator(), begin as int);
    let ghost items = stop_items(plan@)->0;
    let mut all: Vec<Vec<String>> = Vec::new();
    let mut k: usize = 0;
    while k < ranges.len()
        invariant
            k <= ranges.len(),
            text@ == plan@,
            comma@ == field_separator(),
            comma.len() > 0,
            items.len() == raw.len(),
            forall|j: int|
                0 <= j < raw.len() ==> (#[trigger] items[j]) == (if j == raw.len() - 1 {
                    trim_end(raw[j], ']')
                } else {
                    raw[j]
                }),
            ranges.len() == raw.len(),
            all.len() == k,
            forall|j: int|
                0 <= j < ranges.len() ==> {
                    &&& (#[trigger] ranges[j]).0 <= ranges[j].1 <= text.len()
                    &&& text@.subrange(ranges[j].0 as int, ranges[j].1 as int) == raw[j]
                },
            forall|j: int|
                0 <= j < k ==> (#[trigger] all.deep_view()[j]) == split_after(
                    items[j],
                    field_separator(),
                    0,
                ),
        decreases ranges.len() - k,
    {
        let from = ranges[k].0;
        let to = if k == ranges.len() - 1 {
            trimmed_end(&text, from, ranges[k].1, ']')
        } else {
            ranges[k].1
        };
        let item = copy_range(&text, from, to);
        assert(item@ == items[k as int]);
        let cuts = split_ranges(&item, &comma, 0);
        let ghost expected = split_after(item@, field_separator(), 0);
        let mut fields: Vec<String> = Vec::new();
        let mut f: usize = 0;
        while f < cuts.len()
            invariant
                f <= cuts.len(),
                text@ == plan@,
                from <= to <= text.len(),
                item@ == text@.subrange(from as int, to as int),
                cuts.len() == expected.len(),
                fields.len() == f,
                forall|j: int|
                    0 <= j < cuts.len() ==> {
                        &&& (#[trigger] cuts[j]).0 <= cuts[j].1 <= item.len()
                        &&& item@.subrange(cuts[j].0 as int, cuts[j].1 as int) == expected[j]
                    },
                forall|j: int| 0 <= j < f ==> (#[trigger] fields.deep_view()[j]) == expected[j],
            decreases cuts.len() - f,
        {
            let a = from + cuts[f].0;
            let b = from + cuts[f].1;
            let ghost before = fields.deep_view();
            let field = plan.substring_char(a, b).to_owned();
            assert(field@ =~= item@.subrange(cuts[f as int].0 as int, cuts[f as int].1 as int));
            fields.push(field);
            assert(fields.deep_view() =~= before.push(field@));
            f += 1;
        }
        assert(fields.deep_view() =~= expected);
        let ghost before = all.deep_view();
        all.push(fields);
        assert(all.deep_view() =~= before.push(expected));
        k += 1;
    }
    assert(stop_fields(plan@)->0 =~= all.deep_view());
    Ok(all)
}

} // verus!
