//! The search itself: the lines of a text that contain a query, in the order
//! in which they stand in the text.

use vstd::prelude::*;
use crate::lines::after_first_line;
use crate::lines::first_line;
use crate::lines::lines_of;
use crate::lines::split_first_line;
use crate::substring::contains;
use crate::substring::occurs_at;
use crate::substring::occurs_in;

verus! {

/// The test that a line passes when `query` occurs in it.
pub open spec fn holds(query: Seq<char>) -> spec_fn(Seq<char>) -> bool {
    |line: Seq<char>| occurs_in(query, line)
}

/// The lines of `text` in which `query` occurs, in the order of the text.
pub open spec fn matching_lines(query: Seq<char>, text: Seq<char>) -> Seq<Seq<char>> {
    lines_of(text).filter(holds(query))
}

/// `picked` names, in increasing order, positions of `full`, and `part` holds
/// the elements of `full` at those positions.
pub open spec fn selects<A>(picked: Seq<int>, full: Seq<A>, part: Seq<A>) -> bool {
    &&& picked.len() == part.len()
    &&& forall|k: int|
        0 <= k < picked.len() ==> 0 <= #[trigger] picked[k] < full.len() && part[k]
            == full[picked[k]]
    &&& forall|j: int, k: int| 0 <= j < k < picked.len() ==> picked[j] < picked[k]
}

/// Filtering keeps elements where they stand relative to each other: the
/// result is the full sequence read at increasing positions, which are exactly the
/// positions of the elements that pass.
proof fn lemma_filter_selects<A>(full: Seq<A>, pass: spec_fn(A) -> bool) -> (picked: Seq<int>)
    ensures
        selects(picked, full, full.filter(pass)),
        forall|i: int| 0 <= i < full.len() ==> (picked.contains(i) <==> pass(full[i])),
    decreases full.len(),
{
    reveal(Seq::filter);
    if full.len() == 0 {
        Seq::empty()
    } else {
        let front = full.drop_last();
        let earlier = lemma_filter_selects(front, pass);
        let last = full.len() - 1;
        let picked = if pass(full.last()) {
            earlier.push(last)
        } else {
            earlier
        };
        assert forall|i: int| 0 <= i < full.len() implies (picked.contains(i) <==> pass(
            full[i],
        )) by {
            if i < last {
                assert(full[i] == front[i]);
                if earlier.contains(i) {
                    let k = choose|k: int| 0 <= k < earlier.len() && earlier[k] == i;
                    assert(picked[k] == i);
                }
            } else if pass(full.last()) {
                assert(picked[earlier.len() as int] == i);
            }
        }
        picked
    }
}

/// A filter that every element passes changes nothing.
proof fn lemma_filter_keeps_all<A>(full: Seq<A>, pass: spec_fn(A) -> bool)
    requires
        forall|i: int| 0 <= i < full.len() ==> pass(full[i]),
    ensures
        full.filter(pass) == full,
    decreases full.len(),
{
    reveal(Seq::filter);
    if full.len() > 0 {
        lemma_filter_keeps_all(full.drop_last(), pass);
        assert(full.drop_last().push(full.last()) =~= full);
    }
}

/// The matches of a text are those of its first line, then those of the rest.
proof fn lemma_matching_lines_step(query: Seq<char>, text: Seq<char>)
    requires
        text.len() > 0,
    ensures
        matching_lines(query, text) == if occurs_in(query, first_line(text)) {
            seq![first_line(text)] + matching_lines(query, after_first_line(text))
        } else {
            matching_lines(query, after_first_line(text))
        },
{
    let first = seq![first_line(text)];
    let rest = lines_of(after_first_line(text));
    Seq::filter_distributes_over_add(first, rest, holds(query));
    assert(first.filter(holds(query)) =~= if occurs_in(query, first_line(text)) {
        first
    } else {
        Seq::empty()
    }) by {
        reveal_with_fuel(Seq::filter, 2);
        assert(first.drop_last() =~= Seq::empty());
    }
}

/// Every reported line holds the query.
pub proof fn lemma_matches_hold_query(query: Seq<char>, text: Seq<char>)
    ensures
        forall|k: int|
            0 <= k < matching_lines(query, text).len() ==> occurs_in(
                query,
                #[trigger] matching_lines(query, text)[k],
            ),
{
    let picked = lemma_filter_selects(lines_of(text), holds(query));
    assert forall|k: int| 0 <= k < matching_lines(query, text).len() implies occurs_in(
        query,
        #[trigger] matching_lines(query, text)[k],
    ) by {
        assert(picked.contains(picked[k]));
    }
}

/// The reported lines are lines of the text and stand in the order of the
/// text: the result is the sequence of all lines read at the returned
/// positions, which increase, and a line's position is among them exactly
/// when the line holds the query.
pub proof fn lemma_matches_keep_order(query: Seq<char>, text: Seq<char>) -> (picked: Seq<int>)
    ensures
        selects(picked, lines_of(text), matching_lines(query, text)),
        forall|i: int|
            0 <= i < lines_of(text).len() ==> (picked.contains(i) <==> occurs_in(
                query,
                lines_of(text)[i],
            )),
{
    lemma_filter_selects(lines_of(text), holds(query))
}

/// The empty query reports every line.
pub proof fn lemma_empty_query_matches_every_line(text: Seq<char>)
    ensures
        matching_lines(Seq::empty(), text) == lines_of(text),
{
    let query = Seq::<char>::empty();
    assert forall|i: int| 0 <= i < lines_of(text).len() implies holds(query)(lines_of(text)[i]) by {
        assert(occurs_at(query, lines_of(text)[i], 0));
    }
    lemma_filter_keeps_all(lines_of(text), holds(query));
}

/// Empty text has no lines, so nothing is reported, whatever the query.
pub proof fn lemma_empty_text_matches_nothing(query: Seq<char>)
    ensures
        lines_of(Seq::empty()) == Seq::<Seq<char>>::empty(),
        matching_lines(query, Seq::empty()) == Seq::<Seq<char>>::empty(),
{
    reveal(Seq::filter);
}

/// Returns the lines of `contents` in which `query` occurs, in the order in
/// which they stand in `contents`. Each is a slice of `contents`.
///
/// The comparison is exact, character by character. The empty query occurs in
/// every line.
pub fn search<'a>(query: &str, contents: &'a str) -> (found: Vec<&'a str>)
    ensures
        found.deep_view() == matching_lines(query@, contents@),
        forall|k: int| 0 <= k < found.len() ==> occurs_in(query@, #[trigger] found[k]@),
        query@.len() == 0 ==> found.deep_view() == lines_of(contents@),
        contents@.len() == 0 ==> found.len() == 0,
{
    let mut found: Vec<&'a str> = Vec::new();
    let mut rest: &'a str = contents;
    assert(found.deep_view() + matching_lines(query@, rest@) =~= matching_lines(
        query@,
        contents@,
    ));
    while !rest.is_empty()
        invariant
            found.deep_view() + matching_lines(query@, rest@) == matching_lines(
                query@,
                contents@,
            ),
        decreases rest@.len(),
    {
        let (line, tail) = split_first_line(rest);
        let ghost before = found.deep_view();
        proof {
            lemma_matching_lines_step(query@, rest@);
        }
        if contains(line, query) {
            found.push(line);
            assert(found.deep_view() =~= before.push(line@));
            assert(found.deep_view() + matching_lines(query@, tail@) =~= before + (seq![line@]
                + matching_lines(query@, tail@)));
        }
        rest = tail;
    }
    proof {
        lemma_empty_text_matches_nothing(query@);
        assert(found.deep_view() + Seq::<Seq<char>>::empty() =~= found.deep_view());
        lemma_matches_hold_query(query@, contents@);
        assert forall|k: int| 0 <= k < found.len() implies occurs_in(
            query@,
            #[trigger] found[k]@,
        ) by {
            assert(found.deep_view()[k] == found[k]@);
        }
        if query@.len() == 0 {
            assert(query@ =~= Seq::<char>::empty());
            lemma_empty_query_matches_every_line(contents@);
        }
        if contents@.len() == 0 {
            assert(contents@ =~= Seq::<char>::empty());
        }
    }
    found
}

} // verus!
