//! The search engine: which lines of a text contain a query string,
//! case-sensitively or after case folding of both sides.

use vstd::prelude::*;
use vstd::seq_lib::lemma_flatten_concat;

use crate::fold::lemma_contains_lower;
use crate::fold::lower_of;
use crate::fold::to_lower;
use crate::text::chars_vec;
use crate::text::chunks_of;
use crate::text::contains_chars;
use crate::text::contains_seq;
use crate::text::first_nl;
use crate::text::lemma_filter_elements_in;
use crate::text::lemma_filter_empty;
use crate::text::lemma_filter_implies_count;
use crate::text::lemma_filter_push;
use crate::text::lemma_first_nl;
use crate::text::lemma_first_nl_is;
use crate::text::lines_of;
use crate::text::split_lines;
use crate::text::strip_cr;

verus! {

/// A line matches when it contains the query; in the case-insensitive
/// setting both sides are lowered first.
pub open spec fn line_matches(line: Seq<char>, query: Seq<char>, case_sensitive: bool) -> bool {
    if case_sensitive {
        contains_seq(line, query)
    } else {
        contains_seq(lower_of(line), lower_of(query))
    }
}

/// The matching predicate for a fixed query and case setting.
pub open spec fn match_pred(query: Seq<char>, case_sensitive: bool) -> spec_fn(Seq<char>) -> bool {
    |l: Seq<char>| line_matches(l, query, case_sensitive)
}

/// The lines of `content` that match `query`, in file order.
pub open spec fn search_spec(query: Seq<char>, content: Seq<char>, case_sensitive: bool) -> Seq<
    Seq<char>,
> {
    lines_of(content).filter(match_pred(query, case_sensitive))
}

/// The lines of `content` that contain `query`, in file order, as slices of
/// `content`. In the case-insensitive setting, a line is kept when its
/// lowercase form contains the lowercase form of the query; the line itself
/// is returned unlowered.
pub fn search<'a>(query: &str, content: &'a str, case_sensitive: bool) -> (r: Vec<&'a str>)
    ensures
        r@.map_values(|l: &'a str| l@) == search_spec(query@, content@, case_sensitive),
{
    let ghost pred = match_pred(query@, case_sensitive);
    let ghost all_lines = lines_of(content@);
    let lines = split_lines(content);
    let q_chars = chars_vec(query);
    let q_lower = to_lower(query);
    let mut r: Vec<&'a str> = Vec::new();
    let mut i: usize = 0;
    proof {
        let f = |l: &'a str| l@;
        assert(all_lines.take(0) =~= Seq::<Seq<char>>::empty());
        lemma_filter_empty::<Seq<char>>(pred);
        assert(r@.map_values(f) =~= Seq::<Seq<char>>::empty());
    }
    while i < lines.len()
        invariant
            lines@.map_values(|l: &'a str| l@) == all_lines,
            all_lines == lines_of(content@),
            q_chars@ == query@,
            q_lower@ == lower_of(query@),
            pred == match_pred(query@, case_sensitive),
            i <= lines@.len(),
            r@.map_values(|l: &'a str| l@) == all_lines.take(i as int).filter(pred),
        decreases lines@.len() - i,
    {
        let line: &'a str = lines[i];
        proof {
            assert(line@ == all_lines[i as int]);
        }
        let matched = if case_sensitive {
            let line_chars = chars_vec(line);
            contains_chars(&line_chars, &q_chars)
        } else {
            let line_lower = to_lower(line);
            contains_chars(&line_lower, &q_lower)
        };
        proof {
            assert(matched == pred(line@));
        }
        let ghost r0 = r@;
        if matched {
            r.push(line);
            proof {
                let f = |l: &'a str| l@;
                assert(r@ == r0.push(line));
                assert(r@.map_values(f) =~= r0.map_values(f).push(line@));
            }
        }
        proof {
            assert(all_lines.take(i + 1) =~= all_lines.take(i as int).push(all_lines[i as int]));
            lemma_filter_push(all_lines.take(i as int), pred, all_lines[i as int]);
        }
        i = i + 1;
    }
    proof {
        assert(all_lines.take(lines@.len() as int) =~= all_lines);
    }
    r
}

/// The one line reported when a whole-file search finds nothing.
pub open spec fn no_match_text() -> Seq<char> {
    "No matches found."@
}

/// The lines a whole-file search prints: every matching line, or the single
/// no-match indicator when nothing matched.
pub fn whole_file_output<'a>(query: &str, content: &'a str, case_sensitive: bool) -> (r: Vec<
    &'a str,
>)
    ensures
        search_spec(query@, content@, case_sensitive).len() > 0 ==> r@.map_values(|l: &'a str| l@)
            == search_spec(query@, content@, case_sensitive),
        search_spec(query@, content@, case_sensitive).len() == 0 ==> r@.len() == 1 && r@[0]@
            == no_match_text(),
{
    let mut r = search(query, content, case_sensitive);
    proof {
        assert(r@.map_values(|l: &'a str| l@).len() == r@.len());
    }
    if r.len() == 0 {
        let sentinel: &'a str = "No matches found.";
        r.push(sentinel);
    }
    r
}

/// Searching twice on the same query, content and case setting gives the
/// same ordered result: the result is a function of the inputs alone.
pub proof fn lemma_search_idempotent(
    query: Seq<char>,
    content: Seq<char>,
    case_sensitive: bool,
    r1: Seq<Seq<char>>,
    r2: Seq<Seq<char>>,
)
    requires
        r1 == search_spec(query, content, case_sensitive),
        r2 == search_spec(query, content, case_sensitive),
    ensures
        r1 == r2,
{
}

/// Every line kept by a case-sensitive search is kept by the
/// case-insensitive search of the same query and content, so the
/// case-insensitive result is at least as long.
pub proof fn lemma_insensitive_superset(query: Seq<char>, content: Seq<char>)
    ensures
        search_spec(query, content, false).len() >= search_spec(query, content, true).len(),
{
    let lines = lines_of(content);
    let p = match_pred(query, true);
    let q = match_pred(query, false);
    assert forall|i: int| 0 <= i < lines.len() && p(lines[i]) implies q(lines[i]) by {
        lemma_contains_lower(lines[i], query);
    }
    lemma_filter_implies_count(lines, p, q);
}

/// Every line the case-sensitive search keeps, the case-insensitive search
/// of the same query and content keeps too.
pub proof fn lemma_insensitive_superset_members(query: Seq<char>, content: Seq<char>)
    ensures
        forall|i: int|
            0 <= i < search_spec(query, content, true).len() ==> search_spec(
                query,
                content,
                false,
            ).contains(#[trigger] search_spec(query, content, true)[i]),
{
    let lines = lines_of(content);
    let p = match_pred(query, true);
    let q = match_pred(query, false);
    lemma_filter_elements_in(lines, p);
    assert forall|i: int|
        0 <= i < lines.filter(p).len() implies lines.filter(q).contains(
        #[trigger] lines.filter(p)[i],
    ) by {
        let l = lines.filter(p)[i];
        lines.lemma_filter_pred(p, i);
        lemma_contains_lower(l, query);
        let j = choose|j: int| 0 <= j < lines.len() && lines[j] == l;
        lines.lemma_filter_contains(q, j);
    }
}

/// A case-insensitive line match reads the line only through its lowercase
/// form: two lines with the same lowercase form match the same queries.
pub proof fn lemma_insensitive_line_fold(l1: Seq<char>, l2: Seq<char>, query: Seq<char>)
    requires
        lower_of(l1) == lower_of(l2),
    ensures
        line_matches(l1, query, false) == line_matches(l2, query, false),
{
}

/// A case-insensitive search reads the query only through its lowercase
/// form: recasing the query, so long as its lowercase form is unchanged,
/// leaves the whole result unchanged.
pub proof fn lemma_insensitive_query_fold(q1: Seq<char>, q2: Seq<char>, content: Seq<char>)
    requires
        lower_of(q1) == lower_of(q2),
    ensures
        search_spec(q1, content, false) == search_spec(q2, content, false),
{
    assert(match_pred(q1, false) =~= match_pred(q2, false));
}

/// The per-chunk search result, for a fixed query and case setting.
pub open spec fn chunk_result_fn(query: Seq<char>, case_sensitive: bool) -> spec_fn(
    Seq<char>,
) -> Seq<Seq<char>> {
    |ch: Seq<char>| search_spec(query, ch, case_sensitive)
}

/// The results of searching each chunk of `content` on its own, in order.
pub open spec fn chunk_results(query: Seq<char>, content: Seq<char>, case_sensitive: bool) -> Seq<
    Seq<Seq<char>>,
> {
    chunks_of(content).map_values(chunk_result_fn(query, case_sensitive))
}

/// Streaming and whole-file search agree: searching the chunks an
/// incremental line read yields, one at a time, and concatenating the
/// results, gives exactly the whole-content result.
pub proof fn lemma_streaming_matches_whole(
    query: Seq<char>,
    content: Seq<char>,
    case_sensitive: bool,
)
    ensures
        chunk_results(query, content, case_sensitive).flatten() == search_spec(
            query,
            content,
            case_sensitive,
        ),
    decreases content.len(),
{
    let g = chunk_result_fn(query, case_sensitive);
    let pred = match_pred(query, case_sensitive);
    if content.len() == 0 {
        assert(chunks_of(content) == Seq::<Seq<char>>::empty());
        assert(chunks_of(content).map_values(g) =~= Seq::<Seq<Seq<char>>>::empty());
        assert(Seq::<Seq<Seq<char>>>::empty().flatten() == Seq::<Seq<char>>::empty());
        assert(lines_of(content) == Seq::<Seq<char>>::empty());
        lemma_filter_empty::<Seq<char>>(pred);
    } else {
        lemma_first_nl(content);
        let i = first_nl(content) as int;
        if i >= content.len() {
            assert(chunks_of(content) == seq![content]);
            assert(lines_of(content) == seq![content]);
            assert(chunks_of(content).map_values(g) =~= seq![g(content)]);
            seq![g(content)].lemma_flatten_one_element();
        } else {
            let c0 = content.subrange(0, i + 1);
            let rest = content.subrange(i + 1, content.len() as int);
            let line0 = strip_cr(content.subrange(0, i));
            assert(chunks_of(content) == seq![c0] + chunks_of(rest));
            assert(lines_of(content) == seq![line0] + lines_of(rest));
            assert forall|k: int| 0 <= k < i implies c0[k] != '\n' by {
                assert(c0[k] == content[k]);
            }
            assert(c0[i] == content[i]);
            lemma_first_nl_is(c0, i);
            assert(c0.subrange(0, i) =~= content.subrange(0, i));
            assert(c0.subrange(i + 1, c0.len() as int) =~= Seq::<char>::empty());
            assert(lines_of(Seq::<char>::empty()) == Seq::<Seq<char>>::empty());
            assert(lines_of(c0) == seq![line0] + Seq::<Seq<char>>::empty());
            assert(seq![line0] + Seq::<Seq<char>>::empty() =~= seq![line0]);
            lemma_streaming_matches_whole(query, rest, case_sensitive);
            assert(chunks_of(content).map_values(g) =~= seq![g(c0)] + chunks_of(rest).map_values(
                g,
            ));
            lemma_flatten_concat(seq![g(c0)], chunks_of(rest).map_values(g));
            seq![g(c0)].lemma_flatten_one_element();
            Seq::<Seq<char>>::filter_distributes_over_add(seq![line0], lines_of(rest), pred);
        }
    }
}

} // verus!
