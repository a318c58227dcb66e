//! Selecting the lines of a text that contain a query.
use vstd::prelude::*;
use crate::chars::chars_of;
use crate::lines::{lines, lines_of};
use crate::text::{has_substring, occurs_in};

verus! {

/// What `str::to_lowercase` makes of a string.
pub uninterp spec fn lower_of(s: Seq<char>) -> Seq<char>;

/// Relies on `str::to_lowercase`: the lowercase form depends on the
/// characters alone.
#[verifier::external_body]
fn lowercase(s: &str) -> (r: String)
    ensures
        r@ == lower_of(s@),
{
    s.to_lowercase()
}

/// The lines among `lines` that contain `query`, in their order.
pub open spec fn containing(lines: Seq<Seq<char>>, query: Seq<char>) -> Seq<Seq<char>> {
    lines.filter(|line: Seq<char>| has_substring(line, query))
}

/// The lines among `lines` whose lowercase form contains the lowercase form
/// of `query`, in their order and as they were.
pub open spec fn containing_folded(lines: Seq<Seq<char>>, query: Seq<char>) -> Seq<Seq<char>> {
    lines.filter(|line: Seq<char>| has_substring(lower_of(line), lower_of(query)))
}

/// The lines of `contents` that contain `query`.
pub open spec fn matching_lines(query: Seq<char>, contents: Seq<char>) -> Seq<Seq<char>> {
    containing(lines_of(contents), query)
}

/// The lines of `contents` that contain `query` when both are lowercased.
pub open spec fn matching_lines_folded(query: Seq<char>, contents: Seq<char>) -> Seq<
    Seq<char>,
> {
    containing_folded(lines_of(contents), query)
}

/// Filtering a sequence with one more element at its end.
pub proof fn lemma_filter_push<A>(s: Seq<A>, x: A, pred: spec_fn(A) -> bool)
    ensures
        s.push(x).filter(pred) == if pred(x) {
            s.filter(pred).push(x)
        } else {
            s.filter(pred)
        },
{
    reveal(Seq::filter);
    assert(s.push(x).drop_last() =~= s);
}

/// The positions in `s` of the elements that `pred` keeps, in rising order.
pub open spec fn kept_positions<A>(s: Seq<A>, pred: spec_fn(A) -> bool) -> Seq<int>
    decreases s.len(),
{
    if s.len() == 0 {
        Seq::empty()
    } else {
        let before = kept_positions(s.drop_last(), pred);
        if pred(s.last()) {
            before.push(s.len() - 1)
        } else {
            before
        }
    }
}

/// `picked` holds the elements of `s` at the positions `idx`, which rise
/// strictly and are exactly the positions whose element `pred` keeps.
pub open spec fn picks<A>(s: Seq<A>, pred: spec_fn(A) -> bool, picked: Seq<A>, idx: Seq<int>) -> bool {
    &&& idx.len() == picked.len()
    &&& forall|k: int|
        0 <= k < idx.len() ==> 0 <= #[trigger] idx[k] < s.len() && picked[k] == s[idx[k]]
    &&& forall|k: int, m: int| 0 <= k < m < idx.len() ==> #[trigger] idx[k] < #[trigger] idx[m]
    &&& forall|j: int| 0 <= j < s.len() ==> (pred(#[trigger] s[j]) <==> idx.contains(j))
}

/// Filtering keeps exactly the elements that the predicate holds of, in
/// their order, each as often as it occurs.
pub proof fn lemma_filter_picks<A>(s: Seq<A>, pred: spec_fn(A) -> bool)
    ensures
        picks(s, pred, s.filter(pred), kept_positions(s, pred)),
    decreases s.len(),
{
    reveal(Seq::filter);
    if s.len() > 0 {
        let n = s.len() - 1;
        let init = s.drop_last();
        lemma_filter_picks(init, pred);
        let idx = kept_positions(s, pred);
        let before = kept_positions(init, pred);
        assert forall|j: int| 0 <= j < s.len() implies (pred(#[trigger] s[j]) <==> idx.contains(
            j,
        )) by {
            if j < n {
                assert(init[j] == s[j]);
                if before.contains(j) {
                    let k = choose|k: int| 0 <= k < before.len() && before[k] == j;
                    assert(idx[k] == j);
                }
                if idx.contains(j) {
                    let k = choose|k: int| 0 <= k < idx.len() && idx[k] == j;
                    assert(k < before.len());
                    assert(before[k] == j);
                }
            } else {
                if pred(s[j]) {
                    assert(idx[idx.len() - 1] == j);
                } else {
                    if idx.contains(j) {
                        let k = choose|k: int| 0 <= k < idx.len() && idx[k] == j;
                        assert(before[k] < n);
                    }
                }
            }
        }
    }
}

/// Filtering with a predicate that holds of every element keeps them all.
pub proof fn lemma_filter_keeps_all<A>(s: Seq<A>, pred: spec_fn(A) -> bool)
    requires
        forall|i: int| 0 <= i < s.len() ==> pred(#[trigger] s[i]),
    ensures
        s.filter(pred) == s,
    decreases s.len(),
{
    reveal(Seq::filter);
    if s.len() > 0 {
        lemma_filter_keeps_all(s.drop_last(), pred);
        assert(s.drop_last().push(s.last()) =~= s);
    }
}

/// The lines of `contents` that contain `query`, in order, each a view into
/// `contents`.
pub fn search<'a>(query: &str, contents: &'a str) -> (r: Vec<&'a str>)
    ensures
        r.deep_view() == matching_lines(query@, contents@),
{
    let all = lines(contents);
    let needle = chars_of(query);
    let mut r: Vec<&'a str> = Vec::new();
    for k in 0..all.len()
        invariant
            all.deep_view() == lines_of(contents@),
            needle@ == query@,
            r.deep_view() == containing(all.deep_view().take(k as int), query@),
    {
        let line = all[k];
        let hay = chars_of(line);
        let found = occurs_in(&hay, &needle);
        let ghost before = r.deep_view();
        proof {
            assert(all.deep_view().take(k + 1) =~= all.deep_view().take(k as int).push(line@));
            lemma_filter_push(
                all.deep_view().take(k as int),
                line@,
                |line: Seq<char>| has_substring(line, query@),
            );
        }
        if found {
            r.push(line);
            assert(r.deep_view() =~= before.push(line@));
        }
    }
    assert(all.deep_view().take(all.len() as int) =~= all.deep_view());
    r
}

/// The lines of `contents` whose lowercase form contains the lowercase form
/// of `query`, in order, each a view into `contents` as it stands there.
pub fn search_case_insensitive<'a>(query: &str, contents: &'a str) -> (r: Vec<&'a str>)
    ensures
        r.deep_view() == matching_lines_folded(query@, contents@),
{
    let all = lines(contents);
    let folded_query = lowercase(query);
    let needle = chars_of(folded_query.as_str());
    let mut r: Vec<&'a str> = Vec::new();
    for k in 0..all.len()
        invariant
            all.deep_view() == lines_of(contents@),
            needle@ == lower_of(query@),
            r.deep_view() == containing_folded(all.deep_view().take(k as int), query@),
    {
        let line = all[k];
        let folded_line = lowercase(line);
        let hay = chars_of(folded_line.as_str());
        let found = occurs_in(&hay, &needle);
        let ghost before = r.deep_view();
        proof {
            assert(all.deep_view().take(k + 1) =~= all.deep_view().take(k as int).push(line@));
            lemma_filter_push(
                all.deep_view().take(k as int),
                line@,
                |line: Seq<char>| has_substring(lower_of(line), lower_of(query@)),
            );
        }
        if found {
            r.push(line);
            assert(r.deep_view() =~= before.push(line@));
        }
    }
    assert(all.deep_view().take(all.len() as int) =~= all.deep_view());
    r
}

/// Every line that `search` returns is a line of the contents and contains
/// the query; every line that contains the query is returned; and the lines
/// come in the order of the contents, each as often as it stands there.
pub proof fn lemma_search_selects_lines(query: Seq<char>, contents: Seq<char>)
    ensures
        ({
            let all = lines_of(contents);
            let r = matching_lines(query, contents);
            &&& forall|k: int|
                0 <= k < r.len() ==> all.contains(#[trigger] r[k]) && has_substring(r[k], query)
            &&& forall|j: int|
                0 <= j < all.len() && has_substring(#[trigger] all[j], query) ==> r.contains(all[j])
            &&& exists|idx: Seq<int>|
                {
                    &&& idx.len() == r.len()
                    &&& forall|k: int|
                        0 <= k < idx.len() ==> 0 <= #[trigger] idx[k] < all.len() && r[k]
                            == all[idx[k]]
                    &&& forall|k: int, m: int|
                        0 <= k < m < idx.len() ==> #[trigger] idx[k] < #[trigger] idx[m]
                    &&& forall|j: int|
                        0 <= j < all.len() ==> (has_substring(#[trigger] all[j], query)
                            <==> idx.contains(j))
                }
        }),
{
    let all = lines_of(contents);
    let pred = |line: Seq<char>| has_substring(line, query);
    let r = matching_lines(query, contents);
    let idx = kept_positions(all, pred);
    lemma_filter_picks(all, pred);
    assert forall|k: int| 0 <= k < r.len() implies all.contains(#[trigger] r[k]) && has_substring(
        r[k],
        query,
    ) by {
        assert(idx.contains(idx[k]));
        assert(all[idx[k]] == r[k]);
    }
    assert forall|j: int| 0 <= j < all.len() && has_substring(#[trigger] all[j], query) implies r.contains(
        all[j],
    ) by {
        assert(pred(all[j]));
        let k = choose|k: int| 0 <= k < idx.len() && idx[k] == j;
        assert(r[k] == all[j]);
    }
}

/// Every line that `search_case_insensitive` returns is a line of the
/// contents, unchanged, whose lowercase form contains the lowercase query;
/// every such line is returned; and the lines come in the order of the
/// contents, each as often as it stands there.
pub proof fn lemma_search_case_insensitive_selects_lines(query: Seq<char>, contents: Seq<char>)
    ensures
        ({
            let all = lines_of(contents);
            let r = matching_lines_folded(query, contents);
            &&& forall|k: int|
                0 <= k < r.len() ==> all.contains(#[trigger] r[k]) && has_substring(
                    lower_of(r[k]),
                    lower_of(query),
                )
            &&& forall|j: int|
                0 <= j < all.len() && has_substring(lower_of(#[trigger] all[j]), lower_of(query))
                    ==> r.contains(all[j])
            &&& exists|idx: Seq<int>|
                {
                    &&& idx.len() == r.len()
                    &&& forall|k: int|
                        0 <= k < idx.len() ==> 0 <= #[trigger] idx[k] < all.len() && r[k]
                            == all[idx[k]]
                    &&& forall|k: int, m: int|
                        0 <= k < m < idx.len() ==> #[trigger] idx[k] < #[trigger] idx[m]
                    &&& forall|j: int|
                        0 <= j < all.len() ==> (has_substring(
                            lower_of(#[trigger] all[j]),
                            lower_of(query),
                        ) <==> idx.contains(j))
                }
        }),
{
    let all = lines_of(contents);
    let pred = |line: Seq<char>| has_substring(lower_of(line), lower_of(query));
    let r = matching_lines_folded(query, contents);
    let idx = kept_positions(all, pred);
    lemma_filter_picks(all, pred);
    assert forall|k: int| 0 <= k < r.len() implies all.contains(#[trigger] r[k]) && has_substring(
        lower_of(r[k]),
        lower_of(query),
    ) by {
        assert(idx.contains(idx[k]));
        assert(all[idx[k]] == r[k]);
    }
    assert forall|j: int|
        0 <= j < all.len() && has_substring(
            lower_of(#[trigger] all[j]),
            lower_of(query),
        ) implies r.contains(all[j]) by {
        assert(pred(all[j]));
        let k = choose|k: int| 0 <= k < idx.len() && idx[k] == j;
        assert(r[k] == all[j]);
    }
}

/// Two searches with the same query and contents give the same lines.
pub proof fn lemma_search_repeatable(
    query: Seq<char>,
    contents: Seq<char>,
    first: Seq<Seq<char>>,
    second: Seq<Seq<char>>,
)
    requires
        first == matching_lines(query, contents),
        second == matching_lines(query, contents),
    ensures
        first == second,
{
}

/// An empty query selects every line.
pub proof fn lemma_empty_query_selects_all(contents: Seq<char>)
    ensures
        matching_lines(Seq::empty(), contents) == lines_of(contents),
{
    let all = lines_of(contents);
    assert forall|i: int| 0 <= i < all.len() implies has_substring(
        #[trigger] all[i],
        Seq::<char>::empty(),
    ) by {
        let none = Seq::<char>::empty();
        assert(all[i].subrange(0, 0 + none.len() as int) =~= none);
    }
    lemma_filter_keeps_all(all, |line: Seq<char>| has_substring(line, Seq::<char>::empty()));
}

/// Empty contents have no lines, so no search selects any.
pub proof fn lemma_empty_contents_selects_none(query: Seq<char>)
    ensures
        matching_lines(query, Seq::empty()) == Seq::<Seq<char>>::empty(),
        matching_lines_folded(query, Seq::empty()) == Seq::<Seq<char>>::empty(),
{
    reveal(Seq::filter);
    assert(lines_of(Seq::<char>::empty()) =~= Seq::<Seq<char>>::empty());
}

/// A query longer than every line selects none.
pub proof fn lemma_long_query_selects_none(query: Seq<char>, contents: Seq<char>)
    requires
        forall|i: int|
            0 <= i < lines_of(contents).len() ==> #[trigger] lines_of(contents)[i].len()
                < query.len(),
    ensures
        matching_lines(query, contents) == Seq::<Seq<char>>::empty(),
{
    let all = lines_of(contents);
    let pred = |line: Seq<char>| has_substring(line, query);
    let r = matching_lines(query, contents);
    lemma_filter_picks(all, pred);
    if r.len() > 0 {
        let idx = kept_positions(all, pred);
        let j = idx[0];
        assert(idx.contains(j));
        assert(pred(all[j]));
        assert(all[j].len() < query.len());
    }
    assert(r =~= Seq::<Seq<char>>::empty());
}

} // verus!
