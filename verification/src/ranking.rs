//! Ranking a collection of candidate names against a query.
//!
//! Every name is scored against the pattern built from the query; the names
//! that match are kept, in input order, and then sorted stably by score
//! (lower first) and, among equal scores, by name length (shorter first).

use crate::matching::PatternError;
use crate::matching::{build_pattern, leftmost_match, lemma_matches_ci_leftmost, matches_ci};
use crate::scoring::{lemma_score_empty_query, lemma_score_query_case, score_name, score_spec};
use crate::text::fold_chars;
use vstd::prelude::*;

verus! {

/// A scored name as mathematics: the name and its penalty as an integer.
pub open spec fn pair_view(p: (String, i32)) -> (String, int) {
    (p.0, p.1 as int)
}

/// The mathematical view of a whole result list.
pub open spec fn view_pairs(rs: Seq<(String, i32)>) -> Seq<(String, int)> {
    rs.map(|i: int, p: (String, i32)| pair_view(p))
}

/// The ranking order on scored names: by score first, then by name length.
/// `a` may stay in front of `b` exactly when this holds.
pub open spec fn rank_le(a: (String, int), b: (String, int)) -> bool {
    a.1 < b.1 || (a.1 == b.1 && a.0@.len() <= b.0@.len())
}

/// Ordered by the ranking order: every element may stay in front of each
/// later one.
pub open spec fn is_ranked(s: Seq<(String, int)>) -> bool {
    forall|i: int, j: int| 0 <= i < j < s.len() ==> rank_le(#[trigger] s[i], #[trigger] s[j])
}

/// The names among `names`, in input order, that match `query`, each paired
/// with its score.
pub open spec fn scored_matches(names: Seq<String>, query: Seq<char>) -> Seq<(String, int)>
    decreases names.len(),
{
    if names.len() == 0 {
        Seq::empty()
    } else {
        let init = scored_matches(names.drop_last(), query);
        match score_spec(names.last()@, query) {
            Some(s) => init.push((names.last(), s)),
            None => init,
        }
    }
}

/// `x` inserted into `s` behind every element that may stay in front of it.
pub open spec fn insert_ranked(x: (String, int), s: Seq<(String, int)>) -> Seq<(String, int)>
    decreases s.len(),
{
    if s.len() == 0 {
        seq![x]
    } else if rank_le(s[0], x) {
        seq![s[0]] + insert_ranked(x, s.drop_first())
    } else {
        seq![x] + s
    }
}

/// `s` sorted stably by the ranking order: each element in turn is inserted
/// behind all earlier-arriving elements that may stay in front of it.
pub open spec fn sort_ranked(s: Seq<(String, int)>) -> Seq<(String, int)>
    decreases s.len(),
{
    if s.len() == 0 {
        Seq::empty()
    } else {
        insert_ranked(s.last(), sort_ranked(s.drop_last()))
    }
}

/// What ranking a name list against a query returns: the matching names
/// scored in input order, then sorted stably by (score, name length).
pub open spec fn rank_spec(names: Seq<String>, query: Seq<char>) -> Seq<(String, int)> {
    sort_ranked(scored_matches(names, query))
}

/// Inserting into a ranked sequence keeps it ranked, adds exactly the new
/// element, and invents no element.
pub proof fn lemma_insert_ranked_props(x: (String, int), s: Seq<(String, int)>)
    requires
        is_ranked(s),
    ensures
        insert_ranked(x, s).len() == s.len() + 1,
        is_ranked(insert_ranked(x, s)),
        insert_ranked(x, s).to_multiset() == s.to_multiset().insert(x),
        forall|k: int|
            0 <= k < insert_ranked(x, s).len() ==> insert_ranked(x, s)[k] == x || s.contains(
                #[trigger] insert_ranked(x, s)[k],
            ),
    decreases s.len(),
{
    broadcast use vstd::seq_lib::group_to_multiset_ensures;

    let out = insert_ranked(x, s);
    if s.len() == 0 {
        assert(out =~= s.push(x));
        assert(out.to_multiset() =~= s.to_multiset().insert(x));
    } else if rank_le(s[0], x) {
        let tail = s.drop_first();
        assert forall|i: int, j: int| 0 <= i < j < tail.len() implies rank_le(
            #[trigger] tail[i],
            #[trigger] tail[j],
        ) by {
            assert(tail[i] == s[i + 1] && tail[j] == s[j + 1]);
        }
        lemma_insert_ranked_props(x, tail);
        let ins = insert_ranked(x, tail);
        assert(out =~= seq![s[0]] + ins);
        assert forall|k: int| 0 <= k < out.len() implies out[k] == x || s.contains(
            #[trigger] out[k],
        ) by {
            if k == 0 {
                assert(out[0] == s[0]);
                assert(s.contains(s[0]));
            } else {
                assert(out[k] == ins[k - 1]);
                if ins[k - 1] != x {
                    let m = choose|m: int| 0 <= m < tail.len() && tail[m] == ins[k - 1];
                    assert(s[m + 1] == tail[m]);
                }
            }
        }
        assert forall|i: int, j: int| 0 <= i < j < out.len() implies rank_le(
            #[trigger] out[i],
            #[trigger] out[j],
        ) by {
            if i == 0 {
                assert(out[j] == ins[j - 1]);
                if ins[j - 1] == x {
                } else {
                    let m = choose|m: int| 0 <= m < tail.len() && tail[m] == ins[j - 1];
                    assert(tail[m] == s[m + 1]);
                    assert(rank_le(s[0], s[m + 1]));
                }
            } else {
                assert(out[i] == ins[i - 1] && out[j] == ins[j - 1]);
            }
        }
        vstd::seq_lib::lemma_multiset_commutative(seq![s[0]], ins);
        vstd::seq_lib::lemma_multiset_commutative(seq![s[0]], tail);
        assert(s =~= seq![s[0]] + tail);
        assert(out.to_multiset() =~= s.to_multiset().insert(x));
    } else {
        assert(out =~= seq![x] + s);
        vstd::seq_lib::lemma_multiset_commutative(seq![x], s);
        assert(seq![x] =~= Seq::<(String, int)>::empty().push(x));
        assert(Seq::<(String, int)>::empty().to_multiset().len() == 0);
        vstd::multiset::lemma_multiset_empty_len(Seq::<(String, int)>::empty().to_multiset());
        assert(out.to_multiset() =~= s.to_multiset().insert(x));
        assert forall|i: int, j: int| 0 <= i < j < out.len() implies rank_le(
            #[trigger] out[i],
            #[trigger] out[j],
        ) by {
            if i == 0 {
                assert(out[j] == s[j - 1]);
                if j == 1 {
                } else {
                    assert(rank_le(s[0], s[j - 1]));
                }
            } else {
                assert(out[i] == s[i - 1] && out[j] == s[j - 1]);
            }
        }
    }
}

/// Sorting by the ranking order yields a ranked permutation of its input.
pub proof fn lemma_sort_ranked_props(s: Seq<(String, int)>)
    ensures
        sort_ranked(s).len() == s.len(),
        is_ranked(sort_ranked(s)),
        sort_ranked(s).to_multiset() == s.to_multiset(),
    decreases s.len(),
{
    broadcast use vstd::seq_lib::group_to_multiset_ensures;

    if s.len() > 0 {
        lemma_sort_ranked_props(s.drop_last());
        lemma_insert_ranked_props(s.last(), sort_ranked(s.drop_last()));
        assert(s =~= s.drop_last().push(s.last()));
        assert(s.to_multiset() =~= s.drop_last().to_multiset().insert(s.last()));
    }
}

/// Where `insert_ranked` puts the element: at the first index whose element
/// may not stay in front of it.
proof fn lemma_insert_ranked_at(x: (String, int), s: Seq<(String, int)>, j: int)
    requires
        0 <= j <= s.len(),
        forall|k: int| 0 <= k < j ==> rank_le(#[trigger] s[k], x),
        j < s.len() ==> !rank_le(s[j], x),
    ensures
        insert_ranked(x, s) == s.insert(j, x),
    decreases s.len(),
{
    if j == 0 {
        if s.len() == 0 {
            assert(insert_ranked(x, s) =~= s.insert(0, x));
        } else {
            assert(seq![x] + s =~= s.insert(0, x));
        }
    } else {
        assert(rank_le(s[0], x));
        let tail = s.drop_first();
        assert forall|k: int| 0 <= k < j - 1 implies rank_le(#[trigger] tail[k], x) by {
            assert(tail[k] == s[k + 1]);
        }
        assert(j - 1 < tail.len() ==> !rank_le(tail[j - 1], x)) by {
            if j - 1 < tail.len() {
                assert(tail[j - 1] == s[j]);
            }
        }
        lemma_insert_ranked_at(x, tail, j - 1);
        assert(seq![s[0]] + tail.insert(j - 1, x) =~= s.insert(j, x));
    }
}

/// The exact-tie predicate: score `sc` and name length `ln`.
pub open spec fn tie_pred(sc: int, ln: nat) -> spec_fn((String, int)) -> bool {
    |p: (String, int)| p.1 == sc && p.0@.len() == ln
}

/// The scored names with score `sc` and name length `ln`: the names in an
/// exact tie of the ranking order.
pub open spec fn ties(s: Seq<(String, int)>, sc: int, ln: nat) -> Seq<(String, int)> {
    s.filter(tie_pred(sc, ln))
}

/// What filtering a single element yields.
proof fn lemma_filter_one<A>(x: A, pred: spec_fn(A) -> bool)
    ensures
        pred(x) ==> seq![x].filter(pred) == seq![x],
        !pred(x) ==> seq![x].filter(pred) == Seq::<A>::empty(),
{
    reveal_with_fuel(Seq::filter, 2);
    assert(seq![x].drop_last() =~= Seq::<A>::empty());
    assert(seq![x].last() == x);
    assert(Seq::<A>::empty().filter(pred) =~= Seq::<A>::empty());
    if pred(x) {
        assert(Seq::<A>::empty().push(x) =~= seq![x]);
    }
}

/// A sequence none of whose elements passes the filter filters to nothing.
proof fn lemma_filter_all_fail<A>(s: Seq<A>, pred: spec_fn(A) -> bool)
    requires
        forall|k: int| 0 <= k < s.len() ==> !pred(#[trigger] s[k]),
    ensures
        s.filter(pred) == Seq::<A>::empty(),
    decreases s.len(),
{
    reveal_with_fuel(Seq::filter, 2);
    if s.len() > 0 {
        assert(!pred(s.last()));
        assert forall|k: int| 0 <= k < s.drop_last().len() implies !pred(
            #[trigger] s.drop_last()[k],
        ) by {
            assert(s.drop_last()[k] == s[k]);
        }
        lemma_filter_all_fail(s.drop_last(), pred);
    }
}

/// Inserting a scored name puts it behind every exact tie already present.
proof fn lemma_insert_ranked_ties(x: (String, int), s: Seq<(String, int)>, sc: int, ln: nat)
    requires
        is_ranked(s),
    ensures
        ties(insert_ranked(x, s), sc, ln) == if x.1 == sc && x.0@.len() == ln {
            ties(s, sc, ln).push(x)
        } else {
            ties(s, sc, ln)
        },
    decreases s.len(),
{
    let pred = tie_pred(sc, ln);
    if s.len() == 0 {
        lemma_filter_one(x, pred);
        reveal_with_fuel(Seq::filter, 2);
        assert(s.filter(pred) =~= Seq::<(String, int)>::empty());
        if pred(x) {
            assert(s.filter(pred).push(x) =~= seq![x]);
        }
    } else if rank_le(s[0], x) {
        let tail = s.drop_first();
        assert forall|i: int, j: int| 0 <= i < j < tail.len() implies rank_le(
            #[trigger] tail[i],
            #[trigger] tail[j],
        ) by {
            assert(tail[i] == s[i + 1] && tail[j] == s[j + 1]);
        }
        lemma_insert_ranked_ties(x, tail, sc, ln);
        let ins = insert_ranked(x, tail);
        assert(insert_ranked(x, s) == seq![s[0]] + ins);
        assert((seq![s[0]] + ins).filter(pred) == seq![s[0]].filter(pred) + ins.filter(pred));
        assert(s =~= seq![s[0]] + tail);
        assert(s.filter(pred) == seq![s[0]].filter(pred) + tail.filter(pred));
        if pred(x) {
            assert(seq![s[0]].filter(pred) + tail.filter(pred).push(x) =~= (seq![s[0]].filter(pred)
                + tail.filter(pred)).push(x));
        }
    } else {
        assert(insert_ranked(x, s) == seq![x] + s);
        assert((seq![x] + s).filter(pred) == seq![x].filter(pred) + s.filter(pred));
        lemma_filter_one(x, pred);
        if pred(x) {
            assert forall|k: int| 0 <= k < s.len() implies !pred(#[trigger] s[k]) by {
                if pred(s[k]) {
                    assert(rank_le(s[k], x));
                    if k > 0 {
                        assert(rank_le(s[0], s[k]));
                    }
                    assert(rank_le(s[0], x));
                    assert(false);
                }
            }
            lemma_filter_all_fail(s, pred);
            assert(seq![x] + Seq::<(String, int)>::empty() =~= s.filter(pred).push(x));
        } else {
            assert(Seq::<(String, int)>::empty() + s.filter(pred) =~= s.filter(pred));
        }
    }
}

/// Sorting preserves the input order of exact ties: the names with one given
/// score and name length come out exactly in the order they went in.
pub proof fn lemma_sort_ranked_ties(s: Seq<(String, int)>, sc: int, ln: nat)
    ensures
        ties(sort_ranked(s), sc, ln) == ties(s, sc, ln),
    decreases s.len(),
{
    let pred = tie_pred(sc, ln);
    if s.len() == 0 {
        reveal_with_fuel(Seq::filter, 2);
        assert(s.filter(pred) =~= Seq::<(String, int)>::empty());
    } else {
        lemma_sort_ranked_ties(s.drop_last(), sc, ln);
        lemma_sort_ranked_props(s.drop_last());
        lemma_insert_ranked_ties(s.last(), sort_ranked(s.drop_last()), sc, ln);
        lemma_filter_one(s.last(), pred);
        assert(s =~= s.drop_last() + seq![s.last()]);
        assert(s.filter(pred) == s.drop_last().filter(pred) + seq![s.last()].filter(pred));
        if pred(s.last()) {
            assert(s.drop_last().filter(pred) + seq![s.last()] =~= s.drop_last().filter(
                pred,
            ).push(s.last()));
        } else {
            assert(s.drop_last().filter(pred) + Seq::<(String, int)>::empty() =~= s.drop_last(
            ).filter(pred));
        }
    }
}

/// Every scored match carries exactly the score of its name against the
/// query, and that name does match.
proof fn lemma_scored_matches_elems(names: Seq<String>, query: Seq<char>)
    ensures
        forall|k: int|
            0 <= k < scored_matches(names, query).len() ==> score_spec(
                (#[trigger] scored_matches(names, query)[k]).0@,
                query,
            ) == Some(scored_matches(names, query)[k].1),
    decreases names.len(),
{
    if names.len() > 0 {
        lemma_scored_matches_elems(names.drop_last(), query);
        let init = scored_matches(names.drop_last(), query);
        assert forall|k: int| 0 <= k < scored_matches(names, query).len() implies score_spec(
            (#[trigger] scored_matches(names, query)[k]).0@,
            query,
        ) == Some(scored_matches(names, query)[k].1) by {
            if k < init.len() {
                assert(scored_matches(names, query)[k] == init[k]);
            }
        }
    }
}

/// The ranked results are sorted: scores ascend, and equal scores are
/// ordered by name length ascending.
pub proof fn lemma_rank_spec_sorted(names: Seq<String>, query: Seq<char>)
    ensures
        is_ranked(rank_spec(names, query)),
{
    lemma_sort_ranked_props(scored_matches(names, query));
}

/// The ranked results are a permutation of the scored matching names.
pub proof fn lemma_rank_spec_permutes(names: Seq<String>, query: Seq<char>)
    ensures
        rank_spec(names, query).to_multiset() == scored_matches(names, query).to_multiset(),
        rank_spec(names, query).len() == scored_matches(names, query).len(),
{
    lemma_sort_ranked_props(scored_matches(names, query));
}

/// Ranking is stable: among exact ties (same score and same name length) the
/// matching names keep the order the input gave them.
pub proof fn lemma_rank_spec_stable(names: Seq<String>, query: Seq<char>, sc: int, ln: nat)
    ensures
        ties(rank_spec(names, query), sc, ln) == ties(scored_matches(names, query), sc, ln),
{
    lemma_sort_ranked_ties(scored_matches(names, query), sc, ln);
}

/// Ranking is a function of the name list and the query alone: two results
/// of ranking equal inputs are the same sequence, in the same order.
pub proof fn lemma_rank_deterministic(
    names: Seq<String>,
    query: Seq<char>,
    r1: Seq<(String, int)>,
    r2: Seq<(String, int)>,
)
    requires
        r1 == rank_spec(names, query),
        r2 == rank_spec(names, query),
    ensures
        r1 == r2,
{
}

/// Ranking does not depend on the case of the query: two queries with equal
/// case-folded characters rank any name list identically.
pub proof fn lemma_rank_spec_query_case(names: Seq<String>, q1: Seq<char>, q2: Seq<char>)
    requires
        fold_chars(q1) == fold_chars(q2),
    ensures
        rank_spec(names, q1) == rank_spec(names, q2),
{
    lemma_scored_matches_query_case(names, q1, q2);
}

/// Scoring a whole name list does not depend on the case of the query.
proof fn lemma_scored_matches_query_case(names: Seq<String>, q1: Seq<char>, q2: Seq<char>)
    requires
        fold_chars(q1) == fold_chars(q2),
    ensures
        scored_matches(names, q1) == scored_matches(names, q2),
    decreases names.len(),
{
    if names.len() > 0 {
        lemma_scored_matches_query_case(names.drop_last(), q1, q2);
        lemma_score_query_case(names.last()@, q1, q2);
    }
}

/// Ranking one name against the empty query returns exactly that name,
/// scored zero.
pub proof fn lemma_rank_single_empty_query(name: String)
    ensures
        rank_spec(seq![name], Seq::<char>::empty()) == seq![(name, 0int)],
{
    lemma_score_empty_query(name@);
    let query = Seq::<char>::empty();
    let none = Seq::<String>::empty();
    let scored = scored_matches(seq![name], query);
    assert(scored_matches(none, query) == Seq::<(String, int)>::empty());
    assert(seq![name].drop_last() =~= none);
    assert(seq![name].last() == name);
    assert(scored == Seq::<(String, int)>::empty().push((name, 0int)));
    assert(scored =~= seq![(name, 0int)]);
    assert(scored.drop_last() =~= Seq::<(String, int)>::empty());
    assert(sort_ranked(Seq::<(String, int)>::empty()) == Seq::<(String, int)>::empty());
    assert(insert_ranked((name, 0int), Seq::<(String, int)>::empty()) == seq![(name, 0int)]);
    assert(sort_ranked(scored) == insert_ranked((name, 0int), Seq::<(String, int)>::empty()));
}

/// A name in which the query's characters do not occur in order,
/// case-insensitively, is absent from the ranking of that name alone.
pub proof fn lemma_rank_single_no_match(name: String, query: Seq<char>)
    requires
        !matches_ci(name@, query),
    ensures
        rank_spec(seq![name], query) == Seq::<(String, int)>::empty(),
{
    lemma_matches_ci_leftmost(name@, query);
    assert(leftmost_match(name@, query) is None);
    let none = Seq::<String>::empty();
    let scored = scored_matches(seq![name], query);
    assert(scored_matches(none, query) == Seq::<(String, int)>::empty());
    assert(seq![name].drop_last() =~= none);
    assert(seq![name].last() == name);
    assert(scored == Seq::<(String, int)>::empty());
    assert(sort_ranked(Seq::<(String, int)>::empty()) == Seq::<(String, int)>::empty());
}

/// More generally, a name that the query does not match is absent from the
/// ranking of any name list.
pub proof fn lemma_rank_excludes_non_matching(names: Seq<String>, query: Seq<char>, name: String)
    requires
        !matches_ci(name@, query),
    ensures
        forall|k: int|
            0 <= k < rank_spec(names, query).len() ==> (#[trigger] rank_spec(
                names,
                query,
            )[k]).0@ != name@,
{
    broadcast use vstd::seq_lib::group_to_multiset_ensures;

    lemma_matches_ci_leftmost(name@, query);
    lemma_scored_matches_elems(names, query);
    lemma_sort_ranked_props(scored_matches(names, query));
    let ranked = rank_spec(names, query);
    let scored = scored_matches(names, query);
    assert forall|k: int| 0 <= k < ranked.len() implies (#[trigger] ranked[k]).0@ != name@ by {
        assert(ranked.contains(ranked[k]));
        assert(ranked.to_multiset().count(ranked[k]) > 0);
        assert(scored.contains(ranked[k]));
        let m = choose|m: int| 0 <= m < scored.len() && scored[m] == ranked[k];
        assert(score_spec(scored[m].0@, query) == Some(scored[m].1));
    }
}

/// The empty query matches every name with score zero: ranking returns every
/// candidate, each scored zero, so their order is by name length ascending.
pub proof fn lemma_rank_empty_query(names: Seq<String>)
    ensures
        rank_spec(names, Seq::<char>::empty()).len() == names.len(),
        forall|k: int|
            0 <= k < names.len() ==> (#[trigger] rank_spec(names, Seq::<char>::empty())[k]).1
                == 0,
        is_ranked(rank_spec(names, Seq::<char>::empty())),
{
    broadcast use vstd::seq_lib::group_to_multiset_ensures;

    let query = Seq::<char>::empty();
    let scored = scored_matches(names, query);
    lemma_scored_matches_len_empty_query(names);
    lemma_scored_matches_elems(names, query);
    lemma_sort_ranked_props(scored);
    let ranked = rank_spec(names, query);
    assert forall|k: int| 0 <= k < names.len() implies (#[trigger] ranked[k]).1 == 0 by {
        assert(ranked.contains(ranked[k]));
        assert(ranked.to_multiset().count(ranked[k]) > 0);
        assert(scored.contains(ranked[k]));
        let m = choose|m: int| 0 <= m < scored.len() && scored[m] == ranked[k];
        lemma_score_empty_query(scored[m].0@);
        assert(score_spec(scored[m].0@, query) == Some(scored[m].1));
    }
}

/// Against the empty query every name is kept.
proof fn lemma_scored_matches_len_empty_query(names: Seq<String>)
    ensures
        scored_matches(names, Seq::<char>::empty()).len() == names.len(),
    decreases names.len(),
{
    if names.len() > 0 {
        lemma_scored_matches_len_empty_query(names.drop_last());
        lemma_score_empty_query(names.last()@);
    }
}

/// Compares two scored names by the ranking order.
fn rank_le_exec(a: &(String, i32), b: &(String, i32)) -> (r: bool)
    ensures
        r == rank_le(pair_view(*a), pair_view(*b)),
{
    if a.1 < b.1 {
        true
    } else if a.1 == b.1 {
        a.0.as_str().unicode_len() <= b.0.as_str().unicode_len()
    } else {
        false
    }
}

/// The index at which `x` is to be inserted into `sorted`: right behind every
/// element that may stay in front of it.
fn insertion_index(sorted: &Vec<(String, i32)>, x: &(String, i32)) -> (j: usize)
    ensures
        j <= sorted@.len(),
        forall|k: int| 0 <= k < j ==> rank_le(pair_view(#[trigger] sorted@[k]), pair_view(*x)),
        j < sorted@.len() ==> !rank_le(pair_view(sorted@[j as int]), pair_view(*x)),
{
    let mut j: usize = 0;
    loop
        invariant_except_break
            j <= sorted@.len(),
            forall|k: int| 0 <= k < j ==> rank_le(pair_view(#[trigger] sorted@[k]), pair_view(*x)),
        ensures
            j <= sorted@.len(),
            forall|k: int| 0 <= k < j ==> rank_le(pair_view(#[trigger] sorted@[k]), pair_view(*x)),
            j < sorted@.len() ==> !rank_le(pair_view(sorted@[j as int]), pair_view(*x)),
        decreases sorted@.len() - j,
    {
        if j == sorted.len() {
            break ;
        }
        if !rank_le_exec(&sorted[j], x) {
            break ;
        }
        j += 1;
    }
    j
}

/// Sorts scored names stably by the ranking order.
fn sort_results(results: &mut Vec<(String, i32)>)
    ensures
        view_pairs(final(results)@) == sort_ranked(view_pairs(old(results)@)),
{
    let ghost orig = results@;
    let mut sorted: Vec<(String, i32)> = Vec::new();
    let ghost mut i: int = 0;
    proof {
        assert(results@ =~= orig.skip(0));
        assert(view_pairs(sorted@) =~= Seq::<(String, int)>::empty());
        assert(view_pairs(orig.take(0)) =~= Seq::<(String, int)>::empty());
    }
    while results.len() > 0
        invariant
            0 <= i <= orig.len(),
            results@ == orig.skip(i),
            view_pairs(sorted@) == sort_ranked(view_pairs(orig.take(i))),
        decreases results@.len(),
    {
        let ghost pre_results = results@;
        let x = results.remove(0);
        proof {
            assert(x == orig[i]);
            assert(pre_results.remove(0) =~= orig.skip(i + 1));
        }
        let j = insertion_index(&sorted, &x);
        let ghost pre_sorted = sorted@;
        proof {
            assert forall|k: int| 0 <= k < j implies rank_le(
                #[trigger] view_pairs(pre_sorted)[k],
                pair_view(x),
            ) by {
                assert(view_pairs(pre_sorted)[k] == pair_view(pre_sorted[k]));
            }
            lemma_insert_ranked_at(pair_view(x), view_pairs(pre_sorted), j as int);
        }
        sorted.insert(j, x);
        proof {
            i = i + 1;
            assert(view_pairs(sorted@) =~= view_pairs(pre_sorted).insert(j as int, pair_view(x)));
            let taken = orig.take(i);
            assert(taken.drop_last() =~= orig.take(i - 1));
            assert(taken.last() == orig[i - 1]);
            assert(view_pairs(taken).drop_last() =~= view_pairs(taken.drop_last()));
            assert(view_pairs(taken).last() == pair_view(orig[i - 1]));
            assert(view_pairs(taken).drop_last() == view_pairs(orig.take(i - 1)));
            assert(sort_ranked(view_pairs(taken)) == insert_ranked(
                pair_view(orig[i - 1]),
                sort_ranked(view_pairs(orig.take(i - 1))),
            ));
        }
    }
    proof {
        assert(orig.skip(i).len() == 0);
        assert(orig.take(i) =~= orig);
    }
    *results = sorted;
}

/// Ranks every candidate name against the query.
///
/// Each name is scored and ranked based on similarity to the query. Scores
/// are penalties: 0 is a perfect score and is ranked in front of score 1. A
/// name's score is the number of characters missing in the query for it to be
/// a prefix of the name, except that characters missing between two matched
/// characters that both begin a subname of the name are not counted. Names
/// that do not contain the query's characters in order (case-insensitively)
/// are left out. Of two names with the same score, the shorter one is ranked
/// in front; otherwise equal names keep their input order.
pub fn search_names(names: &Vec<String>, input: &str) -> (r: Result<
    Vec<(String, i32)>,
    PatternError,
>)
    requires
        forall|k: int| 0 <= k < names@.len() ==> (#[trigger] names@[k])@.len() <= i32::MAX,
    ensures
        r is Ok,
        view_pairs(r->Ok_0@) == rank_spec(names@, input@),
        is_ranked(view_pairs(r->Ok_0@)),
{
    proof {
        lemma_rank_spec_sorted(names@, input@);
    }
    let pattern = match build_pattern(input) {
        Ok(pattern) => pattern,
        Err(e) => {
            return Err(e);
        },
    };
    let mut results: Vec<(String, i32)> = Vec::new();
    let mut i: usize = 0;
    proof {
        assert(view_pairs(results@) =~= Seq::<(String, int)>::empty());
        assert(names@.take(0) =~= Seq::<String>::empty());
    }
    while i < names.len()
        invariant
            i <= names@.len(),
            pattern@ == input@,
            forall|k: int| 0 <= k < names@.len() ==> (#[trigger] names@[k])@.len() <= i32::MAX,
            view_pairs(results@) == scored_matches(names@.take(i as int), input@),
        decreases names@.len() - i,
    {
        let name = &names[i];
        let ghost pre_results = results@;
        let score = score_name(name, &pattern);
        proof {
            let taken = names@.take(i + 1);
            assert(taken.drop_last() =~= names@.take(i as int));
            assert(taken.last() == names@[i as int]);
        }
        match score {
            Some(s) => {
                results.push((name.clone(), s));
                proof {
                    assert(view_pairs(results@) =~= view_pairs(pre_results).push(
                        (names@[i as int], s as int),
                    ));
                }
            },
            None => {},
        }
        i += 1;
    }
    proof {
        assert(names@.take(i as int) =~= names@);
    }
    sort_results(&mut results);
    Ok(results)
}

} // verus!
