//! Per-name scoring against a match pattern.
//!
//! A matching name's score is the number of characters the query is missing
//! to be a prefix-or-acronym match of the name: characters skipped between
//! two consecutive matched positions are counted, except when both positions
//! begin a subname, in which case the skip is free.

use crate::matching::{
    embeds_at, lemma_leftmost_match_case_fold, lemma_leftmost_match_embeds,
    lemma_matches_ci_leftmost, leftmost_match, match_positions, matches_ci, positions_view,
    Pattern,
};
use crate::text::{fold_chars, is_upper, to_chars};
use vstd::prelude::*;

verus! {

/// Whether position `index` of `name` begins a subname. The virtual position
/// before the name and position 0 always do; a later position does when it
/// follows a `-` or `_`, or holds an ASCII uppercase letter.
pub open spec fn starts_subname(name: Seq<char>, index: int) -> bool
    recommends
        index < name.len(),
{
    ||| index <= 0
    ||| name[index - 1] == '-'
    ||| name[index - 1] == '_'
    ||| is_upper(name[index])
}

/// Decides whether character `index` of `full_name` begins a subname;
/// non-positive indices stand for the virtual position before the name.
pub fn starts_name(index: i32, full_name: &Vec<char>) -> (r: bool)
    requires
        index <= 0 || index < full_name@.len(),
    ensures
        r == starts_subname(full_name@, index as int),
{
    if index <= 0 {
        return true;
    }
    let prev = full_name[(index - 1) as usize];
    let curr = full_name[index as usize];
    prev == '-' || prev == '_' || (curr >= 'A' && curr <= 'Z')
}

/// The cost of the gap between consecutive match positions `prev` and `next`:
/// free when both begin subnames, otherwise the count of characters strictly
/// between them.
pub open spec fn gap_cost(name: Seq<char>, prev: int, next: int) -> int {
    if starts_subname(name, prev) && starts_subname(name, next) {
        0
    } else {
        next - (prev + 1)
    }
}

/// The summed gap costs of the match positions `ps`, the position matched
/// just before them being `prev`.
pub open spec fn score_of_positions(name: Seq<char>, ps: Seq<int>, prev: int) -> int
    decreases ps.len(),
{
    if ps.len() == 0 {
        0
    } else {
        gap_cost(name, prev, ps[0]) + score_of_positions(name, ps.drop_first(), ps[0])
    }
}

/// The score of `name` against the pattern for `query`: the summed gap costs
/// of the leftmost match, with a virtual previous position just before the
/// name; `None` when the name does not match.
pub open spec fn score_spec(name: Seq<char>, query: Seq<char>) -> Option<int> {
    match leftmost_match(name, query) {
        Some(ps) => Some(score_of_positions(name, ps, -1)),
        None => None,
    }
}

/// Over strictly increasing positions the summed gap costs are nonnegative
/// and at most the distance from the previous position to the last one.
pub proof fn lemma_score_bounds(name: Seq<char>, ps: Seq<int>, prev: int)
    requires
        forall|k: int| 0 <= k < ps.len() - 1 ==> #[trigger] ps[k] < ps[k + 1],
        ps.len() > 0 ==> prev < ps[0],
    ensures
        0 <= score_of_positions(name, ps, prev),
        ps.len() > 0 ==> score_of_positions(name, ps, prev) <= ps.last() - prev,
    decreases ps.len(),
{
    if ps.len() > 0 {
        let tail = ps.drop_first();
        assert forall|k: int| 0 <= k < tail.len() - 1 implies #[trigger] tail[k] < tail[k + 1] by {
            assert(tail[k] == ps[k + 1] && tail[k + 1] == ps[k + 2]);
        }
        if tail.len() > 0 {
            assert(tail[0] == ps[1]);
            assert(tail.last() == ps.last());
        }
        lemma_score_bounds(name, tail, ps[0]);
    }
}

/// A successful score is nonnegative and at most the name's length.
pub proof fn lemma_score_spec_bounds(name: Seq<char>, query: Seq<char>)
    requires
        score_spec(name, query) is Some,
    ensures
        0 <= score_spec(name, query)->Some_0 <= name.len(),
{
    let ps = leftmost_match(name, query)->Some_0;
    lemma_leftmost_match_embeds(name, query, 0);
    lemma_score_bounds(name, ps, -1);
    if ps.len() > 0 {
        assert(ps.last() < name.len());
    }
}

/// Every name scores zero against the empty query.
pub proof fn lemma_score_empty_query(name: Seq<char>)
    ensures
        score_spec(name, Seq::<char>::empty()) == Some(0int),
{
    assert(leftmost_match(name, Seq::<char>::empty()) == Some(Seq::<int>::empty()));
}

/// The score does not depend on the case of the query: two queries with equal
/// case-folded characters give every name the same score. (The score may
/// depend on the case of the name itself: an uppercase letter in the name
/// opens a subname, and skips between subname starts are free.)
pub proof fn lemma_score_query_case(name: Seq<char>, q1: Seq<char>, q2: Seq<char>)
    requires
        fold_chars(q1) == fold_chars(q2),
    ensures
        score_spec(name, q1) == score_spec(name, q2),
{
    lemma_leftmost_match_case_fold(name, name, q1, q2, 0);
}

/// Scores one candidate name against a pattern: `None` when the name does
/// not match the pattern's query, otherwise the penalty of the leftmost
/// match, zero being a perfect prefix-or-acronym match.
pub fn score_name(name: &String, pattern: &Pattern) -> (r: Option<i32>)
    requires
        name@.len() <= i32::MAX,
    ensures
        match r {
            Some(s) => score_spec(name@, pattern@) == Some(s as int) && 0 <= s,
            None => score_spec(name@, pattern@) is None,
        },
        r is Some <==> matches_ci(name@, pattern@),
{
    proof {
        lemma_matches_ci_leftmost(name@, pattern@);
    }
    let chars = to_chars(name.as_str());
    let ps = match match_positions(&chars, pattern) {
        Some(ps) => ps,
        None => {
            return None;
        },
    };
    let ghost psv = positions_view(ps@);
    proof {
        lemma_leftmost_match_embeds(name@, pattern@, 0);
        assert(psv.skip(0) =~= psv);
    }
    let mut score: i32 = 0;
    let mut prev: i32 = -1;
    let mut k: usize = 0;
    while k < ps.len()
        invariant
            k <= ps@.len(),
            name@.len() <= i32::MAX,
            chars@ == name@,
            embeds_at(name@, pattern@, psv, 0),
            psv == positions_view(ps@),
            k == 0 ==> prev == -1,
            k > 0 ==> prev == psv[k - 1],
            -1 <= prev < name@.len(),
            0 <= score <= prev + 1,
            score_of_positions(name@, psv, -1) == score + score_of_positions(
                name@,
                psv.skip(k as int),
                prev as int,
            ),
        decreases ps@.len() - k,
    {
        proof {
            assert(psv[k as int] == ps@[k as int] as int);
            if k > 0 {
                assert(psv[k - 1] < psv[k as int]);
            }
        }
        let cur: i32 = ps[k] as i32;
        let sb_prev = starts_name(prev, &chars);
        let sb_cur = starts_name(cur, &chars);
        proof {
            let rest = psv.skip(k as int);
            assert(rest[0] == psv[k as int]);
            assert(rest.drop_first() =~= psv.skip(k as int + 1));
            assert(score_of_positions(name@, rest, prev as int) == gap_cost(
                name@,
                prev as int,
                rest[0],
            ) + score_of_positions(name@, rest.drop_first(), rest[0]));
        }
        if !(sb_prev && sb_cur) {
            score = score + (cur - (prev + 1));
        }
        prev = cur;
        k += 1;
    }
    proof {
        assert(psv.skip(k as int) =~= Seq::<int>::empty());
    }
    Some(score)
}

} // verus!
