//! Pattern construction and the leftmost case-insensitive subsequence match.
//!
//! A pattern is built once from a query and then applied to many candidate
//! names. Applying it locates the query's characters, in order and
//! case-insensitively, as a subsequence of the name, each character at the
//! earliest position possible.

use crate::text::{chars_equal_ci, eq_ci, fold_char, fold_chars, to_chars};
use vstd::prelude::*;

verus! {

/// Error for a query that cannot be turned into a match pattern. Every
/// character of a query embeds literally in the pattern built here, so
/// construction never actually fails; the type keeps pattern construction
/// visibly fallible at the interface.
#[derive(Clone, Copy, Debug, PartialEq, Eq, Structural)]
pub struct PatternError;

/// A match pattern built from a query: the query's characters, to be located
/// in order, case-insensitively, as a subsequence of a candidate name.
pub struct Pattern {
    /// The characters of the query, in order.
    pub chars: Vec<char>,
}

impl View for Pattern {
    type V = Seq<char>;

    open spec fn view(&self) -> Seq<char> {
        self.chars@
    }
}

/// Builds the match pattern for a query. Every query is accepted: each of its
/// characters is carried literally into the pattern, so there is nothing to
/// escape and nothing that can fail.
pub fn build_pattern(query: &str) -> (r: Result<Pattern, PatternError>)
    ensures
        r is Ok,
        r->Ok_0@ == query@,
{
    Ok(Pattern { chars: to_chars(query) })
}

/// The leftmost match of `query` in `name`, looking at positions `from` and
/// later: the position of each query character, each one as early as
/// possible, or `None` when the query's characters do not occur in order
/// (case-insensitively) in that part of the name.
pub open spec fn leftmost_match_from(name: Seq<char>, query: Seq<char>, from: int) -> Option<
    Seq<int>,
>
    decreases name.len() - from,
{
    if query.len() == 0 {
        Some(Seq::empty())
    } else if from < 0 || from >= name.len() {
        None::<Seq<int>>
    } else if chars_equal_ci(name[from], query[0]) {
        match leftmost_match_from(name, query.drop_first(), from + 1) {
            Some(tail) => Some(seq![from] + tail),
            None => None,
        }
    } else {
        leftmost_match_from(name, query, from + 1)
    }
}

/// The leftmost match of `query` in the whole of `name`.
pub open spec fn leftmost_match(name: Seq<char>, query: Seq<char>) -> Option<Seq<int>> {
    leftmost_match_from(name, query, 0)
}

/// Whether `ps` lists positions, at `from` or later, that embed `query` in
/// `name`: strictly increasing, and each holding the matching character.
pub open spec fn embeds_at(name: Seq<char>, query: Seq<char>, ps: Seq<int>, from: int) -> bool {
    &&& ps.len() == query.len()
    &&& forall|k: int| 0 <= k < ps.len() ==> from <= #[trigger] ps[k] < name.len()
    &&& forall|k: int| 0 <= k < ps.len() - 1 ==> #[trigger] ps[k] < ps[k + 1]
    &&& forall|k: int| 0 <= k < ps.len() ==> chars_equal_ci(name[#[trigger] ps[k]], query[k])
}

/// Whether the query's characters occur in order, case-insensitively, in the
/// name.
pub open spec fn matches_ci(name: Seq<char>, query: Seq<char>) -> bool {
    exists|ps: Seq<int>| embeds_at(name, query, ps, 0)
}

/// The positions a successful leftmost match reports do embed the query in
/// the name.
pub proof fn lemma_leftmost_match_embeds(name: Seq<char>, query: Seq<char>, from: int)
    requires
        0 <= from,
        leftmost_match_from(name, query, from) is Some,
    ensures
        embeds_at(name, query, leftmost_match_from(name, query, from)->Some_0, from),
    decreases name.len() - from,
{
    let ps = leftmost_match_from(name, query, from)->Some_0;
    if query.len() == 0 {
    } else if from >= name.len() {
    } else if chars_equal_ci(name[from], query[0]) {
        let tail = leftmost_match_from(name, query.drop_first(), from + 1)->Some_0;
        lemma_leftmost_match_embeds(name, query.drop_first(), from + 1);
        assert(ps == seq![from] + tail);
        assert forall|k: int| 0 <= k < ps.len() implies from <= #[trigger] ps[k] < name.len() by {
            if k > 0 {
                assert(ps[k] == tail[k - 1]);
            }
        }
        assert forall|k: int| 0 <= k < ps.len() - 1 implies #[trigger] ps[k] < ps[k + 1] by {
            if k > 0 {
                assert(ps[k] == tail[k - 1] && ps[k + 1] == tail[k]);
            } else {
                assert(ps[1] == tail[0]);
            }
        }
        assert forall|k: int| 0 <= k < ps.len() implies chars_equal_ci(
            name[#[trigger] ps[k]],
            query[k],
        ) by {
            if k > 0 {
                assert(ps[k] == tail[k - 1] && query[k] == query.drop_first()[k - 1]);
            }
        }
    } else {
        lemma_leftmost_match_embeds(name, query, from + 1);
    }
}

/// An embedding whose first position matches at `from` or later embeds its
/// remaining query from the next position on.
proof fn lemma_embeds_tail(name: Seq<char>, query: Seq<char>, ps: Seq<int>, from: int)
    requires
        embeds_at(name, query, ps, from),
        query.len() > 0,
    ensures
        embeds_at(name, query.drop_first(), ps.drop_first(), from + 1),
{
    let tail = ps.drop_first();
    assert forall|k: int| 0 <= k < tail.len() implies from + 1 <= #[trigger] tail[k]
        < name.len() by {
        assert(tail[k] == ps[k + 1]);
        if k > 0 {
            assert(ps[k] < ps[k + 1]);
        }
    }
    assert forall|k: int| 0 <= k < tail.len() - 1 implies #[trigger] tail[k] < tail[k + 1] by {
        assert(tail[k] == ps[k + 1] && tail[k + 1] == ps[k + 2]);
    }
    assert forall|k: int| 0 <= k < tail.len() implies chars_equal_ci(
        name[#[trigger] tail[k]],
        query.drop_first()[k],
    ) by {
        assert(tail[k] == ps[k + 1] && query.drop_first()[k] == query[k + 1]);
    }
}

/// An embedding whose first position is past `from` is also an embedding
/// from the next position on.
proof fn lemma_embeds_shift(name: Seq<char>, query: Seq<char>, ps: Seq<int>, from: int)
    requires
        embeds_at(name, query, ps, from),
        query.len() > 0,
        ps[0] != from,
    ensures
        embeds_at(name, query, ps, from + 1),
{
    assert forall|k: int| 0 <= k < ps.len() implies from + 1 <= #[trigger] ps[k] < name.len() by {
        lemma_positions_increase(ps, 0, k);
    }
}

/// The leftmost match succeeds whenever any embedding of the query in the
/// name exists: the greedy choice of the earliest matching character never
/// turns a matching name into a non-matching one.
pub proof fn lemma_leftmost_match_complete(
    name: Seq<char>,
    query: Seq<char>,
    ps: Seq<int>,
    from: int,
)
    requires
        0 <= from,
        embeds_at(name, query, ps, from),
    ensures
        leftmost_match_from(name, query, from) is Some,
    decreases name.len() - from,
{
    if query.len() == 0 {
    } else {
        assert(from <= ps[0] < name.len());
        if chars_equal_ci(name[from], query[0]) {
            lemma_embeds_tail(name, query, ps, from);
            lemma_leftmost_match_complete(name, query.drop_first(), ps.drop_first(), from + 1);
        } else {
            assert(ps[0] != from);
            lemma_embeds_shift(name, query, ps, from);
            lemma_leftmost_match_complete(name, query, ps, from + 1);
        }
    }
}

/// The leftmost match is leftmost: each of its positions sits at or before
/// the corresponding position of any embedding of the query in the name.
pub proof fn lemma_leftmost_match_minimal(
    name: Seq<char>,
    query: Seq<char>,
    ps: Seq<int>,
    from: int,
)
    requires
        0 <= from,
        embeds_at(name, query, ps, from),
    ensures
        leftmost_match_from(name, query, from) is Some,
        forall|k: int|
            0 <= k < query.len() ==> #[trigger] leftmost_match_from(name, query, from)->Some_0[k]
                <= ps[k],
    decreases name.len() - from,
{
    lemma_leftmost_match_complete(name, query, ps, from);
    let gs = leftmost_match_from(name, query, from)->Some_0;
    if query.len() == 0 {
    } else if chars_equal_ci(name[from], query[0]) {
        lemma_embeds_tail(name, query, ps, from);
        lemma_leftmost_match_minimal(name, query.drop_first(), ps.drop_first(), from + 1);
        lemma_leftmost_match_embeds(name, query.drop_first(), from + 1);
        let rest = leftmost_match_from(name, query.drop_first(), from + 1)->Some_0;
        assert(rest.len() == query.drop_first().len());
        assert(gs == seq![from] + rest);
        assert forall|k: int| 0 <= k < query.len() implies #[trigger] gs[k] <= ps[k] by {
            if k == 0 {
                assert(gs[0] == from <= ps[0]);
            } else {
                assert(gs[k] == rest[k - 1] && rest[k - 1] <= ps.drop_first()[k - 1]);
            }
        }
    } else {
        assert(ps[0] != from);
        lemma_embeds_shift(name, query, ps, from);
        lemma_leftmost_match_minimal(name, query, ps, from + 1);
    }
}

/// In a strictly increasing position list, a later entry is strictly larger.
proof fn lemma_positions_increase(ps: Seq<int>, i: int, j: int)
    requires
        forall|k: int| 0 <= k < ps.len() - 1 ==> #[trigger] ps[k] < ps[k + 1],
        0 <= i <= j < ps.len(),
    ensures
        ps[i] <= ps[j],
    decreases j - i,
{
    if i < j {
        lemma_positions_increase(ps, i + 1, j);
    }
}

/// A name matches the query exactly when the leftmost match succeeds.
pub proof fn lemma_matches_ci_leftmost(name: Seq<char>, query: Seq<char>)
    ensures
        matches_ci(name, query) <==> leftmost_match(name, query) is Some,
{
    if matches_ci(name, query) {
        let ps = choose|ps: Seq<int>| embeds_at(name, query, ps, 0);
        lemma_leftmost_match_complete(name, query, ps, 0);
    }
    if leftmost_match(name, query) is Some {
        lemma_leftmost_match_embeds(name, query, 0);
    }
}

/// Matching is insensitive to ASCII case on both sides: a name and a query
/// with given case-folded characters produce one leftmost match, whatever
/// case either was written in.
pub proof fn lemma_leftmost_match_case_fold(
    n1: Seq<char>,
    n2: Seq<char>,
    q1: Seq<char>,
    q2: Seq<char>,
    from: int,
)
    requires
        fold_chars(n1) == fold_chars(n2),
        fold_chars(q1) == fold_chars(q2),
    ensures
        leftmost_match_from(n1, q1, from) == leftmost_match_from(n2, q2, from),
    decreases n1.len() - from,
{
    assert(fold_chars(n1).len() == n1.len() && fold_chars(n2).len() == n2.len());
    assert(fold_chars(q1).len() == q1.len() && fold_chars(q2).len() == q2.len());
    if q1.len() == 0 {
    } else if from < 0 || from >= n1.len() {
    } else {
        assert(fold_char(n1[from]) == fold_chars(n1)[from]);
        assert(fold_char(n2[from]) == fold_chars(n2)[from]);
        assert(fold_char(q1[0]) == fold_chars(q1)[0]);
        assert(fold_char(q2[0]) == fold_chars(q2)[0]);
        if chars_equal_ci(n1[from], q1[0]) {
            assert forall|k: int| 0 <= k < q1.drop_first().len() implies fold_chars(
                q1.drop_first(),
            )[k] == fold_chars(q2.drop_first())[k] by {
                assert(fold_chars(q1.drop_first())[k] == fold_char(q1[k + 1]));
                assert(fold_char(q1[k + 1]) == fold_chars(q1)[k + 1]);
                assert(fold_chars(q2.drop_first())[k] == fold_char(q2[k + 1]));
                assert(fold_char(q2[k + 1]) == fold_chars(q2)[k + 1]);
            }
            assert(fold_chars(q1.drop_first()) =~= fold_chars(q2.drop_first()));
            lemma_leftmost_match_case_fold(n1, n2, q1.drop_first(), q2.drop_first(), from + 1);
        } else {
            lemma_leftmost_match_case_fold(n1, n2, q1, q2, from + 1);
        }
    }
}

/// The positions of a match, as mathematical integers.
pub open spec fn positions_view(ps: Seq<usize>) -> Seq<int> {
    ps.map(|i: int, p: usize| p as int)
}

/// Fixed positions prepended to the outcome of matching a remaining query.
pub open spec fn with_prefix(pre: Seq<int>, rest: Option<Seq<int>>) -> Option<Seq<int>> {
    match rest {
        Some(tail) => Some(pre + tail),
        None => None,
    }
}

/// Applies a pattern to a name: reports the leftmost match's positions, or
/// `None` when the pattern's characters do not occur in order in the name.
pub fn match_positions(name: &Vec<char>, pattern: &Pattern) -> (r: Option<Vec<usize>>)
    ensures
        match r {
            Some(ps) => leftmost_match(name@, pattern@) == Some(positions_view(ps@)),
            None => leftmost_match(name@, pattern@) is None,
        },
{
    let query = &pattern.chars;
    let mut positions: Vec<usize> = Vec::new();
    let mut ni: usize = 0;
    let mut qi: usize = 0;
    proof {
        assert(query@.skip(0) =~= query@);
        assert(positions_view(positions@) =~= Seq::<int>::empty());
        assert(with_prefix(
            positions_view(positions@),
            leftmost_match_from(name@, query@.skip(0), 0),
        ) == leftmost_match(name@, query@)) by {
            if leftmost_match_from(name@, query@, 0) is Some {
                assert(Seq::<int>::empty() + leftmost_match_from(name@, query@, 0)->Some_0
                    =~= leftmost_match_from(name@, query@, 0)->Some_0);
            }
        }
    }
    while ni < name.len() && qi < query.len()
        invariant
            ni <= name@.len(),
            qi <= query@.len(),
            positions@.len() == qi,
            with_prefix(
                positions_view(positions@),
                leftmost_match_from(name@, query@.skip(qi as int), ni as int),
            ) == leftmost_match(name@, query@),
        decreases name@.len() - ni,
    {
        let ghost pre = positions_view(positions@);
        let ghost q_rest = query@.skip(qi as int);
        assert(q_rest[0] == query@[qi as int]);
        if eq_ci(name[ni], query[qi]) {
            proof {
                assert(q_rest.drop_first() =~= query@.skip(qi + 1));
                let rest = leftmost_match_from(name@, q_rest.drop_first(), ni + 1);
                assert(leftmost_match_from(name@, q_rest, ni as int) == match rest {
                    Some(tail) => Some(seq![ni as int] + tail),
                    None => None::<Seq<int>>,
                });
                if rest is Some {
                    assert(pre + (seq![ni as int] + rest->Some_0) =~= pre.push(ni as int)
                        + rest->Some_0);
                }
                assert(positions_view(positions@.push(ni)) =~= pre.push(ni as int));
            }
            positions.push(ni);
            qi += 1;
        } else {
            proof {
                assert(leftmost_match_from(name@, q_rest, ni as int) == leftmost_match_from(
                    name@,
                    q_rest,
                    ni + 1,
                ));
            }
        }
        ni += 1;
    }
    if qi == query.len() {
        proof {
            assert(query@.skip(qi as int) =~= Seq::<char>::empty());
            assert(leftmost_match_from(name@, query@.skip(qi as int), ni as int) == Some(
                Seq::<int>::empty(),
            ));
            assert(positions_view(positions@) + Seq::<int>::empty() =~= positions_view(
                positions@,
            ));
        }
        Some(positions)
    } else {
        proof {
            assert(ni == name@.len());
            assert(query@.skip(qi as int).len() > 0);
            assert(leftmost_match_from(name@, query@.skip(qi as int), ni as int) is None);
        }
        None
    }
}

} // verus!
