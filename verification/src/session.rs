//! The computing half of an interactive search session: interpreting one
//! line of input and shaping the ranked results for presentation.

use crate::matching::PatternError;
use crate::ranking::{pair_view, rank_spec, search_names, view_pairs};
use vstd::prelude::*;

verus! {

/// How many of the best-ranked names one answer carries at most.
pub const TO_TAKE: usize = 20;

/// A found package, as presented to the caller.
pub struct CrateInfo {
    /// The package's name.
    pub name: String,
    /// The package's version, when one is known; ranking names alone learns
    /// none.
    pub version: Option<String>,
}

/// The state an interactive session carries: the index of candidate names.
pub struct State {
    /// Every candidate package name.
    pub index: Vec<String>,
}

/// Answers one line of input: the index's names are ranked against the line,
/// and the best `TO_TAKE` of them (fewer when fewer match) are handed back,
/// best first. A `key=value` line asks for a search by field, which is
/// reserved and not answered here.
pub fn handle_input(state: &State, input: &str) -> (r: Result<Vec<CrateInfo>, PatternError>)
    requires
        forall|k: int|
            0 <= k < state.index@.len() ==> (#[trigger] state.index@[k])@.len() <= i32::MAX,
        forall|k: int| 0 <= k < input@.len() ==> input@[k] != '=',
    ensures
        r is Ok,
        ({
            let ranked = rank_spec(state.index@, input@);
            let items = r->Ok_0@;
            &&& items.len() == if ranked.len() < TO_TAKE as int {
                ranked.len() as int
            } else {
                TO_TAKE as int
            }
            &&& forall|k: int|
                0 <= k < items.len() ==> (#[trigger] items[k]).name == ranked[k].0
                    && items[k].version is None
        }),
{
    let found = match search_names(&state.index, input) {
        Ok(found) => found,
        Err(e) => {
            return Err(e);
        },
    };
    let to_take = if TO_TAKE < found.len() {
        TO_TAKE
    } else {
        found.len()
    };
    let mut items: Vec<CrateInfo> = Vec::new();
    let mut k: usize = 0;
    while k < to_take
        invariant
            k <= to_take,
            to_take <= found@.len(),
            to_take == if found@.len() < TO_TAKE as int {
                found@.len() as int
            } else {
                TO_TAKE as int
            },
            view_pairs(found@) == rank_spec(state.index@, input@),
            items@.len() == k,
            forall|m: int|
                0 <= m < k ==> (#[trigger] items@[m]).name == found@[m].0 && items@[m].version
                    is None,
        decreases to_take - k,
    {
        let name = found[k].0.clone();
        items.push(CrateInfo { name, version: None });
        k += 1;
    }
    proof {
        let ranked = rank_spec(state.index@, input@);
        assert(ranked.len() == found@.len());
        assert forall|m: int| 0 <= m < items@.len() implies (#[trigger] items@[m]).name
            == ranked[m].0 && items@[m].version is None by {
            assert(ranked[m] == pair_view(found@[m]));
        }
    }
    Ok(items)
}

} // verus!
