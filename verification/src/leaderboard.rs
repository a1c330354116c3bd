//! Best-run selection: picks, among completed runs, the first entry with
//! the greatest score and the first entry with the greatest action count.

use vstd::prelude::*;

use crate::stats::Stats;

verus! {

/// The first entry with the strictly greatest score: every other entry
/// scores no higher, and every earlier entry scores strictly lower.
pub fn highest_score(stats: &Vec<Stats>) -> (r: &Stats)
    requires
        stats@.len() >= 1,
    ensures
        forall|j: int| 0 <= j < stats@.len() ==> (#[trigger] stats@[j]).score <= r.score,
        exists|i: int|
            #![auto]
            0 <= i < stats@.len() && *r == stats@[i] && (forall|j: int|
                0 <= j < i ==> (#[trigger] stats@[j]).score < r.score),
{
    let mut leader: usize = 0;
    let mut s: usize = 1;
    while s < stats.len()
        invariant
            stats@.len() >= 1,
            leader < s,
            s <= stats@.len(),
            forall|j: int| 0 <= j < s ==> (#[trigger] stats@[j]).score <= stats@[leader as int].score,
            forall|j: int| 0 <= j < leader ==> (#[trigger] stats@[j]).score < stats@[leader as int].score,
        decreases stats@.len() - s,
    {
        if stats[s].score > stats[leader].score {
            leader = s;
        }
        s = s + 1;
    }
    &stats[leader]
}

/// The first entry with the strictly greatest action count, selected
/// independently of the score.
pub fn highest_action(stats: &Vec<Stats>) -> (r: &Stats)
    requires
        stats@.len() >= 1,
    ensures
        forall|j: int| 0 <= j < stats@.len() ==> (#[trigger] stats@[j]).action <= r.action,
        exists|i: int|
            #![auto]
            0 <= i < stats@.len() && *r == stats@[i] && (forall|j: int|
                0 <= j < i ==> (#[trigger] stats@[j]).action < r.action),
{
    let mut leader: usize = 0;
    let mut s: usize = 1;
    while s < stats.len()
        invariant
            stats@.len() >= 1,
            leader < s,
            s <= stats@.len(),
            forall|j: int| 0 <= j < s ==> (#[trigger] stats@[j]).action <= stats@[leader as int].action,
            forall|j: int| 0 <= j < leader ==> (#[trigger] stats@[j]).action < stats@[leader as int].action,
        decreases stats@.len() - s,
    {
        if stats[s].action > stats[leader].action {
            leader = s;
        }
        s = s + 1;
    }
    &stats[leader]
}

} // verus!
