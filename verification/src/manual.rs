//! The decisions of a manual sync with one peer: the transport runs one page of
//! exchanges for the topics still advancing, hands back each topic's outcome, and
//! is told whether to page again. Paging stops when no topic advanced or the page
//! budget is spent; what still advanced then is reported as more work pending.
use vstd::prelude::*;
use crate::ids::TopicId;
use crate::idset::IdSet;
use crate::idmap::IdMap;

verus! {

/// Where a manual sync stands: the topics to page next, each topic's last outcome
/// (whether it succeeded, whether it advanced), and the pages left.
#[derive(Debug)]
pub struct ManualSync {
    pub paging: IdSet,
    pub settled: IdMap<(bool, bool)>,
    pub pages_left: u64,
}

/// What the transport does next.
#[derive(Debug)]
pub enum ManualAction {
    /// Run one page of exchanges for these topics.
    Page(IdSet),
    /// The manual sync is over.
    Done,
}

/// How a manual sync ended for one topic.
#[derive(Debug, Clone, Copy, PartialEq, Eq, Structural)]
pub enum ManualResult {
    /// The topic is in sync.
    Synced,
    /// The page budget ran out while the topic still advanced; the rest is pending.
    WouldBlock,
    /// The topic's exchange failed.
    Failed,
}

/// The outcome `outcomes` reports for `t`, its last entry: whether the exchange
/// succeeded and whether it advanced. A topic it does not name succeeded without
/// advancing.
pub open spec fn outcome_for(outcomes: Seq<(TopicId, bool, bool)>, t: TopicId) -> (bool, bool)
    decreases outcomes.len(),
{
    if outcomes.len() == 0 {
        (true, false)
    } else if outcomes.last().0 == t {
        (outcomes.last().1, outcomes.last().2)
    } else {
        outcome_for(outcomes.drop_last(), t)
    }
}

/// The action for a sync that still pages `paging` with `pages_left` pages.
pub open spec fn action_for(paging: Set<TopicId>, pages_left: u64, a: ManualAction) -> bool {
    if pages_left == 0 || paging.len() == 0 {
        a is Done
    } else {
        a matches ManualAction::Page(p) && p@ == paging
    }
}

/// The result a topic's last outcome gives: a failure fails; a success that still
/// advanced is pending work; any other success is in sync.
pub open spec fn result_of(outcome: (bool, bool)) -> ManualResult {
    if !outcome.0 {
        ManualResult::Failed
    } else if outcome.1 {
        ManualResult::WouldBlock
    } else {
        ManualResult::Synced
    }
}

/// The last outcome `outcomes` gives `t`.
fn outcome_in(outcomes: &Vec<(TopicId, bool, bool)>, t: TopicId) -> (r: (bool, bool))
    ensures r == outcome_for(outcomes@, t),
{
    let mut cur: (bool, bool) = (true, false);
    let mut i: usize = 0;
    while i < outcomes.len()
        invariant
            i <= outcomes@.len(),
            cur == outcome_for(outcomes@.take(i as int), t),
        decreases outcomes@.len() - i,
    {
        proof { assert(outcomes@.take(i as int + 1).drop_last() =~= outcomes@.take(i as int)); }
        let (u, ok, advanced) = outcomes[i];
        if u.same(&t) {
            cur = (ok, advanced);
        }
        i += 1;
    }
    proof { assert(outcomes@.take(outcomes@.len() as int) =~= outcomes@); }
    cur
}

/// Starts a manual sync of `topics` with at most `pages` pages.
pub fn manual_sync_start(topics: IdSet, pages: u64) -> (r: (ManualSync, ManualAction))
    ensures
        r.0.paging@ == topics@,
        r.0.settled@ == Map::<TopicId, (bool, bool)>::empty(),
        r.0.pages_left == pages,
        action_for(r.0.paging@, r.0.pages_left, r.1),
{
    let action = if pages == 0 || topics.is_empty() { ManualAction::Done } else { ManualAction::Page(topics.duplicate()) };
    (ManualSync { paging: topics, settled: IdMap::new(), pages_left: pages }, action)
}

/// Files the outcomes of the page just run and decides the next step: each paged
/// topic's outcome is recorded; a topic that succeeded and advanced pages again,
/// any other is settled; one page of the budget is used up.
pub fn manual_sync_step(s: ManualSync, outcomes: &Vec<(TopicId, bool, bool)>) -> (r: (ManualSync, ManualAction))
    requires s.pages_left > 0,
    ensures
        r.0.pages_left == s.pages_left - 1,
        r.0.settled@.dom() == s.settled@.dom().union(s.paging@),
        forall|t: TopicId| #[trigger] s.paging@.contains(t) ==> r.0.settled@[t] == outcome_for(outcomes@, t),
        forall|t: TopicId| #[trigger] s.settled@.contains_key(t) && !s.paging@.contains(t) ==> r.0.settled@[t] == s.settled@[t],
        forall|t: TopicId| #[trigger] r.0.paging@.contains(t) <==> s.paging@.contains(t)
            && outcome_for(outcomes@, t).0 && outcome_for(outcomes@, t).1,
        action_for(r.0.paging@, r.0.pages_left, r.1),
{
    let ManualSync { paging, mut settled, pages_left } = s;
    let ghost settled0 = settled@;
    let topics = paging.to_vec();
    let mut next = IdSet::new();
    let mut i: usize = 0;
    while i < topics.len()
        invariant
            i <= topics@.len(),
            topics@.to_set() == paging@,
            topics@.no_duplicates(),
            settled@.dom() == settled0.dom().union(topics@.take(i as int).to_set()),
            forall|j: int| 0 <= j < i ==> settled@[#[trigger] topics@[j]] == outcome_for(outcomes@, topics@[j]),
            forall|t: TopicId| #[trigger] settled0.contains_key(t) && !paging@.contains(t) ==> settled@[t] == settled0[t],
            forall|t: TopicId| #[trigger] next@.contains(t) <==> topics@.take(i as int).contains(t)
                && outcome_for(outcomes@, t).0 && outcome_for(outcomes@, t).1,
        decreases topics@.len() - i,
    {
        let t = topics[i];
        let (ok, advanced) = outcome_in(outcomes, t);
        let ghost sb = settled@;
        settled.insert(t, (ok, advanced));
        if ok && advanced {
            next.insert(t);
        }
        proof {
            let a = topics@.take(i as int);
            let b = topics@.take(i as int + 1);
            assert(b =~= a.push(t));
            assert(b.to_set() =~= a.to_set().insert(t)) by {
                assert forall|x: TopicId| b.to_set().contains(x) <==> a.to_set().insert(t).contains(x) by {
                    if b.contains(x) {
                        let j = choose|j: int| 0 <= j < b.len() && b[j] == x;
                        if j < i { assert(a[j] == x); }
                    }
                    if a.contains(x) {
                        let j = choose|j: int| 0 <= j < a.len() && a[j] == x;
                        assert(b[j] == x);
                    }
                    if x == t { assert(b[i as int] == x); }
                }
            }
            assert forall|j: int| 0 <= j < i + 1 implies settled@[#[trigger] topics@[j]] == outcome_for(outcomes@, topics@[j]) by {
                if j < i {
                    assert(topics@[j] != t);
                }
            }
            assert forall|x: TopicId| #[trigger] next@.contains(x) <==> b.contains(x)
                && outcome_for(outcomes@, x).0 && outcome_for(outcomes@, x).1 by {
                if b.contains(x) && x != t {
                    let j = choose|j: int| 0 <= j < b.len() && b[j] == x;
                    assert(j < i);
                    assert(a[j] == x);
                }
                if a.contains(x) {
                    let j = choose|j: int| 0 <= j < a.len() && a[j] == x;
                    assert(b[j] == x);
                }
                if x == t { assert(b[i as int] == x); }
            }
            assert forall|x: TopicId| #[trigger] settled0.contains_key(x) && !paging@.contains(x) implies settled@[x] == settled0[x] by {
                assert(topics@.to_set().contains(t));
            }
        }
        i += 1;
    }
    proof {
        assert(topics@.take(topics@.len() as int) =~= topics@);
        assert forall|t: TopicId| #[trigger] paging@.contains(t) implies settled@[t] == outcome_for(outcomes@, t) by {
            assert(topics@.to_set().contains(t));
            let j = choose|j: int| 0 <= j < topics@.len() && topics@[j] == t;
            assert(settled@[topics@[j]] == outcome_for(outcomes@, topics@[j]));
        }
        assert forall|t: TopicId| #[trigger] next@.contains(t) <==> paging@.contains(t)
            && outcome_for(outcomes@, t).0 && outcome_for(outcomes@, t).1 by {
            if paging@.contains(t) { assert(topics@.to_set().contains(t)); }
            if topics@.contains(t) { assert(topics@.to_set().contains(t)); }
        }
    }
    let left = pages_left - 1;
    let action = if left == 0 || next.is_empty() { ManualAction::Done } else { ManualAction::Page(next.duplicate()) };
    (ManualSync { paging: next, settled, pages_left: left }, action)
}

/// What a finished manual sync reports, by ascending topic id: each topic's result
/// as [`result_of`] gives it from its last outcome.
pub fn manual_results(s: &ManualSync) -> (r: Vec<(TopicId, ManualResult)>)
    ensures
        r@.len() == s.settled@.len(),
        forall|i: int| 0 <= i < r@.len() ==> s.settled@.contains_key((#[trigger] r@[i]).0)
            && r@[i].1 == result_of(s.settled@[r@[i].0]),
        forall|t: TopicId| #[trigger] s.settled@.contains_key(t) ==> exists|i: int| 0 <= i < r@.len() && r@[i].0 == t,
{
    let keys = s.settled.keys();
    let mut out: Vec<(TopicId, ManualResult)> = Vec::new();
    let mut i: usize = 0;
    while i < keys.len()
        invariant
            i <= keys@.len(),
            keys@.to_set() == s.settled@.dom(),
            out@.len() == i,
            forall|j: int| 0 <= j < i ==> (#[trigger] out@[j]).0 == keys@[j] && s.settled@.contains_key(out@[j].0)
                && out@[j].1 == result_of(s.settled@[out@[j].0]),
        decreases keys@.len() - i,
    {
        let t = keys[i];
        proof { assert(keys@.to_set().contains(keys@[i as int])); }
        let (ok, advanced) = match s.settled.get(&t) {
            Some(o) => *o,
            None => (true, false),
        };
        let res = if !ok { ManualResult::Failed } else if advanced { ManualResult::WouldBlock } else { ManualResult::Synced };
        out.push((t, res));
        i += 1;
    }
    proof {
        keys@.unique_seq_to_set();
        assert forall|t: TopicId| #[trigger] s.settled@.contains_key(t) implies exists|i: int| 0 <= i < out@.len() && out@[i].0 == t by {
            assert(keys@.to_set().contains(t));
            let j = choose|j: int| 0 <= j < keys@.len() && keys@[j] == t;
            assert(out@[j].0 == t);
        }
    }
    out
}

} // verus!
