//! History reads: their order and the cursor a later read resumes from.
use vstd::prelude::*;
use crate::ids::OpId;
use crate::clock::ActorClock;

verus! {

/// The order a history read returns events in.
#[derive(Clone, Copy, Debug, PartialEq, Eq, Structural)]
pub enum HistoryOrder {
    OldestFirst,
    NewestFirst,
}

/// The branch and actor clock a history read covered.
#[derive(Debug)]
pub struct HistoryCursor {
    pub genesis: OpId,
    pub clock: ActorClock,
}

/// `items` in `order`: as given for oldest first, reversed for newest first.
pub fn ordered<T>(items: Vec<T>, order: HistoryOrder) -> (r: Vec<T>)
    ensures
        order == HistoryOrder::OldestFirst ==> r@ == items@,
        order == HistoryOrder::NewestFirst ==> r@ == items@.reverse(),
{
    match order {
        HistoryOrder::OldestFirst => items,
        HistoryOrder::NewestFirst => {
            let mut items = items;
            let ghost all = items@;
            let mut out: Vec<T> = Vec::new();
            while items.len() > 0
                invariant
                    all.reverse() == out@ + items@.reverse(),
                decreases items@.len(),
            {
                let ghost ib = items@;
                let ghost ob = out@;
                let x = items.pop().unwrap();
                out.push(x);
                proof {
                    assert(ib =~= items@.push(x));
                    assert(ib.reverse() =~= seq![x] + items@.reverse());
                    assert(out@ =~= ob.push(x));
                    assert(all.reverse() =~= out@ + items@.reverse());
                }
            }
            proof { assert(out@ =~= all.reverse()); }
            out
        },
    }
}

} // verus!
