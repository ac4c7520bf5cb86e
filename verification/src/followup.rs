//! Grouping the follow-up replies of a batch into sends: each topic's replies go
//! after an open of that topic; topics share a send while it stays within the
//! batch's message limit and carries no data, and data always goes alone.
use vstd::prelude::*;
use crate::ids::TopicId;
use crate::session::SyncMessage;

verus! {

/// Whether `s` carries a data message.
pub open spec fn has_data(s: Seq<SyncMessage>) -> bool {
    exists|i: int| 0 <= i < s.len() && (#[trigger] s[i]) is Data
}

/// The messages of one topic's follow-up: the open, then its replies; nothing when
/// it has no reply.
pub open spec fn block(t: TopicId, replies: Seq<SyncMessage>) -> Seq<SyncMessage> {
    if replies.len() == 0 { Seq::empty() } else { seq![SyncMessage::Open(t)] + replies }
}

/// The blocks of `f`, one topic after another.
pub open spec fn blocks(f: Seq<(TopicId, Vec<SyncMessage>)>) -> Seq<SyncMessage>
    decreases f.len(),
{
    if f.len() == 0 { Seq::empty() } else { blocks(f.drop_last()) + block(f.last().0, f.last().1@) }
}

/// The messages of `groups`, one send after another.
pub open spec fn flat_groups(groups: Seq<Vec<SyncMessage>>) -> Seq<SyncMessage>
    decreases groups.len(),
{
    if groups.len() == 0 { Seq::empty() } else { flat_groups(groups.drop_last()) + groups.last()@ }
}

/// Whether the send `g` keeps to the rules: it opens a topic first, and it is one
/// topic's follow-up, or carries no data and at most `limit` messages.
pub open spec fn group_ok(g: Seq<SyncMessage>, f: Seq<(TopicId, Vec<SyncMessage>)>, limit: usize) -> bool {
    &&& g.len() > 0
    &&& g[0] is Open
    &&& (exists|k: int| 0 <= k < f.len() && g == #[trigger] block(f[k].0, f[k].1@))
        || (!has_data(g) && g.len() <= limit)
}

/// Whether the sends `a` and `b`, one after the other, could not have been one:
/// either carries data, or together they pass `limit` messages.
pub open spec fn kept_apart(a: Seq<SyncMessage>, b: Seq<SyncMessage>, limit: usize) -> bool {
    has_data(a) || has_data(b) || a.len() + b.len() > limit
}

/// Whether `s` carries a data message.
fn carries_data(s: &Vec<SyncMessage>) -> (r: bool)
    ensures r == has_data(s@),
{
    let mut i: usize = 0;
    while i < s.len()
        invariant
            i <= s@.len(),
            forall|j: int| 0 <= j < i ==> !((#[trigger] s@[j]) is Data),
        decreases s@.len() - i,
    {
        match &s[i] {
            SyncMessage::Data(_) => { return true; },
            _ => {},
        }
        i += 1;
    }
    false
}

proof fn lemma_flat_push(groups: Seq<Vec<SyncMessage>>, g: Vec<SyncMessage>)
    ensures flat_groups(groups.push(g)) == flat_groups(groups) + g@,
{
    assert(groups.push(g).drop_last() =~= groups);
}

proof fn lemma_blocks_push(f: Seq<(TopicId, Vec<SyncMessage>)>, x: (TopicId, Vec<SyncMessage>))
    ensures blocks(f.push(x)) == blocks(f) + block(x.0, x.1@),
{
    assert(f.push(x).drop_last() =~= f);
}

/// Groups the follow-ups `followups`, topic by topic in order, into sends of at most
/// `limit` messages: a topic's open and replies join the send being filled unless
/// that would pass the limit or either carries data, in which case a new send
/// starts. A topic with no reply is left out.
pub fn group_followups(followups: Vec<(TopicId, Vec<SyncMessage>)>, limit: usize) -> (r: Vec<Vec<SyncMessage>>)
    ensures
        flat_groups(r@) == blocks(followups@),
        forall|i: int| 0 <= i < r@.len() ==> group_ok((#[trigger] r@[i])@, followups@, limit),
        forall|i: int| 0 <= i < r@.len() - 1 ==> kept_apart((#[trigger] r@[i])@, r@[i + 1]@, limit),
{
    let ghost f = followups@;
    let mut rest = followups;
    let mut groups: Vec<Vec<SyncMessage>> = Vec::new();
    let mut current: Vec<SyncMessage> = Vec::new();
    let ghost mut k: int = 0;
    let ghost mut single: bool = false;
    let ghost mut from: int = 0;
    while rest.len() > 0
        invariant
            0 <= k <= f.len(),
            rest@ == f.skip(k),
            flat_groups(groups@) + current@ == blocks(f.take(k)),
            forall|i: int| 0 <= i < groups@.len() ==> group_ok((#[trigger] groups@[i])@, f, limit),
            current@.len() > 0 ==> current@[0] is Open,
            current@.len() > 0 ==> (single && 0 <= from < f.len() && current@ == block(f[from].0, f[from].1@))
                || (!has_data(current@) && current@.len() <= limit),
            forall|i: int| 0 <= i < groups@.len() - 1 ==> kept_apart((#[trigger] groups@[i])@, groups@[i + 1]@, limit),
            groups@.len() > 0 && current@.len() > 0 ==> kept_apart(groups@.last()@, current@, limit),
            current@.len() == 0 ==> groups@.len() == 0,
        decreases rest@.len(),
    {
        let (topic, replies) = rest.remove(0);
        proof {
            assert((topic, replies) == f[k]);
            assert(f.take(k + 1) =~= f.take(k).push(f[k]));
            lemma_blocks_push(f.take(k), f[k]);
        }
        if replies.len() > 0 {
            let replies_data = carries_data(&replies);
            let current_data = carries_data(&current);
            let too_long = replies.len() >= limit || current.len() >= limit - replies.len();
            let ghost pre = current@;
            let ghost did_split = current.len() > 0 && (too_long || replies_data || current_data);
            if current.len() > 0 && (too_long || replies_data || current_data) {
                let ghost gb = groups@;
                let mut done: Vec<SyncMessage> = Vec::new();
                std::mem::swap(&mut done, &mut current);
                proof {
                    assert(group_ok(done@, f, limit));
                    lemma_flat_push(gb, done);
                }
                let ghost db = done@;
                groups.push(done);
                proof {
                    assert forall|i: int| 0 <= i < groups@.len() implies group_ok((#[trigger] groups@[i])@, f, limit) by {
                        if i < gb.len() { assert(groups@[i] == gb[i]); }
                    }
                    assert forall|i: int| 0 <= i < groups@.len() - 1 implies kept_apart((#[trigger] groups@[i])@, groups@[i + 1]@, limit) by {
                        if i + 1 < gb.len() { assert(groups@[i] == gb[i] && groups@[i + 1] == gb[i + 1]); }
                        else { assert(groups@[i] == gb.last()); assert(groups@[i + 1]@ == db); }
                    }
                }
            }
            let ghost split_data = replies_data;
            let ghost prev = groups@;
            let ghost was_empty = current@.len() == 0;
            let ghost cb = current@;
            current.push(SyncMessage::Open(topic));
            let mut more = replies;
            let ghost added = more@;
            current.append(&mut more);
            proof {
                assert(current@ =~= cb + block(topic, added));
                if was_empty {
                    single = true;
                    from = k;
                    assert(current@ =~= block(f[k].0, f[k].1@));
                } else {
                    assert(!has_data(cb));
                    assert(!has_data(added));
                    assert(!has_data(current@)) by {
                        assert forall|i: int| 0 <= i < current@.len() implies !((#[trigger] current@[i]) is Data) by {
                            if i < cb.len() { assert(current@[i] == cb[i]); }
                            else if i > cb.len() { assert(current@[i] == added[i - cb.len() - 1]); }
                        }
                    }
                    single = false;
                }
                assert(current@[0] is Open) by {
                    if !was_empty { assert(current@[0] == cb[0]); }
                }
                if has_data(cb) {
                    let j = choose|j: int| 0 <= j < cb.len() && (#[trigger] cb[j]) is Data;
                    assert(current@[j] == cb[j]);
                }
                if split_data {
                    let j = choose|j: int| 0 <= j < added.len() && (#[trigger] added[j]) is Data;
                    assert(current@[cb.len() + 1 + j] == added[j]);
                }
                if was_empty && groups@.len() > 0 {
                    assert(did_split);
                    assert(groups@.last()@ == pre);
                    assert(kept_apart(groups@.last()@, current@, limit));
                }
            }
        } else {
            proof { assert(block(topic, replies@) =~= Seq::<SyncMessage>::empty()); }
        }
        proof {
            k = k + 1;
            assert(rest@ =~= f.skip(k));
        }
    }
    if current.len() > 0 {
        let ghost gb = groups@;
        proof {
            assert(group_ok(current@, f, limit));
            lemma_flat_push(gb, current);
        }
        let ghost cur = current@;
        groups.push(current);
        proof {
            assert forall|i: int| 0 <= i < groups@.len() implies group_ok((#[trigger] groups@[i])@, f, limit) by {
                if i < gb.len() { assert(groups@[i] == gb[i]); }
            }
            assert forall|i: int| 0 <= i < groups@.len() - 1 implies kept_apart((#[trigger] groups@[i])@, groups@[i + 1]@, limit) by {
                if i + 1 < gb.len() { assert(groups@[i] == gb[i] && groups@[i + 1] == gb[i + 1]); }
                else { assert(groups@[i] == gb.last()); assert(groups@[i + 1]@ == cur); }
            }
        }
    } else {
        proof { assert(flat_groups(groups@) + current@ =~= flat_groups(groups@)); }
    }
    proof {
        assert(f.skip(k).len() == 0);
        assert(f.take(k) =~= f);
    }
    groups
}

} // verus!
