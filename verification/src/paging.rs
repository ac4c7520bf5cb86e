//! Paging sync data: the ops a peer lacks, in causal order, cut into data messages
//! of at most [`MAX_SYNC_DATA_OPS_PER_MESSAGE`] ops and one frame each, and the
//! longest prefix that fits a message count and a byte budget.
use vstd::prelude::*;
use crate::ids::{PeerId, TopicId};
use crate::op::{Op, spec_signed_bytes};
use crate::error::Error;
use crate::frame::{MAX_FRAME_LEN, MAX_SYNC_DATA_OPS_PER_MESSAGE};
use crate::node::Irokle;
use crate::node::sync::{SyncData, SyncSummary, topic_history_ops, peer_lacks};

verus! {

/// Bytes of a framed data message around its ops: the frame's length, the message
/// tag, the topic id and the op count.
pub const DATA_OVERHEAD: usize = 41;
/// Bytes before each op of a data message: its length.
pub const OP_PREFIX: usize = 4;
/// The most bytes one framed message takes.
pub const MAX_MESSAGE_BYTES: usize = 16777220;

/// Bytes `op` takes in a data message.
pub open spec fn op_wire_len(op: Op) -> int {
    OP_PREFIX + spec_signed_bytes(op.signed).len()
}

/// Bytes the ops of `ops` take in a data message.
pub open spec fn ops_wire_len(ops: Seq<Op>) -> int
    decreases ops.len(),
{
    if ops.len() == 0 { 0 } else { ops_wire_len(ops.drop_last()) + op_wire_len(ops.last()) }
}

/// Bytes of the framed data message holding `ops`.
pub open spec fn message_len(ops: Seq<Op>) -> int {
    DATA_OVERHEAD + ops_wire_len(ops)
}

/// The ops of `messages`, one message after another.
pub open spec fn flat_ops(messages: Seq<SyncData>) -> Seq<Op>
    decreases messages.len(),
{
    if messages.len() == 0 { Seq::empty() } else { flat_ops(messages.drop_last()) + messages.last().ops@ }
}

/// Bytes of all of `messages`, framed.
pub open spec fn messages_len(messages: Seq<SyncData>) -> int
    decreases messages.len(),
{
    if messages.len() == 0 { 0 } else { messages_len(messages.drop_last()) + message_len(messages.last().ops@) }
}

/// Whether each of `messages` is of `topic` and holds between one op and
/// [`MAX_SYNC_DATA_OPS_PER_MESSAGE`] ops in one frame.
pub open spec fn messages_ok(messages: Seq<SyncData>, topic: TopicId) -> bool {
    forall|k: int| 0 <= k < messages.len() ==> {
        &&& (#[trigger] messages[k]).topic_id == topic
        &&& 1 <= messages[k].ops@.len() <= MAX_SYNC_DATA_OPS_PER_MESSAGE
        &&& message_len(messages[k].ops@) <= MAX_MESSAGE_BYTES
    }
}

/// Whether `op` is too large for a data message of its own.
pub open spec fn op_too_large(op: Op) -> bool {
    DATA_OVERHEAD + op_wire_len(op) > MAX_MESSAGE_BYTES
}

/// Whether `op` can join a data message holding `ops`: that message is open, holds
/// fewer than [`MAX_SYNC_DATA_OPS_PER_MESSAGE`] ops, and stays within a frame with it.
pub open spec fn can_join(ops: Seq<Op>, op: Op) -> bool {
    &&& 0 < ops.len() < MAX_SYNC_DATA_OPS_PER_MESSAGE
    &&& DATA_OVERHEAD + ops_wire_len(ops) + op_wire_len(op) <= MAX_MESSAGE_BYTES
}

/// Whether a page of `count` messages and `bytes` bytes, whose last message holds
/// `last`, has no room for `op`: it can neither join the last message within
/// `max_bytes`, nor open a new one within `max_messages` and `max_bytes`.
pub open spec fn no_room(count: int, bytes: int, last: Seq<Op>, op: Op, max_messages: int, max_bytes: int) -> bool {
    &&& !(count > 0 && can_join(last, op) && bytes + op_wire_len(op) <= max_bytes)
    &&& !(count + 1 <= max_messages && bytes + DATA_OVERHEAD + op_wire_len(op) <= max_bytes)
}

/// The ops of the last of `messages`, none if there is none.
pub open spec fn last_ops(messages: Seq<SyncData>) -> Seq<Op> {
    if messages.len() > 0 { messages.last().ops@ } else { Seq::empty() }
}

/// Whether the page `messages` has no room for `op`.
pub open spec fn page_full(messages: Seq<SyncData>, op: Op, max_messages: int, max_bytes: int) -> bool {
    no_room(messages.len() as int, messages_len(messages), last_ops(messages), op, max_messages, max_bytes)
}

/// One page of data messages, and whether ops were left for a later page.
#[derive(Debug)]
pub struct DataPage {
    pub messages: Vec<SyncData>,
    pub cut: bool,
}

proof fn lemma_flat_push(messages: Seq<SyncData>, m: SyncData)
    ensures
        flat_ops(messages.push(m)) == flat_ops(messages) + m.ops@,
        messages_len(messages.push(m)) == messages_len(messages) + message_len(m.ops@),
{
    assert(messages.push(m).drop_last() =~= messages);
}

proof fn lemma_ops_len_push(ops: Seq<Op>, op: Op)
    ensures ops_wire_len(ops.push(op)) == ops_wire_len(ops) + op_wire_len(op),
{
    assert(ops.push(op).drop_last() =~= ops);
}

proof fn lemma_ops_len_nonneg(ops: Seq<Op>)
    ensures ops_wire_len(ops) >= 0,
    decreases ops.len(),
{
    if ops.len() > 0 {
        lemma_ops_len_nonneg(ops.drop_last());
    }
}

/// Cuts `ops` into data messages of `topic_id`, in order, taking the longest prefix
/// that fits `max_messages` messages of `max_bytes` bytes in all: an op joins the
/// open message while that holds fewer than [`MAX_SYNC_DATA_OPS_PER_MESSAGE`] ops
/// and stays within a frame, else it opens the next one. An op that fits no frame
/// on its own fails the page.
pub fn sync_data_page(topic_id: TopicId, ops: Vec<Op>, max_messages: usize, max_bytes: usize) -> (r: Result<DataPage, Error>)
    ensures
        r matches Ok(p) ==> {
            &&& messages_ok(p.messages@, topic_id)
            &&& flat_ops(p.messages@) == ops@.take(flat_ops(p.messages@).len() as int)
            &&& p.cut <==> flat_ops(p.messages@).len() < ops@.len()
            &&& p.messages@.len() <= max_messages
            &&& messages_len(p.messages@) <= max_bytes
            &&& p.cut ==> page_full(p.messages@, ops@[flat_ops(p.messages@).len() as int], max_messages as int, max_bytes as int)
        },
        r is Err ==> exists|i: int| 0 <= i < ops@.len() && op_too_large(#[trigger] ops@[i]),
        r matches Err(e) ==> e is OpTooLarge,
        (forall|i: int| 0 <= i < ops@.len() ==> !op_too_large(#[trigger] ops@[i])) ==> r is Ok,
{
    let ghost ops0 = ops@;
    let mut work = ops;
    let mut rest: Vec<Op> = Vec::new();
    while work.len() > 0
        invariant ops0 == work@ + rest@.reverse(),
        decreases work@.len(),
    {
        let x = work.pop().unwrap();
        let ghost rb = rest@;
        rest.push(x);
        proof { assert(rest@.reverse() =~= seq![x] + rb.reverse()); assert(ops0 =~= work@ + rest@.reverse()); }
    }
    proof { assert(ops0 =~= rest@.reverse()); }
    let mut messages: Vec<SyncData> = Vec::new();
    let mut current: Vec<Op> = Vec::new();
    let mut current_len: usize = 0;
    let mut closed_bytes: usize = 0;
    let mut cut = false;
    proof {
        assert(ops0.take(0) =~= Seq::<Op>::empty());
        assert(flat_ops(messages@) + current@ =~= ops0.take(0));
    }
    while rest.len() > 0
        invariant_except_break
            rest@.len() <= ops0.len(),
            rest@.reverse() == ops0.skip(ops0.len() - rest@.len()),
            flat_ops(messages@) + current@ == ops0.take(ops0.len() - rest@.len()),
            !cut,
        invariant
            ops0 == ops@,
            messages_ok(messages@, topic_id),
            current@.len() <= MAX_SYNC_DATA_OPS_PER_MESSAGE,
            current_len == ops_wire_len(current@),
            current@.len() > 0 ==> DATA_OVERHEAD + current_len <= MAX_MESSAGE_BYTES,
            closed_bytes == messages_len(messages@),
            messages@.len() + (if current@.len() > 0 { 1int } else { 0int }) <= max_messages,
            current@.len() == 0 ==> messages@.len() == 0,
            closed_bytes + (if current@.len() > 0 { DATA_OVERHEAD + current_len } else { 0int }) <= max_bytes,
        ensures
            flat_ops(messages@) + current@ == ops0.take((flat_ops(messages@) + current@).len() as int),
            cut <==> (flat_ops(messages@) + current@).len() < ops0.len(),
            cut ==> no_room(messages@.len() + (if current@.len() > 0 { 1int } else { 0int }),
                closed_bytes + (if current@.len() > 0 { DATA_OVERHEAD + current_len } else { 0int }),
                current@, ops0[(flat_ops(messages@) + current@).len() as int], max_messages as int, max_bytes as int),
        decreases rest@.len(),
    {
        let ghost rb = rest@;
        let ghost k = ops0.len() - rb.len();
        let op = rest.pop().unwrap();
        proof {
            assert(rb =~= rest@.push(op));
            assert(rb.reverse()[0] == op);
            assert(ops0.skip(k)[0] == ops0[k]);
            assert(op == ops0[k]);
            assert(rest@.reverse() =~= ops0.skip(k + 1)) by {
                assert forall|j: int| 0 <= j < rest@.len() implies rest@.reverse()[j] == ops0.skip(k + 1)[j] by {
                    assert(rest@.reverse()[j] == rb.reverse()[j + 1]);
                }
            }
            assert(ops0.take(k + 1) =~= ops0.take(k).push(op));
            lemma_ops_len_nonneg(current@);
        }
        let body_len = op.encoded_len();
        if body_len > MAX_MESSAGE_BYTES - DATA_OVERHEAD - OP_PREFIX {
            proof { assert(op_too_large(ops0[k])); }
            return Err(Error::OpTooLarge);
        }
        let op_len = OP_PREFIX + body_len;
        let open_bytes: usize = if current.len() == 0 { 0 } else { DATA_OVERHEAD + current_len };
        let joins = current.len() > 0 && current.len() < MAX_SYNC_DATA_OPS_PER_MESSAGE
            && current_len <= MAX_MESSAGE_BYTES - DATA_OVERHEAD - op_len;
        let fits = if joins {
            messages.len() < max_messages && closed_bytes <= max_bytes
                && DATA_OVERHEAD + current_len + op_len <= max_bytes - closed_bytes
        } else {
            let open_count: usize = if current.len() > 0 { 1 } else { 0 };
            messages.len() + open_count < max_messages && closed_bytes + open_bytes <= max_bytes
                && DATA_OVERHEAD + op_len <= max_bytes - closed_bytes - open_bytes
        };
        if !fits {
            cut = true;
            proof {
                assert((flat_ops(messages@) + current@).len() == k);
                assert(k < ops0.len());
                assert(op_len == op_wire_len(op));
            }
            break;
        }
        if !joins && current.len() > 0 {
            let ghost mb = messages@;
            let mut page: Vec<Op> = Vec::new();
            std::mem::swap(&mut page, &mut current);
            closed_bytes = closed_bytes + open_bytes;
            messages.push(SyncData { topic_id, ops: page });
            current_len = 0;
            proof {
                lemma_flat_push(mb, messages@.last());
                assert(messages@.drop_last() =~= mb);
                assert forall|j: int| 0 <= j < messages@.len() implies {
                    &&& (#[trigger] messages@[j]).topic_id == topic_id
                    &&& 1 <= messages@[j].ops@.len() <= MAX_SYNC_DATA_OPS_PER_MESSAGE
                    &&& message_len(messages@[j].ops@) <= MAX_MESSAGE_BYTES
                } by {
                    if j < mb.len() { assert(messages@[j] == mb[j]); }
                }
                assert(current@ =~= Seq::<Op>::empty());
            }
        }
        let ghost cb = current@;
        current.push(op);
        current_len = current_len + op_len;
        proof {
            lemma_ops_len_push(cb, op);
            assert(flat_ops(messages@) + current@ =~= ops0.take(k + 1));
        }
    }
    if current.len() > 0 {
        let ghost mb = messages@;
        let ghost cur = current@;
        messages.push(SyncData { topic_id, ops: current });
        proof {
            lemma_flat_push(mb, messages@.last());
            assert(last_ops(messages@) == cur);
            assert(messages@.drop_last() =~= mb);
            assert forall|j: int| 0 <= j < messages@.len() implies {
                &&& (#[trigger] messages@[j]).topic_id == topic_id
                &&& 1 <= messages@[j].ops@.len() <= MAX_SYNC_DATA_OPS_PER_MESSAGE
                &&& message_len(messages@[j].ops@) <= MAX_MESSAGE_BYTES
            } by {
                if j < mb.len() { assert(messages@[j] == mb[j]); }
            }
        }
    } else {
        proof { assert(current@ =~= Seq::<Op>::empty()); assert(flat_ops(messages@) + current@ =~= flat_ops(messages@)); }
    }
    Ok(DataPage { messages, cut })
}

/// Whether every op of every history order of `topic` in `s` fits a data message.
pub open spec fn topic_ops_fit(s: crate::storage::MemoryStorage, topic: TopicId) -> bool {
    forall|all: Seq<Op>| #[trigger] topic_history_ops(s, topic, all) ==> forall|k: int| 0 <= k < all.len() ==> !op_too_large(#[trigger] all[k])
}

/// Whether `topic` can be served from `s` to `peer`: it is held, the peer is a member,
/// its generations grow along dependencies, and each op fits a data message.
pub open spec fn servable(s: crate::storage::MemoryStorage, topic: TopicId, peer: PeerId) -> bool {
    &&& crate::oplog::local::has_state(s, topic)
    &&& s.topics_map()[topic].state.members@.contains(peer)
    &&& crate::oplog::topology::gens_ordered(s.ops_map(), crate::storage::spec_topic_ids(s.ops_map(), topic))
    &&& topic_ops_fit(s, topic)
}

/// Whether `messages`, cut or not as `cut` says, is a page of the ops of the topic
/// of `remote` that the peer whose summary it is lacks in `s`: in history order,
/// the longest prefix that fits `max_messages` messages of `max_bytes` bytes.
pub open spec fn page_serves(s: crate::storage::MemoryStorage, remote: SyncSummary, messages: Seq<SyncData>, cut: bool,
    max_messages: usize, max_bytes: usize) -> bool {
    &&& messages_ok(messages, remote.topic_id)
    &&& messages.len() <= max_messages
    &&& messages_len(messages) <= max_bytes
    &&& exists|all: Seq<Op>| #[trigger] topic_history_ops(s, remote.topic_id, all) && {
        let lacking = all.filter(|op: Op| peer_lacks(remote.genesis, remote.clock@,
            s.topics_map()[remote.topic_id].state.genesis, op));
        &&& flat_ops(messages) == lacking.take(flat_ops(messages).len() as int)
        &&& (cut <==> flat_ops(messages).len() < lacking.len())
        &&& (cut ==> page_full(messages, lacking[flat_ops(messages).len() as int], max_messages as int, max_bytes as int))
    }
}

impl Irokle {
    /// The first page of data for `peer_id`, whose summary is `remote`: the ops of the
    /// topic it lacks, in history order, cut to `max_messages` messages of `max_bytes`
    /// bytes in all.
    pub fn plan_data_page(&self, peer_id: PeerId, remote: &SyncSummary, max_messages: usize, max_bytes: usize)
        -> (r: Result<DataPage, Error>)
        ensures
            !crate::oplog::local::has_state(self.store(), remote.topic_id) ==> r matches Err(Error::TopicNotFound),
            crate::oplog::local::has_state(self.store(), remote.topic_id)
                && !self.store().topics_map()[remote.topic_id].state.members@.contains(peer_id)
                ==> r matches Err(Error::NotTopicMember),
            r matches Ok(p) ==> page_serves(self.store(), *remote, p.messages@, p.cut, max_messages, max_bytes),
            servable(self.store(), remote.topic_id, peer_id) ==> r is Ok,
    {
        let data = self.plan_sync_data(peer_id, remote)?;
        let SyncData { topic_id, ops } = data;
        proof {
            if servable(self.store(), remote.topic_id, peer_id) {
                let all = choose|all: Seq<Op>| #[trigger] topic_history_ops(self.store(), remote.topic_id, all)
                    && ops@ == all.filter(|op: Op| peer_lacks(remote.genesis, remote.clock@,
                        self.store().topics_map()[remote.topic_id].state.genesis, op));
                let pred = |op: Op| peer_lacks(remote.genesis, remote.clock@,
                        self.store().topics_map()[remote.topic_id].state.genesis, op);
                assert forall|i: int| 0 <= i < ops@.len() implies !op_too_large(#[trigger] ops@[i]) by {
                    assert(ops@.contains(ops@[i]));
                    all.lemma_filter_contains_rev(pred, ops@[i]);
                    let k = choose|k: int| 0 <= k < all.len() && all[k] == ops@[i];
                    assert(!op_too_large(all[k]));
                }
            }
        }
        sync_data_page(topic_id, ops, max_messages, max_bytes)
    }
}

} // verus!
