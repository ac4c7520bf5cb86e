//! One side of a sync exchange: what each incoming message is answered with.
use vstd::prelude::*;
use crate::ids::{Id32, OpId, PeerId, TopicId, ActorId};
use crate::clock::clock_at;
use crate::error::Error;
use crate::oplog::local::has_state;
use crate::storage::MemoryStorage;
use crate::node::Irokle;
use crate::node::bootstrap::StagedTopic;
use crate::node::sync::{SyncSummary, SyncData, SyncAck, ReceiveOutcome, delivered_again, may_introduce, received_as, fresh_delivery};
use crate::node::history::tips_clock;
use crate::op::spec_op_valid;
use crate::idset::IdSet;
use crate::idmap::IdMap;
use crate::transport::ReceiptLog;
use crate::paging::DataPage;

verus! {

/// A message of the sync protocol.
#[derive(Debug)]
pub enum SyncMessage {
    /// Opens a topic's exchange.
    Open(TopicId),
    /// What the sender holds of a topic.
    Summary(SyncSummary),
    /// A request for the ops the sender lacks, naming what it holds.
    Request(SyncSummary),
    /// Ops of a topic.
    Data(SyncData),
    /// A signed statement of what the sender holds after data.
    Ack(SyncAck),
    /// Data staged on the sender's side, for a topic it does not hold yet.
    Receipt(TopicId, StagedTopic),
}

/// Whether a peer whose summary is `remote` holds ops of its topic that `s` lacks:
/// it names a branch, and `s` holds another one or none, or the peer's clock passes
/// the one held here for some actor.
pub open spec fn remote_ahead(s: MemoryStorage, remote_genesis: Option<OpId>, topic: TopicId, clock: Map<ActorId, u64>) -> bool {
    match remote_genesis {
        None => false,
        Some(g) => !has_state(s, topic) || s.topics_map()[topic].state.genesis != g
            || exists|a: ActorId| #[trigger] clock.contains_key(a) && clock[a] > clock_at(tips_clock(s, topic), a),
    }
}

/// A peer whose summary names the branch held here is ahead when its clock passes
/// the local clock for one actor, whatever it says of the others; it is not ahead
/// when its clock passes the local one for no actor.
pub proof fn lemma_ahead_on_one_actor(s: MemoryStorage, topic: TopicId, clock: Map<ActorId, u64>, a: ActorId)
    requires
        has_state(s, topic),
    ensures
        clock.contains_key(a) && clock[a] > clock_at(tips_clock(s, topic), a)
            ==> remote_ahead(s, Some(s.topics_map()[topic].state.genesis), topic, clock),
        (forall|b: ActorId| #[trigger] clock.contains_key(b) ==> clock[b] <= clock_at(tips_clock(s, topic), b))
            ==> !remote_ahead(s, Some(s.topics_map()[topic].state.genesis), topic, clock),
{
}

/// What the responses of one batch leave to do: the peer's acks to apply, the acks
/// and data pages this node owes back, the topics still owed an ack, those with
/// more to exchange, those that failed, and whether an unexpected response stopped
/// the batch.
#[derive(Debug)]
pub struct BatchReplies {
    pub acks: Vec<SyncAck>,
    pub followup_acks: Vec<SyncAck>,
    pub followup_data: Vec<SyncData>,
    pub owed: IdSet,
    pub more: IdSet,
    pub failed: IdSet,
    pub unexpected: bool,
}

/// The topic a batch response is about.
pub open spec fn response_topic(m: SyncMessage) -> TopicId {
    match m {
        SyncMessage::Open(t) => t,
        SyncMessage::Summary(s) => s.topic_id,
        SyncMessage::Request(s) => s.topic_id,
        SyncMessage::Data(d) => d.topic_id,
        SyncMessage::Ack(a) => a.topic_id,
        SyncMessage::Receipt(t, _) => t,
    }
}

/// Whether the acks of `acks` name distinct topics.
pub open spec fn one_ack_per_topic(acks: Seq<SyncAck>) -> bool {
    forall|a: int, b: int| 0 <= a < acks.len() && 0 <= b < acks.len() && a != b ==> #[trigger] acks[a].topic_id != #[trigger] acks[b].topic_id
}

/// Whether `r` answers data of `topic` whose receipt came out as `o`: an ack is
/// sent back alone, a staged receipt as a receipt for the topic, an error as it was.
pub open spec fn answers_data(o: Result<ReceiveOutcome, Error>, topic: TopicId, r: Result<Vec<SyncMessage>, Error>) -> bool {
    match o {
        Ok(ReceiveOutcome::Acked { ack, .. }) => r matches Ok(v) && v@ == seq![SyncMessage::Ack(ack)],
        Ok(ReceiveOutcome::Staged(st)) => r matches Ok(v) && v@ == seq![SyncMessage::Receipt(topic, st)],
        Err(e) => r == Err::<Vec<SyncMessage>, Error>(e),
    }
}

/// The acks among `responses` that `remote` signed, in order.
pub open spec fn acks_from(responses: Seq<SyncMessage>, remote: PeerId) -> Seq<SyncAck>
    decreases responses.len(),
{
    if responses.len() == 0 {
        Seq::empty()
    } else {
        acks_from(responses.drop_last(), remote) + match responses.last() {
            SyncMessage::Ack(a) => if a.peer_id == remote { seq![a] } else { Seq::empty() },
            _ => Seq::empty(),
        }
    }
}

/// The topics the acks of `acks` speak for.
pub open spec fn ack_topics(acks: Seq<SyncAck>) -> Set<TopicId> {
    Set::new(|t: TopicId| exists|j: int| 0 <= j < acks.len() && #[trigger] acks[j].topic_id == t)
}

/// Whether `pages` holds, somewhere in a row, a page that serves `request` from `s`
/// within `max_messages` messages of `max_bytes` bytes.
pub open spec fn page_sent(s: MemoryStorage, request: SyncSummary, pages: Seq<SyncData>, max_messages: usize, max_bytes: usize) -> bool {
    exists|a: int, b: int, cut: bool| 0 <= a <= b <= pages.len()
        && #[trigger] crate::paging::page_serves(s, request, pages.subrange(a, b), cut, max_messages, max_bytes)
}

/// What handling the response `msg` from `remote` did, taking this node from
/// `before` to `after`, as the batch's failed topics, topics with more, owed acks
/// and data pages show it at the end: an ack or a summary changes nothing here, an ack
/// bound to another peer fails its topic; a receipt leaves more to send; a request
/// is answered with a page or fails its topic, and a servable one is answered; data
/// from a peer that may not introduce its topic fails that topic; other data is
/// received, an error fails its topic and an ack is owed back for it.
pub open spec fn reply_step(before: Irokle, after: Irokle, remote: PeerId, msg: SyncMessage, failed: Set<TopicId>,
    more: Set<TopicId>, acks_out: Seq<SyncAck>, pages: Seq<SyncData>, max_messages: usize, max_bytes: usize) -> bool {
    match msg {
        SyncMessage::Ack(a) => after == before && (a.peer_id != remote ==> failed.contains(a.topic_id)),
        SyncMessage::Receipt(t, _) => after == before && more.contains(t),
        SyncMessage::Summary(_) => after == before,
        SyncMessage::Request(q) => {
            &&& after == before
            &&& page_sent(before.store(), q, pages, max_messages, max_bytes) || failed.contains(q.topic_id)
            &&& crate::paging::servable(before.store(), q.topic_id, remote) ==> page_sent(before.store(), q, pages, max_messages, max_bytes)
        },
        SyncMessage::Data(d) => if may_introduce(before.store(), before.spec_whitelist(), d.topic_id, remote) {
            exists|o: Result<ReceiveOutcome, Error>| #[trigger] received_as(before, after, remote, d, o)
                && (o is Err ==> failed.contains(d.topic_id))
                && (o matches Ok(ReceiveOutcome::Acked { .. }) ==> ack_topics(acks_out).contains(d.topic_id))
        } else {
            after == before && failed.contains(d.topic_id)
        },
        SyncMessage::Open(_) => false,
    }
}

/// Whether `trace` is the run of a batch over `responses` that handled the first
/// `n` of them, one step each, and stopped at the `n`th when that was unexpected;
/// the acks collected are those of the handled responses that `remote` signed.
pub open spec fn replies_trace(trace: Seq<Irokle>, n: int, remote: PeerId, group: Set<TopicId>, responses: Seq<SyncMessage>,
    r: BatchReplies, max_messages: usize, max_bytes: usize) -> bool {
    &&& 0 <= n <= responses.len()
    &&& trace.len() == n + 1
    &&& (n < responses.len() <==> r.unexpected)
    &&& n < responses.len() ==> (responses[n] is Open || !group.contains(response_topic(responses[n])))
    &&& r.acks@ == acks_from(responses.take(n), remote)
    &&& forall|k: int| 0 <= k < n ==> #[trigger] reply_step(trace[k], trace[k + 1], remote, responses[k],
        r.failed@, r.more@, r.followup_acks@, r.followup_data@, max_messages, max_bytes)
}

proof fn lemma_step_grows(before: Irokle, after: Irokle, remote: PeerId, msg: SyncMessage,
    f1: Set<TopicId>, m1: Set<TopicId>, a1: Seq<SyncAck>, p1: Seq<SyncData>,
    f2: Set<TopicId>, m2: Set<TopicId>, a2: Seq<SyncAck>, p2: Seq<SyncData>, max_messages: usize, max_bytes: usize)
    requires
        reply_step(before, after, remote, msg, f1, m1, a1, p1, max_messages, max_bytes),
        f1.subset_of(f2),
        m1.subset_of(m2),
        ack_topics(a1).subset_of(ack_topics(a2)),
        p1.len() <= p2.len(),
        p2.subrange(0, p1.len() as int) == p1,
    ensures
        reply_step(before, after, remote, msg, f2, m2, a2, p2, max_messages, max_bytes),
{
    match msg {
        SyncMessage::Request(q) => {
            if page_sent(before.store(), q, p1, max_messages, max_bytes) {
                let (a, b, cut) = choose|a: int, b: int, cut: bool| 0 <= a <= b <= p1.len()
                    && #[trigger] crate::paging::page_serves(before.store(), q, p1.subrange(a, b), cut, max_messages, max_bytes);
                assert(p2.subrange(a, b) =~= p1.subrange(a, b)) by {
                    assert forall|i: int| 0 <= i < b - a implies p2.subrange(a, b)[i] == p1.subrange(a, b)[i] by {
                        assert(p2.subrange(0, p1.len() as int)[a + i] == p1[a + i]);
                    }
                }
                assert(crate::paging::page_serves(before.store(), q, p2.subrange(a, b), cut, max_messages, max_bytes));
            }
        },
        SyncMessage::Data(d) => {
            if may_introduce(before.store(), before.spec_whitelist(), d.topic_id, remote) {
                let o = choose|o: Result<ReceiveOutcome, Error>| #[trigger] received_as(before, after, remote, d, o)
                    && (o is Err ==> f1.contains(d.topic_id))
                    && (o matches Ok(ReceiveOutcome::Acked { .. }) ==> ack_topics(a1).contains(d.topic_id));
                assert(received_as(before, after, remote, d, o));
            }
        },
        _ => {},
    }
}

impl Irokle {
    /// Whether a peer whose summary is `remote` holds ops this node lacks.
    pub fn remote_is_ahead(&self, remote: &SyncSummary) -> (r: bool)
        ensures
            r == remote_ahead(self.store(), remote.genesis, remote.topic_id, remote.clock@),
            has_state(self.store(), remote.topic_id) && remote.genesis == Some(self.store().topics_map()[remote.topic_id].state.genesis)
                ==> (r <==> exists|a: ActorId| #[trigger] remote.clock@.contains_key(a)
                    && remote.clock@[a] > clock_at(tips_clock(self.store(), remote.topic_id), a)),
    {
        let g = match remote.genesis {
            None => return false,
            Some(g) => g,
        };
        let store = self.storage();
        let genesis = match store.topic_state(&remote.topic_id) {
            None => return true,
            Some(state) => state.genesis,
        };
        if !genesis.same(&g) {
            return true;
        }
        let local = store.actor_clock(&remote.topic_id);
        let entries = remote.clock.entries();
        let mut i: usize = 0;
        while i < entries.len()
            invariant
                i <= entries@.len(),
                remote.genesis == Some(g),
                has_state(self.store(), remote.topic_id),
                self.store().topics_map()[remote.topic_id].state.genesis == g,
                crate::clock::clock_entries(entries@, remote.clock@),
                forall|a: ActorId| #[trigger] local@.contains_key(a) <==> (self.store().topics_map().contains_key(remote.topic_id)
                    && self.store().topics_map()[remote.topic_id].tips@.contains_key(a)),
                forall|a: ActorId| #[trigger] local@.contains_key(a) ==> local@[a] == self.store().topics_map()[remote.topic_id].tips@[a].seq,
                forall|j: int| 0 <= j < i ==> (#[trigger] entries@[j]).1 <= clock_at(local@, entries@[j].0),
            decreases entries@.len() - i,
        {
            let (a, seq) = entries[i];
            if seq > local.get(&a) {
                proof {
                    assert(remote.clock@.contains_key(a) && remote.clock@[a] == seq);
                    assert(clock_at(local@, a) == clock_at(tips_clock(self.store(), remote.topic_id), a));
                }
                return true;
            }
            i += 1;
        }
        proof {
            assert forall|a: ActorId| #[trigger] remote.clock@.contains_key(a) implies remote.clock@[a] <= clock_at(tips_clock(self.store(), remote.topic_id), a) by {
                let j = choose|j: int| 0 <= j < entries@.len() && entries@[j].0 == a;
                assert(entries@[j].1 <= clock_at(local@, entries@[j].0));
                assert(clock_at(local@, a) == clock_at(tips_clock(self.store(), remote.topic_id), a));
            }
        }
        false
    }

    /// What this node answers `message` from `remote` with. An open from a peer that
    /// may not open a held topic is answered with nothing; any other open with this
    /// node's summary. A summary is answered with a request for what the peer holds
    /// and this node lacks, or with nothing. Data of a topic not held here is refused
    /// from a peer the whitelist does not name; other data is received: acked when it reached
    /// the held topic, answered with a receipt while it stays staged. Requests and
    /// acks are the session's to serve and collect, and refused here.
    pub fn handle_message(&mut self, remote: PeerId, message: SyncMessage) -> (r: Result<Vec<SyncMessage>, Error>)
        ensures
            final(self).spec_peer_id() == old(self).spec_peer_id(),
            match message {
                SyncMessage::Open(t) => {
                    &&& final(self).store() == old(self).store()
                    &&& (has_state(old(self).store(), t) && !crate::transport::may_open(old(self).store().topics_map()[t].state, remote)
                        ==> (r matches Ok(v) && v@.len() == 0))
                    &&& (!(has_state(old(self).store(), t) && !crate::transport::may_open(old(self).store().topics_map()[t].state, remote))
                        ==> (r matches Ok(v) && v@.len() == 1 && (v@[0] matches SyncMessage::Summary(s) && s.topic_id == t
                            && (has_state(old(self).store(), t) ==> s.genesis == Some(old(self).store().topics_map()[t].state.genesis)))))
                },
                SyncMessage::Summary(s) => {
                    &&& final(self).store() == old(self).store()
                    &&& r matches Ok(v)
                    &&& (v@.len() == 0 <==> !remote_ahead(old(self).store(), s.genesis, s.topic_id, s.clock@))
                    &&& (v@.len() > 0 ==> v@.len() == 1 && (v@[0] matches SyncMessage::Request(q) && q.topic_id == s.topic_id))
                },
                SyncMessage::Data(d) => {
                    &&& (!may_introduce(old(self).store(), old(self).spec_whitelist(), d.topic_id, remote)
                        ==> (r == Err::<Vec<SyncMessage>, Error>(Error::PeerNotWhitelisted(remote)) && final(self).store() == old(self).store()))
                    &&& (may_introduce(old(self).store(), old(self).spec_whitelist(), d.topic_id, remote)
                        && (exists|k: int| 0 <= k < d.ops@.len() && (#[trigger] d.ops@[k]).signed.body.topic_id != d.topic_id)
                        ==> (r matches Err(Error::TopicMismatch) && final(self).store() == old(self).store()))
                    &&& ((exists|k: int| 0 <= k < d.ops@.len() && !spec_op_valid(#[trigger] d.ops@[k]))
                        ==> r is Err && final(self).store() == old(self).store())
                    &&& (delivered_again(old(self).store(), d) ==> (r matches Ok(v) && v@.len() == 1 && v@[0] is Ack))
                    &&& (r matches Ok(v) ==> v@.len() == 1 && (v@[0] matches SyncMessage::Ack(a)
                        ==> a.topic_id == d.topic_id && a.peer_id == old(self).spec_peer_id()
                            && crate::oplog::receive::all_held(final(self).store().ops_map(), a.accepted@)))
                    &&& (r matches Ok(v) && v@[0] is Receipt ==> final(self).store() == old(self).store())
                    &&& (may_introduce(old(self).store(), old(self).spec_whitelist(), d.topic_id, remote)
                        ==> exists|o: Result<ReceiveOutcome, Error>| received_as(*old(self), *final(self), remote, d, o)
                            && #[trigger] answers_data(o, d.topic_id, r))
                    &&& (may_introduce(old(self).store(), old(self).spec_whitelist(), d.topic_id, remote)
                        && fresh_delivery(old(self).store(), d)
                        ==> (r matches Ok(v) && v@.len() == 1
                            && (v@[0] matches SyncMessage::Ack(a) && a.accepted@.contains(d.ops@[0].id))))
                },
                SyncMessage::Request(_) => r matches Err(Error::UnexpectedMessage) && final(self).store() == old(self).store(),
                SyncMessage::Ack(_) => r matches Err(Error::UnexpectedMessage) && final(self).store() == old(self).store(),
                SyncMessage::Receipt(..) => r matches Err(Error::UnexpectedMessage) && final(self).store() == old(self).store(),
            },
    {
        match message {
            SyncMessage::Open(topic_id) => {
                match self.storage().topic_state(&topic_id) {
                    Some(state) => {
                        if !crate::transport::peer_may_open_topic(state, remote) {
                            return Ok(Vec::new());
                        }
                    },
                    None => {},
                }
                let summary = self.sync_summary(topic_id);
                Ok(vec![SyncMessage::Summary(summary)])
            },
            SyncMessage::Summary(summary) => {
                if !self.remote_is_ahead(&summary) {
                    return Ok(Vec::new());
                }
                let own = self.sync_summary(summary.topic_id);
                Ok(vec![SyncMessage::Request(own)])
            },
            SyncMessage::Data(data) => {
                let topic_id = data.topic_id;
                match self.ensure_peer_allowed(remote, &data) {
                    Ok(()) => {},
                    Err(e) => { return Err(e); },
                }
                let ghost dg = data;
                let outcome = self.receive_sync_outcome(remote, data);
                let ghost og = outcome;
                let r = match outcome {
                    Ok(ReceiveOutcome::Acked { ack, evictions: _ }) => {
                        let mut v: Vec<SyncMessage> = Vec::new();
                        v.push(SyncMessage::Ack(ack));
                        proof { assert(v@ =~= seq![SyncMessage::Ack(ack)]); }
                        Ok(v)
                    },
                    Ok(ReceiveOutcome::Staged(staged)) => {
                        let mut v: Vec<SyncMessage> = Vec::new();
                        v.push(SyncMessage::Receipt(topic_id, staged));
                        proof { assert(v@ =~= seq![SyncMessage::Receipt(topic_id, staged)]); }
                        Ok(v)
                    },
                    Err(e) => Err(e),
                };
                proof {
                    assert(answers_data(og, dg.topic_id, r));
                    assert(received_as(*old(self), *self, remote, dg, og));
                }
                r
            },
            SyncMessage::Request(_) => Err(Error::UnexpectedMessage),
            SyncMessage::Ack(_) => Err(Error::UnexpectedMessage),
            SyncMessage::Receipt(..) => Err(Error::UnexpectedMessage),
        }
    }
}

impl Irokle {
    /// Sorts the responses `remote` sent for the topics of `group`: an ack bound to
    /// the peer settles its topic and drops the peer's staging receipt, one bound to
    /// another peer fails its topic; a receipt settles its topic with more to send and
    /// is logged when it names the branch sent; data is received, and its ack replaces
    /// any earlier one this node owes for the topic, and fails its topic when the
    /// topic is not held here and the whitelist does not name the peer; a request is served with a page of
    /// at most `max_messages` messages of `max_bytes` bytes; a summary needs nothing.
    /// A response for a topic outside the group, or an open, stops the batch.
    pub fn batch_replies(&mut self, remote: PeerId, group: &IdSet, geneses: &IdMap<OpId>, responses: Vec<SyncMessage>,
        owed_acks: IdSet, more: IdSet, receipts: &mut ReceiptLog, max_messages: usize, max_bytes: usize) -> (r: BatchReplies)
        requires old(receipts).wf(),
        ensures
            final(receipts).wf(),
            final(self).spec_peer_id() == old(self).spec_peer_id(),
            forall|k: int| 0 <= k < r.acks@.len() ==> (#[trigger] r.acks@[k]).peer_id == remote && group@.contains(r.acks@[k].topic_id),
            one_ack_per_topic(r.followup_acks@),
            forall|k: int| 0 <= k < r.followup_acks@.len() ==> group@.contains((#[trigger] r.followup_acks@[k]).topic_id)
                && r.followup_acks@[k].peer_id == old(self).spec_peer_id(),
            forall|k: int| 0 <= k < r.followup_data@.len() ==> group@.contains((#[trigger] r.followup_data@[k]).topic_id),
            r.owed@.subset_of(owed_acks@),
            forall|t: TopicId| #[trigger] owed_acks@.contains(t) && !r.owed@.contains(t) ==>
                (exists|k: int| 0 <= k < r.acks@.len() && #[trigger] r.acks@[k].topic_id == t) || r.more@.contains(t),
            more@.subset_of(r.more@),
            r.more@.subset_of(more@.union(group@)),
            r.failed@.subset_of(group@),
            (forall|k: int| 0 <= k < responses@.len() ==> group@.contains(response_topic(#[trigger] responses@[k]))
                && !(responses@[k] is Open)) ==> !r.unexpected,
            exists|trace: Seq<Irokle>, n: int| #[trigger] replies_trace(trace, n, remote, group@, responses@, r, max_messages, max_bytes)
                && trace[0] == *old(self) && trace[n] == *final(self),
    {
        let ghost resp0 = responses@;
        let mut work = responses;
        let mut rest: Vec<SyncMessage> = Vec::new();
        while work.len() > 0
            invariant resp0 == work@ + rest@.reverse(),
            decreases work@.len(),
        {
            let x = work.pop().unwrap();
            let ghost rb = rest@;
            rest.push(x);
            proof { assert(rest@.reverse() =~= seq![x] + rb.reverse()); assert(resp0 =~= work@ + rest@.reverse()); }
        }
        proof { assert(resp0 =~= rest@.reverse()); }
        let mut acks: Vec<SyncAck> = Vec::new();
        let mut followup_acks: Vec<SyncAck> = Vec::new();
        let mut followup_data: Vec<SyncData> = Vec::new();
        let mut owed = owed_acks;
        let mut more_topics = more;
        let mut failed = IdSet::new();
        let ghost owed0 = owed@;
        let ghost more0 = more_topics@;
        let ghost mut trace: Seq<Irokle> = seq![*self];
        proof { assert(resp0.take(0) =~= Seq::<SyncMessage>::empty()); }
        while rest.len() > 0
            invariant
                resp0 == responses@,
                rest@.len() <= resp0.len(),
                rest@.reverse() == resp0.skip(resp0.len() - rest@.len()),
                owed0 == owed_acks@,
                more0 == more@,
                receipts.wf(),
                self.spec_peer_id() == old(self).spec_peer_id(),
                forall|k: int| 0 <= k < acks@.len() ==> (#[trigger] acks@[k]).peer_id == remote && group@.contains(acks@[k].topic_id),
                one_ack_per_topic(followup_acks@),
                forall|k: int| 0 <= k < followup_acks@.len() ==> group@.contains((#[trigger] followup_acks@[k]).topic_id)
                    && followup_acks@[k].peer_id == old(self).spec_peer_id(),
                forall|k: int| 0 <= k < followup_data@.len() ==> group@.contains((#[trigger] followup_data@[k]).topic_id),
                owed@.subset_of(owed0),
                forall|t: TopicId| #[trigger] owed0.contains(t) && !owed@.contains(t) ==>
                    (exists|k: int| 0 <= k < acks@.len() && #[trigger] acks@[k].topic_id == t) || more_topics@.contains(t),
                more0.subset_of(more_topics@),
                more_topics@.subset_of(more0.union(group@)),
                failed@.subset_of(group@),
                trace.len() == resp0.len() - rest@.len() + 1,
                trace[0] == *old(self),
                trace.last() == *self,
                acks@ == acks_from(resp0.take(resp0.len() - rest@.len()), remote),
                forall|k: int| 0 <= k < resp0.len() - rest@.len() ==> #[trigger] reply_step(trace[k], trace[k + 1], remote, resp0[k],
                    failed@, more_topics@, followup_acks@, followup_data@, max_messages, max_bytes),
            decreases rest@.len(),
        {
            let ghost rb = rest@;
            let ghost kk = resp0.len() - rb.len();
            let msg = rest.pop().unwrap();
            let ghost mg = msg;
            let ghost s0 = *self;
            let ghost f0 = failed@;
            let ghost m0 = more_topics@;
            let ghost a0 = followup_acks@;
            let ghost p0 = followup_data@;
            proof {
                assert(rb =~= rest@.push(msg));
                assert(rb.reverse()[0] == msg);
                assert(resp0.skip(kk)[0] == resp0[kk]);
                assert(rest@.reverse() =~= resp0.skip(kk + 1)) by {
                    assert forall|j: int| 0 <= j < rest@.len() implies rest@.reverse()[j] == resp0.skip(kk + 1)[j] by {
                        assert(rest@.reverse()[j] == rb.reverse()[j + 1]);
                    }
                }
                assert(msg == resp0[kk]);
            }
            match msg {
                SyncMessage::Ack(ack) => {
                    if !group.contains(&ack.topic_id) {
                        let out = BatchReplies { acks, followup_acks, followup_data, owed, more: more_topics, failed, unexpected: true };
                        proof {
                            assert(!group@.contains(response_topic(resp0[kk])));
                            assert(replies_trace(trace, kk, remote, group@, resp0, out, max_messages, max_bytes));
                        }
                        return out;
                    }
                    if !ack.peer_id.same(&remote) {
                        failed.insert(ack.topic_id);
                    } else {
                        let ghost ab = acks@;
                        let ghost ob = owed@;
                        owed.remove(&ack.topic_id);
                        receipts.clear(&remote, &ack.topic_id);
                        acks.push(ack);
                        proof {
                            assert forall|t: TopicId| #[trigger] owed0.contains(t) && !owed@.contains(t) implies
                                (exists|k: int| 0 <= k < acks@.len() && #[trigger] acks@[k].topic_id == t) || more_topics@.contains(t) by {
                                if t == acks@[acks@.len() - 1].topic_id {
                                    assert(acks@[acks@.len() - 1].topic_id == t);
                                } else if !ob.contains(t) {
                                    if !more_topics@.contains(t) {
                                        let k = choose|k: int| 0 <= k < ab.len() && #[trigger] ab[k].topic_id == t;
                                        assert(acks@[k] == ab[k]);
                                    }
                                }
                            }
                            assert forall|k: int| 0 <= k < acks@.len() implies (#[trigger] acks@[k]).peer_id == remote && group@.contains(acks@[k].topic_id) by {
                                if k < ab.len() { assert(acks@[k] == ab[k]); }
                            }
                        }
                    }
                    proof {
                        assert(reply_step(s0, *self, remote, mg, failed@, more_topics@, followup_acks@, followup_data@, max_messages, max_bytes));
                    }
                },
                SyncMessage::Receipt(topic_id, receipt) => {
                    if !group.contains(&topic_id) {
                        let out = BatchReplies { acks, followup_acks, followup_data, owed, more: more_topics, failed, unexpected: true };
                        proof {
                            assert(!group@.contains(response_topic(resp0[kk])));
                            assert(replies_trace(trace, kk, remote, group@, resp0, out, max_messages, max_bytes));
                        }
                        return out;
                    }
                    owed.remove(&topic_id);
                    more_topics.insert(topic_id);
                    let logged = match (geneses.get(&topic_id), receipt.genesis) {
                        (Some(g), Some(h)) => g.same(&h),
                        _ => false,
                    };
                    if logged {
                        receipts.record(remote, topic_id, receipt);
                    }
                    proof {
                        assert(reply_step(s0, *self, remote, mg, failed@, more_topics@, followup_acks@, followup_data@, max_messages, max_bytes));
                    }
                },
                SyncMessage::Summary(summary) => {
                    if !group.contains(&summary.topic_id) {
                        let out = BatchReplies { acks, followup_acks, followup_data, owed, more: more_topics, failed, unexpected: true };
                        proof {
                            assert(!group@.contains(response_topic(resp0[kk])));
                            assert(replies_trace(trace, kk, remote, group@, resp0, out, max_messages, max_bytes));
                        }
                        return out;
                    }
                },
                SyncMessage::Request(request) => {
                    let topic_id = request.topic_id;
                    if !group.contains(&topic_id) {
                        let out = BatchReplies { acks, followup_acks, followup_data, owed, more: more_topics, failed, unexpected: true };
                        proof {
                            assert(!group@.contains(response_topic(resp0[kk])));
                            assert(replies_trace(trace, kk, remote, group@, resp0, out, max_messages, max_bytes));
                        }
                        return out;
                    }
                    match self.plan_data_page(remote, &request, max_messages, max_bytes) {
                        Ok(page) => {
                            let DataPage { messages, cut } = page;
                            if cut {
                                more_topics.insert(topic_id);
                            }
                            let mut messages = messages;
                            let ghost pm = messages@;
                            followup_data.append(&mut messages);
                            proof {
                                assert forall|k: int| 0 <= k < followup_data@.len() implies group@.contains((#[trigger] followup_data@[k]).topic_id) by {
                                    if k < p0.len() { assert(followup_data@[k] == p0[k]); }
                                    else { assert(followup_data@[k] == pm[k - p0.len()]); }
                                }
                                assert(followup_data@.subrange(p0.len() as int, followup_data@.len() as int) =~= pm);
                                assert(followup_data@.subrange(0, p0.len() as int) =~= p0);
                                assert(crate::paging::page_serves(s0.store(), request, followup_data@.subrange(p0.len() as int, followup_data@.len() as int), cut, max_messages, max_bytes));
                                assert(page_sent(s0.store(), request, followup_data@, max_messages, max_bytes));
                            }
                        },
                        Err(_) => { failed.insert(topic_id); },
                    }
                    proof {
                        assert(reply_step(s0, *self, remote, mg, failed@, more_topics@, followup_acks@, followup_data@, max_messages, max_bytes));
                    }
                },
                SyncMessage::Data(data) => {
                    let topic_id = data.topic_id;
                    if !group.contains(&topic_id) {
                        let out = BatchReplies { acks, followup_acks, followup_data, owed, more: more_topics, failed, unexpected: true };
                        proof {
                            assert(!group@.contains(response_topic(resp0[kk])));
                            assert(replies_trace(trace, kk, remote, group@, resp0, out, max_messages, max_bytes));
                        }
                        return out;
                    }
                    let ghost dg = data;
                    let allowed = self.ensure_peer_allowed(remote, &data);
                    let received = match allowed {
                        Ok(()) => self.receive_sync_outcome(remote, data),
                        Err(e) => Err(e),
                    };
                    let ghost og = received;
                    match received {
                        Ok(ReceiveOutcome::Acked { ack, evictions: _ }) => {
                            let ghost fb = followup_acks@;
                            let mut kept: Vec<SyncAck> = Vec::new();
                            let mut old_acks = followup_acks;
                            proof { assert(old_acks@ + kept@ =~= fb); }
                            while old_acks.len() > 0
                                invariant
                                    one_ack_per_topic(old_acks@ + kept@),
                                    forall|k: int| 0 <= k < old_acks@.len() ==> group@.contains((#[trigger] old_acks@[k]).topic_id)
                                        && old_acks@[k].peer_id == old(self).spec_peer_id(),
                                    forall|k: int| 0 <= k < kept@.len() ==> group@.contains((#[trigger] kept@[k]).topic_id)
                                        && kept@[k].peer_id == old(self).spec_peer_id() && kept@[k].topic_id != topic_id,
                                    forall|x: int| 0 <= x < fb.len() && (#[trigger] fb[x]).topic_id != topic_id ==> (old_acks@ + kept@).contains(fb[x]),
                                decreases old_acks@.len(),
                            {
                                let ghost ob = old_acks@;
                                let ghost kb = kept@;
                                let a = old_acks.pop().unwrap();
                                proof { assert(ob =~= old_acks@.push(a)); }
                                if !a.topic_id.same(&topic_id) {
                                    kept.push(a);
                                    proof {
                                        assert forall|x: int, y: int| 0 <= x < (old_acks@ + kept@).len() && 0 <= y < (old_acks@ + kept@).len() && x != y
                                            implies #[trigger] (old_acks@ + kept@)[x].topic_id != #[trigger] (old_acks@ + kept@)[y].topic_id by {
                                            let n = old_acks@.len() as int;
                                            if x < n { assert((old_acks@ + kept@)[x] == (ob + kb)[x]); }
                                            else if x < n + kb.len() { assert((old_acks@ + kept@)[x] == (ob + kb)[x + 1]); }
                                            else { assert((old_acks@ + kept@)[x] == (ob + kb)[n]); }
                                            if y < n { assert((old_acks@ + kept@)[y] == (ob + kb)[y]); }
                                            else if y < n + kb.len() { assert((old_acks@ + kept@)[y] == (ob + kb)[y + 1]); }
                                            else { assert((old_acks@ + kept@)[y] == (ob + kb)[n]); }
                                        }
                                        assert forall|k: int| 0 <= k < kept@.len() implies group@.contains((#[trigger] kept@[k]).topic_id)
                                            && kept@[k].peer_id == old(self).spec_peer_id() && kept@[k].topic_id != topic_id by {
                                            if k < kb.len() { assert(kept@[k] == kb[k]); } else { assert(ob[ob.len() - 1] == a); }
                                        }
                                        assert forall|x: int| 0 <= x < fb.len() && (#[trigger] fb[x]).topic_id != topic_id implies (old_acks@ + kept@).contains(fb[x]) by {
                                            let i = choose|i: int| 0 <= i < (ob + kb).len() && (ob + kb)[i] == fb[x];
                                            let n = old_acks@.len() as int;
                                            if i < n { assert((old_acks@ + kept@)[i] == (ob + kb)[i]); }
                                            else if i == n { assert((old_acks@ + kept@)[n + kb.len()] == a); }
                                            else { assert((old_acks@ + kept@)[i - 1] == (ob + kb)[i]); }
                                        }
                                    }
                                } else {
                                    proof {
                                        assert forall|x: int, y: int| 0 <= x < (old_acks@ + kept@).len() && 0 <= y < (old_acks@ + kept@).len() && x != y
                                            implies #[trigger] (old_acks@ + kept@)[x].topic_id != #[trigger] (old_acks@ + kept@)[y].topic_id by {
                                            let n = old_acks@.len() as int;
                                            if x < n { assert((old_acks@ + kept@)[x] == (ob + kb)[x]); }
                                            else { assert((old_acks@ + kept@)[x] == (ob + kb)[x + 1]); }
                                            if y < n { assert((old_acks@ + kept@)[y] == (ob + kb)[y]); }
                                            else { assert((old_acks@ + kept@)[y] == (ob + kb)[y + 1]); }
                                        }
                                        assert forall|x: int| 0 <= x < fb.len() && (#[trigger] fb[x]).topic_id != topic_id implies (old_acks@ + kept@).contains(fb[x]) by {
                                            let i = choose|i: int| 0 <= i < (ob + kb).len() && (ob + kb)[i] == fb[x];
                                            let n = old_acks@.len() as int;
                                            if i < n { assert((old_acks@ + kept@)[i] == (ob + kb)[i]); }
                                            else if i == n { assert((ob + kb)[n] == a); }
                                            else { assert((old_acks@ + kept@)[i - 1] == (ob + kb)[i]); }
                                        }
                                    }
                                }
                            }
                            let ghost kb = kept@;
                            kept.push(ack);
                            proof {
                                assert(old_acks@ + kb =~= kb);
                                assert forall|x: int, y: int| 0 <= x < kept@.len() && 0 <= y < kept@.len() && x != y
                                    implies #[trigger] kept@[x].topic_id != #[trigger] kept@[y].topic_id by {
                                    if x < kb.len() && y < kb.len() { assert(kept@[x] == (old_acks@ + kb)[x] && kept@[y] == (old_acks@ + kb)[y]); }
                                    else if x < kb.len() { assert(kept@[x] == kb[x]); }
                                    else if y < kb.len() { assert(kept@[y] == kb[y]); }
                                }
                                assert forall|k: int| 0 <= k < kept@.len() implies group@.contains((#[trigger] kept@[k]).topic_id)
                                    && kept@[k].peer_id == old(self).spec_peer_id() by {
                                    if k < kb.len() { assert(kept@[k] == kb[k]); }
                                }
                                assert forall|t: TopicId| #[trigger] ack_topics(fb).contains(t) implies ack_topics(kept@).contains(t) by {
                                    let j = choose|j: int| 0 <= j < fb.len() && #[trigger] fb[j].topic_id == t;
                                    if t == topic_id {
                                        assert(kept@[kb.len() as int].topic_id == t);
                                    } else {
                                        assert((old_acks@ + kb).contains(fb[j]));
                                        let i = choose|i: int| 0 <= i < kb.len() && kb[i] == fb[j];
                                        assert(kept@[i].topic_id == t);
                                    }
                                }
                                assert(kept@[kb.len() as int].topic_id == topic_id);
                                assert(ack_topics(kept@).contains(topic_id));
                            }
                            followup_acks = kept;
                        },
                        Ok(ReceiveOutcome::Staged(_)) => {},
                        Err(_) => { failed.insert(topic_id); },
                    }
                    proof {
                        if may_introduce(s0.store(), s0.spec_whitelist(), dg.topic_id, remote) {
                            assert(received_as(s0, *self, remote, dg, og));
                        }
                        assert(reply_step(s0, *self, remote, mg, failed@, more_topics@, followup_acks@, followup_data@, max_messages, max_bytes));
                    }
                },
                SyncMessage::Open(_) => {
                    let out = BatchReplies { acks, followup_acks, followup_data, owed, more: more_topics, failed, unexpected: true };
                    proof {
                        assert(replies_trace(trace, kk, remote, group@, resp0, out, max_messages, max_bytes));
                    }
                    return out;
                },
            }
            proof {
                assert(reply_step(s0, *self, remote, mg, failed@, more_topics@, followup_acks@, followup_data@, max_messages, max_bytes));
                assert(followup_data@.subrange(0, p0.len() as int) =~= p0);
                assert forall|k: int| 0 <= k < kk implies #[trigger] reply_step(trace[k], trace[k + 1], remote, resp0[k],
                    failed@, more_topics@, followup_acks@, followup_data@, max_messages, max_bytes) by {
                    lemma_step_grows(trace[k], trace[k + 1], remote, resp0[k], f0, m0, a0, p0,
                        failed@, more_topics@, followup_acks@, followup_data@, max_messages, max_bytes);
                }
                let t2 = trace.push(*self);
                assert forall|k: int| 0 <= k < kk + 1 implies #[trigger] reply_step(t2[k], t2[k + 1], remote, resp0[k],
                    failed@, more_topics@, followup_acks@, followup_data@, max_messages, max_bytes) by {
                    if k < kk {
                        assert(t2[k] == trace[k] && t2[k + 1] == trace[k + 1]);
                        assert(reply_step(trace[k], trace[k + 1], remote, resp0[k],
                            failed@, more_topics@, followup_acks@, followup_data@, max_messages, max_bytes));
                    } else {
                        assert(t2[k] == s0);
                    }
                }
                assert(resp0.take(kk + 1).drop_last() =~= resp0.take(kk));
                assert(resp0.take(kk + 1).last() == mg);
                trace = t2;
            }
        }
        let out = BatchReplies { acks, followup_acks, followup_data, owed, more: more_topics, failed, unexpected: false };
        proof {
            assert(resp0.take(resp0.len() as int) =~= resp0);
            assert(replies_trace(trace, resp0.len() as int, remote, group@, resp0, out, max_messages, max_bytes));
        }
        out
    }
}


/// Whether `remote`, whose summary is `summary`, already holds what this node holds
/// of its topic in `s`: it is a member, names the branch and heads held here, and
/// the topic is whole here, with no hole and nothing buffered waiting.
pub open spec fn converged(s: MemoryStorage, remote: PeerId, summary: SyncSummary) -> bool {
    let t = summary.topic_id;
    &&& has_state(s, t)
    &&& s.topics_map()[t].state.members@.contains(remote)
    &&& summary.genesis == Some(s.topics_map()[t].state.genesis)
    &&& summary.heads@ == s.topics_map()[t].state.heads@
    &&& forall|id: OpId| !(#[trigger] crate::oplog::inspect::is_hole(s.ops_map(), t, id))
        && !crate::oplog::inspect::pending_missing_of(s.pending_seq(), t).contains(id)
}

/// Whether `v` opens the topic of `summary`, then carries `pages` as data, then, when
/// the peer holds ops this node lacks, a request naming what it holds here.
pub open spec fn opens_with(s: MemoryStorage, summary: SyncSummary, v: Seq<SyncMessage>, pages: Seq<SyncData>) -> bool {
    let t = summary.topic_id;
    let ahead = remote_ahead(s, summary.genesis, t, summary.clock@);
    &&& v.len() == pages.len() + 1 + (if ahead { 1int } else { 0int })
    &&& v[0] == SyncMessage::Open(t)
    &&& forall|k: int| 0 <= k < pages.len() ==> v[k + 1] == SyncMessage::Data(#[trigger] pages[k])
    &&& ahead ==> (v.last() matches SyncMessage::Request(q) && q.topic_id == t
        && q.genesis == Some(s.topics_map()[t].state.genesis))
}

impl Irokle {
    /// The messages that open `remote`'s exchange of the topic of `summary`, or none
    /// when nothing is to be exchanged. A topic not held here is pulled, when the
    /// peer names a branch, with a request naming nothing held, if the peer may
    /// introduce it. A held topic the peer already holds whole needs nothing; else
    /// the open goes with the first page of the ops the peer lacks, in history order,
    /// in at most `max_messages` data messages of `budget` bytes in all, and a
    /// request when the peer holds ops this node lacks.
    pub fn plan_topic_messages(&self, remote: PeerId, summary: &SyncSummary, max_messages: usize, budget: usize)
        -> (r: Result<Option<Vec<SyncMessage>>, Error>)
        ensures
            !has_state(self.store(), summary.topic_id) && summary.genesis is None ==> r matches Ok(None),
            !has_state(self.store(), summary.topic_id) && summary.genesis is Some
                && !may_introduce(self.store(), self.spec_whitelist(), summary.topic_id, remote)
                ==> r == Err::<Option<Vec<SyncMessage>>, Error>(Error::PeerNotWhitelisted(remote)),
            !has_state(self.store(), summary.topic_id) && summary.genesis is Some
                && may_introduce(self.store(), self.spec_whitelist(), summary.topic_id, remote)
                ==> (r matches Ok(Some(v)) && v@.len() == 2 && v@[0] == SyncMessage::Open(summary.topic_id)
                    && (v@[1] matches SyncMessage::Request(q) && q.topic_id == summary.topic_id && q.genesis is None
                        && q.clock@ == Map::<Id32, u64>::empty())),
            has_state(self.store(), summary.topic_id)
                && !self.store().topics_map()[summary.topic_id].state.members@.contains(remote)
                ==> r matches Err(Error::NotTopicMember),
            converged(self.store(), remote, *summary) ==> r matches Ok(None),
            has_state(self.store(), summary.topic_id) && !converged(self.store(), remote, *summary)
                && crate::paging::servable(self.store(), summary.topic_id, remote) ==> r matches Ok(Some(_)),
            has_state(self.store(), summary.topic_id) ==> (r matches Ok(Some(v)) ==> exists|pages: Seq<SyncData>, cut: bool|
                #[trigger] crate::paging::page_serves(self.store(), *summary, pages, cut, max_messages, budget)
                && opens_with(self.store(), *summary, v@, pages)),
            has_state(self.store(), summary.topic_id) ==> (r matches Ok(None) ==> converged(self.store(), remote, *summary)),
    {
        let topic_id = summary.topic_id;
        let held = match self.storage().topic_state(&topic_id) {
            None => false,
            Some(state) => {
                let same_branch = match summary.genesis {
                    Some(g) => g.same(&state.genesis),
                    None => false,
                };
                if state.members.contains(&remote) && same_branch && state.heads.set_eq(&summary.heads) {
                    let unresolved = self.topic_unresolved(topic_id);
                    if unresolved.is_empty() {
                        proof {
                            assert forall|id: OpId| !(#[trigger] crate::oplog::inspect::is_hole(self.store().ops_map(), topic_id, id))
                                && !crate::oplog::inspect::pending_missing_of(self.store().pending_seq(), topic_id).contains(id) by {
                                if crate::oplog::inspect::is_hole(self.store().ops_map(), topic_id, id)
                                    || crate::oplog::inspect::pending_missing_of(self.store().pending_seq(), topic_id).contains(id) {
                                    assert(unresolved@.contains(id));
                                }
                            }
                        }
                        return Ok(None);
                    }
                    proof {
                        let x = unresolved@.choose();
                        assert(unresolved@.contains(x));
                    }
                }
                true
            },
        };
        if !held {
            if summary.genesis.is_none() {
                return Ok(None);
            }
            let probe = SyncData { topic_id, ops: Vec::new() };
            match self.ensure_peer_allowed(remote, &probe) {
                Ok(()) => {},
                Err(e) => { return Err(e); },
            }
            let own = self.sync_summary(topic_id);
            let mut v: Vec<SyncMessage> = Vec::new();
            v.push(SyncMessage::Open(topic_id));
            v.push(SyncMessage::Request(own));
            return Ok(Some(v));
        }
        let page = self.plan_data_page(remote, summary, max_messages, budget)?;
        let DataPage { messages, cut } = page;
        let ghost pages = messages@;
        let mut rest = messages;
        let mut out: Vec<SyncMessage> = Vec::new();
        out.push(SyncMessage::Open(topic_id));
        let mut i: usize = 0;
        while rest.len() > 0
            invariant
                i + rest@.len() == pages.len(),
                pages.len() <= usize::MAX,
                rest@ == pages.skip(i as int),
                out@.len() == i + 1,
                out@[0] == SyncMessage::Open(topic_id),
                forall|k: int| 0 <= k < i ==> out@[k + 1] == SyncMessage::Data(#[trigger] pages[k]),
            decreases rest@.len(),
        {
            let m = rest.remove(0);
            proof { assert(m == pages[i as int]); }
            out.push(SyncMessage::Data(m));
            proof { assert(rest@ =~= pages.skip(i as int + 1)); }
            i += 1;
        }
        if self.remote_is_ahead(summary) {
            out.push(SyncMessage::Request(self.sync_summary(topic_id)));
        }
        proof {
            assert(crate::paging::page_serves(self.store(), *summary, pages, cut, max_messages, budget));
            assert(opens_with(self.store(), *summary, out@, pages));
        }
        Ok(Some(out))
    }
}

} // verus!
