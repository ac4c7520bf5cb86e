//! What the sync transport decides without doing I/O: the bounds of one sync
//! stream, the protocol name it offers, how far an attempt moved toward its
//! goal, who may open a topic, and when the daily full sweep falls.
use vstd::prelude::*;
use crate::ids::{Id32, OpId, PeerId, ActorId, TopicId};
use crate::node::bootstrap::StagedTopic;
use crate::clock::{ActorClock, clock_at};
use crate::storage::TopicState;

verus! {

/// Messages one sync stream may carry.
pub const MAX_SYNC_MESSAGES_PER_STREAM: usize = 4096;
/// Messages one batched request stream may carry: half the stream cap, so a
/// reply echoing two messages per topic stays under its own cap.
pub const MAX_BATCH_STREAM_MESSAGES: usize = 2048;
/// Bytes one sync stream may carry, frame headers included.
pub const MAX_SYNC_STREAM_BYTES: usize = 268435456;
/// Inbound frame bytes all served streams may hold at once.
pub const MAX_INBOUND_FRAME_BYTES: usize = 268435456;
/// Seconds in a day.
pub const SECONDS_PER_DAY: u64 = 86400;
/// Bytes of the length header in front of each frame.
pub const FRAME_HEADER_LEN: usize = 4;

/// The bounds of one sync stream.
#[derive(Clone, Copy, Debug, PartialEq, Eq)]
pub struct StreamLimits {
    pub bytes: usize,
    pub messages: usize,
    /// Messages one batched request stream may carry.
    pub batch_messages: usize,
    /// Inbound data frame bytes all served streams may hold at once.
    pub inbound_bytes: usize,
}

impl Default for StreamLimits {
    fn default() -> (r: StreamLimits)
        ensures
            r.bytes == MAX_SYNC_STREAM_BYTES,
            r.messages == MAX_SYNC_MESSAGES_PER_STREAM,
            r.batch_messages == MAX_BATCH_STREAM_MESSAGES,
            r.inbound_bytes == MAX_INBOUND_FRAME_BYTES,
    {
        StreamLimits {
            bytes: MAX_SYNC_STREAM_BYTES,
            messages: MAX_SYNC_MESSAGES_PER_STREAM,
            batch_messages: MAX_BATCH_STREAM_MESSAGES,
            inbound_bytes: MAX_INBOUND_FRAME_BYTES,
        }
    }
}

/// Why a stream refused one more frame.
#[derive(Clone, Copy, Debug, PartialEq, Eq)]
pub enum StreamError {
    /// The stream already carried as many messages as it may.
    TooManyMessages,
    /// The byte count no longer fits in a `usize`.
    ByteOverflow,
    /// The stream would carry more bytes than it may.
    TooLong,
}

/// The messages and bytes a sync stream carried so far, against its bounds.
#[derive(Clone, Copy, Debug)]
pub struct SyncReadLimits {
    pub limits: StreamLimits,
    pub messages: usize,
    pub bytes: usize,
}

impl SyncReadLimits {
    /// A stream that carried nothing yet.
    pub fn new(limits: StreamLimits) -> (r: SyncReadLimits)
        ensures r.limits == limits, r.messages == 0, r.bytes == 0,
    {
        SyncReadLimits { limits, messages: 0, bytes: 0 }
    }

    /// Counts one frame whose payload is `frame_len` bytes, and returns its
    /// index in the stream. A frame past the message bound is refused with
    /// nothing counted; one past the byte bound is refused with its bytes
    /// counted, so the stream stays refused.
    pub fn observe_frame(&mut self, frame_len: usize) -> (r: Result<usize, StreamError>)
        requires frame_len + FRAME_HEADER_LEN <= usize::MAX,
        ensures
            final(self).limits == old(self).limits,
            old(self).messages >= old(self).limits.messages ==> r == Err::<usize, StreamError>(StreamError::TooManyMessages) && *final(self) == *old(self),
            old(self).messages < old(self).limits.messages && old(self).bytes + frame_len + FRAME_HEADER_LEN > usize::MAX
                ==> r == Err::<usize, StreamError>(StreamError::ByteOverflow) && *final(self) == *old(self),
            old(self).messages < old(self).limits.messages && old(self).bytes + frame_len + FRAME_HEADER_LEN <= usize::MAX ==> {
                &&& final(self).bytes == old(self).bytes + frame_len + FRAME_HEADER_LEN
                &&& (final(self).bytes > old(self).limits.bytes ==> r == Err::<usize, StreamError>(StreamError::TooLong)
                    && final(self).messages == old(self).messages)
                &&& (final(self).bytes <= old(self).limits.bytes ==> r == Ok::<usize, StreamError>(old(self).messages)
                    && final(self).messages == old(self).messages + 1)
            },
    {
        if self.messages >= self.limits.messages {
            return Err(StreamError::TooManyMessages);
        }
        let framed = frame_len + FRAME_HEADER_LEN;
        self.bytes = match self.bytes.checked_add(framed) {
            Some(b) => b,
            None => return Err(StreamError::ByteOverflow),
        };
        if self.bytes > self.limits.bytes {
            return Err(StreamError::TooLong);
        }
        let frame_index = self.messages;
        self.messages = self.messages + 1;
        Ok(frame_index)
    }
}

/// The protocol name the sync transport offers: `irokle/sync/2`.
pub open spec fn sync_alpn_bytes() -> Seq<u8> {
    seq![105u8, 114u8, 111u8, 107u8, 108u8, 101u8, 47u8, 115u8, 121u8, 110u8, 99u8, 47u8, 50u8]
}

/// The protocol name the sync transport offers.
pub fn sync_alpn() -> (r: Vec<u8>)
    ensures r@ == sync_alpn_bytes(),
{
    let r: Vec<u8> = vec![105u8, 114u8, 111u8, 107u8, 108u8, 101u8, 47u8, 115u8, 121u8, 110u8, 99u8, 47u8, 50u8];
    assert(r@ =~= sync_alpn_bytes());
    r
}

/// Whether two byte strings are equal.
pub(crate) fn same_bytes(a: &Vec<u8>, b: &Vec<u8>) -> (r: bool)
    ensures r == (a@ == b@),
{
    if a.len() != b.len() {
        return false;
    }
    let mut i: usize = 0;
    while i < a.len()
        invariant
            i <= a@.len(),
            a@.len() == b@.len(),
            forall|j: int| 0 <= j < i ==> a@[j] == b@[j],
        decreases a@.len() - i,
    {
        if a[i] != b[i] {
            return false;
        }
        i += 1;
    }
    assert(a@ =~= b@);
    true
}

/// The protocol names `alpns` with the sync protocol's added once: unchanged
/// when it is there already, else it comes last.
pub fn extend_alpns(alpns: Vec<Vec<u8>>) -> (r: Vec<Vec<u8>>)
    ensures
        (exists|i: int| 0 <= i < alpns@.len() && #[trigger] alpns@[i]@ == sync_alpn_bytes()) ==> r@ == alpns@,
        !(exists|i: int| 0 <= i < alpns@.len() && #[trigger] alpns@[i]@ == sync_alpn_bytes()) ==> {
            &&& r@.len() == alpns@.len() + 1
            &&& r@.take(alpns@.len() as int) == alpns@
            &&& r@.last()@ == sync_alpn_bytes()
        },
{
    let irokle = sync_alpn();
    let mut i: usize = 0;
    while i < alpns.len()
        invariant
            i <= alpns@.len(),
            irokle@ == sync_alpn_bytes(),
            forall|j: int| 0 <= j < i ==> #[trigger] alpns@[j]@ != sync_alpn_bytes(),
        decreases alpns@.len() - i,
    {
        if same_bytes(&alpns[i], &irokle) {
            return alpns;
        }
        i += 1;
    }
    let ghost before = alpns@;
    let mut out = alpns;
    out.push(irokle);
    proof { assert(out@.take(before.len() as int) =~= before); }
    out
}

/// Whether `alpns` names the protocol `alpn`.
pub open spec fn has_alpn(alpns: Seq<Vec<u8>>, alpn: Seq<u8>) -> bool {
    exists|i: int| 0 <= i < alpns.len() && #[trigger] alpns[i]@ == alpn
}

/// `alpns` with `alpn` added once: unchanged when it is there already, else last.
pub open spec fn with_one_alpn(alpns: Seq<Vec<u8>>, alpn: Vec<u8>) -> Seq<Vec<u8>> {
    if has_alpn(alpns, alpn@) { alpns } else { alpns.push(alpn) }
}

/// `alpns` with each of `more` added once, in order.
pub open spec fn with_alpn_list(alpns: Seq<Vec<u8>>, more: Seq<Vec<u8>>) -> Seq<Vec<u8>>
    decreases more.len(),
{
    if more.len() == 0 { alpns } else { with_one_alpn(with_alpn_list(alpns, more.drop_last()), more.last()) }
}

/// Adds `alpn` to `alpns` unless it is there already.
pub fn add_alpn(alpns: &mut Vec<Vec<u8>>, alpn: Vec<u8>)
    ensures final(alpns)@ == with_one_alpn(old(alpns)@, alpn),
{
    let mut i: usize = 0;
    while i < alpns.len()
        invariant
            i <= alpns@.len(),
            forall|j: int| 0 <= j < i ==> #[trigger] alpns@[j]@ != alpn@,
        decreases alpns@.len() - i,
    {
        if same_bytes(&alpns[i], &alpn) {
            proof { assert(has_alpn(alpns@, alpn@)); }
            return;
        }
        i += 1;
    }
    alpns.push(alpn);
}

/// How one topic attempt ended.
#[derive(Debug, PartialEq, Eq)]
pub enum AttemptOutcome {
    /// The exchange finished with nothing left to do.
    Complete,
    /// The exchange moved toward its goal without reaching it.
    Advanced,
    /// The exchange stopped without moving toward its goal.
    Blocked(String),
    /// The store must be reopened before the topic is synced again.
    ReopenRequired(String),
    /// The exchange failed.
    Failed(String),
}

/// Why a topic attempt stopped: whether the transport called its data invalid, and
/// the error's text.
#[derive(Debug)]
pub struct AttemptError {
    pub invalid_data: bool,
    pub message: String,
}

/// The text of an exchange that stopped without moving toward its goal.
pub open spec fn no_progress_text() -> Seq<char> {
    "sync exchange made no progress"@
}

/// The text of an exchange that stopped without moving toward its goal.
pub fn no_progress_message() -> (r: String)
    ensures r@ == no_progress_text(),
{
    "sync exchange made no progress".to_owned()
}

/// The typed outcome of one topic attempt: an exchange that stopped without moving
/// toward its goal is blocked, any other error failed it.
pub fn attempt_outcome(result: Result<(), AttemptError>, advanced: bool) -> (r: AttemptOutcome)
    ensures
        match result {
            Ok(()) => if advanced { r is Advanced } else { r is Complete },
            Err(e) => if e.invalid_data && e.message@ == no_progress_text() {
                r matches AttemptOutcome::Blocked(m) && m@ == e.message@
            } else {
                r matches AttemptOutcome::Failed(m) && m@ == e.message@
            },
        },
{
    match result {
        Ok(()) => if advanced { AttemptOutcome::Advanced } else { AttemptOutcome::Complete },
        Err(e) => {
            let expected = no_progress_message();
            if e.invalid_data && e.message == expected {
                AttemptOutcome::Blocked(e.message)
            } else {
                AttemptOutcome::Failed(e.message)
            }
        },
    }
}

/// The positions of `target` that `clock` covers, summed over the actors of `actors`.
pub open spec fn covered_total(clock: Map<ActorId, u64>, target: Map<ActorId, u64>, actors: Seq<ActorId>) -> int
    decreases actors.len(),
{
    if actors.len() == 0 {
        0
    } else {
        let a = actors.last();
        let c = clock_at(clock, a);
        let t = clock_at(target, a);
        covered_total(clock, target, actors.drop_last()) + if c < t { c as int } else { t as int }
    }
}

/// A sum of smaller counts is no larger.
proof fn lemma_covered_total_prefix(clock: Map<ActorId, u64>, target: Map<ActorId, u64>, actors: Seq<ActorId>, n: int)
    requires 0 <= n <= actors.len(),
    ensures 0 <= covered_total(clock, target, actors.take(n)) <= covered_total(clock, target, actors),
    decreases actors.len(),
{
    if n < actors.len() {
        assert(actors.drop_last().take(n) =~= actors.take(n));
        lemma_covered_total_prefix(clock, target, actors.drop_last(), n);
    } else {
        assert(actors.take(n) =~= actors);
        lemma_covered_total_nonneg(clock, target, actors);
    }
}

proof fn lemma_covered_total_nonneg(clock: Map<ActorId, u64>, target: Map<ActorId, u64>, actors: Seq<ActorId>)
    ensures covered_total(clock, target, actors) >= 0,
    decreases actors.len(),
{
    if actors.len() > 0 {
        lemma_covered_total_nonneg(clock, target, actors.drop_last());
    }
}

/// The positions of `target` that `clock` covers, summed over `target`'s actors.
pub fn covered(clock: &ActorClock, target: &ActorClock) -> (r: u64)
    requires covered_total(clock@, target@, target.actors()) <= u64::MAX,
    ensures r == covered_total(clock@, target@, target.actors()),
{
    let n = target.len();
    let mut sum: u64 = 0;
    let mut i: usize = 0;
    while i < n
        invariant
            i <= n,
            n == target.actors().len(),
            covered_total(clock@, target@, target.actors()) <= u64::MAX,
            sum == covered_total(clock@, target@, target.actors().take(i as int)),
        decreases n - i,
    {
        let (actor, seq) = target.entry_at(i);
        let have = clock.get(&actor);
        let add = if have < seq { have } else { seq };
        proof {
            let s = target.actors();
            assert(s.take(i as int + 1).drop_last() =~= s.take(i as int));
            assert(s.take(i as int + 1).last() == actor);
            assert(clock_at(target@, actor) == seq);
            lemma_covered_total_prefix(clock@, target@, s, i as int + 1);
        }
        sum = sum + add;
        i += 1;
    }
    proof { assert(target.actors().take(n as int) =~= target.actors()); }
    sum
}

/// What one sync attempt set out to reach, captured when it was planned.
#[derive(Debug)]
pub struct TopicGoal {
    /// Whether the topic was not held locally when planned.
    pub pull: bool,
    pub genesis: Option<OpId>,
    /// The losing local genesis a branch pull replaces.
    pub replaces: Option<OpId>,
    /// The peer's clock from its summary.
    pub inbound: ActorClock,
    /// The local clock the peer should certify.
    pub outbound: ActorClock,
}

/// How far an attempt got: positions of the goal covered each way, holes
/// left, and staged positions.
#[derive(Clone, Copy, Debug, PartialEq, Eq)]
pub struct GoalProgress {
    pub inbound: u64,
    pub outbound: u64,
    pub holes: usize,
    pub staged: u64,
}

impl GoalProgress {
    /// Whether the goal is reached: every position of both clocks covered and
    /// no hole left.
    pub fn reached(&self, goal: &TopicGoal) -> (r: bool)
        requires
            covered_total(goal.inbound@, goal.inbound@, goal.inbound.actors()) <= u64::MAX,
            covered_total(goal.outbound@, goal.outbound@, goal.outbound.actors()) <= u64::MAX,
        ensures
            r == (self.inbound == covered_total(goal.inbound@, goal.inbound@, goal.inbound.actors())
                && self.outbound == covered_total(goal.outbound@, goal.outbound@, goal.outbound.actors())
                && self.holes == 0),
    {
        self.inbound == covered(&goal.inbound, &goal.inbound)
            && self.outbound == covered(&goal.outbound, &goal.outbound)
            && self.holes == 0
    }

    /// Whether this progress moved on from `before` in any way.
    pub fn advanced_from(&self, before: &GoalProgress) -> (r: bool)
        ensures
            r == (self.inbound > before.inbound || self.outbound > before.outbound
                || self.holes < before.holes || self.staged > before.staged),
    {
        self.inbound > before.inbound
            || self.outbound > before.outbound
            || self.holes < before.holes
            || self.staged > before.staged
    }
}

/// The delay in milliseconds until the first full sweep: the interval itself
/// when it is shorter than a day, else the time until the next `time_of_day`
/// (whole seconds into the day), with `now_secs` seconds since the epoch.
pub open spec fn full_sweep_delay(interval_ms: u64, time_of_day_ms: u64, now_secs: u64) -> int {
    if interval_ms < SECONDS_PER_DAY * 1000 {
        interval_ms as int
    } else {
        let current = now_secs % SECONDS_PER_DAY;
        let target = (time_of_day_ms / 1000) % SECONDS_PER_DAY;
        1000 * (if current < target { target - current } else { SECONDS_PER_DAY - current + target })
    }
}

/// The delay until the first full sweep; see [`full_sweep_delay`].
pub fn initial_full_sweep_delay(interval_ms: u64, time_of_day_ms: u64, now_secs: u64) -> (r: u64)
    ensures r == full_sweep_delay(interval_ms, time_of_day_ms, now_secs),
{
    if interval_ms < SECONDS_PER_DAY * 1000 {
        return interval_ms;
    }
    let current = now_secs % SECONDS_PER_DAY;
    let target = (time_of_day_ms / 1000) % SECONDS_PER_DAY;
    let delay_secs = if current < target { target - current } else { SECONDS_PER_DAY - current + target };
    delay_secs * 1000
}

/// Whether `peer_id` may open `state`'s topic: a member, or a peer a membership
/// control removed, which may still read the topic's summary.
pub open spec fn may_open(state: TopicState, peer_id: PeerId) -> bool {
    state.members@.contains(peer_id)
        || (state.membership_controls@.contains_key(peer_id) && !state.membership_controls@[peer_id].is_member)
}

/// Whether `peer_id` may open `state`'s topic: a member, or a peer a membership
/// control removed, which may still read the topic's summary.
pub fn peer_may_open_topic(state: &TopicState, peer_id: PeerId) -> (r: bool)
    ensures
        r == may_open(*state, peer_id),
        r == (state.members@.contains(peer_id)
            || (state.membership_controls@.contains_key(peer_id) && !state.membership_controls@[peer_id].is_member)),
{
    if state.members.contains(&peer_id) {
        return true;
    }
    match state.membership_controls.get(&peer_id) {
        Some(control) => !control.is_member,
        None => false,
    }
}

/// Staging receipts remembered, one per peer and topic, oldest dropped first.
pub const MAX_BOOTSTRAP_RECEIPTS: usize = 1024;

/// The newest staging receipt each peer returned for a topic it does not hold,
/// one per peer and topic, in the order their keys were first recorded; the
/// oldest key is dropped past [`MAX_BOOTSTRAP_RECEIPTS`].
#[derive(Debug)]
pub struct ReceiptLog {
    entries: Vec<(PeerId, TopicId, StagedTopic)>,
}

/// The peer and topic of a logged receipt.
pub open spec fn receipt_key(e: (PeerId, TopicId, StagedTopic)) -> (PeerId, TopicId) {
    (e.0, e.1)
}

/// The position in `s` of the receipt for `peer` and `topic`, if any.
pub open spec fn receipt_index(s: Seq<(PeerId, TopicId, StagedTopic)>, peer: PeerId, topic: TopicId) -> Option<int> {
    if exists|i: int| 0 <= i < s.len() && #[trigger] receipt_key(s[i]) == (peer, topic) {
        Some(choose|i: int| 0 <= i < s.len() && #[trigger] receipt_key(s[i]) == (peer, topic))
    } else {
        None
    }
}

impl ReceiptLog {
    /// The receipts, oldest key first.
    pub closed spec fn spec_entries(&self) -> Seq<(PeerId, TopicId, StagedTopic)> {
        self.entries@
    }

    /// At most one receipt per peer and topic, and no more than the bound.
    pub closed spec fn wf(&self) -> bool {
        &&& self.entries@.len() <= MAX_BOOTSTRAP_RECEIPTS
        &&& forall|i: int, j: int| 0 <= i < j < self.entries@.len()
            ==> receipt_key(#[trigger] self.entries@[i]) != receipt_key(#[trigger] self.entries@[j])
    }

    /// An empty log.
    pub fn new() -> (r: ReceiptLog)
        ensures r.wf(), r.spec_entries() == Seq::<(PeerId, TopicId, StagedTopic)>::empty(),
    {
        ReceiptLog { entries: Vec::new() }
    }

    /// The position of the receipt for `peer_id` and `topic_id`, if logged.
    fn find(&self, peer_id: &PeerId, topic_id: &TopicId) -> (r: Option<usize>)
        ensures
            match r {
                Some(i) => i < self.entries@.len() && receipt_key(self.entries@[i as int]) == (*peer_id, *topic_id),
                None => forall|i: int| 0 <= i < self.entries@.len() ==> #[trigger] receipt_key(self.entries@[i]) != (*peer_id, *topic_id),
            },
    {
        let mut i: usize = 0;
        while i < self.entries.len()
            invariant
                i <= self.entries@.len(),
                forall|j: int| 0 <= j < i ==> #[trigger] receipt_key(self.entries@[j]) != (*peer_id, *topic_id),
            decreases self.entries@.len() - i,
        {
            if self.entries[i].0.same(peer_id) && self.entries[i].1.same(topic_id) {
                return Some(i);
            }
            i += 1;
        }
        None
    }

    /// The receipt logged for `peer_id` and `topic_id`, if any.
    pub fn get(&self, peer_id: &PeerId, topic_id: &TopicId) -> (r: Option<&StagedTopic>)
        requires self.wf(),
        ensures
            r is Some <==> receipt_index(self.spec_entries(), *peer_id, *topic_id) is Some,
            r matches Some(x) ==> *x == self.spec_entries()[receipt_index(self.spec_entries(), *peer_id, *topic_id)->Some_0].2,
    {
        match self.find(peer_id, topic_id) {
            Some(i) => {
                proof {
                    let s = self.entries@;
                    assert(receipt_key(s[i as int]) == (*peer_id, *topic_id));
                    let k = choose|k: int| 0 <= k < s.len() && #[trigger] receipt_key(s[k]) == (*peer_id, *topic_id);
                    assert(k == i as int) by {
                        if k < i { assert(receipt_key(s[k]) != receipt_key(s[i as int])); }
                        if k > i { assert(receipt_key(s[i as int]) != receipt_key(s[k])); }
                    }
                }
                Some(&self.entries[i].2)
            },
            None => None,
        }
    }

    /// Logs `receipt` as the newest for `peer_id` and `topic_id`: it replaces
    /// that key's receipt in place, or joins last as a new key, dropping the
    /// oldest key past the bound.
    pub fn record(&mut self, peer_id: PeerId, topic_id: TopicId, receipt: StagedTopic)
        requires old(self).wf(),
        ensures
            final(self).wf(),
            receipt_index(old(self).spec_entries(), peer_id, topic_id) matches Some(i)
                ==> final(self).spec_entries() == old(self).spec_entries().update(i, (peer_id, topic_id, receipt)),
            receipt_index(old(self).spec_entries(), peer_id, topic_id) is None ==> ({
                let pushed = old(self).spec_entries().push((peer_id, topic_id, receipt));
                final(self).spec_entries() == if pushed.len() > MAX_BOOTSTRAP_RECEIPTS { pushed.drop_first() } else { pushed }
            }),
    {
        let ghost s = self.entries@;
        match self.find(&peer_id, &topic_id) {
            Some(i) => {
                proof {
                    let k = choose|k: int| 0 <= k < s.len() && #[trigger] receipt_key(s[k]) == (peer_id, topic_id);
                    assert(k == i as int) by {
                        if k < i { assert(receipt_key(s[k]) != receipt_key(s[i as int])); }
                        if k > i { assert(receipt_key(s[i as int]) != receipt_key(s[k])); }
                    }
                }
                self.entries.set(i, (peer_id, topic_id, receipt));
                proof {
                    assert forall|a: int, b: int| 0 <= a < b < self.entries@.len()
                        implies receipt_key(#[trigger] self.entries@[a]) != receipt_key(#[trigger] self.entries@[b]) by {
                        if a != i && b != i {
                            assert(self.entries@[a] == s[a] && self.entries@[b] == s[b]);
                        } else if a == i {
                            assert(self.entries@[b] == s[b]);
                            assert(receipt_key(s[i as int]) != receipt_key(s[b]));
                        } else {
                            assert(self.entries@[a] == s[a]);
                            assert(receipt_key(s[a]) != receipt_key(s[i as int]));
                        }
                    }
                }
            },
            None => {
                self.entries.push((peer_id, topic_id, receipt));
                proof {
                    assert(receipt_index(s, peer_id, topic_id) is None);
                }
                if self.entries.len() > MAX_BOOTSTRAP_RECEIPTS {
                    let _ = self.entries.remove(0);
                    proof { assert(self.entries@ =~= s.push((peer_id, topic_id, receipt)).drop_first()); }
                }
                proof {
                    let t = s.push((peer_id, topic_id, receipt));
                    assert forall|a: int, b: int| 0 <= a < b < t.len()
                        implies receipt_key(#[trigger] t[a]) != receipt_key(#[trigger] t[b]) by {
                        if b < s.len() {
                            assert(t[a] == s[a] && t[b] == s[b]);
                        } else {
                            assert(t[a] == s[a]);
                        }
                    }
                    assert forall|a: int, b: int| 0 <= a < b < self.entries@.len()
                        implies receipt_key(#[trigger] self.entries@[a]) != receipt_key(#[trigger] self.entries@[b]) by {
                        if t.len() > MAX_BOOTSTRAP_RECEIPTS {
                            assert(self.entries@[a] == t[a + 1] && self.entries@[b] == t[b + 1]);
                        } else {
                            assert(self.entries@[a] == t[a] && self.entries@[b] == t[b]);
                        }
                    }
                }
            },
        }
    }

    /// Forgets the receipt for `peer_id` and `topic_id`, if logged.
    pub fn clear(&mut self, peer_id: &PeerId, topic_id: &TopicId)
        requires old(self).wf(),
        ensures
            final(self).wf(),
            receipt_index(old(self).spec_entries(), *peer_id, *topic_id) matches Some(i)
                ==> final(self).spec_entries() == old(self).spec_entries().remove(i),
            receipt_index(old(self).spec_entries(), *peer_id, *topic_id) is None
                ==> final(self).spec_entries() == old(self).spec_entries(),
    {
        let ghost s = self.entries@;
        match self.find(peer_id, topic_id) {
            Some(i) => {
                proof {
                    let k = choose|k: int| 0 <= k < s.len() && #[trigger] receipt_key(s[k]) == (*peer_id, *topic_id);
                    assert(k == i as int) by {
                        if k < i { assert(receipt_key(s[k]) != receipt_key(s[i as int])); }
                        if k > i { assert(receipt_key(s[i as int]) != receipt_key(s[k])); }
                    }
                }
                let _ = self.entries.remove(i);
                proof {
                    assert(self.entries@ =~= s.remove(i as int));
                    assert forall|a: int, b: int| 0 <= a < b < self.entries@.len()
                        implies receipt_key(#[trigger] self.entries@[a]) != receipt_key(#[trigger] self.entries@[b]) by {
                        let a2 = if a < i { a } else { a + 1 };
                        let b2 = if b < i { b } else { b + 1 };
                        assert(self.entries@[a] == s[a2] && self.entries@[b] == s[b2]);
                    }
                }
            },
            None => {},
        }
    }
}

} // verus!
