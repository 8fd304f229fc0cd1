use vstd::prelude::*;
use std::collections::VecDeque;
use crate::message::{Message, MessageView};
use crate::channel::{Channel, ChannelState, CLOSED, FULL};
use crate::seqs::{lemma_filter_take_step, lemma_filter_prefix_len, lemma_filter_all_pass, lemma_filter_none_pass};

verus! {

/// Error returned by `ack` for an ID that no tracked message carries.
pub const NOT_FOUND: &'static str = "Message ID not found in outbox";

/// Delivery status for reliable message tracking.
#[derive(Debug, Clone, Copy, PartialEq, Eq, Structural)]
pub enum DeliveryStatus {
    /// Sent, awaiting acknowledgment.
    Pending,
    /// Acknowledged by recipient.
    Acknowledged,
    /// Failed after max retries.
    Failed,
}

/// A tracked message with retry state.
#[derive(Debug, Clone)]
pub struct TrackedMessage {
    pub msg: Message,
    pub status: DeliveryStatus,
    pub retries: u32,
    pub max_retries: u32,
}

/// Abstract state of a `ReliableChannel`: the inbox of delivered messages
/// that `receive` hands out, oldest first, and the outbox of tracked
/// messages awaiting acknowledgement, in send order.
pub struct ReliableChannelView {
    pub name: Seq<char>,
    pub inbox: Seq<Message>,
    pub outbox: Seq<TrackedMessage>,
    pub open: bool,
    pub capacity: nat,
    pub max_retries: u32,
}

/// A tracked message carries the channel's retry limit, has not been retried
/// beyond it, and has failed only once it reached it.
pub open spec fn tracked_wf(e: TrackedMessage, max_retries: u32) -> bool {
    &&& e.max_retries == max_retries
    &&& e.retries <= e.max_retries
    &&& e.status == DeliveryStatus::Failed ==> e.retries == e.max_retries
}

/// Invariant of a reliable channel: it tracks no more messages than its
/// capacity, and every tracked message is consistent.
pub open spec fn reliable_wf(v: ReliableChannelView) -> bool {
    &&& v.outbox.len() <= v.capacity
    &&& forall|i: int| 0 <= i < v.outbox.len() ==> tracked_wf(#[trigger] v.outbox[i], v.max_retries)
}

/// A new reliable channel: open, with empty inbox and outbox.
pub open spec fn reliable_fresh(name: Seq<char>, capacity: nat, max_retries: u32) -> ReliableChannelView {
    ReliableChannelView {
        name,
        inbox: Seq::empty(),
        outbox: Seq::empty(),
        open: true,
        capacity,
        max_retries,
    }
}

/// What `send` answers on a channel in state `v`.
pub open spec fn reliable_send_result(v: ReliableChannelView) -> Result<(), &'static str> {
    if !v.open {
        Err(CLOSED)
    } else if v.outbox.len() >= v.capacity {
        Err(FULL)
    } else {
        Ok(())
    }
}

/// A message as the outbox tracks it right after it was sent.
pub open spec fn fresh_tracked(msg: Message, max_retries: u32) -> TrackedMessage {
    TrackedMessage { msg, status: DeliveryStatus::Pending, retries: 0, max_retries }
}

/// Whether `e` tracks a message with the contents `msg`, just sent under the
/// retry limit `max_retries`.
pub open spec fn tracks_new(e: TrackedMessage, msg: MessageView, max_retries: u32) -> bool {
    &&& e.msg@ == msg
    &&& e.status == DeliveryStatus::Pending
    &&& e.retries == 0
    &&& e.max_retries == max_retries
}

/// Whether `w` is the state after `send(msg)` on a channel in state `v`:
/// an accepted message is delivered to the inbox and a copy of it joins the
/// outbox as pending; a refused one changes nothing.
pub open spec fn reliable_sent(v: ReliableChannelView, w: ReliableChannelView, msg: Message) -> bool {
    if reliable_send_result(v) is Ok {
        &&& w.inbox == v.inbox.push(msg)
        &&& w.outbox.len() == v.outbox.len() + 1
        &&& w.outbox.take(v.outbox.len() as int) == v.outbox
        &&& tracks_new(w.outbox.last(), msg@, v.max_retries)
        &&& w == ReliableChannelView { inbox: w.inbox, outbox: w.outbox, ..v }
    } else {
        w == v
    }
}

/// Whether `i` is the first position of the outbox whose message has ID `id`.
pub open spec fn is_first_with_id(s: Seq<TrackedMessage>, id: u64, i: int) -> bool {
    &&& 0 <= i < s.len()
    &&& s[i].msg.id == id
    &&& forall|j: int| 0 <= j < i ==> (#[trigger] s[j]).msg.id != id
}

/// The first position of the outbox whose message has ID `id`, if any.
pub open spec fn first_with_id(s: Seq<TrackedMessage>, id: u64) -> Option<int> {
    if exists|i: int| is_first_with_id(s, id, i) {
        Some(choose|i: int| is_first_with_id(s, id, i))
    } else {
        None
    }
}

/// What `status(id)` answers for an outbox `s`.
pub open spec fn status_of(s: Seq<TrackedMessage>, id: u64) -> Option<DeliveryStatus> {
    match first_with_id(s, id) {
        Some(i) => Some(s[i].status),
        None => None,
    }
}

/// The outbox after `ack(id)`: the first message with that ID is acknowledged.
pub open spec fn outbox_after_ack(s: Seq<TrackedMessage>, id: u64) -> Seq<TrackedMessage> {
    match first_with_id(s, id) {
        Some(i) => s.update(i, TrackedMessage { status: DeliveryStatus::Acknowledged, ..s[i] }),
        None => s,
    }
}

/// Whether `retry_pending` retries this message.
pub open spec fn retriable(e: TrackedMessage) -> bool {
    e.status == DeliveryStatus::Pending && e.retries < e.max_retries
}

/// What one `retry_pending` round does to a tracked message: a pending one
/// under its limit is retried once more, a pending one at its limit fails,
/// any other is left as it is.
pub open spec fn retry_step(e: TrackedMessage) -> TrackedMessage {
    if retriable(e) {
        TrackedMessage { retries: (e.retries + 1) as u32, ..e }
    } else if e.status == DeliveryStatus::Pending {
        TrackedMessage { status: DeliveryStatus::Failed, ..e }
    } else {
        e
    }
}

/// Number of messages one `retry_pending` round retries.
pub open spec fn retry_count(s: Seq<TrackedMessage>) -> nat {
    s.filter(|e: TrackedMessage| retriable(e)).len()
}

/// Contents of the messages one `retry_pending` round delivers again, in
/// outbox order.
pub open spec fn redelivered(s: Seq<TrackedMessage>) -> Seq<MessageView> {
    s.filter(|e: TrackedMessage| retriable(e)).map_values(|e: TrackedMessage| e.msg@)
}

/// Number of tracked messages in status `st`.
pub open spec fn count_status(s: Seq<TrackedMessage>, st: DeliveryStatus) -> nat {
    s.filter(|e: TrackedMessage| e.status == st).len()
}

/// The outbox after `clean_outbox`: only pending messages stay, in order.
pub open spec fn outbox_cleaned(s: Seq<TrackedMessage>) -> Seq<TrackedMessage> {
    s.filter(|e: TrackedMessage| e.status == DeliveryStatus::Pending)
}

/// A tracked message after `k` rounds of `retry_pending`.
pub open spec fn retry_rounds(e: TrackedMessage, k: nat) -> TrackedMessage
    decreases k,
{
    if k == 0 {
        e
    } else {
        retry_step(retry_rounds(e, (k - 1) as nat))
    }
}

/// An outbox after `k` rounds of `retry_pending`.
pub open spec fn outbox_after_rounds(s: Seq<TrackedMessage>, k: nat) -> Seq<TrackedMessage> {
    s.map_values(|e: TrackedMessage| retry_rounds(e, k))
}

/// Channel with acknowledgment and retry logic: every accepted message is
/// delivered and tracked until it is acknowledged or has failed.
#[derive(Debug, Clone)]
pub struct ReliableChannel {
    name: String,
    inbox: VecDeque<Message>,
    outbox: Vec<TrackedMessage>,
    state: ChannelState,
    capacity: usize,
    default_max_retries: u32,
}

impl View for ReliableChannel {
    type V = ReliableChannelView;

    closed spec fn view(&self) -> ReliableChannelView {
        ReliableChannelView {
            name: self.name@,
            inbox: self.inbox@,
            outbox: self.outbox@,
            open: self.state == ChannelState::Open,
            capacity: self.capacity as nat,
            max_retries: self.default_max_retries,
        }
    }
}

impl ReliableChannel {
    pub fn new(name: &str, capacity: usize, max_retries: u32) -> (ch: Self)
        ensures
            ch.wf(),
            ch@ == reliable_fresh(name@, capacity as nat, max_retries),
    {
        ReliableChannel {
            name: name.to_string(),
            inbox: VecDeque::new(),
            outbox: Vec::new(),
            state: ChannelState::Open,
            capacity,
            default_max_retries: max_retries,
        }
    }

    pub fn name(&self) -> (r: &str)
        ensures
            r@ == self@.name,
    {
        self.name.as_str()
    }

    /// Acknowledge receipt of a message by ID.
    pub fn ack(&mut self, msg_id: u64) -> (r: Result<(), &'static str>)
        requires
            old(self).wf(),
        ensures
            final(self).wf(),
            r is Ok <==> first_with_id(old(self)@.outbox, msg_id) is Some,
            r is Err ==> r == Err::<(), &'static str>(NOT_FOUND),
            final(self)@ == (ReliableChannelView {
                outbox: outbox_after_ack(old(self)@.outbox, msg_id),
                ..old(self)@
            }),
    {
        let ghost s0 = self.outbox@;
        let mut i: usize = 0;
        while i < self.outbox.len()
            invariant
                self.wf(),
                self@ == old(self)@,
                s0 == self.outbox@,
                0 <= i <= s0.len(),
                forall|j: int| 0 <= j < i ==> (#[trigger] s0[j]).msg.id != msg_id,
            decreases s0.len() - i,
        {
            if self.outbox[i].msg.id == msg_id {
                proof {
                    assert(is_first_with_id(s0, msg_id, i as int));
                    let k = choose|k: int| is_first_with_id(s0, msg_id, k);
                    assert(k == i as int);
                }
                self.outbox[i].status = DeliveryStatus::Acknowledged;
                return Ok(());
            }
            i += 1;
        }
        proof {
            assert(!exists|k: int| is_first_with_id(s0, msg_id, k));
        }
        Err(NOT_FOUND)
    }

    /// Retry all pending messages that haven't exceeded max retries: each is
    /// delivered again; those at their limit fail.
    /// Returns number of messages retried.
    pub fn retry_pending(&mut self) -> (r: u32)
        requires
            old(self).wf(),
            retry_count(old(self)@.outbox) <= u32::MAX,
        ensures
            final(self).wf(),
            r == retry_count(old(self)@.outbox),
            final(self)@.outbox == old(self)@.outbox.map_values(|e: TrackedMessage| retry_step(e)),
            final(self)@.inbox.len() == old(self)@.inbox.len() + r,
            final(self)@.inbox.take(old(self)@.inbox.len() as int) == old(self)@.inbox,
            final(self)@.inbox.skip(old(self)@.inbox.len() as int).map_values(|m: Message| m@)
                == redelivered(old(self)@.outbox),
            final(self)@ == (ReliableChannelView {
                inbox: final(self)@.inbox,
                outbox: final(self)@.outbox,
                ..old(self)@
            }),
    {
        let ghost s0 = self.outbox@;
        let ghost in0 = self.inbox@;
        let ghost pred = |e: TrackedMessage| retriable(e);
        let mut retried: u32 = 0;
        let mut i: usize = 0;
        while i < self.outbox.len()
            invariant
                self.outbox@.len() == s0.len(),
                0 <= i <= s0.len(),
                self@ == (ReliableChannelView { inbox: self.inbox@, outbox: self.outbox@, ..old(self)@ }),
                s0 == old(self)@.outbox,
                in0 == old(self)@.inbox,
                self.inbox@.len() == in0.len() + retried,
                self.inbox@.take(in0.len() as int) == in0,
                self.inbox@.skip(in0.len() as int).map_values(|m: Message| m@)
                    == s0.take(i as int).filter(pred).map_values(|e: TrackedMessage| e.msg@),
                reliable_wf(old(self)@),
                retry_count(s0) <= u32::MAX,
                pred == |e: TrackedMessage| retriable(e),
                retried == s0.take(i as int).filter(pred).len(),
                forall|j: int| 0 <= j < i ==> #[trigger] self.outbox@[j] == retry_step(s0[j]),
                forall|j: int| i <= j < s0.len() ==> #[trigger] self.outbox@[j] == s0[j],
            decreases s0.len() - i,
        {
            proof {
                lemma_filter_take_step(s0, pred, i as int);
                lemma_filter_prefix_len(s0, pred, i as int + 1);
            }
            let status = self.outbox[i].status;
            let retries = self.outbox[i].retries;
            let max_retries = self.outbox[i].max_retries;
            if status == DeliveryStatus::Pending && retries < max_retries {
                let again = self.outbox[i].msg.duplicate();
                let ghost before = self.inbox@;
                self.outbox[i].retries = retries + 1;
                self.inbox.push_back(again);
                proof {
                    assert(self.inbox@.take(in0.len() as int) =~= in0);
                    assert(self.inbox@.skip(in0.len() as int) =~= before.skip(in0.len() as int).push(again));
                    assert(self.inbox@.skip(in0.len() as int).map_values(|m: Message| m@)
                        =~= before.skip(in0.len() as int).map_values(|m: Message| m@).push(again@));
                    assert(s0.take(i as int + 1).filter(pred).map_values(|e: TrackedMessage| e.msg@)
                        =~= s0.take(i as int).filter(pred).map_values(|e: TrackedMessage| e.msg@).push(s0[i as int].msg@));
                }
                retried += 1;
            } else if status == DeliveryStatus::Pending && retries >= max_retries {
                self.outbox[i].status = DeliveryStatus::Failed;
            }
            i += 1;
        }
        proof {
            assert(s0.take(s0.len() as int) =~= s0);
            assert(self.outbox@ =~= s0.map_values(|e: TrackedMessage| retry_step(e)));
        }
        retried
    }

    /// Get delivery status for a message.
    pub fn status(&self, msg_id: u64) -> (r: Option<DeliveryStatus>)
        ensures
            r == status_of(self@.outbox, msg_id),
    {
        let ghost s0 = self.outbox@;
        let mut i: usize = 0;
        while i < self.outbox.len()
            invariant
                s0 == self.outbox@,
                0 <= i <= s0.len(),
                forall|j: int| 0 <= j < i ==> (#[trigger] s0[j]).msg.id != msg_id,
            decreases s0.len() - i,
        {
            if self.outbox[i].msg.id == msg_id {
                proof {
                    assert(is_first_with_id(s0, msg_id, i as int));
                    let k = choose|k: int| is_first_with_id(s0, msg_id, k);
                    assert(k == i as int);
                }
                return Some(self.outbox[i].status);
            }
            i += 1;
        }
        proof {
            assert(!exists|k: int| is_first_with_id(s0, msg_id, k));
        }
        None
    }

    /// Count messages with a given status.
    pub fn count_with_status(&self, status: DeliveryStatus) -> (r: usize)
        ensures
            r == count_status(self@.outbox, status),
    {
        let ghost s0 = self.outbox@;
        let ghost pred = |e: TrackedMessage| e.status == status;
        let mut n: usize = 0;
        let mut i: usize = 0;
        while i < self.outbox.len()
            invariant
                s0 == self.outbox@,
                0 <= i <= s0.len(),
                pred == |e: TrackedMessage| e.status == status,
                n == s0.take(i as int).filter(pred).len(),
                n <= i,
            decreases s0.len() - i,
        {
            proof {
                lemma_filter_take_step(s0, pred, i as int);
            }
            if self.outbox[i].status == status {
                n += 1;
            }
            i += 1;
        }
        proof {
            assert(s0.take(s0.len() as int) =~= s0);
        }
        n
    }

    /// Remove acknowledged and failed messages from outbox.
    pub fn clean_outbox(&mut self)
        requires
            old(self).wf(),
        ensures
            final(self).wf(),
            final(self)@ == (ReliableChannelView {
                outbox: outbox_cleaned(old(self)@.outbox),
                ..old(self)@
            }),
    {
        let ghost s0 = self.outbox@;
        let ghost pred = |e: TrackedMessage| e.status == DeliveryStatus::Pending;
        let mut pending_first: Vec<TrackedMessage> = Vec::new();
        let mut rest: Vec<TrackedMessage> = Vec::new();
        std::mem::swap(&mut rest, &mut self.outbox);
        // Unstack the outbox, last message first.
        while rest.len() > 0
            invariant
                rest@ == s0.take(rest@.len() as int),
                rest@.len() + pending_first@.len() == s0.len(),
                forall|j: int| 0 <= j < pending_first@.len()
                    ==> #[trigger] pending_first@[j] == s0[s0.len() - 1 - j],
            decreases rest@.len(),
        {
            let e = rest.pop().unwrap();
            proof {
                assert(rest@ =~= s0.take(rest@.len() as int));
            }
            pending_first.push(e);
        }
        // Stack the pending ones back, first message first.
        let mut kept: Vec<TrackedMessage> = Vec::new();
        let ghost mut i: int = 0;
        while pending_first.len() > 0
            invariant
                0 <= i <= s0.len(),
                i + pending_first@.len() == s0.len(),
                forall|j: int| 0 <= j < pending_first@.len()
                    ==> #[trigger] pending_first@[j] == s0[s0.len() - 1 - j],
                pred == |e: TrackedMessage| e.status == DeliveryStatus::Pending,
                kept@ == s0.take(i).filter(pred),
                kept@.len() <= i,
                reliable_wf(old(self)@),
                s0 == old(self)@.outbox,
                forall|k: int| 0 <= k < kept@.len()
                    ==> tracked_wf(#[trigger] kept@[k], old(self)@.max_retries),
            decreases pending_first@.len(),
        {
            let e = pending_first.pop().unwrap();
            proof {
                assert(e == s0[i]);
                lemma_filter_take_step(s0, pred, i);
            }
            if e.status == DeliveryStatus::Pending {
                kept.push(e);
            }
            proof {
                i = i + 1;
            }
        }
        self.outbox = kept;
        proof {
            assert(s0.take(s0.len() as int) =~= s0);
        }
    }
}

impl Channel for ReliableChannel {
    open spec fn wf(&self) -> bool {
        reliable_wf(self@)
    }

    open spec fn spec_is_open(&self) -> bool {
        self@.open
    }

    /// Number of messages tracked, one per accepted send until cleaned out.
    open spec fn spec_pending(&self) -> nat {
        self@.outbox.len()
    }

    open spec fn deliverable(&self) -> Seq<Message> {
        self@.inbox
    }

    fn send(&mut self, msg: Message) -> (r: Result<(), &'static str>)
        ensures
            r == reliable_send_result(old(self)@),
            reliable_sent(old(self)@, final(self)@, msg),
    {
        if self.state == ChannelState::Closed {
            return Err(CLOSED);
        }
        if self.outbox.len() >= self.capacity {
            return Err(FULL);
        }
        let entry = TrackedMessage {
            msg: msg.duplicate(),
            status: DeliveryStatus::Pending,
            retries: 0,
            max_retries: self.default_max_retries,
        };
        let ghost v0 = self@;
        self.outbox.push(entry);
        self.inbox.push_back(msg);
        proof {
            assert(self@.outbox.take(v0.outbox.len() as int) =~= v0.outbox);
        }
        Ok(())
    }

    fn receive(&mut self) -> (r: Option<Message>)
        ensures
            r == (if old(self)@.open && old(self)@.inbox.len() > 0 {
                Some(old(self)@.inbox[0])
            } else {
                None
            }),
            final(self)@ == (if old(self)@.open && old(self)@.inbox.len() > 0 {
                ReliableChannelView { inbox: old(self)@.inbox.drop_first(), ..old(self)@ }
            } else {
                old(self)@
            }),
    {
        if self.state == ChannelState::Closed {
            return None;
        }
        self.inbox.pop_front()
    }

    fn close(&mut self)
        ensures
            final(self)@ == (ReliableChannelView { open: false, ..old(self)@ }),
    {
        self.state = ChannelState::Closed;
    }

    fn is_open(&self) -> (r: bool) {
        self.state == ChannelState::Open
    }

    fn pending_count(&self) -> (r: usize) {
        self.outbox.len()
    }
}

/// Acknowledging a tracked message makes `status` report it acknowledged,
/// and no later round of `retry_pending` changes that.
pub proof fn lemma_ack_then_status(s: Seq<TrackedMessage>, id: u64)
    requires
        first_with_id(s, id) is Some,
    ensures
        status_of(outbox_after_ack(s, id), id) == Some(DeliveryStatus::Acknowledged),
        status_of(outbox_after_ack(s, id).map_values(|e: TrackedMessage| retry_step(e)), id)
            == Some(DeliveryStatus::Acknowledged),
{
    let i = first_with_id(s, id)->0;
    assert(is_first_with_id(s, id, i));
    let s1 = outbox_after_ack(s, id);
    let s2 = s1.map_values(|e: TrackedMessage| retry_step(e));
    assert(is_first_with_id(s1, id, i)) by {
        assert forall|j: int| 0 <= j < i implies (#[trigger] s1[j]).msg.id != id by {
            assert(s1[j] == s[j]);
        }
    }
    let k1 = choose|k: int| is_first_with_id(s1, id, k);
    assert(k1 == i);
    assert(is_first_with_id(s2, id, i)) by {
        assert forall|j: int| 0 <= j < i implies (#[trigger] s2[j]).msg.id != id by {
            assert(s2[j] == retry_step(s1[j]));
            assert(s1[j] == s[j]);
        }
    }
    let k2 = choose|k: int| is_first_with_id(s2, id, k);
    assert(k2 == i);
}

/// A message sent with a retry limit of `m` and never acknowledged is still
/// pending after `m` rounds of `retry_pending`, having been retried `m`
/// times, and is failed after one round more.
pub proof fn lemma_retry_until_failed(msg: Message, m: u32)
    ensures
        retry_rounds(fresh_tracked(msg, m), m as nat) == (TrackedMessage { retries: m, ..fresh_tracked(msg, m) }),
        retry_rounds(fresh_tracked(msg, m), m as nat + 1).status == DeliveryStatus::Failed,
{
    lemma_retry_rounds_below_limit(msg, m, m as nat);
}

proof fn lemma_retry_rounds_below_limit(msg: Message, m: u32, k: nat)
    requires
        k <= m,
    ensures
        retry_rounds(fresh_tracked(msg, m), k) == (TrackedMessage { retries: k as u32, ..fresh_tracked(msg, m) }),
    decreases k,
{
    if k > 0 {
        lemma_retry_rounds_below_limit(msg, m, (k - 1) as nat);
    }
}

/// After `clean_outbox` only pending messages are tracked, and all of them are.
pub proof fn lemma_clean_outbox_counts(s: Seq<TrackedMessage>)
    ensures
        count_status(outbox_cleaned(s), DeliveryStatus::Pending) == count_status(s, DeliveryStatus::Pending),
        count_status(outbox_cleaned(s), DeliveryStatus::Acknowledged) == 0,
        count_status(outbox_cleaned(s), DeliveryStatus::Failed) == 0,
{
    let pending = |e: TrackedMessage| e.status == DeliveryStatus::Pending;
    let acked = |e: TrackedMessage| e.status == DeliveryStatus::Acknowledged;
    let failed = |e: TrackedMessage| e.status == DeliveryStatus::Failed;
    let c = s.filter(pending);
    assert forall|i: int| 0 <= i < c.len() implies pending(#[trigger] c[i]) by {
        s.lemma_filter_pred(pending, i);
    }
    lemma_filter_all_pass(c, pending);
    lemma_filter_none_pass(c, acked);
    lemma_filter_none_pass(c, failed);
}

/// One more `retry_pending` round on an outbox after `k` rounds gives the
/// outbox after `k + 1` rounds.
pub proof fn lemma_rounds_step(s: Seq<TrackedMessage>, k: nat)
    ensures
        outbox_after_rounds(s, k).map_values(|e: TrackedMessage| retry_step(e)) == outbox_after_rounds(s, k + 1),
{
    assert(outbox_after_rounds(s, k).map_values(|e: TrackedMessage| retry_step(e)) =~= outbox_after_rounds(s, k + 1));
}

/// What `k` rounds of `retry_pending` do to one tracked message that has
/// not gone past its limit: a pending one is retried until it reaches its
/// limit and fails on the round after; any other is left as it is.
pub proof fn lemma_rounds_of_one(e: TrackedMessage, k: nat)
    requires
        e.retries <= e.max_retries,
    ensures
        e.status != DeliveryStatus::Pending ==> retry_rounds(e, k) == e,
        e.status == DeliveryStatus::Pending && k <= e.max_retries - e.retries
            ==> retry_rounds(e, k) == (TrackedMessage { retries: (e.retries + k) as u32, ..e }),
        e.status == DeliveryStatus::Pending && k > e.max_retries - e.retries
            ==> retry_rounds(e, k) == (TrackedMessage {
                status: DeliveryStatus::Failed,
                retries: e.max_retries,
                ..e
            }),
    decreases k,
{
    if k > 0 {
        lemma_rounds_of_one(e, (k - 1) as nat);
    }
}

/// With no send and no acknowledgement in between, `max_retries` rounds of
/// `retry_pending` leave nothing to retry, so the next round retries no
/// message; after that round no message is pending, every message that was
/// pending has failed, and every other one is as it was.
pub proof fn lemma_outbox_exhausted(s: Seq<TrackedMessage>, max_retries: u32)
    requires
        forall|i: int| 0 <= i < s.len() ==> tracked_wf(#[trigger] s[i], max_retries),
    ensures
        retry_count(outbox_after_rounds(s, max_retries as nat)) == 0,
        count_status(outbox_after_rounds(s, max_retries as nat + 1), DeliveryStatus::Pending) == 0,
        forall|i: int| 0 <= i < s.len() ==> (#[trigger] outbox_after_rounds(s, max_retries as nat + 1)[i]).status
            == if s[i].status == DeliveryStatus::Pending { DeliveryStatus::Failed } else { s[i].status },
{
    let m = max_retries as nat;
    let a = outbox_after_rounds(s, m);
    let b = outbox_after_rounds(s, m + 1);
    assert forall|i: int| 0 <= i < a.len() implies !retriable(#[trigger] a[i]) by {
        lemma_rounds_of_one(s[i], m);
    }
    lemma_filter_none_pass(a, |e: TrackedMessage| retriable(e));
    assert forall|i: int| 0 <= i < b.len() implies (#[trigger] b[i]).status != DeliveryStatus::Pending
        && b[i].status == (if s[i].status == DeliveryStatus::Pending { DeliveryStatus::Failed } else { s[i].status }) by {
        lemma_rounds_of_one(s[i], m + 1);
    }
    lemma_filter_none_pass(b, |e: TrackedMessage| e.status == DeliveryStatus::Pending);
}

/// A `retry_pending` round moves each message's reported status only along
/// Pending → Pending or Failed; Acknowledged and Failed stay, and an unknown
/// ID stays unknown.
pub proof fn lemma_retry_status_transitions(s: Seq<TrackedMessage>, id: u64)
    ensures
        ({
            let before = status_of(s, id);
            let after = status_of(s.map_values(|e: TrackedMessage| retry_step(e)), id);
            &&& before is None ==> after is None
            &&& before == Some(DeliveryStatus::Acknowledged) ==> after == Some(DeliveryStatus::Acknowledged)
            &&& before == Some(DeliveryStatus::Failed) ==> after == Some(DeliveryStatus::Failed)
            &&& before == Some(DeliveryStatus::Pending) ==> (after == Some(DeliveryStatus::Pending)
                || after == Some(DeliveryStatus::Failed))
        }),
{
    let t = s.map_values(|e: TrackedMessage| retry_step(e));
    assert forall|j: int| #![trigger s[j]] #![trigger t[j]] 0 <= j < s.len() implies t[j].msg.id == s[j].msg.id by {
        assert(t[j] == retry_step(s[j]));
    }
    assert forall|i: int| is_first_with_id(s, id, i) <==> #[trigger] is_first_with_id(t, id, i) by {}
    if first_with_id(s, id) is Some {
        let i = first_with_id(s, id)->0;
        assert(is_first_with_id(t, id, i));
        let k = choose|k: int| is_first_with_id(t, id, k);
        assert(k == i);
        assert(t[i] == retry_step(s[i]));
    } else {
        assert(!exists|k: int| is_first_with_id(t, id, k));
    }
}

/// Every tracked message is in exactly one of the three states: the counts
/// by status add up to the number of tracked messages.
pub proof fn lemma_status_counts_total(s: Seq<TrackedMessage>)
    ensures
        count_status(s, DeliveryStatus::Pending) + count_status(s, DeliveryStatus::Acknowledged)
            + count_status(s, DeliveryStatus::Failed) == s.len(),
    decreases s.len(),
{
    if s.len() > 0 {
        let r = s.drop_last();
        lemma_status_counts_total(r);
        assert(r.push(s.last()) =~= s);
        r.lemma_filter_push(s.last(), |e: TrackedMessage| e.status == DeliveryStatus::Pending);
        r.lemma_filter_push(s.last(), |e: TrackedMessage| e.status == DeliveryStatus::Acknowledged);
        r.lemma_filter_push(s.last(), |e: TrackedMessage| e.status == DeliveryStatus::Failed);
    }
}

/// Whether `c` is the contents of a message of `s` that a retry round retries.
pub open spec fn contents_of_retried(s: Seq<TrackedMessage>, c: MessageView) -> bool {
    exists|j: int| 0 <= j < s.len() && retriable(#[trigger] s[j]) && s[j].msg@ == c
}

/// A `retry_pending` round delivers again exactly the messages it retries:
/// as many as it retries, the retried entry at position `j` of the outbox
/// being delivered after the retried entries before it, each with its own
/// contents; whatever it delivers is the contents of a retried entry, so an
/// acknowledged or failed message is never delivered again.
pub proof fn lemma_retry_redelivers(s: Seq<TrackedMessage>)
    ensures
        redelivered(s).len() == retry_count(s),
        forall|j: int| 0 <= j < s.len() && retriable(#[trigger] s[j]) ==> {
            let k = s.take(j).filter(|e: TrackedMessage| retriable(e)).len() as int;
            &&& 0 <= k < redelivered(s).len()
            &&& redelivered(s)[k] == s[j].msg@
        },
        forall|k: int| 0 <= k < redelivered(s).len() ==> contents_of_retried(s, #[trigger] redelivered(s)[k]),
{
    let p = |e: TrackedMessage| retriable(e);
    let f = s.filter(p);
    assert forall|j: int| 0 <= j < s.len() && retriable(#[trigger] s[j]) implies {
        let k = s.take(j).filter(|e: TrackedMessage| retriable(e)).len() as int;
        &&& 0 <= k < redelivered(s).len()
        &&& redelivered(s)[k] == s[j].msg@
    } by {
        lemma_filter_take_step(s, p, j);
        assert(s =~= s.take(j + 1) + s.skip(j + 1));
        Seq::filter_distributes_over_add(s.take(j + 1), s.skip(j + 1), p);
        let k = s.take(j).filter(p).len() as int;
        assert(f[k] == s.take(j + 1).filter(p)[k]);
        assert(f[k] == s[j]);
    }
    assert forall|k: int| 0 <= k < redelivered(s).len() implies contents_of_retried(s, #[trigger] redelivered(s)[k]) by {
        s.lemma_filter_pred(p, k);
        assert(f.contains(f[k]));
        s.lemma_filter_contains_rev(p, f[k]);
        let j = choose|j: int| 0 <= j < s.len() && s[j] == f[k];
        assert(retriable(s[j]));
        assert(redelivered(s)[k] == f[k].msg@);
        assert(s[j].msg@ == redelivered(s)[k]);
    }
}

/// `send` is refused exactly when the channel is closed or already tracks
/// as many messages as its capacity; an accepted message is what `receive`
/// hands out once the messages delivered before it have been received.
pub proof fn lemma_reliable_send_accepts(v: ReliableChannelView, w: ReliableChannelView, msg: Message)
    requires
        reliable_sent(v, w, msg),
    ensures
        reliable_send_result(v) is Ok <==> v.open && v.outbox.len() < v.capacity,
        reliable_send_result(v) is Ok ==> w.inbox.len() == v.inbox.len() + 1 && w.inbox[v.inbox.len() as int] == msg
            && w.capacity == v.capacity && w.open == v.open,
{
}

/// `ack(id)` touches only the first tracked message with that ID, which
/// becomes acknowledged; every other tracked message, and the order, stay as
/// they were. With no message of that ID nothing changes.
pub proof fn lemma_ack_touches_one(s: Seq<TrackedMessage>, id: u64)
    ensures
        outbox_after_ack(s, id).len() == s.len(),
        first_with_id(s, id) is None ==> outbox_after_ack(s, id) == s
            && forall|j: int| 0 <= j < s.len() ==> (#[trigger] s[j]).msg.id != id,
        first_with_id(s, id) is Some ==> {
            let i = first_with_id(s, id)->0;
            &&& 0 <= i < s.len()
            &&& s[i].msg.id == id
            &&& forall|j: int| 0 <= j < i ==> (#[trigger] s[j]).msg.id != id
            &&& outbox_after_ack(s, id)[i].status == DeliveryStatus::Acknowledged
            &&& outbox_after_ack(s, id)[i].msg == s[i].msg
            &&& forall|j: int| 0 <= j < s.len() && j != i ==> #[trigger] outbox_after_ack(s, id)[j] == s[j]
        },
{
    if first_with_id(s, id) is Some {
        let i = first_with_id(s, id)->0;
        assert(is_first_with_id(s, id, i));
    } else {
        assert forall|j: int| 0 <= j < s.len() implies (#[trigger] s[j]).msg.id != id by {
            if s[j].msg.id == id {
                lemma_some_first_with_id(s, id, j);
            }
        }
    }
}

/// If some tracked message has ID `id`, one of them is the first.
proof fn lemma_some_first_with_id(s: Seq<TrackedMessage>, id: u64, j: int)
    requires
        0 <= j < s.len(),
        s[j].msg.id == id,
    ensures
        first_with_id(s, id) is Some,
    decreases j,
{
    if forall|k: int| 0 <= k < j ==> (#[trigger] s[k]).msg.id != id {
        assert(is_first_with_id(s, id, j));
    } else {
        let k = choose|k: int| 0 <= k < j && (#[trigger] s[k]).msg.id == id;
        lemma_some_first_with_id(s, id, k);
    }
}

} // verus!
