use vstd::prelude::*;
use std::collections::VecDeque;
use crate::message::{Message, TernaryPriority, rank};
use crate::channel::{Channel, ChannelState, CLOSED, FULL};

verus! {

/// Abstract state of a `PriorityChannel`: one queue per priority band,
/// oldest message first in each.
pub struct PriorityChannelView {
    pub name: Seq<char>,
    pub positive: Seq<Message>,
    pub neutral: Seq<Message>,
    pub negative: Seq<Message>,
    pub open: bool,
    pub capacity: nat,
}

/// Whether every message of `q` has priority `p`.
pub open spec fn all_of_priority(q: Seq<Message>, p: TernaryPriority) -> bool {
    forall|i: int| 0 <= i < q.len() ==> (#[trigger] q[i]).priority == p
}

/// Number of messages a priority channel holds.
pub open spec fn priority_total(v: PriorityChannelView) -> nat {
    v.positive.len() + v.neutral.len() + v.negative.len()
}

/// Invariant: the bands together fit in the capacity and each band holds
/// only messages of its own priority.
pub open spec fn priority_wf(v: PriorityChannelView) -> bool {
    &&& priority_total(v) <= v.capacity
    &&& all_of_priority(v.positive, TernaryPriority::Positive)
    &&& all_of_priority(v.neutral, TernaryPriority::Neutral)
    &&& all_of_priority(v.negative, TernaryPriority::Negative)
}

/// Order in which `receive` hands out the messages: positive ones first,
/// then neutral, then negative; within a band, oldest first.
pub open spec fn priority_order(v: PriorityChannelView) -> Seq<Message> {
    v.positive + v.neutral + v.negative
}

/// A new priority channel: open, with every band empty.
pub open spec fn priority_fresh(name: Seq<char>, capacity: nat) -> PriorityChannelView {
    PriorityChannelView {
        name,
        positive: Seq::empty(),
        neutral: Seq::empty(),
        negative: Seq::empty(),
        open: true,
        capacity,
    }
}

/// What `send` answers on a channel in state `v`.
pub open spec fn priority_send_result(v: PriorityChannelView) -> Result<(), &'static str> {
    if !v.open {
        Err(CLOSED)
    } else if priority_total(v) >= v.capacity {
        Err(FULL)
    } else {
        Ok(())
    }
}

/// The state after `send(msg)`: an accepted message joins the back of the
/// band of its priority.
pub open spec fn priority_after_send(v: PriorityChannelView, msg: Message) -> PriorityChannelView {
    if priority_send_result(v) is Ok {
        match msg.priority {
            TernaryPriority::Positive => PriorityChannelView { positive: v.positive.push(msg), ..v },
            TernaryPriority::Neutral => PriorityChannelView { neutral: v.neutral.push(msg), ..v },
            TernaryPriority::Negative => PriorityChannelView { negative: v.negative.push(msg), ..v },
        }
    } else {
        v
    }
}

/// What `receive` answers on a channel in state `v`.
pub open spec fn priority_receive_result(v: PriorityChannelView) -> Option<Message> {
    if v.open && priority_total(v) > 0 {
        Some(priority_order(v)[0])
    } else {
        None
    }
}

/// The state after `receive`: the first message of the highest non-empty
/// band leaves.
pub open spec fn priority_after_receive(v: PriorityChannelView) -> PriorityChannelView {
    if !v.open {
        v
    } else if v.positive.len() > 0 {
        PriorityChannelView { positive: v.positive.drop_first(), ..v }
    } else if v.neutral.len() > 0 {
        PriorityChannelView { neutral: v.neutral.drop_first(), ..v }
    } else if v.negative.len() > 0 {
        PriorityChannelView { negative: v.negative.drop_first(), ..v }
    } else {
        v
    }
}

/// Whether a message has priority `p`.
pub open spec fn has_priority(p: TernaryPriority) -> spec_fn(Message) -> bool {
    |m: Message| m.priority == p
}

/// The state after sending the messages of `ms` one after the other.
pub open spec fn priority_send_all(v: PriorityChannelView, ms: Seq<Message>) -> PriorityChannelView
    decreases ms.len(),
{
    if ms.len() == 0 {
        v
    } else {
        priority_after_send(priority_send_all(v, ms.drop_last()), ms.last())
    }
}

/// Messages ordered by ternary priority. Positive messages are dequeued first.
#[derive(Debug, Clone)]
pub struct PriorityChannel {
    name: String,
    positive: VecDeque<Message>,
    neutral: VecDeque<Message>,
    negative: VecDeque<Message>,
    state: ChannelState,
    capacity: usize,
}

impl View for PriorityChannel {
    type V = PriorityChannelView;

    closed spec fn view(&self) -> PriorityChannelView {
        PriorityChannelView {
            name: self.name@,
            positive: self.positive@,
            neutral: self.neutral@,
            negative: self.negative@,
            open: self.state == ChannelState::Open,
            capacity: self.capacity as nat,
        }
    }
}

impl PriorityChannel {
    pub fn new(name: &str, capacity: usize) -> (ch: Self)
        ensures
            ch.wf(),
            ch@ == priority_fresh(name@, capacity as nat),
    {
        PriorityChannel {
            name: name.to_string(),
            positive: VecDeque::new(),
            neutral: VecDeque::new(),
            negative: VecDeque::new(),
            state: ChannelState::Open,
            capacity,
        }
    }

    pub fn name(&self) -> (r: &str)
        ensures
            r@ == self@.name,
    {
        self.name.as_str()
    }

    fn total_pending(&self) -> (r: usize)
        requires
            self.wf(),
        ensures
            r == priority_total(self@),
    {
        self.positive.len() + self.neutral.len() + self.negative.len()
    }
}

impl Channel for PriorityChannel {
    open spec fn wf(&self) -> bool {
        priority_wf(self@)
    }

    open spec fn spec_is_open(&self) -> bool {
        self@.open
    }

    open spec fn spec_pending(&self) -> nat {
        priority_total(self@)
    }

    open spec fn deliverable(&self) -> Seq<Message> {
        priority_order(self@)
    }

    fn send(&mut self, msg: Message) -> (r: Result<(), &'static str>)
        ensures
            r == priority_send_result(old(self)@),
            final(self)@ == priority_after_send(old(self)@, msg),
    {
        if self.state == ChannelState::Closed {
            return Err(CLOSED);
        }
        if self.total_pending() >= self.capacity {
            return Err(FULL);
        }
        match msg.priority {
            TernaryPriority::Positive => self.positive.push_back(msg),
            TernaryPriority::Neutral => self.neutral.push_back(msg),
            TernaryPriority::Negative => self.negative.push_back(msg),
        }
        Ok(())
    }

    fn receive(&mut self) -> (r: Option<Message>)
        ensures
            r == priority_receive_result(old(self)@),
            final(self)@ == priority_after_receive(old(self)@),
    {
        if self.state == ChannelState::Closed {
            return None;
        }
        proof {
            let v = old(self)@;
            assert(priority_order(v) == v.positive + v.neutral + v.negative);
            if v.positive.len() > 0 {
                assert(priority_order(v)[0] == v.positive[0]);
                assert(priority_order(v).drop_first() =~= v.positive.drop_first() + v.neutral + v.negative);
            } else if v.neutral.len() > 0 {
                assert(priority_order(v)[0] == v.neutral[0]);
                assert(priority_order(v).drop_first() =~= v.positive + v.neutral.drop_first() + v.negative);
            } else if v.negative.len() > 0 {
                assert(priority_order(v)[0] == v.negative[0]);
                assert(priority_order(v).drop_first() =~= v.positive + v.neutral + v.negative.drop_first());
            }
        }
        if let Some(msg) = self.positive.pop_front() {
            return Some(msg);
        }
        if let Some(msg) = self.neutral.pop_front() {
            return Some(msg);
        }
        self.negative.pop_front()
    }

    fn close(&mut self)
        ensures
            final(self)@ == (PriorityChannelView { open: false, ..old(self)@ }),
    {
        self.state = ChannelState::Closed;
    }

    fn is_open(&self) -> (r: bool) {
        self.state == ChannelState::Open
    }

    fn pending_count(&self) -> (r: usize) {
        self.total_pending()
    }
}

/// The delivery order of a priority channel never puts a message before one
/// of higher priority.
pub proof fn lemma_priority_order_sorted(v: PriorityChannelView)
    requires
        priority_wf(v),
    ensures
        forall|i: int, j: int|
            0 <= i < j < priority_order(v).len() ==> rank(#[trigger] priority_order(v)[i].priority)
                >= rank(#[trigger] priority_order(v)[j].priority),
{
    let q = priority_order(v);
    let a = v.positive.len() as int;
    let b = a + v.neutral.len();
    assert forall|i: int| 0 <= i < q.len() implies rank((#[trigger] q[i]).priority) == (if i < a {
        1int
    } else if i < b {
        0int
    } else {
        -1int
    }) by {
        if i < a {
            assert(q[i] == v.positive[i]);
        } else if i < b {
            assert(q[i] == v.neutral[i - a]);
        } else {
            assert(q[i] == v.negative[i - b]);
        }
    }
}

/// `receive` hands out a message of the highest priority pending.
pub proof fn lemma_priority_receive_highest(v: PriorityChannelView)
    requires
        priority_wf(v),
        v.open,
        priority_total(v) > 0,
    ensures
        priority_receive_result(v) is Some,
        forall|j: int| 0 <= j < priority_order(v).len()
            ==> rank((#[trigger] priority_order(v)[j]).priority)
                <= rank(priority_receive_result(v)->0.priority),
{
    lemma_priority_order_sorted(v);
    let q = priority_order(v);
    assert forall|j: int| 0 <= j < q.len() implies rank((#[trigger] q[j]).priority) <= rank(q[0].priority) by {
        if j > 0 {
            assert(rank(q[0].priority) >= rank(q[j].priority));
        }
    }
}

/// A message accepted by a priority channel takes its place after every
/// pending message of equal or higher priority and before every pending
/// message of lower priority; the others keep their order.
pub proof fn lemma_priority_send_position(v: PriorityChannelView, msg: Message)
    requires
        priority_wf(v),
        priority_send_result(v) is Ok,
    ensures
        exists|k: int|
            #![trigger priority_order(v).take(k)]
            {
                let q = priority_order(v);
                &&& 0 <= k <= q.len()
                &&& priority_order(priority_after_send(v, msg)) == q.take(k).push(msg) + q.skip(k)
                &&& forall|i: int| 0 <= i < k ==> rank((#[trigger] q[i]).priority) >= rank(msg.priority)
                &&& forall|i: int| k <= i < q.len() ==> rank((#[trigger] q[i]).priority) < rank(msg.priority)
            },
{
    let q = priority_order(v);
    let a = v.positive.len() as int;
    let b = a + v.neutral.len();
    let k = match msg.priority {
        TernaryPriority::Positive => a,
        TernaryPriority::Neutral => b,
        TernaryPriority::Negative => q.len() as int,
    };
    assert forall|i: int| 0 <= i < q.len() implies rank((#[trigger] q[i]).priority) == (if i < a {
        1int
    } else if i < b {
        0int
    } else {
        -1int
    }) by {
        if i < a {
            assert(q[i] == v.positive[i]);
        } else if i < b {
            assert(q[i] == v.neutral[i - a]);
        } else {
            assert(q[i] == v.negative[i - b]);
        }
    }
    let v2 = priority_after_send(v, msg);
    match msg.priority {
        TernaryPriority::Positive => {
            assert(priority_order(v2) =~= q.take(k).push(msg) + q.skip(k));
        },
        TernaryPriority::Neutral => {
            assert(priority_order(v2) =~= q.take(k).push(msg) + q.skip(k));
        },
        TernaryPriority::Negative => {
            assert(priority_order(v2) =~= q.take(k).push(msg) + q.skip(k));
        },
    }
}

/// Sending messages to an open priority channel with room for all of them
/// accepts every one, and each band grows by the sent messages of its
/// priority, in send order.
pub proof fn lemma_priority_send_all(v: PriorityChannelView, ms: Seq<Message>)
    requires
        priority_wf(v),
        v.open,
        priority_total(v) + ms.len() <= v.capacity,
    ensures
        ({
            let w = priority_send_all(v, ms);
            &&& priority_wf(w)
            &&& w.open
            &&& w.capacity == v.capacity
            &&& w.name == v.name
            &&& priority_total(w) == priority_total(v) + ms.len()
            &&& w.positive == v.positive + ms.filter(has_priority(TernaryPriority::Positive))
            &&& w.neutral == v.neutral + ms.filter(has_priority(TernaryPriority::Neutral))
            &&& w.negative == v.negative + ms.filter(has_priority(TernaryPriority::Negative))
        }),
    decreases ms.len(),
{
    reveal(Seq::filter);
    if ms.len() == 0 {
        assert(v.positive + ms.filter(has_priority(TernaryPriority::Positive)) =~= v.positive);
        assert(v.neutral + ms.filter(has_priority(TernaryPriority::Neutral)) =~= v.neutral);
        assert(v.negative + ms.filter(has_priority(TernaryPriority::Negative)) =~= v.negative);
    } else {
        let r = ms.drop_last();
        let m = ms.last();
        lemma_priority_send_all(v, r);
        let u = priority_send_all(v, r);
        assert(priority_send_result(u) is Ok);
        let w = priority_after_send(u, m);
        assert(w.positive =~= v.positive + ms.filter(has_priority(TernaryPriority::Positive)));
        assert(w.neutral =~= v.neutral + ms.filter(has_priority(TernaryPriority::Neutral)));
        assert(w.negative =~= v.negative + ms.filter(has_priority(TernaryPriority::Negative)));
    }
}

/// Sending messages to a new priority channel with room for all of them
/// makes its delivery order a stable sort of them by priority: the positive
/// ones in send order, then the neutral ones, then the negative ones.
pub proof fn lemma_priority_stable_order(name: Seq<char>, capacity: nat, ms: Seq<Message>)
    requires
        ms.len() <= capacity,
    ensures
        priority_order(priority_send_all(priority_fresh(name, capacity), ms))
            == ms.filter(has_priority(TernaryPriority::Positive)) + ms.filter(has_priority(TernaryPriority::Neutral))
                + ms.filter(has_priority(TernaryPriority::Negative)),
{
    let v = priority_fresh(name, capacity);
    lemma_priority_send_all(v, ms);
    let w = priority_send_all(v, ms);
    assert(w.positive =~= ms.filter(has_priority(TernaryPriority::Positive)));
    assert(w.neutral =~= ms.filter(has_priority(TernaryPriority::Neutral)));
    assert(w.negative =~= ms.filter(has_priority(TernaryPriority::Negative)));
}

/// `send` on a priority channel is accepted exactly when the channel is
/// open and holds fewer messages than its capacity.
pub proof fn lemma_priority_send_accepts(v: PriorityChannelView)
    ensures
        priority_send_result(v) is Ok <==> v.open && priority_total(v) < v.capacity,
        !v.open ==> priority_send_result(v) == Err::<(), &'static str>(CLOSED),
        v.open && priority_total(v) >= v.capacity ==> priority_send_result(v) == Err::<(), &'static str>(FULL),
{
}

/// `receive` on a priority channel leaves its name, state and capacity as
/// they were and, when it hands out a message, holds one message fewer;
/// so after a receive that hands out a message, a send is accepted.
pub proof fn lemma_priority_receive_keeps_capacity(v: PriorityChannelView, msg: Message)
    ensures
        priority_after_receive(v).capacity == v.capacity,
        priority_after_receive(v).name == v.name,
        priority_after_receive(v).open == v.open,
        priority_receive_result(v) is Some ==> priority_total(priority_after_receive(v)) + 1 == priority_total(v),
        priority_receive_result(v) is None ==> priority_after_receive(v) == v,
        priority_receive_result(v) is Some && priority_total(v) <= v.capacity
            ==> priority_send_result(priority_after_receive(v)) is Ok,
{
}

} // verus!
