use vstd::prelude::*;
use std::collections::VecDeque;
use crate::message::{Message, MessageView};
use crate::channel::{Channel, ChannelState, CLOSED, FULL};
use crate::seqs::{
    lemma_filter_take_step, lemma_filter_all_pass, lemma_filter_no_duplicates, lemma_filter_filter,
    lemma_filter_drop_first_len, lemma_filter_remove_len, lemma_filter_single, lemma_filter_none_pass,
    lemma_filter_split_count,
};

verus! {

/// Error returned by `subscribe` for a recipient already subscribed.
pub const ALREADY_SUBSCRIBED: &'static str = "Already subscribed";

/// Abstract state of a `BroadcastChannel`: its subscribers in the order
/// they subscribed, and the copies of messages not yet picked up, oldest
/// first, each with the subscriber it is for.
pub struct BroadcastChannelView {
    pub name: Seq<char>,
    pub subscribers: Seq<Seq<char>>,
    pub deliveries: Seq<(Seq<char>, Message)>,
    pub open: bool,
    pub capacity: nat,
}

/// Whether a pending copy is addressed to `recipient`.
pub open spec fn addressed_to(recipient: Seq<char>) -> spec_fn((Seq<char>, Message)) -> bool {
    |d: (Seq<char>, Message)| d.0 == recipient
}

/// Whether a subscriber is someone other than `recipient`.
pub open spec fn other_than(recipient: Seq<char>) -> spec_fn(Seq<char>) -> bool {
    |s: Seq<char>| s != recipient
}

/// Whether a pending copy is addressed to someone other than `recipient`.
pub open spec fn not_addressed_to(recipient: Seq<char>) -> spec_fn((Seq<char>, Message)) -> bool {
    |d: (Seq<char>, Message)| d.0 != recipient
}

/// The copies waiting for `recipient`, oldest first.
pub open spec fn inbox(v: BroadcastChannelView, recipient: Seq<char>) -> Seq<Message> {
    v.deliveries.filter(addressed_to(recipient)).map_values(|d: (Seq<char>, Message)| d.1)
}

/// Number of copies waiting for `recipient`.
pub open spec fn inbox_len(v: BroadcastChannelView, recipient: Seq<char>) -> nat {
    v.deliveries.filter(addressed_to(recipient)).len()
}

/// Invariant: no recipient is subscribed twice, every pending copy is for a
/// current subscriber, and no subscriber has more copies waiting than the
/// capacity.
pub open spec fn broadcast_wf(v: BroadcastChannelView) -> bool {
    &&& v.subscribers.no_duplicates()
    &&& forall|i: int| 0 <= i < v.deliveries.len() ==> v.subscribers.contains(#[trigger] v.deliveries[i].0)
    &&& forall|k: int| 0 <= k < v.subscribers.len() ==> inbox_len(v, #[trigger] v.subscribers[k]) <= v.capacity
}

/// A new broadcast channel: open, with no subscriber and no message.
pub open spec fn broadcast_fresh(name: Seq<char>, capacity: nat) -> BroadcastChannelView {
    BroadcastChannelView {
        name,
        subscribers: Seq::empty(),
        deliveries: Seq::empty(),
        open: true,
        capacity,
    }
}

/// What `subscribe(recipient)` answers on a channel in state `v`.
pub open spec fn subscribe_result(v: BroadcastChannelView, recipient: Seq<char>) -> Result<(), &'static str> {
    if v.subscribers.contains(recipient) {
        Err(ALREADY_SUBSCRIBED)
    } else {
        Ok(())
    }
}

/// The subscriber list after `subscribe(recipient)`.
pub open spec fn subscribers_after_subscribe(v: BroadcastChannelView, recipient: Seq<char>) -> Seq<Seq<char>> {
    if v.subscribers.contains(recipient) {
        v.subscribers
    } else {
        v.subscribers.push(recipient)
    }
}

/// The subscriber list after `unsubscribe(recipient)`: every other
/// subscriber stays, in order.
pub open spec fn subscribers_after_unsubscribe(v: BroadcastChannelView, recipient: Seq<char>) -> Seq<Seq<char>> {
    v.subscribers.filter(other_than(recipient))
}

/// The pending copies after `unsubscribe(recipient)`: those for `recipient`
/// are dropped, the others stay, in order.
pub open spec fn deliveries_after_unsubscribe(v: BroadcastChannelView, recipient: Seq<char>) -> Seq<(Seq<char>, Message)> {
    v.deliveries.filter(not_addressed_to(recipient))
}

/// Whether some subscriber already has as many copies waiting as the capacity.
pub open spec fn some_inbox_full(v: BroadcastChannelView) -> bool {
    exists|k: int| 0 <= k < v.subscribers.len() && inbox_len(v, #[trigger] v.subscribers[k]) >= v.capacity
}

/// What `send` answers on a channel in state `v`.
pub open spec fn broadcast_send_result(v: BroadcastChannelView) -> Result<(), &'static str> {
    if !v.open {
        Err(CLOSED)
    } else if some_inbox_full(v) {
        Err(FULL)
    } else {
        Ok(())
    }
}

/// Whether `w` is the state after `send(msg)` on a channel in state `v`: an
/// accepted message is copied once for every subscriber, in subscription
/// order, behind the copies already pending; a refused one changes nothing.
pub open spec fn broadcast_sent(v: BroadcastChannelView, w: BroadcastChannelView, msg: MessageView) -> bool {
    if broadcast_send_result(v) is Ok {
        let n = v.deliveries.len() as int;
        &&& w.deliveries.len() == n + v.subscribers.len()
        &&& w.deliveries.take(n) == v.deliveries
        &&& forall|k: int| 0 <= k < v.subscribers.len() ==> (#[trigger] w.deliveries[n + k]).0 == v.subscribers[k]
            && w.deliveries[n + k].1@ == msg
        &&& w == BroadcastChannelView { deliveries: w.deliveries, ..v }
    } else {
        w == v
    }
}

/// Whether `i` is the first position of a copy for `recipient`.
pub open spec fn is_first_for(d: Seq<(Seq<char>, Message)>, recipient: Seq<char>, i: int) -> bool {
    &&& 0 <= i < d.len()
    &&& d[i].0 == recipient
    &&& forall|j: int| 0 <= j < i ==> (#[trigger] d[j]).0 != recipient
}

/// Position of the oldest copy waiting for `recipient`, if any.
pub open spec fn first_for(d: Seq<(Seq<char>, Message)>, recipient: Seq<char>) -> Option<int> {
    if exists|i: int| is_first_for(d, recipient, i) {
        Some(choose|i: int| is_first_for(d, recipient, i))
    } else {
        None
    }
}

/// One-to-many channel. Messages are delivered to all subscribers: every
/// accepted message is copied once for each current subscriber.
#[derive(Debug, Clone)]
pub struct BroadcastChannel {
    name: String,
    subscribers: Vec<String>,
    deliveries: VecDeque<(String, Message)>,
    state: ChannelState,
    capacity: usize,
}

impl View for BroadcastChannel {
    type V = BroadcastChannelView;

    closed spec fn view(&self) -> BroadcastChannelView {
        BroadcastChannelView {
            name: self.name@,
            subscribers: self.subscribers@.map_values(|s: String| s@),
            deliveries: self.deliveries@.map_values(|d: (String, Message)| (d.0@, d.1)),
            open: self.state == ChannelState::Open,
            capacity: self.capacity as nat,
        }
    }
}

impl BroadcastChannel {
    pub fn new(name: &str, capacity: usize) -> (ch: Self)
        ensures
            ch.wf(),
            ch@ == broadcast_fresh(name@, capacity as nat),
    {
        let ch = BroadcastChannel {
            name: name.to_string(),
            subscribers: Vec::new(),
            deliveries: VecDeque::new(),
            state: ChannelState::Open,
            capacity,
        };
        proof {
            assert(ch@.subscribers =~= Seq::<Seq<char>>::empty());
            assert(ch@.deliveries =~= Seq::<(Seq<char>, Message)>::empty());
        }
        ch
    }

    pub fn name(&self) -> (r: &str)
        ensures
            r@ == self@.name,
    {
        self.name.as_str()
    }

    /// Subscribe a recipient.
    pub fn subscribe(&mut self, recipient: &str) -> (r: Result<(), &'static str>)
        requires
            old(self).wf(),
        ensures
            final(self).wf(),
            r == subscribe_result(old(self)@, recipient@),
            final(self)@ == (BroadcastChannelView {
                subscribers: subscribers_after_subscribe(old(self)@, recipient@),
                ..old(self)@
            }),
    {
        let ghost subs = self@.subscribers;
        let r = recipient.to_string();
        let mut i: usize = 0;
        while i < self.subscribers.len()
            invariant
                self@ == old(self)@,
                self.wf(),
                subs == self@.subscribers,
                subs.len() == self.subscribers@.len(),
                r@ == recipient@,
                0 <= i <= subs.len(),
                forall|j: int| 0 <= j < i ==> subs[j] != recipient@,
            decreases subs.len() - i,
        {
            if self.subscribers[i] == r {
                proof {
                    assert(subs[i as int] == recipient@);
                }
                return Err(ALREADY_SUBSCRIBED);
            }
            i += 1;
        }
        self.subscribers.push(r);
        proof {
            let v = old(self)@;
            assert(self@.subscribers =~= subs.push(recipient@));
            assert forall|j: int| 0 <= j < v.deliveries.len() implies !addressed_to(recipient@)(#[trigger] v.deliveries[j]) by {
                assert(subs.contains(v.deliveries[j].0));
            }
            lemma_filter_none_pass(v.deliveries, addressed_to(recipient@));
            let w = self@;
            assert(w.deliveries == v.deliveries);
            assert forall|k: int| 0 <= k < w.subscribers.len()
                implies inbox_len(w, #[trigger] w.subscribers[k]) <= w.capacity by {
                if k < subs.len() {
                    assert(w.subscribers[k] == subs[k]);
                } else {
                    assert(w.subscribers[k] == recipient@);
                }
            }
            assert forall|i: int| 0 <= i < w.deliveries.len() implies w.subscribers.contains(#[trigger] w.deliveries[i].0) by {
                assert(subs.contains(v.deliveries[i].0));
                let y = choose|y: int| 0 <= y < subs.len() && subs[y] == v.deliveries[i].0;
                assert(w.subscribers[y] == subs[y]);
            }
        }
        Ok(())
    }

    /// Unsubscribe a recipient; the copies still waiting for it are dropped.
    pub fn unsubscribe(&mut self, recipient: &str)
        requires
            old(self).wf(),
        ensures
            final(self).wf(),
            final(self)@ == (BroadcastChannelView {
                subscribers: subscribers_after_unsubscribe(old(self)@, recipient@),
                deliveries: deliveries_after_unsubscribe(old(self)@, recipient@),
                ..old(self)@
            }),
    {
        let ghost v = self@;
        let ghost subs = self@.subscribers;
        let ghost pred = other_than(recipient@);
        let r = recipient.to_string();
        let mut kept: Vec<String> = Vec::new();
        let mut i: usize = 0;
        while i < self.subscribers.len()
            invariant
                self@ == old(self)@,
                subs == self@.subscribers,
                subs.len() == self.subscribers@.len(),
                r@ == recipient@,
                0 <= i <= subs.len(),
                pred == other_than(recipient@),
                kept@.map_values(|s: String| s@) == subs.take(i as int).filter(pred),
            decreases subs.len() - i,
        {
            proof {
                lemma_filter_take_step(subs, pred, i as int);
            }
            if !(self.subscribers[i] == r) {
                let s = self.subscribers[i].clone();
                let ghost before = kept@;
                kept.push(s);
                proof {
                    assert(kept@.map_values(|s: String| s@) =~= before.map_values(|s: String| s@).push(subs[i as int]));
                }
            }
            i += 1;
        }
        self.subscribers = kept;
        proof {
            assert(subs.take(subs.len() as int) =~= subs);
        }
        // Drop the copies waiting for the recipient.
        let ghost dv = v.deliveries;
        let ghost dpred = not_addressed_to(recipient@);
        let mut rest: VecDeque<(String, Message)> = VecDeque::new();
        std::mem::swap(&mut rest, &mut self.deliveries);
        let mut left: VecDeque<(String, Message)> = VecDeque::new();
        let ghost mut j: int = 0;
        while rest.len() > 0
            invariant
                0 <= j <= dv.len(),
                rest@.map_values(|d: (String, Message)| (d.0@, d.1)) == dv.skip(j),
                r@ == recipient@,
                dpred == not_addressed_to(recipient@),
                left@.map_values(|d: (String, Message)| (d.0@, d.1)) == dv.take(j).filter(dpred),
            decreases rest@.len(),
        {
            let ghost rest0 = rest@;
            let d = rest.pop_front().unwrap();
            proof {
                assert(rest0.map_values(|d: (String, Message)| (d.0@, d.1)).len() == rest0.len());
                assert(dv.skip(j).len() > 0);
                assert(rest0.map_values(|d: (String, Message)| (d.0@, d.1))[0] == (d.0@, d.1));
                assert(dv.skip(j)[0] == (d.0@, d.1));
                assert(dv[j] == (d.0@, d.1));
                assert(rest@.map_values(|d: (String, Message)| (d.0@, d.1))
                    =~= rest0.map_values(|d: (String, Message)| (d.0@, d.1)).drop_first());
                assert(dv.skip(j + 1) =~= dv.skip(j).drop_first());
                lemma_filter_take_step(dv, dpred, j);
            }
            if !(d.0 == r) {
                let ghost before = left@;
                left.push_back(d);
                proof {
                    assert(left@.map_values(|d: (String, Message)| (d.0@, d.1))
                        =~= before.map_values(|d: (String, Message)| (d.0@, d.1)).push(dv[j]));
                }
            }
            proof {
                j = j + 1;
            }
        }
        self.deliveries = left;
        proof {
            assert(j == dv.len());
            assert(dv.take(j) =~= dv);
            let w = self@;
            lemma_filter_no_duplicates(subs, pred);
            // every remaining copy is for a remaining subscriber
            assert forall|k: int| 0 <= k < w.deliveries.len() implies w.subscribers.contains(#[trigger] w.deliveries[k].0) by {
                let e = w.deliveries[k];
                dv.lemma_filter_pred(dpred, k);
                assert(w.deliveries.contains(e));
                dv.lemma_filter_contains_rev(dpred, e);
                let x = choose|x: int| 0 <= x < dv.len() && dv[x] == e;
                assert(subs.contains(dv[x].0));
                let y = choose|y: int| 0 <= y < subs.len() && subs[y] == e.0;
                subs.lemma_filter_contains(pred, y);
            }
            // every remaining subscriber keeps its own copies
            assert forall|k: int| 0 <= k < w.subscribers.len() implies inbox_len(w, #[trigger] w.subscribers[k]) <= w.capacity by {
                let s = w.subscribers[k];
                subs.lemma_filter_pred(pred, k);
                assert(w.subscribers.contains(s));
                subs.lemma_filter_contains_rev(pred, s);
                let y = choose|y: int| 0 <= y < subs.len() && subs[y] == s;
                assert(inbox_len(v, subs[y]) <= v.capacity);
                assert forall|x: int| 0 <= x < dv.len() && addressed_to(s)(#[trigger] dv[x]) implies dpred(dv[x]) by {}
                lemma_filter_filter(dv, dpred, addressed_to(s));
            }
        }
    }

    /// Number of copies waiting for the subscriber at position `k`.
    fn count_for(&self, k: usize) -> (r: usize)
        requires
            k < self@.subscribers.len(),
        ensures
            r == inbox_len(self@, self@.subscribers[k as int]),
    {
        let ghost dv = self@.deliveries;
        let ghost who = self@.subscribers[k as int];
        let mut c: usize = 0;
        let mut i: usize = 0;
        while i < self.deliveries.len()
            invariant
                dv == self@.deliveries,
                dv.len() == self.deliveries@.len(),
                k < self.subscribers@.len(),
                who == self.subscribers@[k as int]@,
                0 <= i <= dv.len(),
                c <= i,
                c == dv.take(i as int).filter(addressed_to(who)).len(),
            decreases dv.len() - i,
        {
            proof {
                lemma_filter_take_step(dv, addressed_to(who), i as int);
            }
            if self.deliveries[i].0 == self.subscribers[k] {
                c += 1;
            }
            i += 1;
        }
        proof {
            assert(dv.take(dv.len() as int) =~= dv);
        }
        c
    }

    /// Whether some subscriber already has as many copies waiting as the capacity.
    fn any_inbox_full(&self) -> (r: bool)
        ensures
            r == some_inbox_full(self@),
    {
        let ghost subs = self@.subscribers;
        let mut k: usize = 0;
        while k < self.subscribers.len()
            invariant
                subs == self@.subscribers,
                subs.len() == self.subscribers@.len(),
                0 <= k <= subs.len(),
                forall|j: int| 0 <= j < k ==> inbox_len(self@, #[trigger] subs[j]) < self@.capacity,
            decreases subs.len() - k,
        {
            if self.count_for(k) >= self.capacity {
                return true;
            }
            k += 1;
        }
        false
    }

    /// Receive the oldest copy waiting for `recipient`.
    pub fn receive_for(&mut self, recipient: &str) -> (r: Option<Message>)
        requires
            old(self).wf(),
        ensures
            final(self).wf(),
            if old(self)@.open && first_for(old(self)@.deliveries, recipient@) is Some {
                let i = first_for(old(self)@.deliveries, recipient@)->0;
                &&& r == Some(old(self)@.deliveries[i].1)
                &&& final(self)@ == (BroadcastChannelView {
                    deliveries: old(self)@.deliveries.remove(i),
                    ..old(self)@
                })
            } else {
                &&& r is None
                &&& final(self)@ == old(self)@
            },
    {
        if self.state == ChannelState::Closed {
            return None;
        }
        let ghost v = self@;
        let ghost dv = v.deliveries;
        assert(v.open);
        let key = recipient.to_string();
        let mut i: usize = 0;
        while i < self.deliveries.len()
            invariant
                self@ == v,
                v == old(self)@,
                v.open,
                self.wf(),
                dv == self@.deliveries,
                dv.len() == self.deliveries@.len(),
                key@ == recipient@,
                0 <= i <= dv.len(),
                forall|j: int| 0 <= j < i ==> (#[trigger] dv[j]).0 != recipient@,
            decreases dv.len() - i,
        {
            if self.deliveries[i].0 == key {
                proof {
                    assert(is_first_for(dv, recipient@, i as int));
                    let x = choose|x: int| is_first_for(dv, recipient@, x);
                    assert(x == i as int);
                    assert(first_for(dv, recipient@) == Some(i as int));
                    assert(v.open);
                }
                let got = self.deliveries.remove(i);
                let d = got.unwrap();
                proof {
                    assert(dv[i as int].1 == d.1);
                    let w = self@;
                    assert(w.deliveries =~= dv.remove(i as int));
                    assert forall|k: int| 0 <= k < w.subscribers.len()
                        implies inbox_len(w, #[trigger] w.subscribers[k]) <= w.capacity by {
                        lemma_filter_remove_len(dv, addressed_to(w.subscribers[k]), i as int);
                        assert(inbox_len(v, v.subscribers[k]) <= v.capacity);
                    }
                    assert forall|k: int| 0 <= k < w.deliveries.len()
                        implies w.subscribers.contains(#[trigger] w.deliveries[k].0) by {
                        if k < i {
                            assert(w.deliveries[k] == dv[k]);
                        } else {
                            assert(w.deliveries[k] == dv[k + 1]);
                        }
                    }
                }
                return Some(d.1);
            }
            i += 1;
        }
        proof {
            assert(!exists|x: int| is_first_for(dv, recipient@, x));
        }
        None
    }

    pub fn subscriber_count(&self) -> (r: usize)
        ensures
            r == self@.subscribers.len(),
    {
        self.subscribers.len()
    }

    pub fn subscribers(&self) -> (r: &[String])
        ensures
            r@.map_values(|s: String| s@) == self@.subscribers,
    {
        self.subscribers.as_slice()
    }
}

impl Channel for BroadcastChannel {
    open spec fn wf(&self) -> bool {
        broadcast_wf(self@)
    }

    open spec fn spec_is_open(&self) -> bool {
        self@.open
    }

    /// Number of copies waiting, for all subscribers together.
    open spec fn spec_pending(&self) -> nat {
        self@.deliveries.len()
    }

    /// All waiting copies, oldest first.
    open spec fn deliverable(&self) -> Seq<Message> {
        self@.deliveries.map_values(|d: (Seq<char>, Message)| d.1)
    }

    fn send(&mut self, msg: Message) -> (r: Result<(), &'static str>)
        ensures
            r == broadcast_send_result(old(self)@),
            broadcast_sent(old(self)@, final(self)@, msg@),
    {
        if self.state == ChannelState::Closed {
            return Err(CLOSED);
        }
        if self.any_inbox_full() {
            return Err(FULL);
        }
        let ghost v = self@;
        let ghost n0 = v.deliveries.len() as int;
        let mut k: usize = 0;
        while k < self.subscribers.len()
            invariant
                self@ == (BroadcastChannelView { deliveries: self@.deliveries, ..v }),
                v.subscribers.len() == self.subscribers@.len(),
                n0 == v.deliveries.len(),
                0 <= k <= v.subscribers.len(),
                self@.deliveries.len() == n0 + k,
                self@.deliveries.take(n0) == v.deliveries,
                forall|j: int| 0 <= j < k ==> (#[trigger] self@.deliveries[n0 + j]).0 == v.subscribers[j]
                    && self@.deliveries[n0 + j].1@ == msg@,
            decreases v.subscribers.len() - k,
        {
            let who = self.subscribers[k].clone();
            let copy = msg.duplicate();
            let ghost before = self@.deliveries;
            let ghost entry = (who@, copy);
            proof {
                assert(who@ == v.subscribers[k as int]);
                assert(before.len() == n0 + k);
                assert(before.take(n0) == v.deliveries);
            }
            self.deliveries.push_back((who, copy));
            proof {
                let after = self@.deliveries;
                assert(after =~= before.push(entry));
                assert(after.len() == n0 + k + 1);
                assert(after.take(n0) =~= before.take(n0));
                assert forall|j: int| 0 <= j < k + 1 implies (#[trigger] after[n0 + j]).0 == v.subscribers[j]
                    && after[n0 + j].1@ == msg@ by {
                    if j < k {
                        assert(after[n0 + j] == before[n0 + j]);
                    } else {
                        assert(after[n0 + j] == entry);
                    }
                }
            }
            k += 1;
        }
        proof {
            lemma_fan_out(v, self@, msg@);
        }
        Ok(())
    }

    fn receive(&mut self) -> (r: Option<Message>)
        ensures
            if old(self)@.open && old(self)@.deliveries.len() > 0 {
                &&& r == Some(old(self)@.deliveries[0].1)
                &&& final(self)@ == (BroadcastChannelView {
                    deliveries: old(self)@.deliveries.drop_first(),
                    ..old(self)@
                })
            } else {
                &&& r is None
                &&& final(self)@ == old(self)@
            },
    {
        if self.state == ChannelState::Closed {
            return None;
        }
        let ghost v = self@;
        match self.deliveries.pop_front() {
            Some(d) => {
                proof {
                    let w = self@;
                    assert(w.deliveries =~= v.deliveries.drop_first());
                    assert(self.deliverable() =~= v.deliveries.map_values(|d: (Seq<char>, Message)| d.1).drop_first());
                    assert forall|k: int| 0 <= k < w.subscribers.len()
                        implies inbox_len(w, #[trigger] w.subscribers[k]) <= w.capacity by {
                        lemma_filter_drop_first_len(v.deliveries, addressed_to(w.subscribers[k]));
                        assert(inbox_len(v, v.subscribers[k]) <= v.capacity);
                    }
                    assert forall|k: int| 0 <= k < w.deliveries.len()
                        implies w.subscribers.contains(#[trigger] w.deliveries[k].0) by {
                        assert(w.deliveries[k] == v.deliveries[k + 1]);
                    }
                }
                Some(d.1)
            },
            None => None,
        }
    }

    fn close(&mut self)
        ensures
            final(self)@ == (BroadcastChannelView { open: false, ..old(self)@ }),
    {
        self.state = ChannelState::Closed;
    }

    fn is_open(&self) -> (r: bool) {
        self.state == ChannelState::Open
    }

    fn pending_count(&self) -> (r: usize) {
        self.deliveries.len()
    }
}

/// A broadcast reaches every subscriber exactly once: after an accepted
/// `send`, each subscriber has one more copy waiting, with the contents of
/// the message, behind the copies it already had; the channel stays
/// consistent.
pub proof fn lemma_fan_out(v: BroadcastChannelView, w: BroadcastChannelView, msg: MessageView)
    requires
        broadcast_wf(v),
        broadcast_send_result(v) is Ok,
        broadcast_sent(v, w, msg),
    ensures
        broadcast_wf(w),
        forall|j: int| 0 <= j < v.subscribers.len() ==> {
            let s = #[trigger] v.subscribers[j];
            &&& inbox_len(w, s) == inbox_len(v, s) + 1
            &&& inbox(w, s).len() == inbox(v, s).len() + 1
            &&& inbox(w, s).drop_last() == inbox(v, s)
            &&& inbox(w, s).last()@ == msg
        },
{
    let n0 = v.deliveries.len() as int;
    let fresh = w.deliveries.skip(n0);
    assert(w.deliveries =~= v.deliveries + fresh);
    assert forall|j: int| 0 <= j < v.subscribers.len() implies {
        let s = #[trigger] v.subscribers[j];
        &&& inbox_len(w, s) == inbox_len(v, s) + 1
        &&& inbox(w, s).len() == inbox(v, s).len() + 1
        &&& inbox(w, s).drop_last() == inbox(v, s)
        &&& inbox(w, s).last()@ == msg
    } by {
        let s = v.subscribers[j];
        assert(fresh[j] == w.deliveries[n0 + j]);
        assert forall|k: int| 0 <= k < fresh.len() && k != j implies !addressed_to(s)(#[trigger] fresh[k]) by {
            assert(fresh[k] == w.deliveries[n0 + k]);
        }
        lemma_filter_single(fresh, addressed_to(s), j);
        Seq::filter_distributes_over_add(v.deliveries, fresh, addressed_to(s));
        let a = v.deliveries.filter(addressed_to(s));
        assert(w.deliveries.filter(addressed_to(s)) == a + seq![fresh[j]]);
        assert(inbox(w, s) =~= inbox(v, s).push(fresh[j].1));
    }
    assert forall|k: int| 0 <= k < w.subscribers.len() implies inbox_len(w, #[trigger] w.subscribers[k]) <= w.capacity by {
        assert(w.subscribers[k] == v.subscribers[k]);
        assert(!(inbox_len(v, v.subscribers[k]) >= v.capacity));
    }
    assert forall|i: int| 0 <= i < w.deliveries.len() implies w.subscribers.contains(#[trigger] w.deliveries[i].0) by {
        if i < n0 {
            assert(w.deliveries[i] == v.deliveries[i]);
        } else {
            let k = i - n0;
            assert(w.deliveries[n0 + k].0 == v.subscribers[k]);
        }
    }
}

/// Subscribing a new recipient and then unsubscribing it leaves the
/// subscriber list and the pending copies as they were.
pub proof fn lemma_subscribe_then_unsubscribe(v: BroadcastChannelView, recipient: Seq<char>)
    requires
        broadcast_wf(v),
        !v.subscribers.contains(recipient),
    ensures
        subscribe_result(v, recipient) is Ok,
        ({
            let w = BroadcastChannelView { subscribers: subscribers_after_subscribe(v, recipient), ..v };
            &&& subscribers_after_unsubscribe(w, recipient) == v.subscribers
            &&& deliveries_after_unsubscribe(w, recipient) == v.deliveries
        }),
{
    let pred = other_than(recipient);
    let dpred = not_addressed_to(recipient);
    v.subscribers.lemma_filter_push(recipient, pred);
    assert forall|i: int| 0 <= i < v.subscribers.len() implies pred(#[trigger] v.subscribers[i]) by {
        assert(v.subscribers.contains(v.subscribers[i]));
    }
    lemma_filter_all_pass(v.subscribers, pred);
    assert forall|i: int| 0 <= i < v.deliveries.len() implies dpred(#[trigger] v.deliveries[i]) by {
        assert(v.subscribers.contains(v.deliveries[i].0));
    }
    lemma_filter_all_pass(v.deliveries, dpred);
    let w = BroadcastChannelView { subscribers: subscribers_after_subscribe(v, recipient), ..v };
    assert(w.subscribers == v.subscribers.push(recipient));
    assert(subscribers_after_unsubscribe(w, recipient) == v.subscribers.push(recipient).filter(pred));
    assert(deliveries_after_unsubscribe(w, recipient) == v.deliveries.filter(dpred));
}

/// `receive_for` hands a subscriber the oldest copy waiting for it, takes
/// that copy out of its inbox, and leaves every other subscriber's inbox as
/// it was.
pub proof fn lemma_receive_for_oldest(v: BroadcastChannelView, recipient: Seq<char>)
    requires
        first_for(v.deliveries, recipient) is Some,
    ensures
        ({
            let i = first_for(v.deliveries, recipient)->0;
            let w = BroadcastChannelView { deliveries: v.deliveries.remove(i), ..v };
            &&& inbox(v, recipient).len() > 0
            &&& v.deliveries[i].1 == inbox(v, recipient)[0]
            &&& inbox(w, recipient) == inbox(v, recipient).drop_first()
            &&& forall|other: Seq<char>| other != recipient ==> #[trigger] inbox(w, other) == inbox(v, other)
        }),
{
    let d = v.deliveries;
    let i = first_for(d, recipient)->0;
    let k = choose|k: int| is_first_for(d, recipient, k);
    assert(is_first_for(d, recipient, i));
    let a = d.take(i);
    let b = d.skip(i + 1);
    let x = d[i];
    assert(d =~= a + (seq![x] + b));
    assert(d.remove(i) =~= a + b);
    assert forall|other: Seq<char>| true implies
        #[trigger] d.filter(addressed_to(other)) == a.filter(addressed_to(other))
            + ((if x.0 == other { seq![x] } else { Seq::empty() }) + b.filter(addressed_to(other)))
        && d.remove(i).filter(addressed_to(other)) == a.filter(addressed_to(other)) + b.filter(addressed_to(other)) by {
        Seq::filter_distributes_over_add(a, seq![x] + b, addressed_to(other));
        Seq::filter_distributes_over_add(a, b, addressed_to(other));
        b.lemma_filter_prepend(x, addressed_to(other));
    }
    assert forall|j: int| 0 <= j < a.len() implies !addressed_to(recipient)(#[trigger] a[j]) by {
        assert(a[j] == d[j]);
    }
    lemma_filter_none_pass(a, addressed_to(recipient));
    assert(a.filter(addressed_to(recipient)) =~= Seq::<(Seq<char>, Message)>::empty());
    let f = |e: (Seq<char>, Message)| e.1;
    assert(d.filter(addressed_to(recipient)) =~= seq![x] + b.filter(addressed_to(recipient)));
    assert(d.remove(i).filter(addressed_to(recipient)) =~= b.filter(addressed_to(recipient)));
    assert(inbox(v, recipient)[0] == x.1);
    let w = BroadcastChannelView { deliveries: d.remove(i), ..v };
    assert(inbox(w, recipient) =~= inbox(v, recipient).drop_first());
    assert forall|other: Seq<char>| other != recipient implies #[trigger] inbox(w, other) == inbox(v, other) by {
        assert(d.filter(addressed_to(other)) =~= d.remove(i).filter(addressed_to(other)));
    }
}

/// Unsubscribing a recipient drops only the copies waiting for it: every
/// other recipient's inbox stays exactly as it was.
pub proof fn lemma_unsubscribe_keeps_other_inboxes(v: BroadcastChannelView, recipient: Seq<char>)
    ensures
        ({
            let w = BroadcastChannelView {
                subscribers: subscribers_after_unsubscribe(v, recipient),
                deliveries: deliveries_after_unsubscribe(v, recipient),
                ..v
            };
            &&& forall|s: Seq<char>| s != recipient ==> #[trigger] inbox(w, s) == inbox(v, s)
            &&& inbox(w, recipient).len() == 0
            &&& w.deliveries.len() + inbox_len(v, recipient) == v.deliveries.len()
        }),
{
    let d = v.deliveries;
    let keep = not_addressed_to(recipient);
    let w = BroadcastChannelView {
        subscribers: subscribers_after_unsubscribe(v, recipient),
        deliveries: deliveries_after_unsubscribe(v, recipient),
        ..v
    };
    assert forall|s: Seq<char>| s != recipient implies #[trigger] inbox(w, s) == inbox(v, s) by {
        assert forall|i: int| 0 <= i < d.len() && addressed_to(s)(#[trigger] d[i]) implies keep(d[i]) by {}
        lemma_filter_filter(d, keep, addressed_to(s));
    }
    let f = d.filter(keep);
    assert forall|i: int| 0 <= i < f.len() implies !addressed_to(recipient)(#[trigger] f[i]) by {
        d.lemma_filter_pred(keep, i);
    }
    lemma_filter_none_pass(f, addressed_to(recipient));
    lemma_filter_split_count(d, addressed_to(recipient), keep);
}

/// `send` on a broadcast channel is accepted exactly when the channel is
/// open and every subscriber has fewer copies waiting than the capacity;
/// it is refused as closed, or else as full.
pub proof fn lemma_broadcast_send_accepts(v: BroadcastChannelView)
    ensures
        broadcast_send_result(v) is Ok <==> v.open && forall|k: int|
            0 <= k < v.subscribers.len() ==> inbox_len(v, #[trigger] v.subscribers[k]) < v.capacity,
        !v.open ==> broadcast_send_result(v) == Err::<(), &'static str>(CLOSED),
        v.open && !(broadcast_send_result(v) is Ok) ==> broadcast_send_result(v) == Err::<(), &'static str>(FULL),
{
}

/// `subscribe` is accepted exactly when the recipient is not yet
/// subscribed; it then adds the recipient at the end of the list, with an
/// empty inbox, and changes no one's inbox.
pub proof fn lemma_subscribe_adds_one(v: BroadcastChannelView, recipient: Seq<char>)
    requires
        broadcast_wf(v),
    ensures
        subscribe_result(v, recipient) is Ok <==> !v.subscribers.contains(recipient),
        subscribe_result(v, recipient) is Err ==> subscribe_result(v, recipient) == Err::<(), &'static str>(ALREADY_SUBSCRIBED)
            && subscribers_after_subscribe(v, recipient) == v.subscribers,
        subscribe_result(v, recipient) is Ok ==> {
            let subs = subscribers_after_subscribe(v, recipient);
            &&& subs.len() == v.subscribers.len() + 1
            &&& subs.last() == recipient
            &&& subs.drop_last() == v.subscribers
            &&& inbox_len(v, recipient) == 0
        },
{
    if !v.subscribers.contains(recipient) {
        assert(v.subscribers.push(recipient).drop_last() =~= v.subscribers);
        assert forall|i: int| 0 <= i < v.deliveries.len() implies !addressed_to(recipient)(#[trigger] v.deliveries[i]) by {
            assert(v.subscribers.contains(v.deliveries[i].0));
        }
        lemma_filter_none_pass(v.deliveries, addressed_to(recipient));
    }
}

} // verus!
