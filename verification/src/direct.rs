use vstd::prelude::*;
use std::collections::VecDeque;
use crate::message::Message;
use crate::channel::{Channel, ChannelState, CLOSED, FULL};

verus! {

/// Abstract state of a `DirectChannel`: its name, the messages it holds
/// (oldest first), whether it is open, and how many messages it may hold.
pub struct DirectChannelView {
    pub name: Seq<char>,
    pub queue: Seq<Message>,
    pub open: bool,
    pub capacity: nat,
}

/// A direct channel never holds more messages than its capacity.
pub open spec fn direct_wf(v: DirectChannelView) -> bool {
    v.queue.len() <= v.capacity
}

/// A freshly made channel: open and empty.
pub open spec fn direct_fresh(name: Seq<char>, capacity: nat) -> DirectChannelView {
    DirectChannelView { name, queue: Seq::empty(), open: true, capacity }
}

/// What `send` answers on a channel in state `v`.
pub open spec fn direct_send_result(v: DirectChannelView) -> Result<(), &'static str> {
    if !v.open {
        Err(CLOSED)
    } else if v.queue.len() >= v.capacity {
        Err(FULL)
    } else {
        Ok(())
    }
}

/// The state of a channel in state `v` after `send(msg)`: the message
/// joins the back of the queue when it is accepted.
pub open spec fn direct_after_send(v: DirectChannelView, msg: Message) -> DirectChannelView {
    if direct_send_result(v) is Ok {
        DirectChannelView { queue: v.queue.push(msg), ..v }
    } else {
        v
    }
}

/// Whether `receive` hands out a message on a channel in state `v`.
pub open spec fn direct_ready(v: DirectChannelView) -> bool {
    v.open && v.queue.len() > 0
}

/// What `receive` answers on a channel in state `v`: the oldest message.
pub open spec fn direct_receive_result(v: DirectChannelView) -> Option<Message> {
    if direct_ready(v) {
        Some(v.queue[0])
    } else {
        None
    }
}

/// The state of a channel in state `v` after `receive`.
pub open spec fn direct_after_receive(v: DirectChannelView) -> DirectChannelView {
    if direct_ready(v) {
        DirectChannelView { queue: v.queue.drop_first(), ..v }
    } else {
        v
    }
}

/// The state of a channel in state `v` after `close`.
pub open spec fn direct_after_close(v: DirectChannelView) -> DirectChannelView {
    DirectChannelView { open: false, ..v }
}

/// Point-to-point channel between two endpoints.
#[derive(Debug, Clone)]
pub struct DirectChannel {
    name: String,
    buffer: VecDeque<Message>,
    state: ChannelState,
    capacity: usize,
}

impl View for DirectChannel {
    type V = DirectChannelView;

    closed spec fn view(&self) -> DirectChannelView {
        DirectChannelView {
            name: self.name@,
            queue: self.buffer@,
            open: self.state == ChannelState::Open,
            capacity: self.capacity as nat,
        }
    }
}

impl DirectChannel {
    pub fn new(name: &str, capacity: usize) -> (ch: Self)
        ensures
            ch.wf(),
            ch@ == direct_fresh(name@, capacity as nat),
    {
        DirectChannel {
            name: name.to_string(),
            buffer: VecDeque::new(),
            state: ChannelState::Open,
            capacity,
        }
    }

    pub fn name(&self) -> (r: &str)
        ensures
            r@ == self@.name,
    {
        self.name.as_str()
    }
}

impl Channel for DirectChannel {
    open spec fn wf(&self) -> bool {
        direct_wf(self@)
    }

    open spec fn spec_is_open(&self) -> bool {
        self@.open
    }

    open spec fn spec_pending(&self) -> nat {
        self@.queue.len()
    }

    open spec fn deliverable(&self) -> Seq<Message> {
        self@.queue
    }

    fn send(&mut self, msg: Message) -> (r: Result<(), &'static str>)
        ensures
            r == direct_send_result(old(self)@),
            final(self)@ == direct_after_send(old(self)@, msg),
    {
        if self.state == ChannelState::Closed {
            return Err(CLOSED);
        }
        if self.buffer.len() >= self.capacity {
            return Err(FULL);
        }
        self.buffer.push_back(msg);
        Ok(())
    }

    fn receive(&mut self) -> (r: Option<Message>)
        ensures
            r == direct_receive_result(old(self)@),
            final(self)@ == direct_after_receive(old(self)@),
    {
        if self.state == ChannelState::Closed {
            return None;
        }
        self.buffer.pop_front()
    }

    fn close(&mut self)
        ensures
            final(self)@ == direct_after_close(old(self)@),
    {
        self.state = ChannelState::Closed;
    }

    fn is_open(&self) -> (r: bool) {
        self.state == ChannelState::Open
    }

    fn pending_count(&self) -> (r: usize) {
        self.buffer.len()
    }
}

/// Messages leave a direct channel in the order they entered it: a message
/// accepted by an open channel with room is received at once if the channel
/// was empty, and otherwise the message that was already first stays first.
pub proof fn lemma_direct_fifo(v: DirectChannelView, msg: Message)
    requires
        direct_wf(v),
        v.open,
        v.queue.len() < v.capacity,
    ensures
        direct_send_result(v) is Ok,
        direct_after_send(v, msg).queue == v.queue.push(msg),
        direct_receive_result(direct_after_send(v, msg)) == if v.queue.len() == 0 {
            Some(msg)
        } else {
            Some(v.queue[0])
        },
{
}

/// A closed direct channel refuses every send and hands out no message,
/// and neither call changes it.
pub proof fn lemma_direct_closed(v: DirectChannelView, msg: Message)
    ensures
        direct_send_result(direct_after_close(v)) == Err::<(), &'static str>(CLOSED),
        direct_after_send(direct_after_close(v), msg) == direct_after_close(v),
        direct_receive_result(direct_after_close(v)) is None,
        direct_after_receive(direct_after_close(v)) == direct_after_close(v),
        direct_after_close(v).queue == v.queue,
{
}

/// What each operation of a direct channel changes: `send` is accepted
/// exactly when the channel is open and holds fewer messages than its
/// capacity, and then the channel holds one message more; `receive` hands
/// out a message exactly when the channel is open and not empty, and then
/// holds one message fewer; `close` only closes. None of them changes the
/// name or the capacity.
pub proof fn lemma_direct_operations(v: DirectChannelView, msg: Message)
    ensures
        direct_send_result(v) is Ok <==> v.open && v.queue.len() < v.capacity,
        direct_send_result(v) is Ok ==> direct_after_send(v, msg).queue.len() == v.queue.len() + 1
            && direct_after_send(v, msg).queue.last() == msg,
        direct_send_result(v) is Err ==> direct_after_send(v, msg) == v,
        direct_receive_result(v) is Some <==> v.open && v.queue.len() > 0,
        direct_receive_result(v) is Some ==> direct_after_receive(v).queue.len() + 1 == v.queue.len()
            && direct_receive_result(v) == Some(v.queue[0]),
        direct_receive_result(v) is None ==> direct_after_receive(v) == v,
        !direct_after_close(v).open && direct_after_close(v).queue == v.queue,
        direct_after_send(v, msg).name == v.name && direct_after_send(v, msg).capacity == v.capacity
            && direct_after_send(v, msg).open == v.open,
        direct_after_receive(v).name == v.name && direct_after_receive(v).capacity == v.capacity
            && direct_after_receive(v).open == v.open,
        direct_after_close(v).name == v.name && direct_after_close(v).capacity == v.capacity,
{
}

} // verus!
