use vstd::prelude::*;
use crate::message::Message;

verus! {

/// Error returned by `send` on a channel that has been closed.
pub const CLOSED: &'static str = "Channel is closed";

/// Error returned by `send` on a channel that holds as many messages as its capacity.
pub const FULL: &'static str = "Channel buffer full";

/// Open/closed state of a channel.
#[derive(Debug, Clone, Copy, PartialEq, Eq, Structural)]
pub enum ChannelState {
    Open,
    Closed,
}

/// Core trait for all channel types.
///
/// Every channel has a delivery order (`deliverable`): the messages that
/// `receive` hands out, first one first. A closed channel accepts no more
/// sends and hands out no more messages.
pub trait Channel {
    /// Internal consistency of the channel; every operation keeps it.
    spec fn wf(&self) -> bool;

    /// Whether the channel is open.
    spec fn spec_is_open(&self) -> bool;

    /// Number of messages the channel holds.
    spec fn spec_pending(&self) -> nat;

    /// Messages that `receive` would hand out, in order.
    spec fn deliverable(&self) -> Seq<Message>;

    /// Send a message through the channel.
    fn send(&mut self, msg: Message) -> (r: Result<(), &'static str>)
        requires
            old(self).wf(),
        ensures
            final(self).wf(),
            final(self).spec_is_open() == old(self).spec_is_open(),
            !old(self).spec_is_open() ==> r == Err::<(), &'static str>(CLOSED),
            r is Err ==> final(self).spec_pending() == old(self).spec_pending()
                && final(self).deliverable() == old(self).deliverable(),
    ;

    /// Try to receive a message (non-blocking).
    fn receive(&mut self) -> (r: Option<Message>)
        requires
            old(self).wf(),
        ensures
            final(self).wf(),
            final(self).spec_is_open() == old(self).spec_is_open(),
            if old(self).spec_is_open() && old(self).deliverable().len() > 0 {
                &&& r == Some(old(self).deliverable()[0])
                &&& final(self).deliverable() == old(self).deliverable().drop_first()
            } else {
                &&& r is None
                &&& final(self).deliverable() == old(self).deliverable()
                &&& final(self).spec_pending() == old(self).spec_pending()
            },
    ;

    /// Close the channel. No more sends or receives.
    fn close(&mut self)
        requires
            old(self).wf(),
        ensures
            final(self).wf(),
            !final(self).spec_is_open(),
            final(self).spec_pending() == old(self).spec_pending(),
            final(self).deliverable() == old(self).deliverable(),
    ;

    /// Check if the channel is open.
    fn is_open(&self) -> (r: bool)
        requires
            self.wf(),
        ensures
            r == self.spec_is_open(),
    ;

    /// Number of pending messages.
    fn pending_count(&self) -> (r: usize)
        requires
            self.wf(),
        ensures
            r == self.spec_pending(),
    ;
}

} // verus!
