use vstd::prelude::*;
use crate::message::Message;
use crate::channel::{Channel, ChannelState, FULL};
use crate::direct::{
    DirectChannel, DirectChannelView, direct_wf, direct_fresh, direct_send_result,
    direct_after_send, direct_ready, direct_receive_result, direct_after_receive,
    direct_after_close,
};

verus! {

/// Error returned by `send_on` once the multiplexer is closed.
pub const MUX_CLOSED: &'static str = "Mux is closed";

/// Error returned for a sub-channel name that the multiplexer does not hold.
pub const CHANNEL_NOT_FOUND: &'static str = "Channel not found";

/// Error returned by `add_channel` for a name already in use.
pub const NAME_TAKEN: &'static str = "Channel name already exists";

/// Abstract state of a `ChannelMux`: its named sub-channels in the order
/// they were added, whether it is open, and the position at which the next
/// `receive_any` starts looking.
pub struct ChannelMuxView {
    pub channels: Seq<(Seq<char>, DirectChannelView)>,
    pub open: bool,
    pub cursor: nat,
}

/// Names of the sub-channels, in order.
pub open spec fn mux_names(chs: Seq<(Seq<char>, DirectChannelView)>) -> Seq<Seq<char>> {
    chs.map_values(|c: (Seq<char>, DirectChannelView)| c.0)
}

/// Invariant: names are unique, every sub-channel is consistent and carries
/// the name it is filed under, every sub-channel of an open multiplexer is
/// open, and the cursor points at a sub-channel (or is 0 when there is none).
pub open spec fn mux_wf(v: ChannelMuxView) -> bool {
    &&& mux_names(v.channels).no_duplicates()
    &&& forall|i: int| 0 <= i < v.channels.len() ==> direct_wf((#[trigger] v.channels[i]).1)
    &&& forall|i: int| 0 <= i < v.channels.len() ==> (#[trigger] v.channels[i]).1.name == v.channels[i].0
    &&& v.open ==> forall|i: int| 0 <= i < v.channels.len() ==> (#[trigger] v.channels[i]).1.open
    &&& (v.cursor < v.channels.len() || (v.channels.len() == 0 && v.cursor == 0))
}

/// A new multiplexer: open, with no sub-channel.
pub open spec fn mux_fresh() -> ChannelMuxView {
    ChannelMuxView { channels: Seq::empty(), open: true, cursor: 0 }
}

/// Whether `i` is the first position of a sub-channel named `name`.
pub open spec fn is_first_named(chs: Seq<(Seq<char>, DirectChannelView)>, name: Seq<char>, i: int) -> bool {
    &&& 0 <= i < chs.len()
    &&& chs[i].0 == name
    &&& forall|j: int| 0 <= j < i ==> (#[trigger] chs[j]).0 != name
}

/// Position of the sub-channel named `name`, if any.
pub open spec fn find_channel(chs: Seq<(Seq<char>, DirectChannelView)>, name: Seq<char>) -> Option<int> {
    if exists|i: int| is_first_named(chs, name, i) {
        Some(choose|i: int| is_first_named(chs, name, i))
    } else {
        None
    }
}

/// The cursor after the sub-channel at `removed` leaves, `remaining`
/// sub-channels being left: it keeps pointing at the same sub-channel, or at
/// the one that took the removed one's place, wrapping to the start.
pub open spec fn cursor_after_remove(cursor: nat, removed: int, remaining: nat) -> nat {
    let c: nat = if removed < cursor { (cursor - 1) as nat } else { cursor };
    if c >= remaining { 0 } else { c }
}

/// Position visited at step `k` of a round that starts at `start` and wraps
/// around `n` sub-channels.
pub open spec fn rotated(start: int, k: int, n: int) -> int {
    if start + k < n { start + k } else { start + k - n }
}

/// Whether step `k` of the round starting at `start` is the first to reach a
/// sub-channel with a message to hand out.
pub open spec fn is_first_ready(chs: Seq<(Seq<char>, DirectChannelView)>, start: int, k: int) -> bool {
    let n = chs.len() as int;
    &&& 0 <= k < n
    &&& direct_ready(chs[rotated(start, k, n)].1)
    &&& forall|j: int| 0 <= j < k ==> !direct_ready(#[trigger] chs[rotated(start, j, n)].1)
}

/// Position of the sub-channel that `receive_any` takes from, if any: the
/// first ready one, looking from the cursor onwards and wrapping around.
pub open spec fn next_ready(v: ChannelMuxView) -> Option<int> {
    if exists|k: int| is_first_ready(v.channels, v.cursor as int, k) {
        let k = choose|k: int| is_first_ready(v.channels, v.cursor as int, k);
        Some(rotated(v.cursor as int, k, v.channels.len() as int))
    } else {
        None
    }
}

/// The position after `i` among `n` sub-channels, wrapping to the start.
pub open spec fn next_position(i: int, n: int) -> nat {
    if i + 1 < n { (i + 1) as nat } else { 0 }
}

/// The state after `receive_any`: the sub-channel served hands out its
/// oldest message and the cursor moves just past it; with no sub-channel
/// ready, nothing changes.
pub open spec fn mux_after_receive_any(v: ChannelMuxView) -> ChannelMuxView {
    match next_ready(v) {
        Some(i) => ChannelMuxView {
            channels: v.channels.update(i, (v.channels[i].0, direct_after_receive(v.channels[i].1))),
            open: v.open,
            cursor: next_position(i, v.channels.len() as int),
        },
        None => v,
    }
}

/// Total number of messages held by the sub-channels.
pub open spec fn total_queued(chs: Seq<(Seq<char>, DirectChannelView)>) -> nat
    decreases chs.len(),
{
    if chs.len() == 0 {
        0
    } else {
        total_queued(chs.drop_last()) + chs.last().1.queue.len()
    }
}

/// Multiplexes many named logical channels over one connection.
#[derive(Debug, Clone)]
pub struct ChannelMux {
    channels: Vec<(String, DirectChannel)>,
    state: ChannelState,
    cursor: usize,
}

impl View for ChannelMux {
    type V = ChannelMuxView;

    closed spec fn view(&self) -> ChannelMuxView {
        ChannelMuxView {
            channels: self.channels@.map_values(|c: (String, DirectChannel)| (c.0@, c.1@)),
            open: self.state == ChannelState::Open,
            cursor: self.cursor as nat,
        }
    }
}

impl ChannelMux {
    /// Internal consistency of the multiplexer; every operation keeps it.
    pub open spec fn wf(&self) -> bool {
        mux_wf(self@)
    }

    pub fn new() -> (mux: Self)
        ensures
            mux.wf(),
            mux@ == mux_fresh(),
    {
        let mux = ChannelMux { channels: Vec::new(), state: ChannelState::Open, cursor: 0 };
        proof {
            assert(mux@.channels =~= Seq::<(Seq<char>, DirectChannelView)>::empty());
        }
        mux
    }

    /// Position of the sub-channel named `name`.
    fn position(&self, name: &str) -> (r: Option<usize>)
        ensures
            match r {
                Some(i) => find_channel(self@.channels, name@) == Some(i as int),
                None => find_channel(self@.channels, name@) is None
                    && forall|j: int| 0 <= j < self@.channels.len()
                        ==> (#[trigger] self@.channels[j]).0 != name@,
            },
    {
        let ghost chs = self@.channels;
        let key = name.to_string();
        let mut i: usize = 0;
        while i < self.channels.len()
            invariant
                chs == self@.channels,
                chs.len() == self.channels@.len(),
                key@ == name@,
                0 <= i <= chs.len(),
                forall|j: int| 0 <= j < i ==> (#[trigger] chs[j]).0 != name@,
            decreases chs.len() - i,
        {
            if self.channels[i].0 == key {
                proof {
                    assert(chs[i as int].0 == name@);
                    assert(is_first_named(chs, name@, i as int));
                    let k = choose|k: int| is_first_named(chs, name@, k);
                    assert(k == i as int);
                }
                return Some(i);
            }
            i += 1;
        }
        proof {
            assert(!exists|k: int| is_first_named(chs, name@, k));
        }
        None
    }

    /// Add a named sub-channel.
    pub fn add_channel(&mut self, name: &str, capacity: usize) -> (r: Result<(), &'static str>)
        requires
            old(self).wf(),
        ensures
            final(self).wf(),
            r is Ok <==> find_channel(old(self)@.channels, name@) is None,
            r is Err ==> r == Err::<(), &'static str>(NAME_TAKEN) && final(self)@ == old(self)@,
            r is Ok ==> final(self)@ == (ChannelMuxView {
                channels: old(self)@.channels.push((name@, direct_fresh(name@, capacity as nat))),
                ..old(self)@
            }),
    {
        if self.position(name).is_some() {
            return Err(NAME_TAKEN);
        }
        let ghost chs = self@.channels;
        self.channels.push((name.to_string(), DirectChannel::new(name, capacity)));
        proof {
            assert(self@.channels =~= chs.push((name@, direct_fresh(name@, capacity as nat))));
            assert(mux_names(self@.channels) =~= mux_names(chs).push(name@));
        }
        Ok(())
    }

    /// Remove a named sub-channel.
    pub fn remove_channel(&mut self, name: &str) -> (r: Result<(), &'static str>)
        requires
            old(self).wf(),
        ensures
            final(self).wf(),
            match find_channel(old(self)@.channels, name@) {
                Some(i) => r is Ok && final(self)@ == (ChannelMuxView {
                    channels: old(self)@.channels.remove(i),
                    open: old(self)@.open,
                    cursor: cursor_after_remove(old(self)@.cursor, i, (old(self)@.channels.len() - 1) as nat),
                }),
                None => r == Err::<(), &'static str>(CHANNEL_NOT_FOUND) && final(self)@ == old(self)@,
            },
    {
        let idx = match self.position(name) {
            Some(i) => i,
            None => {
                return Err(CHANNEL_NOT_FOUND);
            },
        };
        let ghost chs = self@.channels;
        let _removed = self.channels.remove(idx);
        proof {
            assert(self@.channels =~= chs.remove(idx as int));
            assert(mux_names(self@.channels) =~= mux_names(chs).remove(idx as int));
            assert forall|a: int, b: int|
                0 <= a < mux_names(self@.channels).len() && 0 <= b < mux_names(self@.channels).len() && a != b
                implies mux_names(self@.channels)[a] != mux_names(self@.channels)[b] by {
                let a0 = if a < idx { a } else { a + 1 };
                let b0 = if b < idx { b } else { b + 1 };
                assert(mux_names(self@.channels)[a] == mux_names(chs)[a0]);
                assert(mux_names(self@.channels)[b] == mux_names(chs)[b0]);
            }
        }
        let n = self.channels.len();
        if idx < self.cursor {
            self.cursor = self.cursor - 1;
        }
        if self.cursor >= n {
            self.cursor = 0;
        }
        Ok(())
    }

    /// Send a message on a named sub-channel.
    pub fn send_on(&mut self, channel_name: &str, msg: Message) -> (r: Result<(), &'static str>)
        requires
            old(self).wf(),
        ensures
            final(self).wf(),
            !old(self)@.open ==> r == Err::<(), &'static str>(MUX_CLOSED) && final(self)@ == old(self)@,
            old(self)@.open ==> match find_channel(old(self)@.channels, channel_name@) {
                Some(i) => {
                    let (n, ch) = old(self)@.channels[i];
                    &&& r == direct_send_result(ch)
                    &&& final(self)@ == (ChannelMuxView {
                        channels: old(self)@.channels.update(i, (n, direct_after_send(ch, msg))),
                        ..old(self)@
                    })
                },
                None => r == Err::<(), &'static str>(CHANNEL_NOT_FOUND) && final(self)@ == old(self)@,
            },
    {
        if self.state == ChannelState::Closed {
            return Err(MUX_CLOSED);
        }
        let idx = match self.position(channel_name) {
            Some(i) => i,
            None => {
                return Err(CHANNEL_NOT_FOUND);
            },
        };
        let ghost chs = self@.channels;
        let r = self.channels[idx].1.send(msg);
        proof {
            assert(self@.channels =~= chs.update(idx as int, (chs[idx as int].0, self@.channels[idx as int].1)));
            assert(mux_names(self@.channels) =~= mux_names(chs));
        }
        r
    }

    /// Receive from a named sub-channel.
    pub fn receive_from(&mut self, channel_name: &str) -> (r: Option<Message>)
        requires
            old(self).wf(),
        ensures
            final(self).wf(),
            match find_channel(old(self)@.channels, channel_name@) {
                Some(i) => {
                    let (n, ch) = old(self)@.channels[i];
                    &&& r == direct_receive_result(ch)
                    &&& final(self)@ == (ChannelMuxView {
                        channels: old(self)@.channels.update(i, (n, direct_after_receive(ch))),
                        ..old(self)@
                    })
                },
                None => r is None && final(self)@ == old(self)@,
            },
    {
        let idx = match self.position(channel_name) {
            Some(i) => i,
            None => {
                return None;
            },
        };
        let ghost chs = self@.channels;
        let r = self.channels[idx].1.receive();
        proof {
            assert(self@.channels =~= chs.update(idx as int, (chs[idx as int].0, self@.channels[idx as int].1)));
            assert(mux_names(self@.channels) =~= mux_names(chs));
        }
        r
    }

    /// Receive from any sub-channel that has a message (round-robin): the
    /// search starts at the sub-channel after the one served last.
    pub fn receive_any(&mut self) -> (r: Option<(String, Message)>)
        requires
            old(self).wf(),
        ensures
            final(self).wf(),
            match next_ready(old(self)@) {
                Some(i) => r matches Some(p) && p.0@ == old(self)@.channels[i].0
                    && p.1 == old(self)@.channels[i].1.queue[0],
                None => r is None,
            },
            final(self)@ == mux_after_receive_any(old(self)@),
    {
        let n = self.channels.len();
        let ghost chs = self@.channels;
        let ghost start = self.cursor as int;
        if n == 0 {
            proof {
                assert(!exists|k: int| is_first_ready(chs, start, k));
            }
            return None;
        }
        let c = self.cursor;
        let mut k: usize = 0;
        while k < n
            invariant
                self.wf(),
                self@ == old(self)@,
                chs == self@.channels,
                n == chs.len(),
                n == self.channels@.len(),
                c == start,
                start == old(self)@.cursor,
                0 <= c < n,
                0 <= k <= n,
                forall|j: int| 0 <= j < k ==> !direct_ready(#[trigger] chs[rotated(start, j, n as int)].1),
            decreases n - k,
        {
            let i = if k < n - c { c + k } else { k - (n - c) };
            assert(i as int == rotated(start, k as int, n as int));
            assert(direct_wf(chs[i as int].1));
            let got = self.channels[i].1.receive();
            match got {
                Some(m) => {
                    proof {
                        assert(is_first_ready(chs, start, k as int));
                        let kk = choose|kk: int| is_first_ready(chs, start, kk);
                        assert(kk == k as int);
                        assert(self@.channels =~= chs.update(i as int, (chs[i as int].0, direct_after_receive(chs[i as int].1))));
                        assert(mux_names(self@.channels) =~= mux_names(chs));
                    }
                    let name = self.channels[i].0.clone();
                    assert(name@ == chs[i as int].0);
                    self.cursor = if i + 1 < n { i + 1 } else { 0 };
                    return Some((name, m));
                },
                None => {
                    proof {
                        assert(self@.channels =~= chs);
                    }
                },
            }
            k += 1;
        }
        proof {
            assert(!exists|kk: int| is_first_ready(chs, start, kk));
        }
        None
    }

    pub fn channel_count(&self) -> (r: usize)
        ensures
            r == self@.channels.len(),
    {
        self.channels.len()
    }

    /// Total pending across all sub-channels.
    pub fn total_pending(&self) -> (r: usize)
        requires
            self.wf(),
            total_queued(self@.channels) <= usize::MAX,
        ensures
            r == total_queued(self@.channels),
    {
        let ghost chs = self@.channels;
        let mut sum: usize = 0;
        let mut i: usize = 0;
        while i < self.channels.len()
            invariant
                chs == self@.channels,
                chs.len() == self.channels@.len(),
                0 <= i <= chs.len(),
                total_queued(chs) <= usize::MAX,
                mux_wf(self@),
                sum == total_queued(chs.take(i as int)),
            decreases chs.len() - i,
        {
            proof {
                assert(chs.take(i as int + 1).drop_last() =~= chs.take(i as int));
                lemma_total_queued_prefix(chs, i as int + 1);
                assert(direct_wf(chs[i as int].1));
            }
            sum = sum + self.channels[i].1.pending_count();
            i += 1;
        }
        proof {
            assert(chs.take(chs.len() as int) =~= chs);
        }
        sum
    }

    pub fn channel_names(&self) -> (r: Vec<&str>)
        ensures
            r@.map_values(|s: &str| s@) == mux_names(self@.channels),
    {
        let ghost chs = self@.channels;
        let mut names: Vec<&str> = Vec::new();
        let mut i: usize = 0;
        while i < self.channels.len()
            invariant
                chs == self@.channels,
                chs.len() == self.channels@.len(),
                0 <= i <= chs.len(),
                names@.map_values(|s: &str| s@) == mux_names(chs).take(i as int),
            decreases chs.len() - i,
        {
            let ghost before = names@;
            let s = self.channels[i].0.as_str();
            assert(s@ == mux_names(chs)[i as int]);
            names.push(s);
            proof {
                assert(names@ == before.push(s));
                assert(names@.map_values(|s: &str| s@) =~= before.map_values(|s: &str| s@).push(s@));
                assert(names@.map_values(|s: &str| s@) =~= mux_names(chs).take(i as int + 1));
            }
            i += 1;
        }
        proof {
            assert(mux_names(chs).take(chs.len() as int) =~= mux_names(chs));
        }
        names
    }

    pub fn is_open(&self) -> (r: bool)
        ensures
            r == self@.open,
    {
        self.state == ChannelState::Open
    }

    /// Close the multiplexer and every sub-channel.
    pub fn close(&mut self)
        requires
            old(self).wf(),
        ensures
            final(self).wf(),
            final(self)@ == (ChannelMuxView {
                channels: old(self)@.channels.map_values(
                    |c: (Seq<char>, DirectChannelView)| (c.0, direct_after_close(c.1)),
                ),
                open: false,
                cursor: old(self)@.cursor,
            }),
    {
        let ghost chs = self@.channels;
        self.state = ChannelState::Closed;
        let mut i: usize = 0;
        while i < self.channels.len()
            invariant
                mux_wf(old(self)@),
                chs == old(self)@.channels,
                chs.len() == self.channels@.len(),
                self.state == ChannelState::Closed,
                self.cursor == old(self)@.cursor,
                0 <= i <= chs.len(),
                forall|j: int| 0 <= j < chs.len() ==> (#[trigger] self@.channels[j]) == (if j < i {
                    (chs[j].0, direct_after_close(chs[j].1))
                } else {
                    chs[j]
                }),
            decreases chs.len() - i,
        {
            let ghost prev = self@.channels;
            assert(prev[i as int] == chs[i as int]);
            assert(direct_wf(chs[i as int].1));
            self.channels[i].1.close();
            proof {
                assert(self@.channels =~= prev.update(i as int, (chs[i as int].0, direct_after_close(chs[i as int].1))));
            }
            i += 1;
        }
        proof {
            assert(self@.channels =~= chs.map_values(
                |c: (Seq<char>, DirectChannelView)| (c.0, direct_after_close(c.1)),
            ));
            assert(mux_names(self@.channels) =~= mux_names(chs));
        }
    }
}

impl Default for ChannelMux {
    fn default() -> (mux: Self)
        ensures
            mux.wf(),
            mux@ == mux_fresh(),
    {
        Self::new()
    }
}

/// The messages held by a prefix of the sub-channels are no more than those
/// held by all of them.
proof fn lemma_total_queued_prefix(chs: Seq<(Seq<char>, DirectChannelView)>, i: int)
    requires
        0 <= i <= chs.len(),
    ensures
        total_queued(chs.take(i)) <= total_queued(chs),
    decreases chs.len(),
{
    if i == chs.len() {
        assert(chs.take(i) =~= chs);
    } else {
        assert(chs.drop_last().take(i) =~= chs.take(i));
        lemma_total_queued_prefix(chs.drop_last(), i);
    }
}

/// If some step of a round reaches a ready sub-channel, some step no later
/// is the first to do so.
proof fn lemma_first_ready_exists(chs: Seq<(Seq<char>, DirectChannelView)>, start: int, k: int)
    requires
        0 <= k < chs.len(),
        direct_ready(chs[rotated(start, k, chs.len() as int)].1),
    ensures
        exists|k0: int| 0 <= k0 <= k && is_first_ready(chs, start, k0),
    decreases k,
{
    let n = chs.len() as int;
    if forall|j: int| 0 <= j < k ==> !direct_ready(#[trigger] chs[rotated(start, j, n)].1) {
        assert(is_first_ready(chs, start, k));
    } else {
        let j = choose|j: int| 0 <= j < k && direct_ready(#[trigger] chs[rotated(start, j, n)].1);
        lemma_first_ready_exists(chs, start, j);
    }
}

/// Round-robin fairness: right after `receive_any` served a sub-channel, the
/// next `receive_any` serves another one whenever another one is ready.
pub proof fn lemma_receive_any_round_robin(v: ChannelMuxView, other: int)
    requires
        mux_wf(v),
        next_ready(v) is Some,
        0 <= other < v.channels.len(),
        other != next_ready(v)->0,
        direct_ready(mux_after_receive_any(v).channels[other].1),
    ensures
        next_ready(mux_after_receive_any(v)) is Some,
        next_ready(mux_after_receive_any(v)) != next_ready(v),
{
    let i = next_ready(v)->0;
    let v2 = mux_after_receive_any(v);
    let n = v.channels.len() as int;
    let c2 = v2.cursor as int;
    let k0 = choose|k: int| is_first_ready(v.channels, v.cursor as int, k);
    assert(0 <= i < n);
    assert(v2.channels.len() == n);
    // offset of `other` in the round starting at the new cursor
    let ko = if other >= c2 { other - c2 } else { other + n - c2 };
    assert(rotated(c2, ko, n) == other);
    assert(ko < n - 1) by {
        if ko == n - 1 {
            assert(rotated(c2, ko, n) == i);
        }
    }
    lemma_first_ready_exists(v2.channels, c2, ko);
    let k2 = choose|k: int| is_first_ready(v2.channels, c2, k);
    assert(rotated(c2, k2, n) != i) by {
        if rotated(c2, k2, n) == i {
            assert(k2 == n - 1);
        }
    }
}

/// Adding a sub-channel under an unused name and then removing it by that
/// name gives back the multiplexer as it was.
pub proof fn lemma_add_then_remove(v: ChannelMuxView, name: Seq<char>, capacity: nat)
    requires
        mux_wf(v),
        !mux_names(v.channels).contains(name),
    ensures
        ({
            let chs = v.channels.push((name, direct_fresh(name, capacity)));
            &&& find_channel(chs, name) == Some(v.channels.len() as int)
            &&& chs.remove(v.channels.len() as int) == v.channels
            &&& cursor_after_remove(v.cursor, v.channels.len() as int, v.channels.len()) == v.cursor
        }),
{
    let n = v.channels.len() as int;
    let chs = v.channels.push((name, direct_fresh(name, capacity)));
    assert forall|j: int| 0 <= j < n implies (#[trigger] chs[j]).0 != name by {
        assert(mux_names(v.channels)[j] == v.channels[j].0);
    }
    assert(is_first_named(chs, name, n));
    let k = choose|k: int| is_first_named(chs, name, k);
    assert(k == n);
    assert(chs.remove(n) =~= v.channels);
}

/// The sub-channels hold no message at all exactly when each one is empty.
proof fn lemma_total_queued_zero(chs: Seq<(Seq<char>, DirectChannelView)>)
    ensures
        total_queued(chs) == 0 <==> forall|i: int| 0 <= i < chs.len() ==> (#[trigger] chs[i]).1.queue.len() == 0,
    decreases chs.len(),
{
    if chs.len() > 0 {
        let r = chs.drop_last();
        lemma_total_queued_zero(r);
        assert forall|i: int| #![trigger r[i]] #![trigger chs[i]] 0 <= i < r.len() implies r[i] == chs[i] by {}
        if total_queued(chs) == 0 {
            assert forall|i: int| 0 <= i < chs.len() implies (#[trigger] chs[i]).1.queue.len() == 0 by {
                if i < r.len() {
                    assert(r[i].1.queue.len() == 0);
                }
            }
        }
    }
}

/// In an open multiplexer every sub-channel is open: sending on one is
/// refused only when it is full, and receiving from one yields nothing only
/// when it is empty.
pub proof fn lemma_open_mux_sub_channel(v: ChannelMuxView, i: int)
    requires
        mux_wf(v),
        v.open,
        0 <= i < v.channels.len(),
    ensures
        direct_send_result(v.channels[i].1) == if v.channels[i].1.queue.len() >= v.channels[i].1.capacity {
            Err::<(), &'static str>(FULL)
        } else {
            Ok(())
        },
        direct_receive_result(v.channels[i].1) is None <==> v.channels[i].1.queue.len() == 0,
{
}

/// An open multiplexer's `receive_any` hands out nothing exactly when no
/// sub-channel holds a message.
pub proof fn lemma_open_mux_receive_any(v: ChannelMuxView)
    requires
        mux_wf(v),
        v.open,
    ensures
        next_ready(v) is None <==> total_queued(v.channels) == 0,
{
    let chs = v.channels;
    let n = chs.len() as int;
    let c = v.cursor as int;
    lemma_total_queued_zero(chs);
    if total_queued(chs) == 0 {
        assert forall|k: int| !is_first_ready(chs, c, k) by {
            if 0 <= k < n {
                let j = rotated(c, k, n);
                assert(chs[j].1.queue.len() == 0);
            }
        }
    } else {
        let j = choose|j: int| 0 <= j < n && (#[trigger] chs[j]).1.queue.len() != 0;
        let k = if j >= c { j - c } else { j + n - c };
        assert(rotated(c, k, n) == j);
        assert(direct_ready(chs[j].1));
        lemma_first_ready_exists(chs, c, k);
    }
}

/// Replacing one sub-channel changes the total number of messages held by
/// the difference between what the new and the old one hold; adding a
/// sub-channel adds what it holds.
pub proof fn lemma_total_queued_update(
    chs: Seq<(Seq<char>, DirectChannelView)>,
    i: int,
    x: (Seq<char>, DirectChannelView),
)
    requires
        0 <= i < chs.len(),
    ensures
        total_queued(chs.update(i, x)) + chs[i].1.queue.len() == total_queued(chs) + x.1.queue.len(),
        total_queued(chs.push(x)) == total_queued(chs) + x.1.queue.len(),
        chs[i].1.queue.len() <= total_queued(chs),
    decreases chs.len(),
{
    assert(chs.push(x).drop_last() =~= chs);
    let r = chs.drop_last();
    if i == chs.len() - 1 {
        assert(chs.update(i, x).drop_last() =~= r);
    } else {
        lemma_total_queued_update(r, i, x);
        assert(chs.update(i, x).drop_last() =~= r.update(i, x));
        assert(r[i] == chs[i]);
    }
}

/// Each message accepted by `send_on` adds one to the total pending, and
/// each message handed out by `receive_from` takes one away.
pub proof fn lemma_total_pending_counts_messages(v: ChannelMuxView, i: int, msg: Message)
    requires
        0 <= i < v.channels.len(),
    ensures
        ({
            let (n, ch) = v.channels[i];
            &&& direct_send_result(ch) is Ok ==> total_queued(v.channels.update(i, (n, direct_after_send(ch, msg))))
                == total_queued(v.channels) + 1
            &&& direct_receive_result(ch) is Some ==> total_queued(v.channels.update(i, (n, direct_after_receive(ch))))
                + 1 == total_queued(v.channels)
        }),
{
    let (n, ch) = v.channels[i];
    lemma_total_queued_update(v.channels, i, (n, direct_after_send(ch, msg)));
    lemma_total_queued_update(v.channels, i, (n, direct_after_receive(ch)));
}

/// Removing a sub-channel other than the one the cursor points at keeps the
/// cursor on that same sub-channel; removing the one it points at moves it to
/// the sub-channel that came next, wrapping to the start.
pub proof fn lemma_remove_keeps_cursor_target(v: ChannelMuxView, i: int)
    requires
        mux_wf(v),
        0 <= i < v.channels.len(),
        v.channels.len() > 1,
    ensures
        ({
            let n = v.channels.len() as int;
            let c = v.cursor as int;
            let c2 = cursor_after_remove(v.cursor, i, (n - 1) as nat) as int;
            &&& 0 <= c2 < n - 1
            &&& i != c ==> v.channels.remove(i)[c2] == v.channels[c]
            &&& i == c && c + 1 < n ==> v.channels.remove(i)[c2] == v.channels[c + 1]
            &&& i == c && c + 1 == n ==> c2 == 0
        }),
{
}

} // verus!
