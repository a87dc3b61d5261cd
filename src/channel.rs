use vstd::prelude::*;
use std::collections::VecDeque;
use crate::work::reverse_chars;

verus! {

/// A send that found no live receiver; the message is handed back.
pub struct SendError<T>(pub T);

/// What one receive found.
pub enum RecvPoll<T> {
    /// The oldest queued message.
    Message(T),
    /// The queue is empty and no sender is left: the stream has ended.
    Closed,
    /// The queue is empty but a sender is still live: the receiver waits.
    Waiting,
}

/// A send end of a channel. Each owner holds its own; a copy is made only by
/// `Channel::clone_sender`, and one is given up by `Channel::drop_sender`.
pub struct Sender {
    id: usize,
}

impl Sender {
    pub closed spec fn spec_id(&self) -> nat {
        self.id as nat
    }

    /// Which send end of its channel this is.
    pub fn id(&self) -> (r: usize)
        ensures
            r == self.spec_id(),
    {
        self.id
    }
}

/// The abstract state of a channel: queued messages, each tagged with the
/// send end it came from; which send ends are live; whether the receiver is.
pub struct ChannelView<T> {
    pub queue: Seq<(usize, T)>,
    pub senders: Seq<bool>,
    pub receiver: bool,
}

/// Whether the send end `id` is live.
pub open spec fn sender_live(senders: Seq<bool>, id: nat) -> bool {
    id < senders.len() && senders[id as int]
}

/// Whether some send end is still live.
pub open spec fn any_live(senders: Seq<bool>) -> bool {
    exists|i: int| 0 <= i < senders.len() && #[trigger] senders[i]
}

/// The messages of a queue, without their send ends.
pub open spec fn messages<T>(queue: Seq<(usize, T)>) -> Seq<T> {
    queue.map_values(|e: (usize, T)| e.1)
}

/// A send of `msg` on send end `id`: queued at the back while the receiver lives.
pub open spec fn send_step<T>(v: ChannelView<T>, id: usize, msg: T) -> ChannelView<T> {
    if v.receiver {
        ChannelView { queue: v.queue.push((id, msg)), ..v }
    } else {
        v
    }
}

/// A receive: the front message if any; else the end of the stream once no
/// sender is live; else a wait.
pub open spec fn recv_step<T>(v: ChannelView<T>) -> (RecvPoll<T>, ChannelView<T>) {
    if v.queue.len() > 0 {
        (RecvPoll::Message(v.queue[0].1), ChannelView { queue: v.queue.drop_first(), ..v })
    } else if any_live(v.senders) {
        (RecvPoll::Waiting, v)
    } else {
        (RecvPoll::Closed, v)
    }
}

/// Giving up every send end.
pub open spec fn drop_all_senders<T>(v: ChannelView<T>) -> ChannelView<T> {
    ChannelView { senders: Seq::new(v.senders.len(), |i: int| false), ..v }
}

/// Sends each `(id, msg)` of `sends` in turn.
pub open spec fn send_all<T>(v: ChannelView<T>, sends: Seq<(usize, T)>) -> ChannelView<T>
    decreases sends.len(),
{
    if sends.len() == 0 {
        v
    } else {
        send_all(send_step(v, sends[0].0, sends[0].1), sends.drop_first())
    }
}

/// The messages that receiving up to `n` times yields, stopping at the first
/// receive that gives no message.
pub open spec fn received<T>(v: ChannelView<T>, n: nat) -> Seq<T>
    decreases n,
{
    if n == 0 {
        Seq::empty()
    } else {
        match recv_step(v).0 {
            RecvPoll::Message(m) => seq![m] + received(recv_step(v).1, (n - 1) as nat),
            _ => Seq::empty(),
        }
    }
}

/// The state after receiving up to `n` times, as `received` does.
pub open spec fn after_received<T>(v: ChannelView<T>, n: nat) -> ChannelView<T>
    decreases n,
{
    if n == 0 {
        v
    } else {
        match recv_step(v).0 {
            RecvPoll::Message(_) => after_received(recv_step(v).1, (n - 1) as nat),
            _ => v,
        }
    }
}

/// Sends to a channel whose receiver is live queue every message at the back,
/// in the order sent.
pub proof fn lemma_send_all_queues<T>(v: ChannelView<T>, sends: Seq<(usize, T)>)
    requires
        v.receiver,
    ensures
        send_all(v, sends) == (ChannelView { queue: v.queue + sends, ..v }),
    decreases sends.len(),
{
    if sends.len() > 0 {
        let next = send_step(v, sends[0].0, sends[0].1);
        lemma_send_all_queues(next, sends.drop_first());
        assert(next.queue + sends.drop_first() =~= v.queue + sends);
    } else {
        assert(v.queue + sends =~= v.queue);
    }
}

/// With no live send end, receiving more times than there are queued messages
/// yields every queued message in order, empties the queue, and then reports
/// the end of the stream.
pub proof fn lemma_drain_closed<T>(v: ChannelView<T>, n: nat)
    requires
        !any_live(v.senders),
        n > v.queue.len(),
    ensures
        received(v, n) == messages(v.queue),
        after_received(v, n) == (ChannelView { queue: Seq::<(usize, T)>::empty(), ..v }),
        recv_step(after_received(v, n)).0 is Closed,
    decreases n,
{
    if v.queue.len() == 0 {
        assert(messages(v.queue) =~= Seq::<T>::empty());
        assert(v.queue =~= Seq::<(usize, T)>::empty());
    } else {
        let next = recv_step(v).1;
        lemma_drain_closed(next, (n - 1) as nat);
        assert(messages(v.queue) =~= seq![v.queue[0].1] + messages(next.queue));
    }
}

/// Fan-in: any number of send ends send messages into a fresh channel, then
/// every send end is dropped. The receiver's iteration then yields exactly the
/// messages sent, as many as were sent and in the order sent (so the order of
/// each single send end is kept), and then ends instead of waiting.
pub proof fn lemma_fan_in_delivers_every_message<T>(v: ChannelView<T>, sends: Seq<(usize, T)>)
    requires
        v.receiver,
        v.queue.len() == 0,
    ensures
        received(drop_all_senders(send_all(v, sends)), sends.len() + 1) == messages(sends),
        messages(sends).len() == sends.len(),
        recv_step(
            after_received(drop_all_senders(send_all(v, sends)), sends.len() + 1),
        ).0 is Closed,
{
    lemma_send_all_queues(v, sends);
    let w = drop_all_senders(send_all(v, sends));
    assert(w.queue =~= sends);
    assert(!any_live(w.senders));
    lemma_drain_closed(w, sends.len() + 1);
}

/// A multi-producer, single-consumer channel.
pub struct Channel<T> {
    queue: VecDeque<(usize, T)>,
    senders: Vec<bool>,
    receiver: bool,
}

impl<T> View for Channel<T> {
    type V = ChannelView<T>;

    closed spec fn view(&self) -> ChannelView<T> {
        ChannelView { queue: self.queue@, senders: self.senders@, receiver: self.receiver }
    }
}

impl<T> Channel<T> {
    /// A channel with one live send end, returned beside it, and a live receiver.
    pub fn new() -> (r: (Channel<T>, Sender))
        ensures
            r.0@.queue == Seq::<(usize, T)>::empty(),
            r.0@.senders == seq![true],
            r.0@.receiver,
            r.1.spec_id() == 0,
    {
        let mut senders: Vec<bool> = Vec::new();
        senders.push(true);
        (Channel { queue: VecDeque::new(), senders, receiver: true }, Sender { id: 0 })
    }

    /// A new send end of the same channel, live beside `s`.
    pub fn clone_sender(&mut self, s: &Sender) -> (r: Sender)
        requires
            sender_live(old(self)@.senders, s.spec_id()),
            old(self)@.senders.len() < usize::MAX,
        ensures
            r.spec_id() == old(self)@.senders.len(),
            final(self)@ == (ChannelView { senders: old(self)@.senders.push(true), ..old(self)@ }),
    {
        let id = self.senders.len();
        self.senders.push(true);
        Sender { id }
    }

    /// Gives up the send end `s`; the channel closes once none is left.
    pub fn drop_sender(&mut self, s: Sender)
        requires
            sender_live(old(self)@.senders, s.spec_id()),
        ensures
            final(self)@ == (ChannelView {
                senders: old(self)@.senders.update(s.spec_id() as int, false),
                ..old(self)@
            }),
    {
        self.senders.set(s.id, false);
    }

    /// Queues `msg` from `s`; fails, handing `msg` back, when the receiver is gone.
    pub fn send(&mut self, s: &Sender, msg: T) -> (r: Result<(), SendError<T>>)
        requires
            sender_live(old(self)@.senders, s.spec_id()),
        ensures
            final(self)@ == send_step(old(self)@, s.spec_id() as usize, msg),
            r is Ok <==> old(self)@.receiver,
            r is Err ==> r->Err_0.0 == msg,
    {
        if self.receiver {
            self.queue.push_back((s.id, msg));
            Ok(())
        } else {
            Err(SendError(msg))
        }
    }

    /// How many send ends were ever made, live or dropped.
    pub fn send_ends_made(&self) -> (r: usize)
        ensures
            r == self@.senders.len(),
    {
        self.senders.len()
    }

    /// Whether any send end is live.
    pub fn has_senders(&self) -> (r: bool)
        ensures
            r == any_live(self@.senders),
    {
        let mut i: usize = 0;
        while i < self.senders.len()
            invariant
                0 <= i <= self.senders@.len(),
                forall|j: int| 0 <= j < i ==> !self.senders@[j],
            decreases self.senders@.len() - i,
        {
            if self.senders[i] {
                return true;
            }
            i = i + 1;
        }
        false
    }

    /// Takes the oldest message; reports the end of the stream, or a wait.
    pub fn recv(&mut self) -> (r: RecvPoll<T>)
        requires
            old(self)@.receiver,
        ensures
            (r, final(self)@) == recv_step(old(self)@),
    {
        match self.queue.pop_front() {
            Some(e) => RecvPoll::Message(e.1),
            None => {
                if self.has_senders() {
                    RecvPoll::Waiting
                } else {
                    RecvPoll::Closed
                }
            },
        }
    }

    /// Gives up the receiver; queued messages are dropped and later sends fail.
    pub fn drop_receiver(&mut self)
        ensures
            final(self)@ == (ChannelView {
                queue: Seq::<(usize, T)>::empty(),
                receiver: false,
                ..old(self)@
            }),
    {
        self.queue.clear();
        self.receiver = false;
    }

    /// Receives until a receive yields no message; returns what was received.
    pub fn recv_available(&mut self) -> (r: Vec<T>)
        requires
            old(self)@.receiver,
        ensures
            r@ == received(old(self)@, old(self)@.queue.len() + 1),
            final(self)@ == after_received(old(self)@, old(self)@.queue.len() + 1),
            final(self)@.queue.len() == 0,
    {
        let mut out: Vec<T> = Vec::new();
        let ghost start = self@;
        let ghost n0 = self@.queue.len() + 1;
        loop
            invariant
                start == old(self)@,
                self@.receiver,
                self@.senders == start.senders,
                self@.queue.len() < n0,
                n0 == start.queue.len() + 1,
                received(start, n0) == out@ + received(self@, (n0 - out@.len()) as nat),
                after_received(start, n0) == after_received(self@, (n0 - out@.len()) as nat),
                out@.len() + self@.queue.len() == start.queue.len(),
            decreases self@.queue.len(),
        {
            let ghost before = self@;
            let ghost fuel = (n0 - out@.len()) as nat;
            match self.recv() {
                RecvPoll::Message(m) => {
                    proof {
                        assert(received(before, fuel) == seq![m] + received(self@, (fuel - 1) as nat));
                        assert(out@.push(m) + received(self@, (fuel - 1) as nat)
                            =~= out@ + received(before, fuel));
                    }
                    out.push(m);
                },
                _ => {
                    proof {
                        assert(received(before, fuel) == Seq::<T>::empty());
                        assert(out@ + received(before, fuel) =~= out@);
                        assert(after_received(before, fuel) == before);
                    }
                    return out;
                },
            }
        }
    }
}

} // verus!

verus! {

/// Fan-in of reversed sentences: for each sentence a producer takes its own
/// clone of the sender, reverses the sentence and sends it, then gives its
/// sender up. The first sender is dropped once every clone is handed out,
/// so the receiver's iteration ends after the last message instead of waiting.
/// Producers here run one after another, so messages arrive in sentence order.
pub fn message_passing(sentences: &Vec<Vec<char>>) -> (r: Vec<Vec<char>>)
    requires
        sentences@.len() + 1 < usize::MAX,
    ensures
        r@.len() == sentences@.len(),
        forall|i: int| 0 <= i < sentences@.len() ==> #[trigger] r@[i]@ == sentences@[i]@.reverse(),
{
    let (mut chan, tx) = Channel::<Vec<char>>::new();
    let mut i: usize = 0;
    while i < sentences.len()
        invariant
            0 <= i <= sentences@.len(),
            sentences@.len() + 1 < usize::MAX,
            chan@.receiver,
            tx.spec_id() == 0,
            chan@.senders.len() == i + 1,
            chan@.senders[0],
            forall|j: int| 1 <= j <= i ==> !#[trigger] chan@.senders[j],
            chan@.queue.len() == i,
            forall|k: int| 0 <= k < i ==> #[trigger] chan@.queue[k].1@ == sentences@[k]@.reverse(),
        decreases sentences@.len() - i,
    {
        let ghost before = chan@;
        let tx_clone = chan.clone_sender(&tx);
        let reversed = reverse_chars(&sentences[i]);
        let ghost text = reversed@;
        let sent = chan.send(&tx_clone, reversed);
        chan.drop_sender(tx_clone);
        proof {
            assert(sent is Ok);
            assert(chan@.queue.len() == i + 1);
            assert(chan@.queue[i as int].1@ == text);
            assert forall|k: int| 0 <= k < i + 1 implies #[trigger] chan@.queue[k].1@
                == sentences@[k]@.reverse() by {
                if k < i {
                    assert(chan@.queue[k] == before.queue[k]);
                }
            }
        }
        i = i + 1;
    }
    chan.drop_sender(tx);
    proof {
        assert(!any_live(chan@.senders)) by {
            assert forall|j: int| 0 <= j < chan@.senders.len() implies !#[trigger] chan@.senders[j] by {
                if j > 0 {
                    assert(1 <= j <= i);
                }
            }
        }
        lemma_drain_closed(chan@, chan@.queue.len() + 1);
    }
    let ghost before = chan@;
    let out = chan.recv_available();
    proof {
        assert forall|k: int| 0 <= k < sentences@.len() implies #[trigger] out@[k]@
            == sentences@[k]@.reverse() by {
            assert(messages(before.queue)[k] == before.queue[k].1);
        }
    }
    out
}

} // verus!
