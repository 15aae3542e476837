//! Receiving and sending over `crossbeam_channel`, with a record of what came in
//! and of what was handed over.

use crossbeam_channel::{Receiver, Sender};
use vstd::prelude::*;

verus! {

/// `crossbeam_channel::Receiver`, the receiving end of a channel.
#[verifier::external_type_specification]
#[verifier::external_body]
#[verifier::reject_recursive_types(T)]
pub struct ExReceiver<T>(crossbeam_channel::Receiver<T>);

/// `crossbeam_channel::Sender`, the sending end of a channel.
#[verifier::external_type_specification]
#[verifier::external_body]
#[verifier::reject_recursive_types(T)]
pub struct ExSender<T>(crossbeam_channel::Sender<T>);

/// A channel for this many items, whatever they are, can be made.
pub const MAX_CAPACITY: usize = 0x00FF_FFFF;

/// A channel for `capacity` items can be made: it is small, or its buffer, in which each item has a
/// number beside it, is no larger than an allocation may be.
pub open spec fn buffer_fits<T>(capacity: usize) -> bool {
    capacity <= MAX_CAPACITY || (capacity + 1) * (vstd::layout::size_of::<T>()
        + vstd::layout::align_of::<T>() + 64) <= isize::MAX
}

/// Why nothing was received.
#[derive(Debug, Clone, Copy, PartialEq, Eq, Structural)]
pub enum TryRecvError {
    /// Nothing is waiting.
    Empty,
    /// Nothing is waiting, and every sender is gone.
    Disconnected,
}

/// Why an item was not taken, with the item.
#[derive(Debug)]
pub enum TrySendError<T> {
    /// The channel holds as many items as it can.
    Full(T),
    /// Every receiver is gone.
    Disconnected(T),
}

/// Calls `crossbeam_channel::bounded`. Nothing is claimed of the two ends: what goes through them
/// is up to those who hold them. A capacity whose buffer cannot be allocated is left out.
#[verifier::external_body]
fn channel_bounded<T>(capacity: usize) -> (r: (Sender<T>, Receiver<T>))
    requires
        buffer_fits::<T>(capacity),
{
    crossbeam_channel::bounded(capacity)
}

/// Calls `crossbeam_channel::Sender::same_channel`. Trusted: a sender belongs to its own channel.
/// Which other senders belong to it is not visible in them, and left open.
#[verifier::external_body]
fn same_channel<T>(one: &Sender<T>, other: &Sender<T>) -> (r: bool)
    ensures
        *one == *other ==> r,
{
    one.same_channel(other)
}

/// The two ends came out of one call that makes a channel for `capacity` items.
pub closed spec fn ends_of<T>(capacity: usize, sender: Sender<T>, receiver: Receiver<T>) -> bool {
    call_ensures(channel_bounded::<T>, (capacity,), (sender, receiver))
}

/// A channel for `capacity` items: the end that sends, and the end that receives.
pub(crate) fn make_channel<T>(capacity: usize) -> (r: (Sender<T>, Receiver<T>))
    requires
        buffer_fits::<T>(capacity),
    ensures
        ends_of(capacity, r.0, r.1),
{
    let make = channel_bounded::<T>;
    make(capacity)
}

/// `answer` is what the channel says when it is asked whether both senders belong to it.
pub closed spec fn told_same<T>(one: Sender<T>, other: Sender<T>, answer: bool) -> bool {
    call_ensures(same_channel::<T>, (&one, &other), answer)
}

/// Calls `crossbeam_channel::Sender::clone`. Trusted: the new sender belongs to the same channel, so
/// that is what the channel says of the two.
#[verifier::external_body]
pub(crate) fn sender_clone<T>(sender: &Sender<T>) -> (r: Sender<T>)
    ensures
        forall|answer: bool| told_same(*sender, r, answer) ==> answer,
{
    sender.clone()
}

/// Whether both senders belong to one channel.
pub(crate) fn ask_same<T>(one: &Sender<T>, other: &Sender<T>) -> (r: bool)
    ensures
        told_same(*one, *other, r),
        *one == *other ==> r,
{
    let ask = same_channel::<T>;
    ask(one, other)
}

/// Calls `crossbeam_channel::Receiver::try_recv`. Nothing is claimed of what comes back: that is
/// up to the senders.
#[verifier::external_body]
fn receiver_try_recv<T>(receiver: &Receiver<T>) -> (r: Result<T, TryRecvError>) {
    match receiver.try_recv() {
        Ok(item) => Ok(item),
        Err(crossbeam_channel::TryRecvError::Empty) => Err(TryRecvError::Empty),
        Err(crossbeam_channel::TryRecvError::Disconnected) => Err(TryRecvError::Disconnected),
    }
}

/// Calls `crossbeam_channel::Receiver::is_empty`. Nothing is claimed of the answer: that is up to
/// the senders.
#[verifier::external_body]
fn receiver_is_empty<T>(receiver: &Receiver<T>) -> (r: bool) {
    receiver.is_empty()
}

/// Calls `crossbeam_channel::Sender::try_send`. Trusted: an item that was not taken is handed
/// back as it was. Whether it is taken is up to the receivers.
#[verifier::external_body]
fn sender_try_send<T>(sender: &Sender<T>, item: T) -> (r: Result<(), TrySendError<T>>)
    ensures
        r matches Err(TrySendError::Full(back)) ==> back == item,
        r matches Err(TrySendError::Disconnected(back)) ==> back == item,
{
    match sender.try_send(item) {
        Ok(()) => Ok(()),
        Err(crossbeam_channel::TrySendError::Full(back)) => Err(TrySendError::Full(back)),
        Err(crossbeam_channel::TrySendError::Disconnected(back)) => {
            Err(TrySendError::Disconnected(back))
        },
    }
}

/// One look at a channel: whether something was waiting, and what was received, if the receiver
/// asked.
pub struct Attempt<T> {
    pub waiting: bool,
    pub received: Option<Result<T, TryRecvError>>,
}

impl<T> Attempt<T> {
    /// Something was received.
    pub open spec fn brought(self) -> bool {
        self.received is Some && self.received->0 is Ok
    }

    /// What the attempt holds is what the channel answered.
    pub closed spec fn answered_by(self, channel: Receiver<T>) -> bool {
        &&& call_ensures(receiver_is_empty::<T>, (&channel,), !self.waiting)
        &&& self.received is Some ==> call_ensures(
            receiver_try_recv::<T>,
            (&channel,),
            self.received->0,
        )
    }
}

/// The receiving end of a channel that remembers, for contracts only, every attempt made on it.
#[verifier::reject_recursive_types(T)]
pub struct EventReceiver<T> {
    receiver: Receiver<T>,
    attempts: Ghost<Seq<Attempt<T>>>,
}

impl<T> EventReceiver<T> {
    /// Every attempt so far, in order.
    pub closed spec fn attempts(self) -> Seq<Attempt<T>> {
        self.attempts@
    }

    /// Every attempt on record is what the channel answered.
    #[verifier::type_invariant]
    spec fn truthful(self) -> bool {
        forall|i: int|
            0 <= i < self.attempts@.len() ==> (#[trigger] self.attempts@[i]).answered_by(
                self.receiver,
            )
    }

    /// The end of the channel that is asked.
    pub closed spec fn channel(self) -> Receiver<T> {
        self.receiver
    }

    pub fn new(receiver: Receiver<T>) -> (r: Self)
        ensures
            r.channel() == receiver,
            r.attempts() == Seq::<Attempt<T>>::empty(),
    {
        EventReceiver { receiver, attempts: Ghost(Seq::empty()) }
    }

    /// Looks whether something is waiting and then, where `receive` says so, tries to receive it.
    pub fn attempt(&mut self, receive: bool) -> (r: Attempt<T>)
        ensures
            r.received is Some <==> receive,
            r.answered_by(old(self).channel()),
            final(self).channel() == old(self).channel(),
            final(self).attempts() == old(self).attempts().push(r),
    {
        proof {
            use_type_invariant(&*self);
        }
        let look = receiver_is_empty::<T>;
        let ask = receiver_try_recv::<T>;
        let waiting = !look(&self.receiver);
        let received = if receive {
            Some(ask(&self.receiver))
        } else {
            None
        };
        let made = Attempt { waiting, received };
        self.attempts = Ghost(self.attempts@.push(made));
        made
    }
}

/// An item that was handed to a channel, and what the channel answered.
pub struct Handover<T> {
    pub item: T,
    pub answer: Result<(), TrySendError<T>>,
}

impl<T> Handover<T> {
    /// The channel gave this answer to this item.
    pub closed spec fn answered_by(self, channel: Sender<T>) -> bool {
        call_ensures(sender_try_send::<T>, (&channel, self.item), self.answer)
    }
}

/// The sending end of a channel that remembers, for contracts only, every item handed to it.
#[verifier::reject_recursive_types(T)]
pub struct EventSender<T> {
    sender: Sender<T>,
    handed: Ghost<Seq<Handover<T>>>,
}

impl<T> EventSender<T> {
    /// Everything handed over so far, in order.
    pub closed spec fn handed(self) -> Seq<Handover<T>> {
        self.handed@
    }

    /// Every answer on record is what the channel gave to the item.
    #[verifier::type_invariant]
    spec fn truthful(self) -> bool {
        forall|i: int|
            0 <= i < self.handed@.len() ==> (#[trigger] self.handed@[i]).answered_by(self.sender)
    }

    /// The end of the channel that items are handed to.
    pub closed spec fn channel(self) -> Sender<T> {
        self.sender
    }

    pub fn new(sender: Sender<T>) -> (r: Self)
        ensures
            r.channel() == sender,
            r.handed() == Seq::<Handover<T>>::empty(),
    {
        EventSender { sender, handed: Ghost(Seq::empty()) }
    }

    /// Hands an item to the channel and passes its answer on. An item that was not taken comes
    /// back.
    pub fn try_send(&mut self, item: T) -> (r: Result<(), TrySendError<T>>)
        ensures
            final(self).channel() == old(self).channel(),
            final(self).handed() == old(self).handed().push(Handover { item, answer: r }),
            (Handover { item, answer: r }).answered_by(old(self).channel()),
            r matches Err(TrySendError::Full(back)) ==> back == item,
            r matches Err(TrySendError::Disconnected(back)) ==> back == item,
    {
        proof {
            use_type_invariant(&*self);
        }
        let ghost handed_over = item;
        let send = sender_try_send::<T>;
        let answer = send(&self.sender, item);
        self.handed = Ghost(self.handed@.push(Handover { item: handed_over, answer }));
        answer
    }
}

} // verus!
