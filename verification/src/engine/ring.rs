//! Rings between two threads, with a record of what went through each end.
//!
//! One thread holds the sender of a ring and another its receiver. How full the
//! ring is depends on both, so what an operation finds is open; what it does with
//! what it finds is not.

use ringbuf::traits::Consumer;
use ringbuf::traits::Observer;
use ringbuf::traits::Producer;
use ringbuf::traits::Split;
use vstd::arithmetic::div_mod::*;
use vstd::arithmetic::mul::*;
use vstd::layout;
use vstd::pervasive::arbitrary;
use vstd::prelude::*;

verus! {

/// The producer of a ring of the crate `ringbuf`.
#[verifier::external_body]
#[verifier::reject_recursive_types(T)]
struct Producing<T> {
    ring: ringbuf::HeapProd<T>,
}

/// The consumer of a ring of the crate `ringbuf`.
#[verifier::external_body]
#[verifier::reject_recursive_types(T)]
struct Consuming<T> {
    ring: ringbuf::HeapCons<T>,
}

/// A producer with a record of its use, which only the calls into the ring change.
#[verifier::reject_recursive_types(T)]
struct Tx<T> {
    end: Producing<T>,
    channel: Ghost<Channel>,
    offered: Ghost<Seq<T>>,
    sent: Ghost<Seq<T>>,
}

/// A consumer with a record of its use, which only the calls into the ring change.
#[verifier::reject_recursive_types(T)]
struct Rx<T> {
    end: Consuming<T>,
    intake: Ghost<Intake<T>>,
}

/// The sending end of a ring.
#[verifier::reject_recursive_types(T)]
pub struct Sender<T> {
    tx: Tx<T>,
}

/// The receiving end of a ring.
#[verifier::reject_recursive_types(T)]
pub struct Receiver<T> {
    rx: Rx<T>,
}

/// One ring.
pub ghost struct Channel {
    /// Which ring it is.
    pub id: int,
    /// For how many items it has room.
    pub capacity: nat,
}

/// What a receiver has done.
#[verifier::ext_equal]
#[verifier::reject_recursive_types(T)]
pub ghost struct Intake<T> {
    /// The ring that it receives from.
    pub channel: Channel,
    /// The items that it received, in order.
    pub taken: Seq<T>,
    /// How many it asked for.
    pub asked: nat,
}

/// A receiver that has done nothing.
pub open spec fn no_intake<T>(channel: Channel) -> Intake<T> {
    Intake { channel, taken: Seq::empty(), asked: 0 }
}

/// A receiver that asked for `asked` more items and received `items`.
pub open spec fn taken_in<T>(v: Intake<T>, items: Seq<T>, asked: nat) -> Intake<T> {
    Intake { channel: v.channel, taken: v.taken + items, asked: v.asked + asked }
}

/// A ring of `capacity` items can be made: it has room for one, its items fit in one
/// allocation, and four times the capacity can be counted.
pub open spec fn fits<T>(capacity: nat) -> bool {
    &&& 0 < capacity <= isize::MAX / 2
    &&& capacity * layout::size_of::<T>() <= isize::MAX
}

/// Whether a ring of `capacity` items can be made.
pub fn can_hold<T>(capacity: usize) -> (r: bool)
    ensures
        r == fits::<T>(capacity as nat),
{
    let size: usize = core::mem::size_of::<T>();
    let most: usize = isize::MAX as usize;
    if capacity == 0 || capacity > most / 2 {
        return false;
    }
    if size == 0 {
        assert(capacity * 0 == 0);
        return true;
    }
    proof {
        lemma_fundamental_div_mod(most as int, size as int);
        lemma_mod_bound(most as int, size as int);
        let q = most as int / size as int;
        lemma_mul_is_commutative(q, size as int);
        assert(capacity <= q ==> capacity * size <= most) by (nonlinear_arith)
            requires
                q * size <= most,
                size > 0,
        ;
        assert(capacity > q ==> capacity * size > most) by (nonlinear_arith)
            requires
                most < q * size + size,
                size > 0,
        ;
    }
    capacity <= most / size
}

/// `HeapRb::new` and `split`: a ring with room for `capacity` items and its two
/// ends, of which neither was used. A capacity that does not fit makes the crate panic, or
/// makes it fail to count.
#[verifier::external_body]
fn make<T>(capacity: usize) -> (r: (Tx<T>, Rx<T>))
    requires
        fits::<T>(capacity as nat),
    ensures
        r.0.channel@.capacity == capacity,
        r.0.offered@ == Seq::<T>::empty(),
        r.0.sent@ == Seq::<T>::empty(),
        r.1.intake@ == no_intake::<T>(r.0.channel@),
{
    let (tx, rx) = ringbuf::HeapRb::<T>::new(capacity).split();
    let end = Producing { ring: tx };
    (
        Tx { end, channel: Ghost(arbitrary()), offered: Ghost(arbitrary()), sent: Ghost(arbitrary()) },
        Rx { end: Consuming { ring: rx }, intake: Ghost(arbitrary()) },
    )
}

/// `Producer::try_push`: appends an item, or gives it back where the ring is full. It can be
/// full only after as many items as it has room for; whether it is then depends on how
/// much the other end has taken, and is not claimed.
#[verifier::external_body]
fn push_one<T>(tx: &mut Tx<T>, item: T) -> (r: Result<(), T>)
    ensures
        final(tx).channel@ == old(tx).channel@,
        final(tx).offered@ == old(tx).offered@.push(item),
        match r {
            Ok(()) => final(tx).sent@ == old(tx).sent@.push(item),
            Err(back) => {
                &&& back == item
                &&& final(tx).sent@ == old(tx).sent@
                &&& old(tx).sent@.len() >= old(tx).channel@.capacity
            },
        },
{
    tx.end.ring.try_push(item)
}

/// `Producer::push_slice`: appends as many of the first items as there is room for, and
/// returns their number. It leaves some out only where that fills the ring, which takes as
/// many items as it has room for; how many are left out then depends on how much the
/// other end has taken, and is not claimed.
#[verifier::external_body]
fn push_many<T: Copy>(tx: &mut Tx<T>, items: &[T]) -> (n: usize)
    ensures
        n <= items@.len(),
        n < items@.len() ==> old(tx).sent@.len() + n >= old(tx).channel@.capacity,
        final(tx).channel@ == old(tx).channel@,
        final(tx).offered@ == old(tx).offered@ + items@,
        final(tx).sent@ == old(tx).sent@ + items@.take(n as int),
{
    tx.end.ring.push_slice(items)
}

/// `Consumer::try_pop`: removes the oldest item, if there is one. Which one that
/// is, if any, is up to the other end and not claimed.
#[verifier::external_body]
fn pop_one<T>(rx: &mut Rx<T>) -> (r: Option<T>)
    ensures
        final(rx).intake@ == match r {
            Some(item) => taken_in(old(rx).intake@, seq![item], 1),
            None => taken_in(old(rx).intake@, Seq::empty(), 1),
        },
{
    rx.end.ring.try_pop()
}

/// `Consumer::pop_slice`: removes the oldest items, at most as many as the slice
/// holds and the ring has room for, writes them to its front and returns their number. The
/// rest of the slice stays as it was. Which items there are depends on what the other end has
/// sent, and is not claimed.
#[verifier::external_body]
fn pop_many<T: Copy>(rx: &mut Rx<T>, items: &mut [T]) -> (n: usize)
    ensures
        n <= old(items)@.len(),
        n <= old(rx).intake@.channel.capacity,
        final(items)@.len() == old(items)@.len(),
        forall|i: int| n <= i < old(items)@.len() ==> final(items)@[i] == old(items)@[i],
        final(rx).intake@ == taken_in(
            old(rx).intake@,
            final(items)@.take(n as int),
            old(items)@.len(),
        ),
{
    rx.end.ring.pop_slice(items)
}

/// `Observer::occupied_len`: how many items are in the ring now, no more than it has room
/// for. Nothing else is claimed of the number, which the other end changes at any time.
#[verifier::external_body]
fn count<T>(rx: &Rx<T>) -> (n: usize)
    ensures
        n <= rx.intake@.channel.capacity,
{
    rx.end.ring.occupied_len()
}

/// `Observer::write_is_held`: whether the sending end still exists. Nothing is
/// claimed of the answer, which is up to the other thread.
#[verifier::external_body]
fn held<T>(rx: &Rx<T>) -> bool {
    rx.end.ring.write_is_held()
}

/// A ring with room for `capacity` items. The receiver that comes with a sender is
/// the one end that receives what the sender sends.
pub fn ring<T>(capacity: usize) -> (r: (Sender<T>, Receiver<T>))
    requires
        fits::<T>(capacity as nat),
    ensures
        r.0.channel().capacity == capacity,
        r.0.offered() == Seq::<T>::empty(),
        r.0.sent() == Seq::<T>::empty(),
        r.1.intake() == no_intake::<T>(r.0.channel()),
{
    let (tx, rx) = make(capacity);
    (Sender { tx }, Receiver { rx })
}

impl<T> Sender<T> {
    /// The ring that it sends to.
    pub closed spec fn channel(&self) -> Channel {
        self.tx.channel@
    }

    /// The items that were offered to the ring, in order.
    pub closed spec fn offered(&self) -> Seq<T> {
        self.tx.offered@
    }

    /// The items that the ring accepted, in order.
    pub closed spec fn sent(&self) -> Seq<T> {
        self.tx.sent@
    }

    /// Sends an item, or gives it back where the ring is full. It is not full before it has
    /// accepted as many items as it has room for.
    pub fn try_push(&mut self, item: T) -> (r: Result<(), T>)
        ensures
            final(self).channel() == old(self).channel(),
            final(self).offered() == old(self).offered().push(item),
            match r {
                Ok(()) => final(self).sent() == old(self).sent().push(item),
                Err(back) => {
                    &&& back == item
                    &&& final(self).sent() == old(self).sent()
                    &&& old(self).sent().len() >= old(self).channel().capacity
                },
            },
    {
        push_one(&mut self.tx, item)
    }
}

impl<T: Copy> Sender<T> {
    /// Sends as many of the first items as there is room for; the others are lost
    /// to the ring. None is lost before the ring has accepted as many items as it has room for.
    pub fn push_slice(&mut self, items: &[T]) -> (n: usize)
        ensures
            n <= items@.len(),
            n < items@.len() ==> old(self).sent().len() + n >= old(self).channel().capacity,
            final(self).channel() == old(self).channel(),
            final(self).offered() == old(self).offered() + items@,
            final(self).sent() == old(self).sent() + items@.take(n as int),
    {
        push_many(&mut self.tx, items)
    }
}

impl<T> Receiver<T> {
    /// What was received.
    pub closed spec fn intake(&self) -> Intake<T> {
        self.rx.intake@
    }

    /// Receives the oldest item, if there is one.
    pub fn try_pop(&mut self) -> (r: Option<T>)
        ensures
            final(self).intake() == match r {
                Some(item) => taken_in(old(self).intake(), seq![item], 1),
                None => taken_in(old(self).intake(), Seq::empty(), 1),
            },
    {
        pop_one(&mut self.rx)
    }

    /// The ring can say that `n` items wait.
    pub closed spec fn may_hold(&self, n: usize) -> bool {
        call_ensures(count::<T>, (&self.rx,), n)
    }

    /// The ring can say that the sending end exists, or not.
    pub closed spec fn may_be_connected(&self, connected: bool) -> bool {
        call_ensures(held::<T>, (&self.rx,), connected)
    }

    /// How many items wait now, as the ring says.
    pub fn occupied_len(&self) -> (r: usize)
        ensures
            self.may_hold(r),
            r <= self.intake().channel.capacity,
    {
        count(&self.rx)
    }

    /// Whether the sending end still exists, as the ring says.
    pub fn is_connected(&self) -> (r: bool)
        ensures
            self.may_be_connected(r),
    {
        held(&self.rx)
    }
}

impl<T: Copy> Receiver<T> {
    /// Receives the oldest items into the front of `items`.
    pub fn pop_slice(&mut self, items: &mut [T]) -> (n: usize)
        ensures
            n <= old(items)@.len(),
            n <= old(self).intake().channel.capacity,
            final(items)@.len() == old(items)@.len(),
            forall|i: int| n <= i < old(items)@.len() ==> final(items)@[i] == old(items)@[i],
            final(self).intake() == taken_in(
                old(self).intake(),
                final(items)@.take(n as int),
                old(items)@.len(),
            ),
    {
        pop_many(&mut self.rx, items)
    }
}

} // verus!
