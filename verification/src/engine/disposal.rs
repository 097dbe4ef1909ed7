//! Disposal elsewhere: what the audio thread must not drop goes back to another
//! thread, or is given up and counted.

use std::sync::atomic::AtomicU64;
use std::sync::atomic::Ordering;
use std::sync::Arc;
use vstd::prelude::*;

use crate::engine::ring::Channel;
use crate::engine::ring::Sender;

verus! {

/// The way back for items of one kind. Without a ring, items are dropped where
/// they are.
#[verifier::reject_recursive_types(T)]
pub struct Disposal<T> {
    way: Option<(Sender<T>, Arc<AtomicU64>)>,
    leaked: Ghost<nat>,
}

/// What became of the items of one kind.
#[verifier::reject_recursive_types(T)]
pub ghost struct DisposalView<T> {
    /// The ring that they go back through.
    pub channel: Channel,
    /// The counter of those that were given up, for other threads to see.
    pub counter: Arc<AtomicU64>,
    /// The items that were to go back, in order.
    pub offered: Seq<T>,
    /// The items that went back, in order.
    pub sent: Seq<T>,
    /// How many were given up because the ring was full.
    pub leaked: nat,
}

/// Every item either went back or is counted.
pub open spec fn accounted<T>(v: DisposalView<T>) -> bool {
    v.offered.len() == v.sent.len() + v.leaked
}

/// One was added to the counter, which held some number before.
pub open spec fn counted_once(counter: AtomicU64) -> bool {
    exists|held: u64| call_ensures(AtomicU64::fetch_add, (&counter, 1, Ordering::Relaxed), held)
}

/// `items` were disposed of: they went back, or were given up and counted. None is given up
/// before the ring has taken as many as it has room for.
pub open spec fn disposed<T>(
    before: Option<DisposalView<T>>,
    after: Option<DisposalView<T>>,
    items: Seq<T>,
) -> bool {
    match before {
        None => after is None,
        Some(b) => match after {
            None => false,
            Some(a) => {
                &&& a.channel == b.channel
                &&& a.counter == b.counter
                &&& a.offered == b.offered + items
                &&& b.sent.is_prefix_of(a.sent)
                &&& b.leaked <= a.leaked
                &&& a.sent.len() + a.leaked == b.sent.len() + b.leaked + items.len()
                &&& forall|i: int|
                    b.sent.len() <= i < a.sent.len() ==> items.contains(#[trigger] a.sent[i])
                &&& b.leaked == a.leaked ==> a.sent == b.sent + items
                &&& b.leaked < a.leaked ==> a.sent.len() >= a.channel.capacity && counted_once(
                    *a.counter,
                )
            },
        },
    }
}

/// Disposing of nothing changes nothing; disposing twice disposes of both.
pub proof fn lemma_disposed_composes<T>(
    a: Option<DisposalView<T>>,
    b: Option<DisposalView<T>>,
    c: Option<DisposalView<T>>,
    xs: Seq<T>,
    ys: Seq<T>,
)
    requires
        disposed(a, b, xs),
        disposed(b, c, ys),
    ensures
        disposed(a, c, xs + ys),
{
    match a {
        None => {},
        Some(x) => {
            let y = b->0;
            let z = c->0;
            assert(x.offered + xs + ys =~= x.offered + (xs + ys));
            assert(x.sent.is_prefix_of(z.sent)) by {
                assert(y.sent =~= z.sent.subrange(0, y.sent.len() as int));
                assert(x.sent =~= y.sent.subrange(0, x.sent.len() as int));
                assert(x.sent =~= z.sent.subrange(0, x.sent.len() as int));
            }
            assert forall|i: int| x.sent.len() <= i < z.sent.len() implies (xs + ys).contains(
                #[trigger] z.sent[i],
            ) by {
                if i < y.sent.len() {
                    assert(z.sent[i] == y.sent[i]);
                    let j = choose|j: int| 0 <= j < xs.len() && xs[j] == y.sent[i];
                    assert((xs + ys)[j] == z.sent[i]);
                } else {
                    let j = choose|j: int| 0 <= j < ys.len() && ys[j] == z.sent[i];
                    assert((xs + ys)[xs.len() + j] == z.sent[i]);
                }
            }
            if x.leaked == z.leaked {
                assert(z.sent =~= x.sent + (xs + ys));
            }
        },
    }
}

pub proof fn lemma_disposed_nothing<T>(a: Option<DisposalView<T>>)
    ensures
        disposed(a, a, Seq::<T>::empty()),
{
    match a {
        None => {},
        Some(x) => {
            assert(x.offered + Seq::<T>::empty() =~= x.offered);
            assert(x.sent =~= x.sent.subrange(0, x.sent.len() as int));
            assert(x.sent + Seq::<T>::empty() =~= x.sent);
        },
    }
}

/// Nothing is given up before the ring has taken as many items as it has room for: until then
/// everything went back, in order.
pub proof fn law_nothing_is_given_up_early<T>(
    before: DisposalView<T>,
    after: DisposalView<T>,
    items: Seq<T>,
)
    requires
        disposed(Some(before), Some(after), items),
        after.sent.len() < after.channel.capacity,
    ensures
        after.leaked == before.leaked,
        after.sent == before.sent + items,
{
}

/// Counts one more item that was given up, for other threads to see.
fn count_one(counter: &AtomicU64)
    ensures
        counted_once(*counter),
{
    let held: u64 = counter.fetch_add(1, Ordering::Relaxed);
    assert(call_ensures(AtomicU64::fetch_add, (&*counter, 1, Ordering::Relaxed), held));
}

impl<T> Disposal<T> {
    pub closed spec fn view(&self) -> Option<DisposalView<T>> {
        match self.way {
            None => None,
            Some((tx, counter)) => Some(
                DisposalView {
                    channel: tx.channel(),
                    counter,
                    offered: tx.offered(),
                    sent: tx.sent(),
                    leaked: self.leaked@,
                },
            ),
        }
    }

    /// Every item is accounted for.
    pub open spec fn wf(&self) -> bool {
        self@ matches Some(v) ==> accounted(v)
    }

    /// No way back: items are dropped.
    pub fn none() -> (r: Self)
        ensures
            r@ is None,
            r.wf(),
    {
        Disposal { way: None, leaked: Ghost(0) }
    }

    /// A way back through an unused ring; `overflow` counts what it could not take.
    pub fn through(tx: Sender<T>, overflow: Arc<AtomicU64>) -> (r: Self)
        requires
            tx.offered().len() == tx.sent().len(),
        ensures
            r@ == Some(
                DisposalView {
                    channel: tx.channel(),
                    counter: overflow,
                    offered: tx.offered(),
                    sent: tx.sent(),
                    leaked: 0,
                },
            ),
            r.wf(),
    {
        Disposal { way: Some((tx, overflow)), leaked: Ghost(0) }
    }

    /// Sends an item back. Where the ring is full the item is given up, without
    /// running its destructor, and counted.
    pub fn dispose(&mut self, item: T)
        requires
            old(self).wf(),
        ensures
            final(self).wf(),
            disposed(old(self)@, final(self)@, seq![item]),
            match (old(self)@, final(self)@) {
                (Some(b), Some(a)) => {
                    ||| a.sent == b.sent.push(item) && a.leaked == b.leaked
                    ||| {
                        &&& a.sent == b.sent && a.leaked == b.leaked + 1
                        &&& b.sent.len() >= b.channel.capacity
                        &&& counted_once(*b.counter)
                    }
                },
                _ => true,
            },
    {
        match self.way.take() {
            None => {},
            Some((tx, counter)) => {
                let mut tx: Sender<T> = tx;
                let ghost before = tx.sent();
                let ghost offered = tx.offered();
                let r = tx.try_push(item);
                match r {
                    Ok(()) => {
                        assert(before =~= before.push(item).subrange(0, before.len() as int));
                        assert(before.push(item) =~= before + seq![item]);
                        assert(seq![item][0] == item);
                    },
                    Err(rejected) => {
                        core::mem::forget(rejected);
                        count_one(&counter);
                        proof {
                            self.leaked@ = self.leaked@ + 1;
                            assert(before =~= before.subrange(0, before.len() as int));
                        }
                    },
                }
                assert(offered.push(item) =~= offered + seq![item]);
                self.way = Some((tx, counter));
            },
        }
    }
}

} // verus!
