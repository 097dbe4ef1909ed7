//! A sequence cut into chunks of one size.

use vstd::arithmetic::div_mod::*;
use vstd::arithmetic::mul::*;
use vstd::prelude::*;

verus! {

/// Chunk `k` of size `n`.
pub open spec fn chunk<T>(all: Seq<T>, n: nat, k: int) -> Seq<T> {
    all.subrange(k * n, k * n + n)
}

/// The whole chunks of size `n`, in order.
pub open spec fn chunks<T>(all: Seq<T>, n: nat) -> Seq<Seq<T>> {
    Seq::new(all.len() / n, |k: int| chunk(all, n, k))
}

/// What follows the whole chunks of size `n`.
pub open spec fn rest<T>(all: Seq<T>, n: nat) -> Seq<T> {
    all.skip(((all.len() / n) * n) as int)
}

/// Where the chunks lie.
pub proof fn lemma_bounds<T>(all: Seq<T>, n: nat)
    requires
        n > 0,
    ensures
        (all.len() / n) * n <= all.len(),
        rest(all, n).len() == all.len() % n < n,
        forall|k: int|
            0 <= k < all.len() / n ==> 0 <= #[trigger] (k * n) && k * n + n <= (all.len() / n) * n,
{
    let len = all.len() as int;
    lemma_fundamental_div_mod(len, n as int);
    lemma_mul_is_commutative(n as int, len / (n as int));
    lemma_mod_bound(len, n as int);
    assert forall|k: int| 0 <= k < all.len() / n implies 0 <= #[trigger] (k * n) && k * n + n <= (
    all.len() / n) * n by {
        lemma_mul_inequality(k + 1, len / (n as int), n as int);
        lemma_mul_is_distributive_add_other_way(n as int, k, 1);
        lemma_mul_nonnegative(k, n as int);
    }
}

/// Fewer than `n` items hold no whole chunk.
pub proof fn lemma_nothing_whole<T>(all: Seq<T>, n: nat)
    requires
        all.len() < n,
    ensures
        chunks(all, n) == Seq::<Seq<T>>::empty(),
        rest(all, n) == all,
{
    lemma_basic_div(all.len() as int, n as int);
    assert(all.len() / n == 0);
    assert(chunks(all, n) =~= Seq::<Seq<T>>::empty());
    assert(rest(all, n) =~= all);
}

/// One item more completes a chunk or lengthens the rest.
pub proof fn lemma_one_more<T>(all: Seq<T>, x: T, n: nat)
    requires
        n > 0,
    ensures
        rest(all, n).len() < n,
        rest(all, n).len() + 1 == n ==> chunks(all.push(x), n) == chunks(all, n).push(
            rest(all, n).push(x),
        ) && rest(all.push(x), n) == Seq::<T>::empty(),
        rest(all, n).len() + 1 < n ==> chunks(all.push(x), n) == chunks(all, n) && rest(
            all.push(x),
            n,
        ) == rest(all, n).push(x),
{
    let len = all.len() as int;
    let d = n as int;
    let longer = all.push(x);
    lemma_bounds(all, n);
    lemma_bounds(longer, n);
    let q = len / d;
    lemma_fundamental_div_mod(len, d);
    if len % d + 1 == d {
        assert(d * q + d == d * (q + 1)) by {
            lemma_mul_is_distributive_add(d, q, 1);
        }
        lemma_fundamental_div_mod_converse(len + 1, d, q + 1, 0);
        assert((q + 1) * n == q * n + n) by {
            lemma_mul_is_distributive_add_other_way(d, q, 1);
        }
        assert(q * n == d * q) by {
            lemma_mul_is_commutative(q, d);
        }
        assert(chunk(longer, n, q) =~= rest(all, n).push(x));
        assert(chunks(longer, n) =~= chunks(all, n).push(rest(all, n).push(x))) by {
            assert forall|k: int| 0 <= k < q implies chunk(longer, n, k) == chunk(all, n, k) by {
                assert(0 <= k * n);
                assert(chunk(longer, n, k) =~= chunk(all, n, k));
            }
        }
        assert(rest(longer, n) =~= Seq::<T>::empty());
    } else {
        lemma_fundamental_div_mod_converse(len + 1, d, q, len % d + 1);
        assert(chunks(longer, n) =~= chunks(all, n)) by {
            assert forall|k: int| 0 <= k < q implies chunk(longer, n, k) == chunk(all, n, k) by {
                assert(0 <= k * n);
                assert(chunk(longer, n, k) =~= chunk(all, n, k));
            }
        }
        assert(rest(longer, n) =~= rest(all, n).push(x));
    }
}

/// A sequence can be cut in two steps: what is left of its first part goes before
/// the second part.
pub proof fn law_cutting_in_steps<T>(all: Seq<T>, more: Seq<T>, n: nat)
    requires
        n > 0,
    ensures
        chunks(all + more, n) == chunks(all, n) + chunks(rest(all, n) + more, n),
        rest(all + more, n) == rest(rest(all, n) + more, n),
    decreases more.len(),
{
    if more.len() == 0 {
        assert(all + more =~= all);
        assert(rest(all, n) + more =~= rest(all, n));
        lemma_bounds(all, n);
        lemma_nothing_whole(rest(all, n), n);
        assert(chunks(all, n) + Seq::<Seq<T>>::empty() =~= chunks(all, n));
    } else {
        let front = more.drop_last();
        let x = more.last();
        law_cutting_in_steps(all, front, n);
        assert(all + more =~= (all + front).push(x));
        assert(rest(all, n) + more =~= (rest(all, n) + front).push(x));
        lemma_one_more(all + front, x, n);
        lemma_one_more(rest(all, n) + front, x, n);
        assert((chunks(all, n) + chunks(rest(all, n) + front, n)).push(
            rest(rest(all, n) + front, n).push(x),
        ) =~= chunks(all, n) + chunks(rest(all, n) + front, n).push(
            rest(rest(all, n) + front, n).push(x),
        ));
    }
}

/// Cutting loses nothing: there is one chunk for every `n` items, and fewer than
/// `n` items are left.
pub proof fn law_cutting_counts<T>(all: Seq<T>, n: nat)
    requires
        n > 0,
    ensures
        chunks(all, n).len() * n + rest(all, n).len() == all.len(),
        rest(all, n).len() < n,
        forall|k: int| 0 <= k < chunks(all, n).len() ==> #[trigger] chunks(all, n)[k].len() == n,
{
    lemma_bounds(all, n);
    assert forall|k: int| 0 <= k < chunks(all, n).len() implies #[trigger] chunks(
        all,
        n,
    )[k].len() == n by {
        assert(0 <= k * n);
    }
}

} // verus!
