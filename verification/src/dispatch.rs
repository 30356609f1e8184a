//! Batch dispatch: input-order results from completion-order collection.
//!
//! A batch of requests is fired concurrently, each tagged with its input
//! index before it is handed to the execution substrate. Results come back in
//! completion order, as (index, result) pairs; `into_input_order` rebuilds
//! the result sequence in input order, so that result `i` always corresponds
//! to input `i`, no matter which requests finished first. A per-request
//! failure is a value inside its slot, never a reason to drop or abort the
//! rest; only a malformed collection (an index missing, repeated, or out of
//! range - the substrate itself misbehaving) is an aggregate error.

use vstd::prelude::*;

use crate::errors::DispatchError;

verus! {

/// The pair `pr` occurs somewhere in the collection.
pub open spec fn appears<T>(pairs: Seq<(usize, T)>, pr: (usize, T)) -> bool {
    exists|k: int| 0 <= k < pairs.len() && (#[trigger] pairs[k]) == pr
}

/// Some pair in the collection is tagged with input index `i`.
pub open spec fn covers<T>(pairs: Seq<(usize, T)>, i: int) -> bool {
    exists|j: int| 0 <= j < pairs.len() && (#[trigger] pairs[j]).0 == i
}

/// The collection a well-behaved substrate hands back for a batch of `n`
/// requests: one pair per input index, each index in range, no index twice,
/// none missing - completion order free.
pub open spec fn indexed_complete<T>(pairs: Seq<(usize, T)>, n: nat) -> bool {
    &&& pairs.len() == n
    &&& (forall|j: int| 0 <= j < pairs.len() ==> (#[trigger] pairs[j]).0 < n)
    &&& (forall|j: int, k: int|
        0 <= j < k < pairs.len() ==> (#[trigger] pairs[j]).0 != (#[trigger] pairs[k]).0)
    &&& (forall|i: int| 0 <= i < n ==> #[trigger] covers(pairs, i))
}

/// `out` is the input-order reading of `pairs`: the pair tagged `i` supplied
/// the `i`-th result.
pub open spec fn ordered_outcome<T>(pairs: Seq<(usize, T)>, out: Seq<T>, n: nat) -> bool {
    &&& out.len() == n
    &&& (forall|j: int|
        0 <= j < pairs.len() ==> out[(#[trigger] pairs[j]).0 as int] == pairs[j].1)
}

/// Rebuilds input order from completion order.
///
/// Succeeds exactly on a complete collection for batch size `n`, and then
/// returns the sequence whose `i`-th element is the result tagged with input
/// index `i`. Nothing is dropped and nothing is reordered: every tagged
/// result lands at its own index.
#[verifier::loop_isolation(false)]
pub fn into_input_order<T>(pairs: Vec<(usize, T)>, n: usize) -> (r: Result<Vec<T>, DispatchError>)
    ensures
        r is Ok <==> indexed_complete(pairs@, n as nat),
        r is Ok ==> ordered_outcome(pairs@, r.unwrap()@, n as nat),
        r == Err::<Vec<T>, DispatchError>(DispatchError::IndexOutOfRange) ==> (exists|j: int|
            0 <= j < pairs@.len() && (#[trigger] pairs@[j]).0 >= n),
        r == Err::<Vec<T>, DispatchError>(DispatchError::DuplicateIndex) ==> (exists|
            j: int,
            l: int,
        |
            0 <= j < l < pairs@.len() && (#[trigger] pairs@[j]).0 == (#[trigger] pairs@[l]).0),
        r == Err::<Vec<T>, DispatchError>(DispatchError::MissingResult) ==> (pairs@.len() != n
            || exists|i: int| 0 <= i < n && !(#[trigger] covers(pairs@, i))),
{
    let ghost orig = pairs@;
    let mut pairs = pairs;
    if pairs.len() != n {
        return Err(DispatchError::MissingResult);
    }
    let mut slots: Vec<Option<T>> = Vec::new();
    let mut s: usize = 0;
    while s < n
        invariant
            s <= n,
            slots@.len() == s,
            forall|k: int| 0 <= k < s ==> slots@[k] is None,
        decreases n - s,
    {
        slots.push(None);
        s = s + 1;
    }
    let ghost total = orig.len() as int;
    while pairs.len() > 0
        invariant
            n == orig.len(),
            total == orig.len(),
            slots@.len() == n,
            pairs@ == orig.skip(total - pairs@.len()),
            0 <= pairs@.len() <= total,
            forall|j: int| 0 <= j < total - pairs@.len() ==> (#[trigger] orig[j]).0 < n,
            forall|j: int, k: int|
                0 <= j < k < total - pairs@.len() ==> (#[trigger] orig[j]).0 != (
                #[trigger] orig[k]).0,
            forall|k: int|
                0 <= k < n ==> ((slots@[k] is None && forall|j: int|
                    0 <= j < total - pairs@.len() ==> (#[trigger] orig[j]).0 != k) || (exists|
                    j: int,
                |
                    0 <= j < total - pairs@.len() && (#[trigger] orig[j]).0 == k && slots@[k]
                        == Some(orig[j].1))),
        decreases pairs@.len(),
    {
        let ghost t = total - pairs@.len();
        let (idx, val) = pairs.remove(0);
        proof {
            assert(orig.skip(t)[0] == orig[t]);
            assert(pairs@ =~= orig.skip(t + 1));
            assert(orig[t] == (idx, val));
        }
        if idx >= n {
            proof {
                assert(orig[t].0 >= n);
                assert(!indexed_complete(orig, n as nat));
            }
            return Err(DispatchError::IndexOutOfRange);
        }
        let ghost pre = slots@;
        let taken = slots.remove(idx);
        proof {
            assert(taken == pre[idx as int]);
        }
        if taken.is_some() {
            proof {
                assert(!(pre[idx as int] is None));
                let j = choose|j: int|
                    0 <= j < t && (#[trigger] orig[j]).0 == idx as int && pre[idx as int] == Some(
                        orig[j].1,
                    );
                assert((#[trigger] orig[j]).0 == (#[trigger] orig[t]).0 && 0 <= j < t
                    < orig.len());
                assert(!indexed_complete(orig, n as nat));
            }
            return Err(DispatchError::DuplicateIndex);
        }
        slots.insert(idx, Some(val));
        proof {
            // the slot was free, so no earlier pair used this index
            assert(forall|j: int| 0 <= j < t ==> (#[trigger] orig[j]).0 != idx as int);
            assert(slots@ =~= pre.update(idx as int, Some(val)));
            assert forall|k: int|
                0 <= k < n implies ((slots@[k] is None && forall|j: int|
                0 <= j < t + 1 ==> (#[trigger] orig[j]).0 != k) || (exists|j: int|
                0 <= j < t + 1 && (#[trigger] orig[j]).0 == k && slots@[k] == Some(
                    orig[j].1,
                ))) by {
                if k == idx as int {
                    assert(0 <= t < t + 1 && orig[t].0 == k && slots@[k] == Some(orig[t].1));
                } else {
                    assert(slots@[k] == pre[k]);
                    if pre[k] is None {
                        assert(forall|j: int| 0 <= j < t + 1 ==> (#[trigger] orig[j]).0 != k);
                    } else {
                        let j = choose|j: int|
                            0 <= j < t && (#[trigger] orig[j]).0 == k && pre[k] == Some(orig[j].1);
                        assert(0 <= j < t + 1 && orig[j].0 == k && slots@[k] == Some(orig[j].1));
                    }
                }
            }
        }
    }
    assert(pairs@ =~= Seq::<(usize, T)>::empty());
    let mut out: Vec<T> = Vec::new();
    let ghost full = slots@;
    let mut i: usize = 0;
    while i < n
        invariant
            n == orig.len(),
            full.len() == n,
            slots@ == full.skip(i as int),
            i <= n,
            out@.len() == i,
            forall|k: int| 0 <= k < i ==> full[k] == Some(out@[k]),
            forall|j: int| 0 <= j < orig.len() ==> (#[trigger] orig[j]).0 < n,
            forall|j: int, k: int|
                0 <= j < k < orig.len() ==> (#[trigger] orig[j]).0 != (#[trigger] orig[k]).0,
            forall|k: int|
                0 <= k < n ==> ((full[k] is None && forall|j: int|
                    0 <= j < orig.len() ==> (#[trigger] orig[j]).0 != k) || (exists|j: int|
                    0 <= j < orig.len() && (#[trigger] orig[j]).0 == k && full[k] == Some(
                        orig[j].1,
                    ))),
        decreases n - i,
    {
        assert(slots@[0] == full[i as int]);
        let slot = slots.remove(0);
        proof {
            assert(slots@ =~= full.skip(i + 1));
        }
        match slot {
            Some(v) => {
                out.push(v);
            },
            None => {
                proof {
                    assert(full[i as int] is None);
                    assert(!covers(orig, i as int));
                    assert(!indexed_complete(orig, n as nat));
                }
                return Err(DispatchError::MissingResult);
            },
        }
        i = i + 1;
    }
    proof {
        assert forall|k: int| 0 <= k < n implies #[trigger] covers(orig, k) by {
            assert(full[k] == Some(out@[k]));
        }
        assert(indexed_complete(orig, n as nat));
        assert forall|j: int|
            0 <= j < orig.len() implies out@[(#[trigger] orig[j]).0 as int] == orig[j].1 by {
            let k = orig[j].0 as int;
            assert(full[k] == Some(out@[k]));
            let w = choose|w: int|
                0 <= w < orig.len() && (#[trigger] orig[w]).0 == k && full[k] == Some(orig[w].1);
            assert(w == j);
        }
    }
    Ok(out)
}

/// Law: dispatch order invariance. However completion interleaves - any
/// permutation of per-request latencies - the collected pairs determine one
/// and the same input-ordered result sequence: the `i`-th element always
/// corresponds to the `i`-th input.
pub proof fn lemma_dispatch_order_invariance<T>(
    p1: Seq<(usize, T)>,
    p2: Seq<(usize, T)>,
    out1: Seq<T>,
    out2: Seq<T>,
    n: nat,
)
    requires
        indexed_complete(p1, n),
        indexed_complete(p2, n),
        forall|j: int| 0 <= j < p1.len() ==> appears(p2, #[trigger] p1[j]),
        ordered_outcome(p1, out1, n),
        ordered_outcome(p2, out2, n),
    ensures
        out1 == out2,
{
    assert forall|i: int| 0 <= i < n implies out1[i] == out2[i] by {
        assert(covers(p1, i));
        let j = choose|j: int| 0 <= j < p1.len() && (#[trigger] p1[j]).0 == i;
        assert(out1[i] == p1[j].1);
        assert(appears(p2, p1[j]));
        let k = choose|k: int| 0 <= k < p2.len() && (#[trigger] p2[k]) == p1[j];
        assert(out2[i] == p2[k].1);
    }
    assert(out1 =~= out2);
}

/// Law: dispatch fault isolation. If exactly one request of the batch failed
/// in transport, every other slot of the input-ordered outcome still carries
/// its success; the one failure sits in its own slot and nowhere else.
pub proof fn lemma_dispatch_fault_isolation<T, E>(
    pairs: Seq<(usize, Result<T, E>)>,
    out: Seq<Result<T, E>>,
    n: nat,
    f: int,
)
    requires
        indexed_complete(pairs, n),
        ordered_outcome(pairs, out, n),
        0 <= f < pairs.len(),
        pairs[f].1 is Err,
        forall|j: int| 0 <= j < pairs.len() && j != f ==> (#[trigger] pairs[j]).1 is Ok,
    ensures
        out[pairs[f].0 as int] is Err,
        forall|i: int| 0 <= i < n && i != pairs[f].0 ==> (#[trigger] out[i]) is Ok,
{
    assert forall|i: int| 0 <= i < n && i != pairs[f].0 implies (#[trigger] out[i]) is Ok by {
        assert(covers(pairs, i));
        let j = choose|j: int| 0 <= j < pairs.len() && (#[trigger] pairs[j]).0 == i;
        assert(out[i] == pairs[j].1);
    }
}

} // verus!
