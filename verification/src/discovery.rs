//! Discovery: collating multicast search replies.
//!
//! The I/O layer sends one multicast search and collects the reply source
//! addresses for the wait window; this module turns that raw reply list into
//! the discovery result: the same set of addresses, each once, in ascending
//! order. An IPv4 address is carried as its 32-bit numeric value.

use vstd::prelude::*;

use crate::digits::dec_seq;
use crate::digits::push_dec_u32;

verus! {

/// Ascending with no repeats.
pub open spec fn strictly_sorted(s: Seq<u32>) -> bool {
    forall|i: int, j: int| 0 <= i < j < s.len() ==> s[i] < s[j]
}

/// Collates discovery replies: deduplicates the reply addresses and returns
/// them as a sorted, duplicate-free sequence holding exactly the addresses
/// that replied.
pub fn find_bridges(replies: Vec<u32>) -> (r: Vec<u32>)
    ensures
        strictly_sorted(r@),
        forall|a: u32| #[trigger] r@.contains(a) <==> replies@.contains(a),
{
    let mut out: Vec<u32> = Vec::new();
    let mut t: usize = 0;
    while t < replies.len()
        invariant
            t <= replies@.len(),
            strictly_sorted(out@),
            forall|a: u32| #[trigger] out@.contains(a) <==> replies@.take(t as int).contains(a),
        decreases replies@.len() - t,
    {
        let x = replies[t];
        let mut k: usize = 0;
        while k < out.len() && out[k] < x
            invariant
                k <= out@.len(),
                forall|i: int| 0 <= i < k ==> out@[i] < x,
            decreases out@.len() - k,
        {
            k = k + 1;
        }
        proof {
            assert(replies@.take(t + 1) =~= replies@.take(t as int).push(x));
        }
        if k < out.len() && out[k] == x {
            proof {
                assert(out@.contains(x));
                assert forall|a: u32| #[trigger] out@.contains(a) <==> replies@.take(
                    t + 1,
                ).contains(a) by {
                    if replies@.take(t + 1).contains(a) {
                        let w = choose|w: int|
                            0 <= w < t + 1 && #[trigger] replies@.take(t + 1)[w] == a;
                        if w < t {
                            assert(replies@.take(t as int)[w] == a);
                        }
                    }
                }
            }
        } else {
            let ghost pre = out@;
            out.insert(k, x);
            proof {
                assert forall|i: int, j: int|
                    0 <= i < j < out@.len() implies out@[i] < out@[j] by {
                    if j < k {
                        assert(out@[i] == pre[i] && out@[j] == pre[j]);
                    } else if i > k {
                        assert(out@[i] == pre[i - 1] && out@[j] == pre[j - 1]);
                    } else if i < k && j == k {
                        assert(out@[i] == pre[i] && out@[j] == x);
                    } else if i == k && j > k {
                        assert(out@[i] == x && out@[j] == pre[j - 1]);
                        assert(pre[j - 1] >= pre[k as int]);
                    } else if i < k && j > k {
                        assert(out@[i] == pre[i] && out@[j] == pre[j - 1]);
                    }
                }
                assert forall|a: u32| #[trigger] out@.contains(a) <==> replies@.take(
                    t + 1,
                ).contains(a) by {
                    if out@.contains(a) {
                        let w = choose|w: int| 0 <= w < out@.len() && #[trigger] out@[w] == a;
                        if w < k {
                            assert(pre[w] == a);
                        } else if w == k {
                            assert(replies@.take(t + 1).last() == x);
                        } else {
                            assert(pre[w - 1] == a);
                        }
                        if a != x {
                            assert(pre.contains(a) ==> replies@.take(t as int).contains(a));
                        }
                    }
                    if replies@.take(t + 1).contains(a) {
                        if a == x {
                            assert(out@[k as int] == a);
                        } else {
                            let w = choose|w: int|
                                0 <= w < t + 1 && #[trigger] replies@.take(t + 1)[w] == a;
                            assert(replies@.take(t as int)[w] == a);
                            assert(pre.contains(a));
                            let u = choose|u: int| 0 <= u < pre.len() && #[trigger] pre[u] == a;
                            if u < k {
                                assert(out@[u] == a);
                            } else {
                                assert(out@[u + 1] == a);
                            }
                        }
                    }
                }
            }
        }
        t = t + 1;
    }
    proof {
        assert(replies@.take(replies@.len() as int) =~= replies@);
    }
    out
}

/// The dotted-quad text of a numeric IPv4 address.
pub open spec fn ipv4_text_spec(v: u32) -> Seq<char> {
    dec_seq((v as nat / 0x1000000) % 256) + "."@ + dec_seq((v as nat / 0x10000) % 256) + "."@
        + dec_seq((v as nat / 0x100) % 256) + "."@ + dec_seq(v as nat % 256)
}

/// Renders a numeric IPv4 address as dotted-quad text.
pub fn ipv4_text(v: u32) -> (r: String)
    ensures
        r@ == ipv4_text_spec(v),
{
    let mut out = String::new();
    push_dec_u32(&mut out, (v / 0x1000000) % 256);
    out.append(".");
    push_dec_u32(&mut out, (v / 0x10000) % 256);
    out.append(".");
    push_dec_u32(&mut out, (v / 0x100) % 256);
    out.append(".");
    push_dec_u32(&mut out, v % 256);
    out
}

} // verus!
