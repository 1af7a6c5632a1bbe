//! The writers: busy-polling, the word bulk writer, the aligned-region
//! writer, and the entry points for arbitrary buffers and text.

use vstd::prelude::*;

use vstd::arithmetic::mul::lemma_mul_basics;
use vstd::arithmetic::mul::lemma_mul_inequality;
use vstd::arithmetic::mul::lemma_mul_is_distributive_add_other_way;
use vstd::arithmetic::mul::lemma_mul_upper_bound;
use vstd::slice::slice_index_get;
use vstd::slice::slice_subrange;
use vstd::string::StringSliceAdditionalSpecFns;

use crate::plan::aligned_ops;
use crate::plan::even_plan;
use crate::plan::le16;
use crate::plan::le32;
use crate::plan::write_plan;
use crate::plan::lemma_word_ops_concat;
use crate::plan::lemma_word_ops_four;
use crate::plan::lemma_word_ops_len;
use crate::plan::tail_ops;
use crate::plan::word_ops;
use crate::port::Port;
use crate::port::WriteOp;

verus! {

/// Busy-poll the port until it reports ready.  Starting from an idle port,
/// this is exactly `delay + 1` polls: `delay` not-ready answers, then one
/// ready answer.
#[verifier::loop_isolation(false)]
fn poll_until_ready(port: &mut Port)
    requires
        old(port).since == 0,
        old(port).polls + old(port).delay + 1 <= u64::MAX,
    ensures
        final(port).delay == old(port).delay,
        final(port).log@ == old(port).log@,
        final(port).since == final(port).delay,
        final(port).polls == old(port).polls + old(port).delay + 1,
{
    let mut ready = port.is_ready();
    while !ready
        invariant
            port.delay == old(port).delay,
            port.log@ == old(port).log@,
            port.since <= port.delay,
            !ready ==> port.polls == old(port).polls + port.since,
            ready ==> port.since == port.delay && port.polls == old(port).polls
                + port.delay + 1,
        decreases port.delay - port.since + (if ready { 0int } else { 1int }),
    {
        ready = port.is_ready();
    }
}

/// Writes the whole-word prefix of `buffer` — its first `n` bytes, a
/// multiple of 4 — as 32-bit transfers, one word per four bytes.  Each word
/// is packed from its bytes in place, the checked counterpart of
/// reinterpreting the region's memory as a word array, and the port is
/// re-polled before every word: accepting one word does not make the port
/// ready for the next.
#[verifier::loop_isolation(false)]
pub(crate) fn write_words(port: &mut Port, buffer: &[u8], n: usize)
    requires
        n <= buffer@.len(),
        n % 4 == 0,
        old(port).since == 0,
        old(port).polls + (n / 4) * (old(port).delay + 1) <= u64::MAX,
    ensures
        final(port).delay == old(port).delay,
        final(port).since == 0,
        final(port).log@ == old(port).log@ + word_ops(buffer@.take(n as int)),
        final(port).polls == old(port).polls + (n / 4) * (old(port).delay + 1),
{
    proof {
        assert(buffer@.take(0) =~= Seq::<u8>::empty());
        assert(port.log@ + word_ops(buffer@.take(0)) =~= port.log@);
        lemma_mul_basics(old(port).delay + 1);
    }
    let mut i: usize = 0;
    while i < n
        invariant
            i <= n,
            i % 4 == 0,
            port.delay == old(port).delay,
            port.since == 0,
            port.polls == old(port).polls + (i / 4) * (port.delay + 1),
            port.log@ == old(port).log@ + word_ops(buffer@.take(i as int)),
        decreases n - i,
    {
        proof {
            assert(i + 4 <= n);
            assert((i + 4) / 4 == i / 4 + 1);
            lemma_mul_is_distributive_add_other_way(
                old(port).delay + 1,
                i as int / 4,
                1,
            );
            lemma_mul_inequality(
                i as int / 4 + 1,
                n as int / 4,
                old(port).delay + 1,
            );
        }
        poll_until_ready(port);
        let b0 = *slice_index_get(buffer, i);
        let b1 = *slice_index_get(buffer, i + 1);
        let b2 = *slice_index_get(buffer, i + 2);
        let b3 = *slice_index_get(buffer, i + 3);
        let w = (b0 as u32) | ((b1 as u32) << 8) | ((b2 as u32) << 16) | ((b3 as u32) << 24);
        port.write32(w);
        proof {
            let pre = buffer@.take(i as int);
            let quad = buffer@.subrange(i as int, i + 4);
            assert(buffer@.take(i + 4) =~= pre + quad);
            lemma_word_ops_concat(pre, quad);
            lemma_word_ops_four(quad);
            assert(w == le32(quad[0], quad[1], quad[2], quad[3]));
            assert(port.log@ =~= old(port).log@ + word_ops(buffer@.take(i + 4)));
        }
        i = i + 4;
    }
}

/// Writes a region that starts on a word boundary: the whole-word prefix in
/// 32-bit transfers, then at most one halfword and at most one byte for the
/// 0–3 byte tail.
fn write_aligned_impl(port: &mut Port, buffer: &[u8])
    requires
        old(port).since == 0,
        old(port).polls + buffer@.len() * (old(port).delay + 1) <= u64::MAX,
    ensures
        final(port).delay == old(port).delay,
        final(port).since == 0,
        final(port).log@ == old(port).log@ + aligned_ops(buffer@),
        final(port).polls == old(port).polls + aligned_ops(buffer@).len() * (old(port).delay
            + 1),
{
    let len = buffer.len();
    if len == 0 {
        proof {
            assert(buffer@.take(0) =~= Seq::<u8>::empty());
            assert(buffer@.skip(0) =~= Seq::<u8>::empty());
            assert(aligned_ops(buffer@) =~= Seq::<WriteOp>::empty());
            assert(port.log@ + aligned_ops(buffer@) =~= port.log@);
            lemma_mul_basics(old(port).delay + 1);
        }
        return;
    }
    let ghost d = old(port).delay as int;
    let ghost polls0 = old(port).polls as int;
    let ghost log0 = old(port).log@;
    let split = len - len % 4;
    let ghost nw = split as int / 4;
    proof {
        lemma_mul_inequality(nw, buffer@.len() as int, d + 1);
    }
    write_words(port, buffer, split);
    let ghost wordpart = word_ops(buffer@.take(split as int));
    let ghost tailpart = tail_ops(buffer@.skip(split as int));
    proof {
        lemma_word_ops_len(buffer@.take(split as int));
        assert(wordpart.len() == nw);
        assert(port.log@ == log0 + wordpart);
        assert(buffer@.skip(split as int).len() == len % 4);
    }
    let mut left = len % 4;
    let mut idx = split;
    if left > 1 {
        proof {
            lemma_mul_is_distributive_add_other_way(d + 1, nw, 1);
            lemma_mul_inequality(nw + 1, buffer@.len() as int, d + 1);
        }
        poll_until_ready(port);
        let b0 = *slice_index_get(buffer, idx);
        let b1 = *slice_index_get(buffer, idx + 1);
        port.write16((b0 as u16) | ((b1 as u16) << 8));
        idx = idx + 2;
        left = left - 2;
    }
    if left == 1 {
        proof {
            if len % 4 == 3 {
                lemma_mul_is_distributive_add_other_way(d + 1, nw + 1, 1);
                lemma_mul_inequality(nw + 2, buffer@.len() as int, d + 1);
            } else {
                lemma_mul_is_distributive_add_other_way(d + 1, nw, 1);
                lemma_mul_inequality(nw + 1, buffer@.len() as int, d + 1);
            }
        }
        poll_until_ready(port);
        port.write8(*slice_index_get(buffer, idx));
    }
    proof {
        let s = buffer@.skip(split as int);
        if len % 4 == 0 {
            assert(tailpart =~= Seq::<WriteOp>::empty());
            assert(port.log@ =~= log0 + aligned_ops(buffer@));
        } else if len % 4 == 1 {
            assert(s[0] == buffer@[split as int]);
            assert(tailpart =~= seq![WriteOp::Byte(buffer@[split as int])]);
            assert(port.log@ =~= log0 + aligned_ops(buffer@));
        } else if len % 4 == 2 {
            assert(s[0] == buffer@[split as int]);
            assert(s[1] == buffer@[split as int + 1]);
            assert(port.log@ =~= log0 + aligned_ops(buffer@));
        } else {
            assert(s[0] == buffer@[split as int]);
            assert(s[1] == buffer@[split as int + 1]);
            assert(s[2] == buffer@[split as int + 2]);
            assert(port.log@ =~= log0 + aligned_ops(buffer@));
        }
        assert(aligned_ops(buffer@).len() == nw + tailpart.len());
        lemma_mul_is_distributive_add_other_way(d + 1, nw, tailpart.len() as int);
    }
}

/// Writes `buffer` to the port, whatever its base address `addr`.
///
/// An odd address is first corrected with a single byte transfer, an
/// address two past a word boundary with a single halfword transfer; the
/// rest is word-aligned and handed to the aligned-region writer.  The log
/// grows by exactly `write_plan(addr, buffer)`, and the port is polled
/// `delay + 1` times for every transfer in that plan.
pub fn write_all(port: &mut Port, buffer: &[u8], addr: usize)
    requires
        old(port).since == 0,
        addr + buffer@.len() <= usize::MAX,
        old(port).polls + buffer@.len() * (old(port).delay + 1) <= u64::MAX,
    ensures
        final(port).delay == old(port).delay,
        final(port).since == 0,
        final(port).log@ == old(port).log@ + write_plan(addr as int, buffer@),
        final(port).polls == old(port).polls + write_plan(addr as int, buffer@).len() * (
        old(port).delay + 1),
{
    let len = buffer.len();
    if len == 0 {
        proof {
            assert(port.log@ + write_plan(addr as int, buffer@) =~= port.log@);
            lemma_mul_basics(old(port).delay + 1);
        }
        return;
    }
    let ghost d = old(port).delay as int;
    let ghost polls0 = old(port).polls as int;
    let ghost log0 = old(port).log@;
    let ghost whole = buffer@;
    let mut a = addr;
    let mut start: usize = 0;
    if a % 2 == 1 {
        proof {
            lemma_mul_basics(d + 1);
            lemma_mul_inequality(1, whole.len() as int, d + 1);
        }
        poll_until_ready(port);
        port.write8(*slice_index_get(buffer, 0));
        a = a + 1;
        start = 1;
    }
    let ghost head8: Seq<WriteOp> = if addr % 2 == 1 {
        seq![WriteOp::Byte(whole[0])]
    } else {
        Seq::<WriteOp>::empty()
    };
    proof {
        assert(port.log@ =~= log0 + head8);
        assert(port.polls == polls0 + head8.len() * (d + 1)) by {
            lemma_mul_basics(d + 1);
        }
    }
    if a % 4 == 2 {
        if len - start > 1 {
            proof {
                lemma_mul_is_distributive_add_other_way(d + 1, head8.len() as int, 1);
                lemma_mul_inequality(head8.len() as int + 1, whole.len() as int, d + 1);
            }
            poll_until_ready(port);
            let b0 = *slice_index_get(buffer, start);
            let b1 = *slice_index_get(buffer, start + 1);
            port.write16((b0 as u16) | ((b1 as u16) << 8));
            a = a + 2;
            start = start + 2;
        } else if len - start == 1 {
            proof {
                lemma_mul_is_distributive_add_other_way(d + 1, head8.len() as int, 1);
                lemma_mul_inequality(head8.len() as int + 1, whole.len() as int, d + 1);
            }
            poll_until_ready(port);
            port.write8(*slice_index_get(buffer, start));
            proof {
                if addr % 2 == 1 {
                    assert(port.log@ =~= log0 + seq![WriteOp::Byte(whole[0])] + seq![
                        WriteOp::Byte(whole[1]),
                    ]);
                } else {
                    assert(port.log@ =~= log0 + seq![WriteOp::Byte(whole[0])]);
                }
                lemma_write_all_last_byte(addr as int, whole, log0, port.log@);
                lemma_mul_is_distributive_add_other_way(d + 1, head8.len() as int, 1);
                lemma_mul_basics(d + 1);
            }
            return;
        } else {
            proof {
                lemma_write_all_consumed(addr as int, whole, log0, port.log@);
            }
            return;
        }
    }
    let ghost head16: Seq<WriteOp> = if (addr as int + head8.len()) % 4 == 2 {
        seq![
            WriteOp::Half(
                le16(whole[head8.len() as int], whole[head8.len() as int + 1]),
            ),
        ]
    } else {
        Seq::<WriteOp>::empty()
    };
    proof {
        assert(start as int == head8.len() + 2 * head16.len());
        assert(port.log@ =~= log0 + head8 + head16);
        assert(port.polls == polls0 + (head8.len() + head16.len()) * (d + 1)) by {
            lemma_mul_basics(d + 1);
            lemma_mul_is_distributive_add_other_way(d + 1, head8.len() as int, head16.len() as int);
        }
        lemma_mul_is_distributive_add_other_way(
            d + 1,
            head8.len() + head16.len() as int,
            whole.len() - start,
        );
        lemma_mul_inequality(
            head8.len() + head16.len() + (whole.len() - start),
            whole.len() as int,
            d + 1,
        );
    }
    let rest = slice_subrange(buffer, start, len);
    write_aligned_impl(port, rest);
    proof {
        assert(rest@ =~= whole.skip(start as int));
        lemma_write_all_split(addr as int, whole, head8, head16);
        assert(port.log@ =~= log0 + write_plan(addr as int, whole));
        lemma_mul_is_distributive_add_other_way(
            d + 1,
            head8.len() + head16.len() as int,
            aligned_ops(whole.skip(start as int)).len() as int,
        );
    }
}

/// A wrapper that marks its contents as starting on a 4-byte boundary.
///
/// Transfers are most efficient when the data is word-aligned.  A caller
/// who can guarantee the alignment of its data up front wraps it in this
/// type and takes the aligned entry point, which skips the
/// alignment-detection phase entirely.
pub struct Aligned<T>(pub T);

/// Writes a word-aligned `buffer` to the port.
///
/// The caller's wrapper stands for the promise that the payload starts on
/// a 4-byte boundary, so the plan is the aligned-region plan: whole words,
/// then at most one halfword and one byte.
pub fn write_aligned(port: &mut Port, buffer: &Aligned<Vec<u8>>)
    requires
        old(port).since == 0,
        old(port).polls + buffer.0@.len() * (old(port).delay + 1) <= u64::MAX,
    ensures
        final(port).delay == old(port).delay,
        final(port).since == 0,
        final(port).log@ == old(port).log@ + aligned_ops(buffer.0@),
        final(port).polls == old(port).polls + aligned_ops(buffer.0@).len() * (old(port).delay
            + 1),
{
    write_aligned_impl(port, buffer.0.as_slice());
}

/// Writes a string to the port: its UTF-8 bytes go through the generic
/// writer, with `addr` the address where those bytes live.
pub fn write_str(port: &mut Port, string: &str, addr: usize)
    requires
        old(port).since == 0,
        addr + string.spec_bytes().len() <= usize::MAX,
        old(port).polls + string.spec_bytes().len() * (old(port).delay + 1) <= u64::MAX,
    ensures
        final(port).delay == old(port).delay,
        final(port).since == 0,
        final(port).log@ == old(port).log@ + write_plan(addr as int, string.spec_bytes()),
        final(port).polls == old(port).polls + write_plan(addr as int, string.spec_bytes()).len()
            * (old(port).delay + 1),
{
    write_all(port, string.as_bytes(), addr);
}

/// Holds when `post` is `pre` after some byte sequence — the rendered text
/// of a formatting request — was forwarded whole to the generic writer at
/// `addr`.  An empty sequence covers the dropped-request case: the log and
/// the poll count are then untouched.
pub open spec fn text_forwarded(pre: Port, post: Port, addr: int) -> bool {
    exists|t: Seq<u8>|
        post.log@ == pre.log@ + #[trigger] write_plan(addr, t) && post.polls == pre.polls
            + write_plan(addr, t).len() * (pre.delay + 1)
}

#[verifier::external_type_specification]
#[verifier::external_body]
pub struct ExArguments<'a>(core::fmt::Arguments<'a>);

/// Relies on core::fmt::write: renders a formatting request into the
/// String its directives describe, handing back the formatting error, if
/// any, instead of a result.  std::fmt::format is not used here: it panics
/// on such an error, where this facility must stay silent.
#[verifier::external_body]
fn render(args: core::fmt::Arguments) -> (s: Option<String>) {
    let mut out = String::new();
    match core::fmt::write(&mut out, args) {
        Ok(()) => Some(out),
        Err(_) => None,
    }
}

/// Forwards rendered text to the generic writer, best effort: the bytes go
/// through whole when they fit the address space and the poll counter, and
/// are dropped without a trace otherwise.  The result says which happened,
/// and exactly when: the bytes fit if and only if they were written.
pub fn forward_rendered(port: &mut Port, bytes: &[u8], addr: usize) -> (written: bool)
    requires
        old(port).since == 0,
    ensures
        final(port).delay == old(port).delay,
        final(port).since == old(port).since,
        written == (addr + bytes@.len() <= usize::MAX && old(port).polls + bytes@.len() * (
        old(port).delay + 1) <= u64::MAX),
        written ==> final(port).log@ == old(port).log@ + write_plan(addr as int, bytes@)
            && final(port).polls == old(port).polls + write_plan(addr as int, bytes@).len() * (
        old(port).delay + 1),
        !written ==> final(port).log@ == old(port).log@ && final(port).polls == old(
            port,
        ).polls,
{
    let n = bytes.len();
    if n > usize::MAX - addr {
        return false;
    }
    proof {
        lemma_mul_upper_bound(
            n as int,
            u64::MAX as int,
            port.delay as int + 1,
            u32::MAX as int + 1,
        );
    }
    let cost: u128 = (n as u128) * ((port.delay as u128) + 1);
    if cost > (u64::MAX as u128) - (port.polls as u128) {
        return false;
    }
    write_all(port, bytes, addr);
    true
}

/// Writes a formatting request to the port, best effort: the request is
/// rendered and its bytes are forwarded to the generic writer, `addr`
/// standing for the address where the rendered bytes live.  A request that
/// fails to format, or whose rendering would overrun the address space or
/// the poll counter, is silently dropped — nothing is reported, matching
/// the debug-trace nature of the facility.
pub fn write_fmt(port: &mut Port, args: core::fmt::Arguments, addr: usize)
    requires
        old(port).since == 0,
    ensures
        final(port).delay == old(port).delay,
        final(port).since == old(port).since,
        text_forwarded(*old(port), *final(port), addr as int),
{
    let mut done = false;
    match render(args) {
        Some(text) => {
            let bytes = text.as_str().as_bytes();
            if forward_rendered(port, bytes, addr) {
                done = true;
                proof {
                    assert(port.log@ == old(port).log@ + write_plan(addr as int, bytes@)
                        && port.polls == old(port).polls + write_plan(addr as int, bytes@).len()
                        * (old(port).delay + 1));
                }
            }
        },
        None => {},
    }
    proof {
        if !done {
            let t = Seq::<u8>::empty();
            assert(port.log@ =~= old(port).log@ + write_plan(addr as int, t));
            assert(port.polls == old(port).polls + write_plan(addr as int, t).len() * (
            old(port).delay + 1)) by {
                lemma_mul_basics(old(port).delay as int + 1);
            }
        }
    }
}

/// Unfolds the plan when a leading correction leaves a single byte that is
/// itself the whole remainder.
proof fn lemma_write_all_last_byte(addr: int, b: Seq<u8>, log0: Seq<WriteOp>, log: Seq<WriteOp>)
    requires
        addr >= 0,
        b.len() >= 1,
        addr % 2 == 1 ==> b.len() == 2 && log == log0 + seq![WriteOp::Byte(b[0])]
            + seq![WriteOp::Byte(b[1])],
        addr % 2 == 0 ==> addr % 4 == 2 && b.len() == 1 && log == log0
            + seq![WriteOp::Byte(b[0])],
        addr % 2 == 1 ==> (addr + 1) % 4 == 2,
    ensures
        log == log0 + write_plan(addr, b),
        write_plan(addr, b).len() == if addr % 2 == 1 {
            2int
        } else {
            1int
        },
{
    if addr % 2 == 1 {
        let s = b.skip(1);
        assert(s.len() == 1);
        assert(s[0] == b[1]);
        assert(even_plan(addr + 1, s) =~= seq![WriteOp::Byte(b[1])]);
        assert(write_plan(addr, b) =~= seq![WriteOp::Byte(b[0])] + seq![WriteOp::Byte(b[1])]);
        assert(log =~= log0 + write_plan(addr, b));
    } else {
        assert(write_plan(addr, b) =~= seq![WriteOp::Byte(b[0])]);
        assert(log =~= log0 + write_plan(addr, b));
    }
}

/// Unfolds the plan when the leading byte correction consumed the whole
/// buffer.
proof fn lemma_write_all_consumed(addr: int, b: Seq<u8>, log0: Seq<WriteOp>, log: Seq<WriteOp>)
    requires
        addr >= 0,
        addr % 2 == 1,
        (addr + 1) % 4 == 2,
        b.len() == 1,
        log == log0 + seq![WriteOp::Byte(b[0])],
    ensures
        log == log0 + write_plan(addr, b),
        write_plan(addr, b).len() == 1,
{
    let s = b.skip(1);
    assert(s.len() == 0);
    assert(even_plan(addr + 1, s) =~= Seq::<WriteOp>::empty());
    assert(write_plan(addr, b) =~= seq![WriteOp::Byte(b[0])]);
    assert(log =~= log0 + write_plan(addr, b));
}

/// Splits the plan into the leading corrections and the aligned remainder.
proof fn lemma_write_all_split(addr: int, b: Seq<u8>, head8: Seq<WriteOp>, head16: Seq<WriteOp>)
    requires
        addr >= 0,
        b.len() >= 1,
        head8 == if addr % 2 == 1 {
            seq![WriteOp::Byte(b[0])]
        } else {
            Seq::<WriteOp>::empty()
        },
        (addr + head8.len()) % 2 == 0,
        head16 == if (addr + head8.len()) % 4 == 2 {
            seq![
                WriteOp::Half(le16(b[head8.len() as int], b[head8.len() as int + 1])),
            ]
        } else {
            Seq::<WriteOp>::empty()
        },
        head8.len() + 2 * head16.len() <= b.len(),
    ensures
        write_plan(addr, b) == head8 + head16 + aligned_ops(
            b.skip(head8.len() + 2 * head16.len() as int),
        ),
{
    let start = head8.len() + 2 * head16.len();
    if addr % 2 == 1 {
        let s = b.skip(1);
        if (addr + 1) % 4 == 2 {
            assert(head16.len() == 1);
            assert(s.len() >= 2);
            assert(s[0] == b[1] && s[1] == b[2]);
            assert(s.skip(2) =~= b.skip(3));
            assert(even_plan(addr + 1, s) =~= head16 + aligned_ops(b.skip(3)));
            assert(write_plan(addr, b) =~= head8 + head16 + aligned_ops(b.skip(start as int)));
        } else {
            assert(head16.len() == 0);
            assert(even_plan(addr + 1, s) == aligned_ops(s));
            assert(write_plan(addr, b) =~= head8 + head16 + aligned_ops(b.skip(start as int)));
        }
    } else {
        if addr % 4 == 2 {
            assert(head16.len() == 1);
            assert(b.len() >= 2);
            assert(even_plan(addr, b) =~= head16 + aligned_ops(b.skip(2)));
            assert(write_plan(addr, b) =~= head8 + head16 + aligned_ops(b.skip(start as int)));
        } else {
            assert(head16.len() == 0);
            assert(write_plan(addr, b) == aligned_ops(b));
            assert(b.skip(0) =~= b);
            assert(write_plan(addr, b) =~= head8 + head16 + aligned_ops(b.skip(start as int)));
        }
    }
}

} // verus!
