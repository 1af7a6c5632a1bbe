//! The write plan: for a buffer at a given address, the exact sequence of
//! transfers the writer performs, together with the laws that hold of it.

use vstd::prelude::*;

use crate::port::WriteOp;
use crate::port::emitted;
use crate::port::op_bytes;

verus! {

/// The halfword that carries bytes `b0` (low) and `b1` (high).
pub open spec fn le16(b0: u8, b1: u8) -> u16 {
    (b0 as u16) | ((b1 as u16) << 8)
}

/// The word that carries bytes `b0` (low) through `b3` (high).
pub open spec fn le32(b0: u8, b1: u8, b2: u8, b3: u8) -> u32 {
    (b0 as u32) | ((b1 as u32) << 8) | ((b2 as u32) << 16) | ((b3 as u32) << 24)
}

/// The 32-bit transfers for a byte region whose length is a multiple of 4:
/// one word per four bytes, in order.
pub open spec fn word_ops(b: Seq<u8>) -> Seq<WriteOp>
    decreases b.len(),
{
    if b.len() < 4 {
        Seq::<WriteOp>::empty()
    } else {
        seq![WriteOp::Word(le32(b[0], b[1], b[2], b[3]))] + word_ops(b.skip(4))
    }
}

/// The trailing transfers for a leftover region of at most 3 bytes:
/// at most one halfword followed by at most one byte.
pub open spec fn tail_ops(b: Seq<u8>) -> Seq<WriteOp>
    recommends
        b.len() <= 3,
{
    if b.len() == 3 {
        seq![WriteOp::Half(le16(b[0], b[1])), WriteOp::Byte(b[2])]
    } else if b.len() == 2 {
        seq![WriteOp::Half(le16(b[0], b[1]))]
    } else if b.len() == 1 {
        seq![WriteOp::Byte(b[0])]
    } else {
        Seq::<WriteOp>::empty()
    }
}

/// The transfers for a region that starts on a word boundary: whole words
/// first, then the 0–3 byte tail.
pub open spec fn aligned_ops(b: Seq<u8>) -> Seq<WriteOp> {
    word_ops(b.take(b.len() - b.len() % 4)) + tail_ops(b.skip(b.len() - b.len() % 4))
}

/// The transfers once the address is even: a halfword (or, for a single
/// leftover byte, a byte) to reach a word boundary, then the aligned plan.
pub open spec fn even_plan(addr: int, b: Seq<u8>) -> Seq<WriteOp>
    recommends
        addr % 2 == 0,
{
    if addr % 4 == 2 {
        if b.len() > 1 {
            seq![WriteOp::Half(le16(b[0], b[1]))] + aligned_ops(b.skip(2))
        } else if b.len() == 1 {
            seq![WriteOp::Byte(b[0])]
        } else {
            Seq::<WriteOp>::empty()
        }
    } else {
        aligned_ops(b)
    }
}

/// The exact sequence of transfers for a buffer of bytes `b` whose first
/// byte lives at address `addr`: an empty buffer needs none; an odd address
/// is corrected with a single byte write; then `even_plan` takes over.
pub open spec fn write_plan(addr: int, b: Seq<u8>) -> Seq<WriteOp> {
    if b.len() == 0 {
        Seq::<WriteOp>::empty()
    } else if addr % 2 == 1 {
        seq![WriteOp::Byte(b[0])] + even_plan(addr + 1, b.skip(1))
    } else {
        even_plan(addr, b)
    }
}

/// The number of 8-bit transfers in `ops`.
pub open spec fn count8(ops: Seq<WriteOp>) -> nat
    decreases ops.len(),
{
    if ops.len() == 0 {
        0
    } else {
        (if ops[0] is Byte {
            1nat
        } else {
            0nat
        }) + count8(ops.drop_first())
    }
}

/// The number of 16-bit transfers in `ops`.
pub open spec fn count16(ops: Seq<WriteOp>) -> nat
    decreases ops.len(),
{
    if ops.len() == 0 {
        0
    } else {
        (if ops[0] is Half {
            1nat
        } else {
            0nat
        }) + count16(ops.drop_first())
    }
}

/// The number of 32-bit transfers in `ops`.
pub open spec fn count32(ops: Seq<WriteOp>) -> nat
    decreases ops.len(),
{
    if ops.len() == 0 {
        0
    } else {
        (if ops[0] is Word {
            1nat
        } else {
            0nat
        }) + count32(ops.drop_first())
    }
}

/// Counting distributes over concatenation.
proof fn lemma_count_concat(a: Seq<WriteOp>, b: Seq<WriteOp>)
    ensures
        count8(a + b) == count8(a) + count8(b),
        count16(a + b) == count16(a) + count16(b),
        count32(a + b) == count32(a) + count32(b),
    decreases a.len(),
{
    if a.len() == 0 {
        assert(a + b =~= b);
    } else {
        assert((a + b).drop_first() =~= a.drop_first() + b);
        lemma_count_concat(a.drop_first(), b);
    }
}

/// A one-transfer sequence counts that one transfer.
proof fn lemma_count_one(op: WriteOp)
    ensures
        count8(seq![op]) == if op is Byte {
            1nat
        } else {
            0nat
        },
        count16(seq![op]) == if op is Half {
            1nat
        } else {
            0nat
        },
        count32(seq![op]) == if op is Word {
            1nat
        } else {
            0nat
        },
{
    assert(seq![op].drop_first() =~= Seq::<WriteOp>::empty());
    assert(count8(Seq::<WriteOp>::empty()) == 0);
    assert(count16(Seq::<WriteOp>::empty()) == 0);
    assert(count32(Seq::<WriteOp>::empty()) == 0);
}

/// A whole-word region is covered by word transfers alone, one per 4 bytes.
proof fn lemma_word_ops_counts(b: Seq<u8>)
    requires
        b.len() % 4 == 0,
    ensures
        count8(word_ops(b)) == 0,
        count16(word_ops(b)) == 0,
        count32(word_ops(b)) == b.len() / 4,
    decreases b.len(),
{
    if b.len() == 0 {
    } else {
        assert(b.len() >= 4);
        let head = seq![WriteOp::Word(le32(b[0], b[1], b[2], b[3]))];
        lemma_count_concat(head, word_ops(b.skip(4)));
        lemma_count_one(head[0]);
        lemma_word_ops_counts(b.skip(4));
    }
}

/// The tail takes at most one halfword and at most one byte, covering the
/// 0–3 leftover bytes exactly.
proof fn lemma_tail_ops_counts(b: Seq<u8>)
    requires
        b.len() <= 3,
    ensures
        count8(tail_ops(b)) == b.len() % 2,
        count16(tail_ops(b)) == b.len() / 2,
        count32(tail_ops(b)) == 0,
{
    if b.len() == 3 {
        let half = seq![WriteOp::Half(le16(b[0], b[1]))];
        let byte = seq![WriteOp::Byte(b[2])];
        assert(tail_ops(b) =~= half + byte);
        lemma_count_concat(half, byte);
        lemma_count_one(half[0]);
        lemma_count_one(byte[0]);
    } else if b.len() == 2 {
        lemma_count_one(tail_ops(b)[0]);
        assert(tail_ops(b) =~= seq![tail_ops(b)[0]]);
    } else if b.len() == 1 {
        lemma_count_one(tail_ops(b)[0]);
        assert(tail_ops(b) =~= seq![tail_ops(b)[0]]);
    } else {
    }
}

/// A halfword hands back exactly the two bytes it was built from.
proof fn lemma_le16_bytes(b0: u8, b1: u8)
    ensures
        op_bytes(WriteOp::Half(le16(b0, b1))) == seq![b0, b1],
{
    let h = le16(b0, b1);
    assert((((b0 as u16) | ((b1 as u16) << 8)) & 0xff) as u8 == b0 && ((((b0 as u16) | ((
    b1 as u16) << 8)) >> 8) & 0xff) as u8 == b1) by (bit_vector);
    assert(op_bytes(WriteOp::Half(h)) =~= seq![b0, b1]);
}

/// A word hands back exactly the four bytes it was built from.
proof fn lemma_le32_bytes(b0: u8, b1: u8, b2: u8, b3: u8)
    ensures
        op_bytes(WriteOp::Word(le32(b0, b1, b2, b3))) == seq![b0, b1, b2, b3],
{
    let w = le32(b0, b1, b2, b3);
    assert({
        let v = (b0 as u32) | ((b1 as u32) << 8) | ((b2 as u32) << 16) | ((b3 as u32) << 24);
        (v & 0xff) as u8 == b0 && ((v >> 8) & 0xff) as u8 == b1 && ((v >> 16) & 0xff) as u8 == b2
            && ((v >> 24) & 0xff) as u8 == b3
    }) by (bit_vector);
    assert(op_bytes(WriteOp::Word(w)) =~= seq![b0, b1, b2, b3]);
}

/// A single transfer emits exactly its own bytes.
proof fn lemma_emitted_one(op: WriteOp)
    ensures
        emitted(seq![op]) == op_bytes(op),
{
    let s = seq![op];
    assert(s.drop_first() =~= Seq::<WriteOp>::empty());
    assert(emitted(Seq::<WriteOp>::empty()) =~= Seq::<u8>::empty());
    assert(emitted(s) =~= op_bytes(op) + Seq::<u8>::empty());
    assert(op_bytes(op) + Seq::<u8>::empty() =~= op_bytes(op));
}

/// The bytes of concatenated transfer sequences are the concatenated bytes.
proof fn lemma_emitted_concat(a: Seq<WriteOp>, b: Seq<WriteOp>)
    ensures
        emitted(a + b) == emitted(a) + emitted(b),
    decreases a.len(),
{
    if a.len() == 0 {
        assert(a + b =~= b);
        assert(emitted(a) + emitted(b) =~= emitted(b));
    } else {
        assert((a + b).drop_first() =~= a.drop_first() + b);
        lemma_emitted_concat(a.drop_first(), b);
        assert(op_bytes(a[0]) + (emitted(a.drop_first()) + emitted(b)) =~= (op_bytes(a[0])
            + emitted(a.drop_first())) + emitted(b));
    }
}

/// Zero-length no-op: an empty buffer needs no transfers at all, at any
/// address — a writer handed one leaves the port's log and poll count as
/// they were.
pub proof fn lemma_plan_empty(addr: int)
    ensures
        write_plan(addr, Seq::<u8>::empty()) == Seq::<WriteOp>::empty(),
{
}

/// A whole-word region takes one transfer per four bytes.
pub(crate) proof fn lemma_word_ops_len(b: Seq<u8>)
    requires
        b.len() % 4 == 0,
    ensures
        word_ops(b).len() == b.len() / 4,
    decreases b.len(),
{
    if b.len() == 0 {
    } else {
        assert(b.len() >= 4);
        lemma_word_ops_len(b.skip(4));
    }
}

/// The transfers for a single whole word.
pub(crate) proof fn lemma_word_ops_four(s: Seq<u8>)
    requires
        s.len() == 4,
    ensures
        word_ops(s) == seq![WriteOp::Word(le32(s[0], s[1], s[2], s[3]))],
{
    assert(s.skip(4) =~= Seq::<u8>::empty());
    assert(word_ops(Seq::<u8>::empty()) =~= Seq::<WriteOp>::empty());
    assert(word_ops(s) =~= seq![WriteOp::Word(le32(s[0], s[1], s[2], s[3]))]);
}

/// Word transfers may be planned region by region: the plan for a
/// concatenation is the concatenation of the plans, as long as the first
/// region holds whole words only.
pub(crate) proof fn lemma_word_ops_concat(a: Seq<u8>, b: Seq<u8>)
    requires
        a.len() % 4 == 0,
    ensures
        word_ops(a + b) == word_ops(a) + word_ops(b),
    decreases a.len(),
{
    if a.len() == 0 {
        assert(a + b =~= b);
        assert(word_ops(a) + word_ops(b) =~= word_ops(b));
    } else {
        assert(a.len() >= 4);
        assert((a + b).skip(4) =~= a.skip(4) + b);
        lemma_word_ops_concat(a.skip(4), b);
        assert(word_ops(a + b) =~= word_ops(a) + word_ops(b));
    }
}

/// The word transfers for a whole-word region carry exactly its bytes.
proof fn lemma_word_ops_emit(b: Seq<u8>)
    requires
        b.len() % 4 == 0,
    ensures
        emitted(word_ops(b)) == b,
    decreases b.len(),
{
    if b.len() == 0 {
        assert(word_ops(b) =~= Seq::<WriteOp>::empty());
    } else {
        assert(b.len() >= 4);
        let head = seq![WriteOp::Word(le32(b[0], b[1], b[2], b[3]))];
        lemma_emitted_concat(head, word_ops(b.skip(4)));
        lemma_emitted_one(head[0]);
        lemma_le32_bytes(b[0], b[1], b[2], b[3]);
        lemma_word_ops_emit(b.skip(4));
        assert(seq![b[0], b[1], b[2], b[3]] + b.skip(4) =~= b);
    }
}

/// The trailing transfers for a 0–3 byte region carry exactly its bytes.
proof fn lemma_tail_ops_emit(b: Seq<u8>)
    requires
        b.len() <= 3,
    ensures
        emitted(tail_ops(b)) == b,
{
    if b.len() == 3 {
        let half = seq![WriteOp::Half(le16(b[0], b[1]))];
        let byte = seq![WriteOp::Byte(b[2])];
        assert(tail_ops(b) =~= half + byte);
        lemma_emitted_concat(half, byte);
        lemma_emitted_one(half[0]);
        lemma_emitted_one(byte[0]);
        lemma_le16_bytes(b[0], b[1]);
        assert(emitted(tail_ops(b)) =~= b);
    } else if b.len() == 2 {
        lemma_emitted_one(tail_ops(b)[0]);
        lemma_le16_bytes(b[0], b[1]);
        assert(emitted(tail_ops(b)) =~= b);
    } else if b.len() == 1 {
        lemma_emitted_one(tail_ops(b)[0]);
        assert(emitted(tail_ops(b)) =~= b);
    } else {
        assert(tail_ops(b) =~= Seq::<WriteOp>::empty());
        assert(emitted(Seq::<WriteOp>::empty()) =~= Seq::<u8>::empty());
        assert(b =~= Seq::<u8>::empty());
    }
}

/// The plan for a word-aligned region carries exactly its bytes.
proof fn lemma_aligned_ops_emit(b: Seq<u8>)
    ensures
        emitted(aligned_ops(b)) == b,
{
    let split = b.len() - b.len() % 4;
    lemma_emitted_concat(word_ops(b.take(split as int)), tail_ops(b.skip(split as int)));
    lemma_word_ops_emit(b.take(split as int));
    lemma_tail_ops_emit(b.skip(split as int));
    assert(b.take(split as int) + b.skip(split as int) =~= b);
}

/// Byte-order and value fidelity: for every base address and every buffer,
/// the bytes carried by the planned transfers — each decomposed back into
/// its constituent bytes in the order written — are exactly the buffer.
/// In particular the total number of bytes emitted equals the buffer's
/// length: no byte is sent twice, none is skipped, none is invented.
pub proof fn lemma_plan_fidelity(addr: int, b: Seq<u8>)
    ensures
        emitted(write_plan(addr, b)) == b,
        emitted(write_plan(addr, b)).len() == b.len(),
{
    if b.len() == 0 {
    } else if addr % 2 == 1 {
        let head = seq![WriteOp::Byte(b[0])];
        lemma_emitted_concat(head, even_plan(addr + 1, b.skip(1)));
        lemma_emitted_one(head[0]);
        assert(emitted(head) =~= seq![b[0]]);
        lemma_even_plan_emit(addr + 1, b.skip(1));
        assert(seq![b[0]] + b.skip(1) =~= b);
    } else {
        lemma_even_plan_emit(addr, b);
    }
}

/// Length preservation at the port: a write call appends transfers that
/// carry exactly the buffer's bytes, so the bytes ever emitted grow by the
/// buffer — by exactly its length, with nothing reordered, dropped or
/// invented.
pub proof fn lemma_emitted_after_write(
    pre: Seq<WriteOp>,
    post: Seq<WriteOp>,
    addr: int,
    b: Seq<u8>,
)
    requires
        post == pre + write_plan(addr, b),
    ensures
        emitted(post) == emitted(pre) + b,
        emitted(post).len() == emitted(pre).len() + b.len(),
{
    lemma_emitted_concat(pre, write_plan(addr, b));
    lemma_plan_fidelity(addr, b);
}

/// The continuation plan for an even address carries exactly the bytes.
proof fn lemma_even_plan_emit(addr: int, b: Seq<u8>)
    ensures
        emitted(even_plan(addr, b)) == b,
{
    if addr % 4 == 2 {
        if b.len() > 1 {
            let head = seq![WriteOp::Half(le16(b[0], b[1]))];
            lemma_emitted_concat(head, aligned_ops(b.skip(2)));
            lemma_emitted_one(head[0]);
            lemma_le16_bytes(b[0], b[1]);
            assert(emitted(head) =~= seq![b[0], b[1]]);
            lemma_aligned_ops_emit(b.skip(2));
            assert(seq![b[0], b[1]] + b.skip(2) =~= b);
        } else if b.len() == 1 {
            lemma_emitted_one(even_plan(addr, b)[0]);
            assert(emitted(even_plan(addr, b)) =~= b);
        } else {
            assert(even_plan(addr, b) =~= Seq::<WriteOp>::empty());
            assert(emitted(Seq::<WriteOp>::empty()) =~= Seq::<u8>::empty());
            assert(b =~= Seq::<u8>::empty());
        }
    } else {
        lemma_aligned_ops_emit(b);
    }
}

/// The aligned plan uses at most one byte and one halfword transfer (in the
/// tail), and its transfers cover the region's bytes exactly.
proof fn lemma_aligned_ops_counts(b: Seq<u8>)
    ensures
        count8(aligned_ops(b)) <= 1,
        count16(aligned_ops(b)) <= 1,
        count8(aligned_ops(b)) + 2 * count16(aligned_ops(b)) + 4 * count32(aligned_ops(b))
            == b.len(),
{
    let split = b.len() - b.len() % 4;
    lemma_count_concat(word_ops(b.take(split as int)), tail_ops(b.skip(split as int)));
    lemma_word_ops_counts(b.take(split as int));
    lemma_tail_ops_counts(b.skip(split as int));
}

/// Write-count minimality: for any buffer and any base address, the plan
/// holds at most one leading and one trailing 8-bit transfer, at most one
/// leading and one trailing 16-bit transfer, and 32-bit transfers cover
/// every remaining byte — so each byte of the buffer is covered by exactly
/// one transfer.
pub proof fn lemma_plan_minimality(addr: int, b: Seq<u8>)
    ensures
        count8(write_plan(addr, b)) <= 2,
        count16(write_plan(addr, b)) <= 2,
        count8(write_plan(addr, b)) + 2 * count16(write_plan(addr, b)) + 4 * count32(
            write_plan(addr, b),
        ) == b.len(),
{
    if b.len() == 0 {
    } else if addr % 2 == 1 {
        let head = seq![WriteOp::Byte(b[0])];
        lemma_count_concat(head, even_plan(addr + 1, b.skip(1)));
        lemma_count_one(head[0]);
        lemma_even_plan_counts(addr + 1, b.skip(1));
    } else {
        lemma_even_plan_counts(addr, b);
    }
}

/// Counting for the even-address continuation: at most one byte and at most
/// two halfword transfers in all, covering the bytes exactly.
proof fn lemma_even_plan_counts(addr: int, b: Seq<u8>)
    ensures
        count8(even_plan(addr, b)) <= 1,
        count16(even_plan(addr, b)) <= 2,
        count8(even_plan(addr, b)) + 2 * count16(even_plan(addr, b)) + 4 * count32(
            even_plan(addr, b),
        ) == b.len(),
{
    if addr % 4 == 2 {
        if b.len() > 1 {
            let head = seq![WriteOp::Half(le16(b[0], b[1]))];
            lemma_count_concat(head, aligned_ops(b.skip(2)));
            lemma_count_one(head[0]);
            lemma_aligned_ops_counts(b.skip(2));
        } else if b.len() == 1 {
            lemma_count_one(even_plan(addr, b)[0]);
            assert(even_plan(addr, b) =~= seq![even_plan(addr, b)[0]]);
        } else {
        }
    } else {
        lemma_aligned_ops_counts(b);
    }
}

} // verus!
