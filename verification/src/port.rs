//! The trace port model: the writes it accepts, its readiness protocol,
//! and a log of everything a writer did to it.

use vstd::prelude::*;

verus! {

/// One transfer accepted by the port: a byte, a halfword or a word.
#[derive(Clone, Copy, PartialEq, Eq, Structural, Debug)]
pub enum WriteOp {
    Byte(u8),
    Half(u16),
    Word(u32),
}

/// The bytes one transfer carries, least significant first — the order in
/// which the source buffer supplied them.
pub open spec fn op_bytes(op: WriteOp) -> Seq<u8> {
    match op {
        WriteOp::Byte(b) => seq![b],
        WriteOp::Half(h) => seq![(h & 0xff) as u8, ((h >> 8) & 0xff) as u8],
        WriteOp::Word(w) => seq![
            (w & 0xff) as u8,
            ((w >> 8) & 0xff) as u8,
            ((w >> 16) & 0xff) as u8,
            ((w >> 24) & 0xff) as u8,
        ],
    }
}

/// All bytes carried by a sequence of transfers, in emission order.
pub open spec fn emitted(ops: Seq<WriteOp>) -> Seq<u8>
    decreases ops.len(),
{
    if ops.len() == 0 {
        Seq::<u8>::empty()
    } else {
        op_bytes(ops[0]) + emitted(ops.drop_first())
    }
}

/// A simulated trace port.
///
/// The hardware consumer is modelled by a fixed readiness delay: after each
/// accepted write (and when fresh) the port reports not-ready for `delay`
/// polls, then ready until the next write.  The port records every poll and
/// every accepted transfer, so a caller's contract can speak of exactly what
/// reached the hardware.
pub struct Port {
    /// Number of not-ready polls preceding each write.
    pub delay: u32,
    /// Polls seen since the last accepted write (saturating at `delay`).
    pub since: u32,
    /// Total number of readiness polls ever made.
    pub polls: u64,
    /// Every transfer accepted so far, in order.
    pub log: Vec<WriteOp>,
}

impl Port {
    /// A fresh port that reports not-ready for `delay` polls before each write.
    pub fn new(delay: u32) -> (p: Port)
        ensures
            p.delay == delay,
            p.since == 0,
            p.polls == 0,
            p.log@ == Seq::<WriteOp>::empty(),
    {
        Port { delay, since: 0, polls: 0, log: Vec::new() }
    }

    /// Readiness poll: false for the first `delay` polls after a write,
    /// true from then on.  Counts the poll; accepts nothing.
    pub fn is_ready(&mut self) -> (r: bool)
        requires
            old(self).polls < u64::MAX,
        ensures
            final(self).delay == old(self).delay,
            final(self).log@ == old(self).log@,
            final(self).polls == old(self).polls + 1,
            r == (old(self).since >= old(self).delay),
            final(self).since == if r {
                old(self).since
            } else {
                (old(self).since + 1) as u32
            },
    {
        self.polls = self.polls + 1;
        if self.since >= self.delay {
            true
        } else {
            self.since = self.since + 1;
            false
        }
    }

    /// Accept one 8-bit transfer.  The port must have just reported ready.
    pub fn write8(&mut self, v: u8)
        requires
            old(self).since >= old(self).delay,
        ensures
            final(self).delay == old(self).delay,
            final(self).polls == old(self).polls,
            final(self).since == 0,
            final(self).log@ == old(self).log@.push(WriteOp::Byte(v)),
    {
        self.since = 0;
        self.log.push(WriteOp::Byte(v));
    }

    /// Accept one 16-bit transfer.  The port must have just reported ready.
    pub fn write16(&mut self, v: u16)
        requires
            old(self).since >= old(self).delay,
        ensures
            final(self).delay == old(self).delay,
            final(self).polls == old(self).polls,
            final(self).since == 0,
            final(self).log@ == old(self).log@.push(WriteOp::Half(v)),
    {
        self.since = 0;
        self.log.push(WriteOp::Half(v));
    }

    /// Accept one 32-bit transfer.  The port must have just reported ready.
    pub fn write32(&mut self, v: u32)
        requires
            old(self).since >= old(self).delay,
        ensures
            final(self).delay == old(self).delay,
            final(self).polls == old(self).polls,
            final(self).since == 0,
            final(self).log@ == old(self).log@.push(WriteOp::Word(v)),
    {
        self.since = 0;
        self.log.push(WriteOp::Word(v));
    }
}

} // verus!
