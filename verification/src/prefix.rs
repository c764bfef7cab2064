//! Bytes read ahead while sniffing a stream, handed back to the reader
//! before any byte of the stream itself: a read takes as much of what is
//! left of them as the reader has room for, and only once they are all
//! taken does reading go on to the stream.

use vstd::prelude::*;

verus! {

/// Sniffed bytes, and how many of them were handed out.
pub struct ReplayPrefix {
    bytes: Vec<u8>,
    consumed: usize,
}

impl View for ReplayPrefix {
    type V = (Seq<u8>, nat);

    closed spec fn view(&self) -> (Seq<u8>, nat) {
        (self.bytes@, self.consumed as nat)
    }
}

/// The bytes not handed out yet.
pub open spec fn remaining(p: (Seq<u8>, nat)) -> Seq<u8> {
    p.0.subrange(p.1 as int, p.0.len() as int)
}

impl ReplayPrefix {
    /// No more bytes handed out than there are.
    pub open spec fn wf(&self) -> bool {
        self@.1 <= self@.0.len()
    }

    /// A prefix of `bytes`, none handed out yet.
    pub fn new(bytes: Vec<u8>) -> (r: Self)
        ensures
            r.wf(),
            r@ == (bytes@, 0nat),
    {
        ReplayPrefix { bytes, consumed: 0 }
    }

    /// Whether every byte was handed out.
    pub fn is_empty(&self) -> (r: bool)
        requires
            self.wf(),
        ensures
            r == (remaining(self@).len() == 0),
    {
        self.consumed >= self.bytes.len()
    }

    /// The number of bytes still to hand out.
    pub fn len(&self) -> (r: usize)
        requires
            self.wf(),
        ensures
            r == remaining(self@).len(),
    {
        self.bytes.len() - self.consumed
    }

    /// A read with room for `room` bytes: while bytes are left, as many of
    /// them as fit, in order; once none are left, `None` (read the stream).
    pub fn read(&mut self, room: usize) -> (r: Option<Vec<u8>>)
        requires
            old(self).wf(),
        ensures
            final(self).wf(),
            final(self)@.0 == old(self)@.0,
            remaining(old(self)@).len() == 0 ==> r is None && final(self)@ == old(self)@,
            remaining(old(self)@).len() > 0 ==> {
                let n = if room < remaining(old(self)@).len() {
                    room as nat
                } else {
                    remaining(old(self)@).len()
                };
                &&& r matches Some(chunk) && chunk@ == remaining(old(self)@).take(n as int)
                &&& final(self)@.1 == old(self)@.1 + n
            },
    {
        if self.consumed >= self.bytes.len() {
            return None;
        }
        let left = self.bytes.len() - self.consumed;
        let n = if room < left {
            room
        } else {
            left
        };
        let total = self.bytes.len();
        let mut chunk: Vec<u8> = Vec::new();
        let mut i: usize = 0;
        while i < n
            invariant
                i <= n,
                n <= left,
                left == self.bytes@.len() - self.consumed,
                self.consumed <= self.bytes@.len(),
                total == self.bytes@.len(),
                chunk@ == self.bytes@.subrange(self.consumed as int, self.consumed + i),
            decreases n - i,
        {
            chunk.push(self.bytes[self.consumed + i]);
            i = i + 1;
            assert(chunk@ =~= self.bytes@.subrange(self.consumed as int, self.consumed + i));
        }
        assert(chunk@ =~= remaining(self@).take(n as int));
        self.consumed = self.consumed + n;
        Some(chunk)
    }
}

/// Reads hand the sniffed bytes out without losing, repeating or
/// reordering any: what two reads in a row return is what was left, in
/// order.
pub proof fn law_reads_hand_out_prefix_in_order(p: (Seq<u8>, nat), a: nat, b: nat)
    requires
        p.1 <= p.0.len(),
        a + b <= remaining(p).len(),
    ensures
        remaining(p).take(a as int) + remaining((p.0, p.1 + a)).take(b as int) == remaining(
            p,
        ).take((a + b) as int),
{
    assert(remaining(p).take(a as int) + remaining((p.0, p.1 + a)).take(b as int) =~= remaining(
        p,
    ).take((a + b) as int));
}

} // verus!
