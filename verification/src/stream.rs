//! The stream builder: the hexadecimal digits of pi, read in increasing
//! digit order and most-significant-bit first, form an unbounded bit
//! stream.  `byte_at` evaluates the 8-bit window of that stream that
//! starts at a given bit offset.
//!
//! A window starting at bit offset `o` spans at most three consecutive
//! digits, those with indices `o/4`, `o/4 + 1` and `o/4 + 2`.  Computed
//! digits are cached so that each digit is computed once no matter how
//! many offsets are evaluated.

use vstd::prelude::*;
use crate::digits::{lemma_pi_digit_bounds, pi, pi_digit_spec};

verus! {

/// The byte that the bit stream shows at bit offset `o`.  The three digits
/// `o/4 .. o/4 + 2` hold bits `4*(o/4) .. 4*(o/4) + 12` of the stream,
/// most significant first; shifting right past the trailing `4 - o%4` bits
/// and keeping the low 8 bits selects exactly bits `o .. o + 8`.
pub open spec fn byte_at(o: int) -> int {
    let w = pi_digit_spec(o / 4) * 0x100 + pi_digit_spec(o / 4 + 1) * 0x10 + pi_digit_spec(
        o / 4 + 2,
    );
    if o % 4 == 0 {
        w / 16 % 256
    } else if o % 4 == 1 {
        w / 8 % 256
    } else if o % 4 == 2 {
        w / 4 % 256
    } else {
        w / 2 % 256
    }
}

/// A growing cache of the hexadecimal digits of pi, in digit order.
pub struct DigitStream {
    nibs: Vec<u8>,
}

impl DigitStream {
    /// Every cached entry is the digit of its index.
    pub closed spec fn wf(self) -> bool {
        forall|i: int|
            0 <= i < self.nibs@.len() ==> #[trigger] self.nibs@[i] as int == pi_digit_spec(i)
    }

    pub fn new() -> (s: Self)
        ensures
            s.wf(),
    {
        DigitStream { nibs: Vec::new() }
    }

    /// Grow the cache until it holds at least `n` digits.
    fn extend_to(&mut self, n: usize)
        requires
            old(self).wf(),
            n <= 0x10000,
        ensures
            final(self).wf(),
            final(self).nibs@.len() >= n,
    {
        while self.nibs.len() < n
            invariant
                self.wf(),
                n <= 0x10000,
            decreases n - self.nibs.len(),
        {
            let d = pi(self.nibs.len() as u16);
            self.nibs.push(d);
        }
    }

    /// The byte shown at bit offset `o`, from the three digits the window
    /// spans.
    pub fn byte_at(&mut self, o: u16) -> (b: u8)
        requires
            old(self).wf(),
        ensures
            final(self).wf(),
            b as int == byte_at(o as int),
    {
        let q = (o / 4) as usize;
        self.extend_to(q + 3);
        proof {
            lemma_pi_digit_bounds(q as int);
            lemma_pi_digit_bounds(q as int + 1);
            lemma_pi_digit_bounds(q as int + 2);
        }
        let w: u16 = (self.nibs[q] as u16) * 0x100 + (self.nibs[q + 1] as u16) * 0x10
            + (self.nibs[q + 2] as u16);
        let r = o % 4;
        let shift: u16 = if r == 0 {
            16
        } else if r == 1 {
            8
        } else if r == 2 {
            4
        } else {
            2
        };
        ((w / shift) % 256) as u8
    }
}

} // verus!
