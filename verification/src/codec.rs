//! The encoder and decoder tables.
//!
//! The encoder scans the bit stream of pi's digits in increasing offset
//! order and records, for each of the 256 byte values, the first bit
//! offset at which the stream shows that value.  The decoder inverts the
//! completed encoder table.  First occurrence makes the table a bijection:
//! two byte values can never share an offset.

use vstd::prelude::*;
use std::collections::HashMap;
use crate::stream::{byte_at, DigitStream};

verus! {

broadcast use vstd::std_specs::hash::group_hash_axioms;

/// The scan visits all offsets a `u16` can name.
pub open spec fn scan_cap() -> int {
    0x10000
}

/// No bit offset below `bound` shows byte value `b`.
pub open spec fn no_occurrence_below(b: int, bound: int) -> bool {
    forall|o: int| 0 <= o < bound ==> byte_at(o) != b
}

/// Offset `o` is the first at which the stream shows byte value `b`.
pub open spec fn first_occurrence(o: int, b: int) -> bool {
    byte_at(o) == b && no_occurrence_below(b, o)
}

/// The number of `true` entries of a boolean sequence.
pub open spec fn count_true(s: Seq<bool>) -> int
    decreases s.len(),
{
    if s.len() == 0 {
        0
    } else {
        count_true(s.drop_last()) + if s.last() {
            1int
        } else {
            0int
        }
    }
}

proof fn lemma_count_true_le(s: Seq<bool>)
    ensures
        0 <= count_true(s) <= s.len(),
    decreases s.len(),
{
    if s.len() > 0 {
        lemma_count_true_le(s.drop_last());
    }
}

proof fn lemma_count_true_update(s: Seq<bool>, i: int)
    requires
        0 <= i < s.len(),
        !s[i],
    ensures
        count_true(s.update(i, true)) == count_true(s) + 1,
    decreases s.len(),
{
    let t = s.update(i, true);
    if i == s.len() - 1 {
        assert(t.drop_last() =~= s.drop_last());
    } else {
        assert(t.drop_last() =~= s.drop_last().update(i, true));
        lemma_count_true_update(s.drop_last(), i);
    }
}

proof fn lemma_count_true_full(s: Seq<bool>)
    requires
        count_true(s) == s.len(),
    ensures
        forall|i: int| 0 <= i < s.len() ==> s[i],
    decreases s.len(),
{
    if s.len() > 0 {
        lemma_count_true_le(s.drop_last());
        assert(s.last());
        lemma_count_true_full(s.drop_last());
        assert forall|i: int| 0 <= i < s.len() implies s[i] by {
            if i < s.len() - 1 {
                assert(s.drop_last()[i]);
            } else {
                assert(s.last());
            }
        }
    }
}

proof fn lemma_count_true_all(s: Seq<bool>)
    requires
        forall|i: int| 0 <= i < s.len() ==> s[i],
    ensures
        count_true(s) == s.len(),
    decreases s.len(),
{
    if s.len() > 0 {
        assert(forall|i: int|
            0 <= i < s.len() - 1 ==> #[trigger] s.drop_last()[i] == s[i]);
        lemma_count_true_all(s.drop_last());
    }
}

/// The encoder table: for each byte value, the first bit offset of the
/// stream that shows it.
pub struct PiEncoder {
    byte_to_idx: Vec<u16>,
}

impl View for PiEncoder {
    type V = Seq<u16>;

    closed spec fn view(&self) -> Seq<u16> {
        self.byte_to_idx@
    }
}

impl PiEncoder {
    /// A completed table: one entry per byte value, each the first
    /// occurrence of its byte.
    pub open spec fn wf(self) -> bool {
        &&& self@.len() == 256
        &&& forall|b: int| 0 <= b < 256 ==> first_occurrence((#[trigger] self@[b]) as int, b)
    }

    /// Build the table by scanning bit offsets in increasing order,
    /// recording each byte value the first time it is seen and ignoring
    /// repeats, until all 256 values are recorded.  The scan is capped at
    /// the offsets a `u16` can name; if some byte value never appears
    /// below that cap the table cannot be completed and `None` is
    /// returned.
    pub fn new() -> (r: Option<PiEncoder>)
        ensures
            match r {
                Some(enc) => enc.wf(),
                None => exists|b: int|
                    0 <= b < 256 && no_occurrence_below(b, scan_cap()),
            },
    {
        let mut stream = DigitStream::new();
        let mut table: Vec<u16> = Vec::new();
        let mut seen: Vec<bool> = Vec::new();
        let mut i: usize = 0;
        while i < 256
            invariant
                table@.len() == i,
                seen@.len() == i,
                i <= 256,
                count_true(seen@) == 0,
                forall|b: int| 0 <= b < i ==> !(#[trigger] seen@[b]),
            decreases 256 - i,
        {
            proof {
                assert(seen@.push(false).drop_last() =~= seen@);
            }
            table.push(0);
            seen.push(false);
            i = i + 1;
        }
        let mut count: usize = 0;
        let mut off: u32 = 0;
        while count < 256 && off < 0x10000
            invariant
                stream.wf(),
                table@.len() == 256,
                seen@.len() == 256,
                off <= 0x10000,
                count == count_true(seen@),
                0 <= count <= 256,
                forall|b: int|
                    0 <= b < 256 && seen@[b] ==> first_occurrence(
                        (#[trigger] table@[b]) as int,
                        b,
                    ),
                forall|b: int|
                    0 <= b < 256 && !(#[trigger] seen@[b]) ==> no_occurrence_below(
                        b,
                        off as int,
                    ),
            decreases 0x10000 - off,
        {
            let ghost seen0 = seen@;
            let byte = stream.byte_at(off as u16);
            let bi = byte as usize;
            if !seen[bi] {
                proof {
                    lemma_count_true_update(seen@, bi as int);
                }
                table.set(bi, off as u16);
                seen.set(bi, true);
                count = count + 1;
            }
            off = off + 1;
            proof {
                lemma_count_true_le(seen@);
                assert forall|b: int|
                    0 <= b < 256 && !(#[trigger] seen@[b]) implies no_occurrence_below(
                    b,
                    off as int,
                ) by {
                    assert(!seen0[b]);
                    assert(b != byte as int);
                    assert forall|o: int| 0 <= o < off implies byte_at(o) != b by {
                        if o < off - 1 {
                            assert(no_occurrence_below(b, off - 1));
                        } else {
                            assert(byte_at(o) == byte as int);
                        }
                    }
                }
            }
        }
        if count == 256 {
            proof {
                lemma_count_true_full(seen@);
            }
            Some(PiEncoder { byte_to_idx: table })
        } else {
            proof {
                assert(exists|b: int| 0 <= b < 256 && !seen@[b]) by {
                    if forall|b: int| 0 <= b < 256 ==> seen@[b] {
                        lemma_count_true_all(seen@);
                        assert(false);
                    }
                }
                let b0 = choose|b: int| 0 <= b < 256 && !seen@[b];
                assert(no_occurrence_below(b0, scan_cap()));
            }
            None
        }
    }

    /// The bit offset recorded for `byte`: the first offset of the stream
    /// that shows `byte`.
    pub fn index(&self, byte: u8) -> (r: u16)
        requires
            self.wf(),
        ensures
            r == self@[byte as int],
            first_occurrence(r as int, byte as int),
    {
        self.byte_to_idx[byte as usize]
    }

    /// The number of entries of the table.
    pub fn size(&self) -> (r: usize)
        ensures
            r == self@.len(),
    {
        self.byte_to_idx.len()
    }
}

/// Two byte values never share an offset: each table entry is the first
/// occurrence of its byte, and one offset shows one byte.
pub proof fn lemma_encoder_injective(enc: PiEncoder, b1: int, b2: int)
    requires
        enc.wf(),
        0 <= b1 < 256,
        0 <= b2 < 256,
        enc@[b1] == enc@[b2],
    ensures
        b1 == b2,
{
    assert(byte_at(enc@[b1] as int) == b1);
    assert(byte_at(enc@[b2] as int) == b2);
}

/// The table is determined by the stream alone: any two completed tables
/// are equal, entry for entry.
pub proof fn lemma_encoder_deterministic(e1: PiEncoder, e2: PiEncoder)
    requires
        e1.wf(),
        e2.wf(),
    ensures
        e1@ == e2@,
{
    assert forall|b: int| 0 <= b < 256 implies e1@[b] == e2@[b] by {
        let o1 = e1@[b] as int;
        let o2 = e2@[b] as int;
        assert(byte_at(o1) == b);
        assert(byte_at(o2) == b);
        if o1 < o2 {
            assert(no_occurrence_below(b, o2));
            assert(byte_at(o1) != b);
        }
        if o2 < o1 {
            assert(no_occurrence_below(b, o1));
            assert(byte_at(o2) != b);
        }
    }
    assert(e1@ =~= e2@);
}

/// The decoder table: from a recorded bit offset back to its byte value.
pub struct PiDecoder {
    idx_to_byte: HashMap<u16, u8>,
}

impl View for PiDecoder {
    type V = Map<u16, u8>;

    closed spec fn view(&self) -> Map<u16, u8> {
        self.idx_to_byte@
    }
}

impl PiDecoder {
    /// The decoder holds exactly the entries of `enc`, inverted.
    pub open spec fn matches(self, enc: PiEncoder) -> bool {
        &&& forall|b: int|
            0 <= b < 256 ==> self@.contains_key(#[trigger] enc@[b]) && self@[enc@[b]] == b as u8
        &&& forall|k: u16| #[trigger]
            self@.contains_key(k) ==> exists|b: int| 0 <= b < 256 && enc@[b] == k
    }

    /// Invert a completed encoder table.  Entries never collide: the
    /// encoder maps distinct byte values to distinct offsets, so each
    /// insertion adds a fresh key and the result holds all 256 entries.
    pub fn new(encoder: &PiEncoder) -> (r: Self)
        requires
            encoder.wf(),
        ensures
            r.matches(*encoder),
            r@.len() == 256,
            forall|k: u16| #[trigger] r@.contains_key(k) ==> encoder@[r@[k] as int] == k,
    {
        let mut idx_to_byte: HashMap<u16, u8> = HashMap::new();
        let mut b: usize = 0;
        while b < 256
            invariant
                encoder.wf(),
                b <= 256,
                idx_to_byte@.len() == b,
                forall|x: int|
                    0 <= x < b ==> idx_to_byte@.contains_key(#[trigger] encoder@[x])
                        && idx_to_byte@[encoder@[x]] == x as u8,
                forall|k: u16| #[trigger]
                    idx_to_byte@.contains_key(k) ==> exists|x: int|
                        0 <= x < b && encoder@[x] == k,
            decreases 256 - b,
        {
            let idx = encoder.index(b as u8);
            proof {
                if idx_to_byte@.contains_key(idx) {
                    let x = choose|x: int| 0 <= x < b && encoder@[x] == idx;
                    lemma_encoder_injective(*encoder, x, b as int);
                }
            }
            idx_to_byte.insert(idx, b as u8);
            b = b + 1;
        }
        let r = PiDecoder { idx_to_byte };
        proof {
            assert forall|k: u16| #[trigger] r@.contains_key(k) implies encoder@[r@[k] as int]
                == k by {
                let x = choose|x: int| 0 <= x < 256 && encoder@[x] == k;
                assert(r@[k] == x as u8);
            }
        }
        r
    }

    /// The byte value recorded for offset `idx`, which must be an offset
    /// the encoder produced.  Looking up any other offset is a misuse of
    /// the table; `get` reports that case instead of requiring it away.
    pub fn index(&self, idx: u16) -> (r: u8)
        requires
            self@.contains_key(idx),
        ensures
            r == self@[idx],
    {
        match self.idx_to_byte.get(&idx) {
            Some(v) => *v,
            None => unreached(),
        }
    }

    /// Total lookup: the byte value recorded for `idx`, or `None` exactly
    /// when `idx` is an offset the encoder never produced.
    pub fn get(&self, idx: u16) -> (r: Option<u8>)
        ensures
            match r {
                Some(v) => self@.contains_key(idx) && v == self@[idx],
                None => !self@.contains_key(idx),
            },
    {
        match self.idx_to_byte.get(&idx) {
            Some(v) => Some(*v),
            None => None,
        }
    }

    /// The number of entries of the table.
    pub fn size(&self) -> (r: usize)
        ensures
            r == self@.len(),
    {
        self.idx_to_byte.len()
    }
}

/// Round trip: decoding an encoded byte gives the byte back.
pub proof fn lemma_round_trip(enc: PiEncoder, dec: PiDecoder, b: u8)
    requires
        enc.wf(),
        dec.matches(enc),
    ensures
        dec@.contains_key(enc@[b as int]),
        dec@[enc@[b as int]] == b,
{
}

/// Inverse round trip: encoding a decoded offset gives the offset back.
pub proof fn lemma_inverse_round_trip(enc: PiEncoder, dec: PiDecoder, k: u16)
    requires
        enc.wf(),
        dec.matches(enc),
        dec@.contains_key(k),
    ensures
        enc@[dec@[k] as int] == k,
{
    let b = choose|b: int| 0 <= b < 256 && enc@[b] == k;
    assert(dec@[k] == b as u8);
}

/// First-occurrence minimality: no offset below the recorded one shows
/// the byte.
pub proof fn lemma_first_occurrence_minimal(enc: PiEncoder, b: u8, o: int)
    requires
        enc.wf(),
        0 <= o < enc@[b as int],
    ensures
        byte_at(o) != b as int,
{
    assert(first_occurrence(enc@[b as int] as int, b as int));
}

} // verus!
