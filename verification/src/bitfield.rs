use vstd::prelude::*;

use crate::error::Error;

verus! {

/// Truth of bit `i` (least significant first) of a byte.
pub open spec fn nth_bit(b: u8, i: u8) -> bool {
    b & (1u8 << i) != 0
}

/// Truth of bit `k` of a packed byte buffer, least significant bit first
/// within each byte.
pub open spec fn bit_at(bytes: Seq<u8>, k: int) -> bool {
    nth_bit(bytes[k / 8], (k % 8) as u8)
}

/// Number of bytes that back a bitfield of `size` bits.
pub open spec fn bytes_needed(size: usize) -> int {
    size as int / 8 + if size as int % 8 == 0 {
        0int
    } else {
        1int
    }
}

/// First index in `[lo, hi)` at which `bits` is false, if any.
pub open spec fn first_unset_in(bits: Seq<bool>, lo: int, hi: int) -> Option<int>
    decreases hi - lo,
{
    if lo < 0 || lo >= hi || hi > bits.len() {
        None
    } else if !bits[lo] {
        Some(lo)
    } else {
        first_unset_in(bits, lo + 1, hi)
    }
}

/// First unset index at or after `idx`, wrapping around to `[0, idx)`.
pub open spec fn spec_first_unset_from(bits: Seq<bool>, idx: int) -> Option<int> {
    match first_unset_in(bits, idx, bits.len() as int) {
        Some(j) => Some(j),
        None => first_unset_in(bits, 0, idx),
    }
}

/// A packed bitset over piece indices `0 .. size`.
///
/// Bit `i` lives at bit offset `i % 8` (least significant first) of byte
/// `i / 8`. Bits at offsets `size ..` of the final byte are padding and are
/// kept at 0; no query ever reports them.
pub struct BitField {
    inner: Vec<u8>,
    size: usize,
}

impl BitField {
    /// The sequence of booleans this bitfield denotes.
    pub closed spec fn view(&self) -> Seq<bool> {
        Seq::new(self.size as nat, |k: int| bit_at(self.inner@, k))
    }

    pub closed spec fn spec_size(&self) -> usize {
        self.size
    }

    pub closed spec fn well_formed(&self) -> bool {
        &&& self.inner@.len() == bytes_needed(self.size)
        &&& forall|k: int|
            self.size <= k < 8 * self.inner@.len() ==> !#[trigger] bit_at(self.inner@, k)
    }

    /// A bitfield always denotes exactly `size` bits.
    pub proof fn lemma_view_len(&self)
        ensures
            self@.len() == self.spec_size(),
    {
    }

    pub fn size(&self) -> (r: usize)
        ensures
            r == self.spec_size(),
    {
        self.size
    }

    /// All bits start unset.
    pub fn new(size: usize) -> (r: BitField)
        ensures
            r.well_formed(),
            r.spec_size() == size,
            r@ == Seq::new(size as nat, |k: int| false),
    {
        let nbytes = size / 8 + if size % 8 == 0 { 0 } else { 1 };
        let mut inner: Vec<u8> = Vec::new();
        let mut i: usize = 0;
        while i < nbytes
            invariant
                i <= nbytes,
                inner@.len() == i,
                forall|j: int| 0 <= j < i ==> inner@[j] == 0u8,
            decreases nbytes - i,
        {
            inner.push(0u8);
            i += 1;
        }
        let r = BitField { inner, size };
        proof {
            assert forall|k: int| 0 <= k < 8 * r.inner@.len() implies !#[trigger] bit_at(
                r.inner@,
                k,
            ) by {
                assert(0 <= k / 8 < r.inner@.len()) by (nonlinear_arith)
                    requires
                        0 <= k < 8 * r.inner@.len(),
                ;
                assert(r.inner@[k / 8] == 0u8);
                let i = (k % 8) as u8;
                assert(!nth_bit(0u8, i)) by (bit_vector);
            }
            assert(size <= 8 * r.inner@.len()) by (nonlinear_arith)
                requires
                    r.inner@.len() == size as int / 8 + if size as int % 8 == 0 { 0int } else { 1int },
            ;
            assert(r@ =~= Seq::new(size as nat, |k: int| false));
        }
        r
    }

    /// The single-bit mask for an index's position within its byte.
    pub fn get_mask(&self, idx: usize) -> (r: u8)
        ensures
            r == 1u8 << ((idx % 8) as u8),
    {
        1u8 << ((idx % 8) as u8)
    }

    /// Reads bit `idx`; an index at or past the size is refused.
    pub fn get(&self, idx: usize) -> (r: Result<bool, Error>)
        requires
            self.well_formed(),
        ensures
            idx < self.spec_size() ==> r == Ok::<bool, Error>(self@[idx as int]),
            idx >= self.spec_size() ==> r == Err::<bool, Error>(Error::IndexOutOfRange),
    {
        if idx >= self.size {
            return Err(Error::IndexOutOfRange);
        }
        let byte = idx / 8;
        assert(byte < self.inner@.len() && idx % 8 < 8) by (nonlinear_arith)
            requires
                byte == idx / 8,
                idx < self.size,
                self.inner@.len() == self.size as int / 8 + if self.size as int % 8 == 0 { 0int } else { 1int },
        ;
        let b = self.inner[byte];
        Ok(b & (1u8 << ((idx % 8) as u8)) != 0)
    }

    /// Writes bit `idx`; an index at or past the size is refused and
    /// leaves the bitfield unchanged.
    pub fn set(&mut self, idx: usize, value: bool) -> (r: Result<(), Error>)
        requires
            old(self).well_formed(),
        ensures
            final(self).well_formed(),
            final(self).spec_size() == old(self).spec_size(),
            idx < old(self).spec_size() ==> r == Ok::<(), Error>(()) && final(self)@ == old(self)@.update(
                idx as int,
                value,
            ),
            idx >= old(self).spec_size() ==> r == Err::<(), Error>(Error::IndexOutOfRange) && final(self)@
                == old(self)@,
    {
        if idx >= self.size {
            return Err(Error::IndexOutOfRange);
        }
        let byte = idx / 8;
        assert(byte < self.inner@.len() && idx % 8 < 8) by (nonlinear_arith)
            requires
                byte == idx / 8,
                idx < self.size,
                self.inner@.len() == self.size as int / 8 + if self.size as int % 8 == 0 { 0int } else { 1int },
        ;
        let off = (idx % 8) as u8;
        let old_b = self.inner[byte];
        let new_b = if value {
            old_b | (1u8 << off)
        } else {
            old_b & !(1u8 << off)
        };
        self.inner.set(byte, new_b);
        proof {
            let obits = old(self)@;
            assert forall|k: int| 0 <= k < 8 * self.inner@.len() implies #[trigger] bit_at(
                self.inner@,
                k,
            ) == if k == idx { value } else { bit_at(old(self).inner@, k) } by {
                assert(0 <= k / 8 < self.inner@.len() && (k % 8) < 8);
                let ob = old(self).inner@[k / 8];
                let i = (k % 8) as u8;
                if k / 8 == byte {
                    assert(k == 8 * (k / 8) + (k % 8) && idx == 8 * (byte as int) + (idx % 8));
                    if value {
                        assert(i < 8 && off < 8 ==> (nth_bit(ob | (1u8 << off), i) == if i == off {
                            true
                        } else {
                            nth_bit(ob, i)
                        })) by (bit_vector);
                    } else {
                        assert(i < 8 && off < 8 ==> (nth_bit(ob & !(1u8 << off), i) == if i == off {
                            false
                        } else {
                            nth_bit(ob, i)
                        })) by (bit_vector);
                    }
                }
            }
            assert(self@ =~= old(self)@.update(idx as int, value));
        }
        Ok(())
    }

    /// Lowest unset bit offset within byte `byte`, counting only real
    /// (non-padding) bit positions; the returned offset is relative to the
    /// byte's base index `8 * byte`.
    pub fn get_unset_in_byte(&self, byte: usize) -> (r: Option<usize>)
        requires
            self.well_formed(),
            8 * byte < self.spec_size(),
        ensures
            ({
                let base = 8 * byte as int;
                let top = if 8 * byte + 8 <= self.spec_size() {
                    base + 8
                } else {
                    self.spec_size() as int
                };
                match r {
                    Some(o) => o < 8 && first_unset_in(self@, base, top) == Some(base + o),
                    None => first_unset_in(self@, base, top) is None,
                }
            }),
    {
        let base = 8 * byte;
        let top = if self.size - base >= 8 {
            8
        } else {
            self.size - base
        };
        let mut off: usize = 0;
        while off < top
            invariant
                self.well_formed(),
                base == 8 * byte,
                8 * byte + top <= self.spec_size(),
                top == 8 || top == self.spec_size() - 8 * byte,
                top <= 8,
                8 * byte < self.spec_size(),
                off <= top,
                first_unset_in(self@, 8 * byte as int, 8 * byte + top) == first_unset_in(
                    self@,
                    8 * byte + off,
                    8 * byte + top,
                ),
            decreases top - off,
        {
            let idx = base + off;
            assert(idx / 8 == byte && idx % 8 == off) by (nonlinear_arith)
                requires
                    idx == 8 * byte + off,
                    off < 8,
            ;
            assert(byte < self.inner@.len()) by (nonlinear_arith)
                requires
                    8 * byte < self.spec_size(),
                    self.inner@.len() == self.spec_size() as int / 8 + if self.spec_size() as int % 8 == 0 { 0int } else { 1int },
            ;
            if self.inner[byte] & (1u8 << (off as u8)) == 0 {
                assert(!self@[idx as int]);
                return Some(off);
            }
            assert(self@[idx as int]);
            off += 1;
        }
        None
    }

    /// First unset bit at or after `idx`, wrapping to `[0, idx)`; `None`
    /// exactly when every bit is set. Whole bytes that are all ones are
    /// skipped without per-bit inspection.
    pub fn first_unset_from(&self, idx: usize) -> (r: Option<usize>)
        requires
            self.well_formed(),
            idx < self.spec_size(),
        ensures
            match r {
                Some(j) => j < self.spec_size() && spec_first_unset_from(self@, idx as int)
                    == Some(j as int),
                None => spec_first_unset_from(self@, idx as int) is None && forall|k: int|
                    0 <= k < self.spec_size() ==> self@[k],
            },
    {
        let r = match self.scan_range(idx, self.size) {
            Some(j) => Some(j),
            None => self.scan_range(0, idx),
        };
        proof {
            if r is None {
                assert forall|k: int| 0 <= k < self.spec_size() implies self@[k] by {
                    if k >= idx {
                        lemma_first_unset_none(self@, idx as int, self@.len() as int, k);
                    } else {
                        lemma_first_unset_none(self@, 0, idx as int, k);
                    }
                }
            }
        }
        r
    }

    /// First unset bit in `[lo, hi)`, skipping all-ones bytes whole.
    fn scan_range(&self, lo: usize, hi: usize) -> (r: Option<usize>)
        requires
            self.well_formed(),
            lo <= hi <= self.spec_size(),
        ensures
            match r {
                Some(j) => lo <= j < hi && first_unset_in(self@, lo as int, hi as int) == Some(
                    j as int,
                ),
                None => first_unset_in(self@, lo as int, hi as int) is None,
            },
    {
        let mut p: usize = lo;
        while p < hi
            invariant
                self.well_formed(),
                lo <= p <= hi <= self.spec_size(),
                first_unset_in(self@, lo as int, hi as int) == first_unset_in(
                    self@,
                    p as int,
                    hi as int,
                ),
            decreases hi - p,
        {
            assert(p / 8 < self.inner@.len() && p % 8 < 8) by (nonlinear_arith)
                requires
                    p < self.spec_size(),
                    self.inner@.len() == self.spec_size() as int / 8 + if self.spec_size() as int % 8 == 0 { 0int } else { 1int },
            ;
            if p % 8 == 0 && hi - p >= 8 && self.inner[p / 8] == 0xff {
                proof {
                    let b = self.inner@[p as int / 8];
                    assert(forall|i: u8| i < 8 ==> nth_bit(0xffu8, i)) by (bit_vector);
                    assert forall|k: int| p <= k < p + 8 implies self@[k] by {
                        assert(k / 8 == p as int / 8 && 0 <= k % 8 < 8) by (nonlinear_arith)
                            requires
                                p as int <= k < p + 8,
                                p % 8 == 0,
                        ;
                    }
                    lemma_first_unset_all_set(self@, p as int, p + 8, hi as int);
                }
                p = p + 8;
            } else {
                if self.inner[p / 8] & (1u8 << ((p % 8) as u8)) == 0 {
                    assert(!self@[p as int]);
                    return Some(p);
                }
                assert(self@[p as int]);
                p = p + 1;
            }
        }
        None
    }
}

/// If every bit of `[lo, mid)` is set, a scan of `[lo, hi)` reduces to a
/// scan of `[mid, hi)`.
proof fn lemma_first_unset_all_set(bits: Seq<bool>, lo: int, mid: int, hi: int)
    requires
        0 <= lo <= mid <= hi <= bits.len(),
        forall|k: int| lo <= k < mid ==> bits[k],
    ensures
        first_unset_in(bits, lo, hi) == first_unset_in(bits, mid, hi),
    decreases mid - lo,
{
    if lo < mid {
        lemma_first_unset_all_set(bits, lo + 1, mid, hi);
    }
}

/// A `None` scan of `[lo, hi)` means every bit there is set.
proof fn lemma_first_unset_none(bits: Seq<bool>, lo: int, hi: int, k: int)
    requires
        0 <= lo,
        hi <= bits.len(),
        first_unset_in(bits, lo, hi) is None,
        lo <= k < hi,
    ensures
        bits[k],
    decreases k - lo,
{
    if lo < k {
        lemma_first_unset_none(bits, lo + 1, hi, k);
    }
}

} // verus!
