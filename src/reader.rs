use vstd::prelude::*;
use vstd::utf8::{decode_utf8, valid_utf8};

use crate::error::JvmError;

verus! {

/// `256` raised to the `n`th power.
pub open spec fn pow256(n: nat) -> nat
    decreases n,
{
    if n == 0 {
        1
    } else {
        256 * pow256((n - 1) as nat)
    }
}

/// The unsigned integer that `s` spells out, most significant byte first.
pub open spec fn be_value(s: Seq<u8>) -> nat
    decreases s.len(),
{
    if s.len() == 0 {
        0
    } else {
        be_value(s.drop_last()) * 256 + s.last() as nat
    }
}

/// The `n` bytes of `d` that start at `p`, read big-endian.
pub open spec fn be_at(d: Seq<u8>, p: int, n: int) -> nat {
    be_value(d.subrange(p, p + n))
}

pub proof fn lemma_be_value_bound(s: Seq<u8>)
    ensures
        be_value(s) < pow256(s.len()),
    decreases s.len(),
{
    if s.len() > 0 {
        lemma_be_value_bound(s.drop_last());
        let v = be_value(s.drop_last());
        let b = s.last() as nat;
        let q = pow256((s.len() - 1) as nat);
        assert(v * 256 + b < 256 * q) by (nonlinear_arith)
            requires
                v < q,
                b < 256,
        ;
    }
}

/// Relies on `String::from_utf8`: it succeeds exactly on well-formed UTF-8,
/// and the text is what the bytes decode to.
#[verifier::external_body]
pub(crate) fn utf8_to_string(bytes: Vec<u8>) -> (r: Option<String>)
    ensures
        r.is_some() == valid_utf8(bytes@),
        r matches Some(s) ==> s@ == decode_utf8(bytes@),
{
    String::from_utf8(bytes).ok()
}

/// A sequential, bounds-checked, big-endian reader over a fixed buffer.
#[derive(Debug)]
pub struct BytecodeReader {
    pub offset: usize,
    pub size: usize,
    pub data: Vec<u8>,
}

impl BytecodeReader {
    /// The reader's own consistency: `size` is the buffer's length and the
    /// offset lies within it.
    pub open spec fn wf(&self) -> bool {
        &&& self.size == self.data@.len()
        &&& self.offset <= self.size
    }

    /// The bytes not read yet.
    pub open spec fn rest(&self) -> Seq<u8> {
        self.data@.subrange(self.offset as int, self.data@.len() as int)
    }

    /// The outcome of reading `n` bytes at the current offset.
    pub open spec fn fits(&self, n: int) -> bool {
        self.offset + n <= self.size
    }

    pub fn new(raw_data: Vec<u8>) -> (r: BytecodeReader)
        ensures
            r.wf(),
            r.offset == 0,
            r.data@ == raw_data@,
    {
        BytecodeReader { offset: 0, size: raw_data.len(), data: raw_data }
    }

    /// Moves back to the start of the buffer.
    pub fn reset(&mut self)
        requires
            old(self).wf(),
        ensures
            final(self).wf(),
            final(self).offset == 0,
            final(self).data@ == old(self).data@,
    {
        self.offset = 0;
    }

    /// The next `step` bytes; fails, and does not move, when fewer remain.
    pub fn read_as_vec(&mut self, step: usize) -> (r: Result<Vec<u8>, JvmError>)
        requires
            old(self).wf(),
        ensures
            final(self).wf(),
            final(self).data@ == old(self).data@,
            old(self).fits(step as int) ==> r.is_ok(),
            r matches Ok(v) ==> {
                &&& v@ == old(self).data@.subrange(
                    old(self).offset as int,
                    old(self).offset + step,
                )
                &&& final(self).offset == old(self).offset + step
            },
            !old(self).fits(step as int) ==> {
                &&& r == Err::<Vec<u8>, JvmError>(
                    JvmError::OutOfBounds { offset: old(self).offset, wanted: step },
                )
                &&& final(self).offset == old(self).offset
            },
    {
        if step > self.size - self.offset {
            return Err(JvmError::OutOfBounds { offset: self.offset, wanted: step });
        }
        let start = self.offset;
        let end = start + step;
        let mut v: Vec<u8> = Vec::with_capacity(step);
        let mut i: usize = start;
        while i < end
            invariant
                self.wf(),
                start <= i <= end <= self.size,
                v@ == self.data@.subrange(start as int, i as int),
            decreases end - i,
        {
            v.push(self.data[i]);
            i = i + 1;
        }
        self.offset = end;
        Ok(v)
    }

    /// The next `step` bytes as text. Fails when fewer remain (the reader
    /// does not move) or when they are not well-formed UTF-8 (it has moved
    /// past them).
    pub fn read_as_string(&mut self, step: usize) -> (r: Result<String, JvmError>)
        requires
            old(self).wf(),
        ensures
            final(self).wf(),
            final(self).data@ == old(self).data@,
            ({
                let bytes = old(self).data@.subrange(
                    old(self).offset as int,
                    old(self).offset + step,
                );
                if !old(self).fits(step as int) {
                    &&& r == Err::<String, JvmError>(
                        JvmError::OutOfBounds { offset: old(self).offset, wanted: step },
                    )
                    &&& final(self).offset == old(self).offset
                } else {
                    &&& final(self).offset == old(self).offset + step
                    &&& valid_utf8(bytes) ==> (r matches Ok(s) && s@ == decode_utf8(bytes))
                    &&& !valid_utf8(bytes) ==> r == Err::<String, JvmError>(
                        JvmError::InvalidUtf8,
                    )
                }
            }),
    {
        let bytes = self.read_as_vec(step)?;
        match utf8_to_string(bytes) {
            Some(s) => Ok(s),
            None => Err(JvmError::InvalidUtf8),
        }
    }

    /// The next `step` bytes (1 to 8) as a big-endian unsigned integer. A
    /// width outside that range reads nothing and gives 0.
    pub fn read_as_u64(&mut self, step: usize) -> (r: Result<u64, JvmError>)
        requires
            old(self).wf(),
        ensures
            final(self).wf(),
            final(self).data@ == old(self).data@,
            (step < 1 || step > 8) ==> r == Ok::<u64, JvmError>(0) && final(self).offset
                == old(self).offset,
            (1 <= step <= 8 && old(self).fits(step as int)) ==> {
                &&& r == Ok::<u64, JvmError>(
                    be_at(old(self).data@, old(self).offset as int, step as int) as u64,
                )
                &&& be_at(old(self).data@, old(self).offset as int, step as int) < pow256(
                    step as nat,
                )
                &&& final(self).offset == old(self).offset + step
            },
            (1 <= step <= 8 && !old(self).fits(step as int)) ==> {
                &&& r == Err::<u64, JvmError>(
                    JvmError::OutOfBounds { offset: old(self).offset, wanted: step },
                )
                &&& final(self).offset == old(self).offset
            },
    {
        if step < 1 || step > 8 {
            return Ok(0);
        }
        let ghost d = self.data@;
        let ghost p = self.offset as int;
        let bytes = self.read_as_vec(step)?;
        let mut value: u64 = 0;
        let mut i: usize = 0;
        proof {
            reveal_with_fuel(pow256, 9);
        }
        assert(pow256(7) == 72057594037927936nat);
        while i < step
            invariant
                i <= step <= 8,
                0 <= p,
                p + step <= d.len(),
                pow256(7) == 72057594037927936nat,
                bytes@.len() == step,
                bytes@ == d.subrange(p, p + step),
                value as nat == be_value(bytes@.subrange(0, i as int)),
            decreases step - i,
        {
            let ghost prefix = bytes@.subrange(0, i as int);
            let ghost next = bytes@.subrange(0, i + 1);
            assert(next.drop_last() =~= prefix);
            proof {
                lemma_be_value_bound(prefix);
                lemma_pow256_mono(i as nat, 7);
            }
            assert(value * 256 + bytes@[i as int] < 18446744073709551616nat) by (nonlinear_arith)
                requires
                    value < pow256(i as nat),
                    pow256(i as nat) <= pow256(7),
                    pow256(7) == 72057594037927936nat,
                    bytes@[i as int] < 256,
            ;
            value = value * 256 + bytes[i] as u64;
            i = i + 1;
        }
        assert(bytes@.subrange(0, step as int) =~= bytes@);
        proof {
            lemma_be_value_bound(bytes@);
        }
        Ok(value)
    }

    /// The next byte.
    pub fn u8(&mut self) -> (r: Result<u8, JvmError>)
        requires
            old(self).wf(),
        ensures
            final(self).wf(),
            final(self).data@ == old(self).data@,
            old(self).fits(1) ==> r == Ok::<u8, JvmError>(old(self).data@[old(self).offset as int])
                && final(self).offset == old(self).offset + 1,
            !old(self).fits(1) ==> r == Err::<u8, JvmError>(
                JvmError::OutOfBounds { offset: old(self).offset, wanted: 1 },
            ) && final(self).offset == old(self).offset,
    {
        let ghost d = self.data@;
        let ghost p = self.offset as int;
        let v = self.read_as_u64(1)?;
        proof {
            lemma_be_value_one(d, p);
        }
        Ok(v as u8)
    }

    /// The next two bytes, big-endian.
    pub fn u16(&mut self) -> (r: Result<u16, JvmError>)
        requires
            old(self).wf(),
        ensures
            final(self).wf(),
            final(self).data@ == old(self).data@,
            old(self).fits(2) ==> r == Ok::<u16, JvmError>(
                be_at(old(self).data@, old(self).offset as int, 2) as u16,
            ) && be_at(old(self).data@, old(self).offset as int, 2) < 0x10000
                && final(self).offset == old(self).offset + 2,
            !old(self).fits(2) ==> r == Err::<u16, JvmError>(
                JvmError::OutOfBounds { offset: old(self).offset, wanted: 2 },
            ) && final(self).offset == old(self).offset,
    {
        proof {
            reveal_with_fuel(pow256, 3);
        }
        let v = self.read_as_u64(2)?;
        Ok(v as u16)
    }

    /// The next four bytes, big-endian.
    pub fn u32(&mut self) -> (r: Result<u32, JvmError>)
        requires
            old(self).wf(),
        ensures
            final(self).wf(),
            final(self).data@ == old(self).data@,
            old(self).fits(4) ==> r == Ok::<u32, JvmError>(
                be_at(old(self).data@, old(self).offset as int, 4) as u32,
            ) && be_at(old(self).data@, old(self).offset as int, 4) < 0x1_0000_0000
                && final(self).offset == old(self).offset + 4,
            !old(self).fits(4) ==> r == Err::<u32, JvmError>(
                JvmError::OutOfBounds { offset: old(self).offset, wanted: 4 },
            ) && final(self).offset == old(self).offset,
    {
        proof {
            reveal_with_fuel(pow256, 5);
        }
        let v = self.read_as_u64(4)?;
        Ok(v as u32)
    }
}

pub proof fn lemma_pow256_mono(a: nat, b: nat)
    requires
        a <= b,
    ensures
        pow256(a) <= pow256(b),
    decreases b,
{
    if a < b {
        lemma_pow256_mono(a, (b - 1) as nat);
    }
}

pub proof fn lemma_be_value_one(d: Seq<u8>, p: int)
    requires
        0 <= p < d.len(),
    ensures
        be_at(d, p, 1) == d[p] as nat,
{
    let s = d.subrange(p, p + 1);
    assert(s.drop_last().len() == 0);
    reveal_with_fuel(be_value, 2);
}

} // verus!
