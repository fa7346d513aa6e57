//! A cursor over an immutable module buffer, with the format's primitive reads.
use vstd::prelude::*;

use crate::error::Error;

verus! {

/// Bound on the magnitude of a value held by `n` seven-bit groups.
pub open spec fn pow128(n: nat) -> int
    decreases n,
{
    if n == 0 {
        1
    } else {
        128 * pow128((n - 1) as nat)
    }
}

/// Unsigned variable-length integer at `pos`, of at most `budget` bytes: each
/// byte gives seven bits, low groups first, and a byte below 0x80 ends it.
/// Yields the value and the position after it.
pub open spec fn uleb(bs: Seq<u8>, pos: int, budget: nat) -> Result<(int, int), Error>
    decreases budget,
{
    if budget == 0 {
        Err(Error::MalformedVarInt)
    } else if pos < 0 || pos >= bs.len() {
        Err(Error::Eof)
    } else if bs[pos] < 0x80 {
        Ok((bs[pos] as int, pos + 1))
    } else {
        match uleb(bs, pos + 1, (budget - 1) as nat) {
            Ok((v, e)) => Ok(((bs[pos] - 0x80) + 128 * v, e)),
            Err(err) => Err(err),
        }
    }
}

/// Signed variable-length integer at `pos`, of at most `budget` bytes: as
/// `uleb`, with bit 6 of the final byte extended as the sign.
pub open spec fn sleb(bs: Seq<u8>, pos: int, budget: nat) -> Result<(int, int), Error>
    decreases budget,
{
    if budget == 0 {
        Err(Error::MalformedVarInt)
    } else if pos < 0 || pos >= bs.len() {
        Err(Error::Eof)
    } else if bs[pos] < 0x80 {
        Ok((if bs[pos] >= 0x40 { bs[pos] - 0x80 } else { bs[pos] as int }, pos + 1))
    } else {
        match sleb(bs, pos + 1, (budget - 1) as nat) {
            Ok((v, e)) => Ok(((bs[pos] - 0x80) + 128 * v, e)),
            Err(err) => Err(err),
        }
    }
}

/// A `u32` in variable-length form: at most five bytes, value below 2^32.
pub open spec fn var_u32(bs: Seq<u8>, pos: int) -> Result<(u32, int), Error> {
    match uleb(bs, pos, 5) {
        Ok((v, e)) => if v <= u32::MAX {
            Ok((v as u32, e))
        } else {
            Err(Error::MalformedVarInt)
        },
        Err(err) => Err(err),
    }
}

/// An `i32` in signed variable-length form: at most five bytes, value in range.
pub open spec fn var_i32(bs: Seq<u8>, pos: int) -> Result<(i32, int), Error> {
    match sleb(bs, pos, 5) {
        Ok((v, e)) => if i32::MIN <= v <= i32::MAX {
            Ok((v as i32, e))
        } else {
            Err(Error::MalformedVarInt)
        },
        Err(err) => Err(err),
    }
}

/// An `i64` in signed variable-length form: at most ten bytes, value in range.
pub open spec fn var_i64(bs: Seq<u8>, pos: int) -> Result<(i64, int), Error> {
    match sleb(bs, pos, 10) {
        Ok((v, e)) => if i64::MIN <= v <= i64::MAX {
            Ok((v as i64, e))
        } else {
            Err(Error::MalformedVarInt)
        },
        Err(err) => Err(err),
    }
}

/// One byte at `pos`.
pub open spec fn byte_at(bs: Seq<u8>, pos: int) -> Result<(u8, int), Error> {
    if 0 <= pos < bs.len() {
        Ok((bs[pos], pos + 1))
    } else {
        Err(Error::Eof)
    }
}

spec fn widen_u(r: Result<(u64, usize), Error>) -> Result<(int, int), Error> {
    match r {
        Ok((v, e)) => Ok((v as int, e as int)),
        Err(err) => Err(err),
    }
}

spec fn widen_s(r: Result<(i128, usize), Error>) -> Result<(int, int), Error> {
    match r {
        Ok((v, e)) => Ok((v as int, e as int)),
        Err(err) => Err(err),
    }
}

/// Prefixes `acc` to the sequence of a decoding result.
pub open spec fn prepend<T>(acc: Seq<T>, r: Result<(Seq<T>, int), Error>) -> Result<
    (Seq<T>, int),
    Error,
> {
    match r {
        Ok((s, e)) => Ok((acc + s, e)),
        Err(err) => Err(err),
    }
}

pub proof fn lemma_prepend_assoc<T>(a: Seq<T>, b: Seq<T>, r: Result<(Seq<T>, int), Error>)
    ensures
        prepend(a, prepend(b, r)) == prepend(a + b, r),
{
    if let Ok((s, e)) = r {
        assert(a + (b + s) =~= (a + b) + s);
    }
}

/// Pairs an exec result with the cursor position reached.
pub open spec fn at<T>(r: Result<T, Error>, pos: int) -> Result<(T, int), Error> {
    match r {
        Ok(v) => Ok((v, pos)),
        Err(e) => Err(e),
    }
}

pub proof fn lemma_pow128_pos(n: nat)
    ensures
        pow128(n) >= 1,
    decreases n,
{
    if n > 0 {
        lemma_pow128_pos((n - 1) as nat);
    }
}

pub proof fn lemma_uleb_bounds(bs: Seq<u8>, pos: int, budget: nat)
    ensures
        uleb(bs, pos, budget) matches Ok((v, e)) ==> 0 <= v < pow128(budget) && pos < e <= pos
            + budget && e <= bs.len(),
    decreases budget,
{
    if budget > 0 && 0 <= pos < bs.len() {
        let m = pow128((budget - 1) as nat);
        lemma_pow128_pos((budget - 1) as nat);
        assert(pow128(budget) == 128 * m);
        if bs[pos] >= 0x80 {
            lemma_uleb_bounds(bs, pos + 1, (budget - 1) as nat);
            if let Ok((v, e)) = uleb(bs, pos + 1, (budget - 1) as nat) {
                assert(128 * v <= 128 * (m - 1)) by (nonlinear_arith)
                    requires
                        v < m,
                ;
            }
        } else {
            assert(128 <= 128 * m) by (nonlinear_arith)
                requires
                    m >= 1,
            ;
        }
    }
}

pub proof fn lemma_sleb_bounds(bs: Seq<u8>, pos: int, budget: nat)
    ensures
        sleb(bs, pos, budget) matches Ok((v, e)) ==> -pow128(budget) <= 2 * v < pow128(budget)
            && pos < e <= pos + budget && e <= bs.len(),
    decreases budget,
{
    if budget > 0 && 0 <= pos < bs.len() {
        let m = pow128((budget - 1) as nat);
        lemma_pow128_pos((budget - 1) as nat);
        assert(pow128(budget) == 128 * m);
        if bs[pos] >= 0x80 {
            lemma_sleb_bounds(bs, pos + 1, (budget - 1) as nat);
            if let Ok((v, e)) = sleb(bs, pos + 1, (budget - 1) as nat) {
                assert(-128 * m <= 256 * v && 256 * v <= 128 * (m - 1)) by (nonlinear_arith)
                    requires
                        -m <= 2 * v < m,
                ;
            }
        } else {
            assert(128 <= 128 * m) by (nonlinear_arith)
                requires
                    m >= 1,
            ;
        }
    }
}

proof fn lemma_pow128_values()
    ensures
        pow128(4) == 0x1000_0000,
        pow128(5) == 0x8_0000_0000,
        pow128(9) == 0x8000_0000_0000_0000,
        pow128(10) == 0x40_0000_0000_0000_0000,
{
    reveal_with_fuel(pow128, 11);
}

/// A read position into a borrowed module buffer.
pub struct WasmReader<'a> {
    full: &'a [u8],
    pos: usize,
}

impl<'a> WasmReader<'a> {
    /// The whole buffer.
    pub closed spec fn data(&self) -> Seq<u8> {
        self.full@
    }

    /// The read position.
    pub closed spec fn spec_pos(&self) -> int {
        self.pos as int
    }

    pub open spec fn wf(&self) -> bool {
        0 <= self.spec_pos() <= self.data().len()
    }

    pub fn new(full: &'a [u8]) -> (r: Self)
        ensures
            r.data() == full@,
            r.spec_pos() == 0,
            r.wf(),
    {
        WasmReader { full, pos: 0 }
    }

    pub fn into_inner(self) -> (r: &'a [u8])
        ensures
            r@ == self.data(),
    {
        self.full
    }

    pub fn pos(&self) -> (r: usize)
        requires
            self.wf(),
        ensures
            r == self.spec_pos(),
    {
        self.pos
    }

    pub fn len(&self) -> (r: usize)
        ensures
            r == self.data().len(),
    {
        self.full.len()
    }

    /// Number of bytes after the read position.
    pub fn remaining_len(&self) -> (r: usize)
        requires
            self.wf(),
        ensures
            r == self.data().len() - self.spec_pos(),
    {
        self.full.len() - self.pos
    }

    /// Puts the read position at an absolute offset.
    pub fn move_to(&mut self, pos: usize)
        requires
            pos <= old(self).data().len(),
        ensures
            final(self).data() == old(self).data(),
            final(self).spec_pos() == pos,
            final(self).wf(),
    {
        self.pos = pos;
    }

    /// Advances past `n` bytes.
    pub fn skip(&mut self, n: usize) -> (r: Result<(), Error>)
        requires
            old(self).wf(),
        ensures
            final(self).data() == old(self).data(),
            final(self).wf(),
            r is Ok <==> old(self).spec_pos() + n <= old(self).data().len(),
            r is Ok ==> final(self).spec_pos() == old(self).spec_pos() + n,
            r is Err ==> r == Err::<(), Error>(Error::Eof) && final(self).spec_pos()
                == old(self).spec_pos(),
    {
        if n > self.full.len() - self.pos {
            return Err(Error::Eof);
        }
        self.pos = self.pos + n;
        Ok(())
    }

    pub fn read_u8(&mut self) -> (r: Result<u8, Error>)
        requires
            old(self).wf(),
        ensures
            final(self).data() == old(self).data(),
            final(self).wf(),
            at(r, final(self).spec_pos()) == byte_at(old(self).data(), old(self).spec_pos()),
            final(self).spec_pos() >= old(self).spec_pos(),
            r is Ok ==> final(self).spec_pos() > old(self).spec_pos(),
    {
        if self.pos >= self.full.len() {
            return Err(Error::Eof);
        }
        let b = self.full[self.pos];
        self.pos = self.pos + 1;
        Ok(b)
    }

    fn read_uleb(&self, pos: usize, budget: usize) -> (r: Result<(u64, usize), Error>)
        requires
            self.wf(),
            pos <= self.data().len(),
            budget <= 5,
        ensures
            widen_u(r) == uleb(self.data(), pos as int, budget as nat),
        decreases budget,
    {
        if budget == 0 {
            return Err(Error::MalformedVarInt);
        }
        if pos >= self.full.len() {
            return Err(Error::Eof);
        }
        let b = self.full[pos];
        if b < 0x80 {
            return Ok((b as u64, pos + 1));
        }
        proof {
            lemma_uleb_bounds(self.data(), pos + 1, (budget - 1) as nat);
            reveal_with_fuel(pow128, 5);
        }
        match self.read_uleb(pos + 1, budget - 1) {
            Ok((v, e)) => {
                proof {
                    assert(v < pow128((budget - 1) as nat));
                    assert(pow128((budget - 1) as nat) <= 0x1000_0000) by {
                        reveal_with_fuel(pow128, 5);
                    }
                }
                Ok(((b - 0x80) as u64 + 128 * v, e))
            },
            Err(err) => Err(err),
        }
    }

    fn read_sleb(&self, pos: usize, budget: usize) -> (r: Result<(i128, usize), Error>)
        requires
            self.wf(),
            pos <= self.data().len(),
            budget <= 10,
        ensures
            widen_s(r) == sleb(self.data(), pos as int, budget as nat),
        decreases budget,
    {
        if budget == 0 {
            return Err(Error::MalformedVarInt);
        }
        if pos >= self.full.len() {
            return Err(Error::Eof);
        }
        let b = self.full[pos];
        if b < 0x80 {
            if b >= 0x40 {
                return Ok((b as i128 - 0x80, pos + 1));
            }
            return Ok((b as i128, pos + 1));
        }
        proof {
            lemma_sleb_bounds(self.data(), pos + 1, (budget - 1) as nat);
        }
        match self.read_sleb(pos + 1, budget - 1) {
            Ok((v, e)) => {
                proof {
                    assert(pow128((budget - 1) as nat) <= 0x8000_0000_0000_0000) by {
                        reveal_with_fuel(pow128, 10);
                    }
                }
                Ok(((b - 0x80) as i128 + 128 * v, e))
            },
            Err(err) => Err(err),
        }
    }

    pub fn read_var_u32(&mut self) -> (r: Result<u32, Error>)
        requires
            old(self).wf(),
        ensures
            final(self).data() == old(self).data(),
            final(self).wf(),
            at(r, final(self).spec_pos()) == var_u32(old(self).data(), old(self).spec_pos()),
            final(self).spec_pos() >= old(self).spec_pos(),
            r is Ok ==> final(self).spec_pos() > old(self).spec_pos(),
    {
        proof {
            lemma_uleb_bounds(self.data(), self.pos as int, 5);
            lemma_pow128_values();
        }
        match self.read_uleb(self.pos, 5) {
            Ok((v, e)) => {
                if v > 0xFFFF_FFFF {
                    return Err(Error::MalformedVarInt);
                }
                self.pos = e;
                Ok(v as u32)
            },
            Err(err) => Err(err),
        }
    }

    pub fn read_var_i32(&mut self) -> (r: Result<i32, Error>)
        requires
            old(self).wf(),
        ensures
            final(self).data() == old(self).data(),
            final(self).wf(),
            at(r, final(self).spec_pos()) == var_i32(old(self).data(), old(self).spec_pos()),
            final(self).spec_pos() >= old(self).spec_pos(),
            r is Ok ==> final(self).spec_pos() > old(self).spec_pos(),
    {
        proof {
            lemma_sleb_bounds(self.data(), self.pos as int, 5);
            lemma_pow128_values();
        }
        match self.read_sleb(self.pos, 5) {
            Ok((v, e)) => {
                if v < -0x8000_0000 || v > 0x7FFF_FFFF {
                    return Err(Error::MalformedVarInt);
                }
                self.pos = e;
                Ok(v as i32)
            },
            Err(err) => Err(err),
        }
    }

    pub fn read_var_i64(&mut self) -> (r: Result<i64, Error>)
        requires
            old(self).wf(),
        ensures
            final(self).data() == old(self).data(),
            final(self).wf(),
            at(r, final(self).spec_pos()) == var_i64(old(self).data(), old(self).spec_pos()),
            final(self).spec_pos() >= old(self).spec_pos(),
            r is Ok ==> final(self).spec_pos() > old(self).spec_pos(),
    {
        proof {
            lemma_sleb_bounds(self.data(), self.pos as int, 10);
            lemma_pow128_values();
        }
        match self.read_sleb(self.pos, 10) {
            Ok((v, e)) => {
                if v < -0x8000_0000_0000_0000 || v > 0x7FFF_FFFF_FFFF_FFFF {
                    return Err(Error::MalformedVarInt);
                }
                self.pos = e;
                Ok(v as i64)
            },
            Err(err) => Err(err),
        }
    }
}

} // verus!
