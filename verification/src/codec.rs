//! Little-endian integers inside byte strings.
use vstd::bytes::*;
use vstd::prelude::*;
use vstd::slice::slice_subrange;

verus! {

/// The two bytes of `x`, least significant first.
pub open spec fn le16(x: u16) -> Seq<u8> {
    spec_u16_to_le_bytes(x)
}

/// The eight bytes of `x`, least significant first.
pub open spec fn le64(x: u64) -> Seq<u8> {
    spec_u64_to_le_bytes(x)
}

/// The integer in the two bytes of `b` that start at `at`.
pub open spec fn u16_at(b: Seq<u8>, at: int) -> u16 {
    spec_u16_from_le_bytes(b.subrange(at, at + 2))
}

/// The integer in the eight bytes of `b` that start at `at`.
pub open spec fn u64_at(b: Seq<u8>, at: int) -> u64 {
    spec_u64_from_le_bytes(b.subrange(at, at + 8))
}

/// A string of `n` zero bytes.
pub open spec fn zeros(n: nat) -> Seq<u8> {
    Seq::new(n, |i: int| 0u8)
}

pub proof fn lemma_le16(x: u16)
    ensures
        le16(x).len() == 2,
        spec_u16_from_le_bytes(le16(x)) == x,
{
    lemma_auto_spec_u16_to_from_le_bytes();
    assert(spec_u16_to_le_bytes(x).len() == 2);
}

pub proof fn lemma_le64(x: u64)
    ensures
        le64(x).len() == 8,
        spec_u64_from_le_bytes(le64(x)) == x,
{
    lemma_auto_spec_u64_to_from_le_bytes();
}

/// Reading back an integer that was written at `at`.
pub proof fn lemma_u64_at(b: Seq<u8>, at: int, x: u64)
    requires
        0 <= at,
        at + 8 <= b.len(),
        b.subrange(at, at + 8) == le64(x),
    ensures
        u64_at(b, at) == x,
{
    lemma_le64(x);
}

/// An integer inside a window is the integer at the shifted place.
pub proof fn lemma_u64_at_window(b: Seq<u8>, from: int, to: int, at: int)
    requires
        0 <= from <= to <= b.len(),
        0 <= at,
        from + at + 8 <= to,
    ensures
        u64_at(b.subrange(from, to), at) == u64_at(b, from + at),
{
    assert(b.subrange(from, to).subrange(at, at + 8) =~= b.subrange(from + at, from + at + 8));
}

/// Eight zero bytes are the integer zero, and the other way round.
pub proof fn lemma_le64_zero()
    ensures
        le64(0) =~= zeros(8),
        u64_at(zeros(8), 0) == 0,
{
    spec_u64_to_le_bytes_to_open(0);
    assert((0u64 >> 8) & 0xff == 0) by (bit_vector);
    assert((0u64 >> 16) & 0xff == 0) by (bit_vector);
    assert((0u64 >> 24) & 0xff == 0) by (bit_vector);
    assert((0u64 >> 32) & 0xff == 0) by (bit_vector);
    assert((0u64 >> 40) & 0xff == 0) by (bit_vector);
    assert((0u64 >> 48) & 0xff == 0) by (bit_vector);
    assert((0u64 >> 56) & 0xff == 0) by (bit_vector);
    assert(0u64 & 0xff == 0) by (bit_vector);
    assert(le64(0) =~= zeros(8));
    assert(zeros(8).subrange(0, 8) =~= zeros(8));
    lemma_le64(0);
}

/// The first byte of a one is one.
pub proof fn lemma_le64_one()
    ensures
        le64(1).len() == 8,
        le64(1)[0] == 1,
{
    spec_u64_to_le_bytes_to_open(1);
    assert(1u64 & 0xff == 1) by (bit_vector);
}

pub fn push_u16(out: &mut Vec<u8>, x: u16)
    ensures
        final(out)@ == old(out)@ + le16(x),
{
    let b = u16_to_le_bytes(x);
    out.extend_from_slice(b.as_slice());
    assert(out@ =~= old(out)@ + le16(x));
}

pub fn push_u64(out: &mut Vec<u8>, x: u64)
    ensures
        final(out)@ == old(out)@ + le64(x),
{
    let b = u64_to_le_bytes(x);
    out.extend_from_slice(b.as_slice());
    assert(out@ =~= old(out)@ + le64(x));
}

pub fn push_bytes(out: &mut Vec<u8>, b: &[u8])
    ensures
        final(out)@ == old(out)@ + b@,
{
    out.extend_from_slice(b);
    assert(out@ =~= old(out)@ + b@);
}

/// Appends zero bytes until `out` has `len` bytes.
pub fn pad_to(out: &mut Vec<u8>, len: usize)
    requires
        old(out)@.len() <= len,
    ensures
        final(out)@ == old(out)@ + zeros((len - old(out)@.len()) as nat),
{
    let ghost before = out@;
    out.resize(len, 0u8);
    assert(out@ =~= before + zeros((len - before.len()) as nat)) by {
        if len > before.len() {
            assert(out@.subrange(0, before.len() as int) =~= before);
            assert forall|i: int| 0 <= i < before.len() implies out@[i] == before[i] by {
                assert(out@.subrange(0, before.len() as int)[i] == before[i]);
            }
        }
    }
}

pub fn read_u16(b: &[u8], at: usize) -> (x: u16)
    requires
        at + 2 <= b@.len(),
    ensures
        x == u16_at(b@, at as int),
{
    let n = b.len();
    assert(at + 2 <= n);
    u16_from_le_bytes(slice_subrange(b, at, at + 2))
}

pub fn read_u64(b: &[u8], at: usize) -> (x: u64)
    requires
        at + 8 <= b@.len(),
    ensures
        x == u64_at(b@, at as int),
{
    let n = b.len();
    assert(at + 8 <= n);
    u64_from_le_bytes(slice_subrange(b, at, at + 8))
}

/// Copies the bytes of `b` from `from` up to `to`.
pub fn copy_range(b: &[u8], from: usize, to: usize) -> (r: Vec<u8>)
    requires
        from <= to <= b@.len(),
    ensures
        r@ == b@.subrange(from as int, to as int),
{
    crate::order::to_vec(slice_subrange(b, from, to))
}

/// Copies `b` to `out`, starting at `at`.
pub fn copy_into(out: &mut [u8], at: usize, b: &[u8])
    requires
        at + b@.len() <= old(out)@.len(),
    ensures
        final(out)@.len() == old(out)@.len(),
        forall|i: int|
            0 <= i < old(out)@.len() ==> #[trigger] final(out)@[i] == if at <= i < at + b@.len() {
                b@[i - at]
            } else {
                old(out)@[i]
            },
{
    let n = b.len();
    let m = out.len();
    let mut j: usize = 0;
    while j < n
        invariant
            j <= n,
            n == b@.len(),
            m == out@.len(),
            at + n <= m,
            out@.len() == old(out)@.len(),
            forall|i: int|
                0 <= i < old(out)@.len() ==> #[trigger] out@[i] == if at <= i < at + j {
                    b@[i - at]
                } else {
                    old(out)@[i]
                },
        decreases n - j,
    {
        out[at + j] = b[j];
        j += 1;
    }
}

/// Values that all take the same number of bytes.
pub trait Fixed: Sized {
    /// The bytes that a value takes.
    spec fn width() -> nat;

    /// The value as bytes.
    spec fn bytes(self) -> Seq<u8>;

    /// The value that stands at `at`.
    spec fn value_at(b: Seq<u8>, at: int) -> Self;

    /// A value takes as many bytes as it should, and at least one.
    proof fn lemma_width(self)
        ensures
            self.bytes().len() == Self::width(),
            0 < Self::width(),
    ;

    /// A value that was written is read back.
    proof fn lemma_value_at(self, b: Seq<u8>, at: int)
        requires
            0 <= at,
            at + Self::width() <= b.len(),
            b.subrange(at, (at + Self::width()) as int) == self.bytes(),
        ensures
            Self::value_at(b, at) == self,
    ;

    fn size() -> (r: usize)
        ensures
            r == Self::width(),
            r > 0,
    ;

    fn push(&self, out: &mut Vec<u8>)
        ensures
            final(out)@ == old(out)@ + self.bytes(),
    ;

    fn read(b: &[u8], at: usize) -> (r: Self)
        requires
            at + Self::width() <= b@.len(),
        ensures
            r == Self::value_at(b@, at as int),
    ;
}

impl Fixed for u64 {
    open spec fn width() -> nat {
        8
    }

    open spec fn bytes(self) -> Seq<u8> {
        le64(self)
    }

    open spec fn value_at(b: Seq<u8>, at: int) -> u64 {
        u64_at(b, at)
    }

    proof fn lemma_width(self) {
        lemma_le64(self);
    }

    proof fn lemma_value_at(self, b: Seq<u8>, at: int) {
        lemma_u64_at(b, at, self);
    }

    fn size() -> (r: usize) {
        8
    }

    fn push(&self, out: &mut Vec<u8>) {
        push_u64(out, *self);
    }

    fn read(b: &[u8], at: usize) -> (r: u64) {
        read_u64(b, at)
    }
}

impl Fixed for (u64, u64) {
    open spec fn width() -> nat {
        16
    }

    open spec fn bytes(self) -> Seq<u8> {
        le64(self.0) + le64(self.1)
    }

    open spec fn value_at(b: Seq<u8>, at: int) -> (u64, u64) {
        (u64_at(b, at), u64_at(b, at + 8))
    }

    proof fn lemma_width(self) {
        lemma_le64(self.0);
        lemma_le64(self.1);
    }

    proof fn lemma_value_at(self, b: Seq<u8>, at: int) {
        lemma_le64(self.0);
        lemma_le64(self.1);
        let both = b.subrange(at, at + 16);
        assert(b.subrange(at, at + 8) =~= both.subrange(0, 8));
        assert(b.subrange(at + 8, at + 16) =~= both.subrange(8, 16));
        assert(both.subrange(0, 8) =~= le64(self.0));
        assert(both.subrange(8, 16) =~= le64(self.1));
    }

    fn size() -> (r: usize) {
        16
    }

    fn push(&self, out: &mut Vec<u8>) {
        push_u64(out, self.0);
        push_u64(out, self.1);
        assert(out@ =~= old(out)@ + (le64(self.0) + le64(self.1)));
    }

    fn read(b: &[u8], at: usize) -> (r: (u64, u64)) {
        let n = b.len();
        assert(at + 16 <= n);
        (read_u64(b, at), read_u64(b, at + 8))
    }
}

} // verus!
