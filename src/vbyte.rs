//! Variable-byte (vbyte) coding of unsigned integers.
//!
//! A value is written as its base-128 digits, most significant first, one
//! digit per byte. The last byte of a group carries bit 7 as an end marker.
use vstd::prelude::*;

verus! {

/// Base-128 digits of `n`, most significant first; `digits(0)` is `[0]`.
pub open spec fn digits(n: nat) -> Seq<u8>
    decreases n,
{
    if n < 128 {
        seq![n as u8]
    } else {
        digits(n / 128).push((n % 128) as u8)
    }
}

/// The vbyte group of `n`: its digits, with bit 7 set on the last one.
pub open spec fn vbyte(n: nat) -> Seq<u8> {
    let d = digits(n);
    d.update(d.len() - 1, (d.last() + 128) as u8)
}

/// Index of the first byte at or after `p` that ends a group, or `s.len()`
/// when no such byte is left.
pub open spec fn group_end(s: Seq<u8>, p: int) -> int
    decreases s.len() - p,
{
    if p >= s.len() {
        s.len() as int
    } else if s[p] >= 128 {
        p
    } else {
        group_end(s, p + 1)
    }
}

/// The number that the payload bits of `s` spell out in base 128.
pub open spec fn group_value(s: Seq<u8>) -> nat
    decreases s.len(),
{
    if s.len() == 0 {
        0
    } else {
        group_value(s.drop_last()) * 128 + (s.last() % 128) as nat
    }
}

/// Why a vbyte group could not be read; `offset` is the byte offset where
/// the value should have started.
#[derive(Clone, Copy, Debug, PartialEq, Eq, Structural)]
pub enum FormatError {
    /// No byte was left where a value should start.
    Exhausted { offset: usize },
    /// The bytes ran out before a byte with bit 7 set ended the group.
    Truncated { offset: usize },
    /// The group's value does not fit in `usize`.
    Overflow { offset: usize },
}

/// Reading one value from position `p` of `s`: the value and the position
/// just after its group, or why it cannot be read.
pub open spec fn decode_at(s: Seq<u8>, p: int) -> Result<(usize, int), FormatError> {
    let e = group_end(s, p);
    if p >= s.len() {
        Err(FormatError::Exhausted { offset: p as usize })
    } else if e >= s.len() {
        Err(FormatError::Truncated { offset: p as usize })
    } else if group_value(s.subrange(p, e + 1)) > usize::MAX {
        Err(FormatError::Overflow { offset: p as usize })
    } else {
        Ok((group_value(s.subrange(p, e + 1)) as usize, e + 1))
    }
}

/// Encode an unsigned integer as a variable number of bytes.
pub fn vbyte_encode(number: usize) -> (r: Vec<u8>)
    ensures
        r@ == vbyte(number as nat),
{
    let mut result: Vec<u8> = Vec::new();
    let mut rest: usize = number;
    loop
        invariant_except_break
            digits(number as nat) == digits(rest as nat) + result@,
        ensures
            result@ == digits(number as nat),
        decreases rest,
    {
        let ghost done = result@;
        let d = (rest % 128) as u8;
        result.insert(0, d);
        assert(result@ =~= seq![d] + done);
        if rest < 128 {
            assert(digits(rest as nat) == seq![d]);
            break;
        }
        assert(digits(rest as nat) == digits((rest / 128) as nat).push(d));
        assert(digits((rest / 128) as nat) + result@ =~= digits((rest / 128) as nat).push(d) + done);
        rest = rest / 128;
    }
    proof {
        lemma_digits_shape(number as nat);
    }
    let last = result.len() - 1;
    let marked = result[last] + 128;
    result.set(last, marked);
    result
}

/// Every digit is below 128, and there is at least one.
proof fn lemma_digits_shape(n: nat)
    ensures
        digits(n).len() >= 1,
        forall|i: int| 0 <= i < digits(n).len() ==> digits(n)[i] < 128,
    decreases n,
{
    if n >= 128 {
        lemma_digits_shape(n / 128);
    }
}

/// The value is recovered from its digits.
proof fn lemma_digits_value(n: nat)
    ensures
        group_value(digits(n)) == n,
    decreases n,
{
    if n >= 128 {
        lemma_digits_value(n / 128);
        assert(digits(n).drop_last() =~= digits(n / 128));
        assert((n / 128) * 128 + n % 128 == n) by (nonlinear_arith);
        assert(group_value(digits(n)) == group_value(digits(n / 128)) * 128 + (
        n % 128) as nat);
    } else {
        assert(digits(n).drop_last() =~= Seq::<u8>::empty());
        assert(group_value(digits(n)) == group_value(Seq::<u8>::empty()) * 128 + n);
    }
}

/// Setting the end marker leaves the value of a group unchanged.
proof fn lemma_vbyte_value(n: nat)
    ensures
        group_value(vbyte(n)) == n,
        vbyte(n).len() == digits(n).len(),
{
    lemma_digits_value(n);
    lemma_digits_shape(n);
    let d = digits(n);
    assert(vbyte(n).drop_last() =~= d.drop_last());
}

/// The group starting at `p` ends at the first marked byte.
proof fn lemma_group_end_at(s: Seq<u8>, p: int, e: int)
    requires
        0 <= p <= e < s.len(),
        forall|k: int| p <= k < e ==> s[k] < 128,
        s[e] >= 128,
    ensures
        group_end(s, p) == e,
    decreases e - p,
{
    if p < e {
        lemma_group_end_at(s, p + 1, e);
    }
}

/// Round trip of the codec: whatever bytes surround it, the group that
/// `vbyte_encode` writes for `n` is read back as `n`, and reading stops
/// right after it.
pub proof fn lemma_vbyte_round_trip(before: Seq<u8>, n: usize, after: Seq<u8>)
    ensures
        decode_at(before + vbyte(n as nat) + after, before.len() as int) == Ok::<(usize, int), FormatError>(
            (n, (before.len() + vbyte(n as nat).len()) as int),
        ),
{
    let g = vbyte(n as nat);
    let s = before + g + after;
    let p = before.len() as int;
    let e = p + g.len() - 1;
    lemma_vbyte_value(n as nat);
    lemma_digits_shape(n as nat);
    assert forall|k: int| p <= k < e implies s[k] < 128 by {
        assert(s[k] == g[k - p]);
        assert(g[k - p] == digits(n as nat)[k - p]);
    }
    lemma_group_end_at(s, p, e);
    assert(s.subrange(p, e + 1) =~= g);
}

/// A source of bytes read front to back.
pub struct ByteSource {
    bytes: Vec<u8>,
    pos: usize,
}

impl ByteSource {
    /// All bytes of the source, read or not.
    pub closed spec fn contents(&self) -> Seq<u8> {
        self.bytes@
    }

    /// Index of the next byte to read.
    pub closed spec fn position(&self) -> int {
        self.pos as int
    }

    /// A source that reads `bytes` from the first one.
    pub fn new(bytes: Vec<u8>) -> (r: ByteSource)
        ensures
            r.contents() == bytes@,
            r.position() == 0,
    {
        ByteSource { bytes, pos: 0 }
    }

    /// Index of the next byte to read.
    pub fn offset(&self) -> (r: usize)
        ensures
            r == self.position(),
    {
        self.pos
    }

    /// The next byte, or `None` when all have been read.
    pub fn next(&mut self) -> (r: Option<u8>)
        ensures
            final(self).contents() == old(self).contents(),
            old(self).position() < old(self).contents().len() ==> r == Some(
                old(self).contents()[old(self).position()],
            ) && final(self).position() == old(self).position() + 1,
            old(self).position() >= old(self).contents().len() ==> r == None::<u8>
                && final(self).position() == old(self).position(),
    {
        if self.pos < self.bytes.len() {
            let b = self.bytes[self.pos];
            self.pos = self.pos + 1;
            Some(b)
        } else {
            None
        }
    }
}

/// Decodes a byte source into unsigned integers.
pub struct VByteDecoder {
    bytes: ByteSource,
}

impl VByteDecoder {
    /// The byte source being decoded.
    pub closed spec fn source(&self) -> ByteSource {
        self.bytes
    }

    /// Create a new decoder over a byte source.
    pub fn new(read: ByteSource) -> (r: VByteDecoder)
        ensures
            r.source() == read,
    {
        VByteDecoder { bytes: read }
    }

    /// Access to the byte source itself, for streams that hold other bytes
    /// beside vbyte groups.
    pub fn underlying_iterator(&mut self) -> (r: &mut ByteSource)
        ensures
            *r == old(self).source(),
            final(self).source() == *final(r),
    {
        &mut self.bytes
    }

    /// Decode the next value. On success the source moves past its group.
    /// A group cut short by the end of the bytes consumes them all; on the
    /// other failures the source is left where it was.
    pub fn next(&mut self) -> (r: Result<usize, FormatError>)
        ensures
            final(self).source().contents() == old(self).source().contents(),
            match decode_at(old(self).source().contents(), old(self).source().position()) {
                Ok((v, next)) => r == Ok::<usize, FormatError>(v) && final(self).source().position()
                    == next,
                Err(e) => r == Err::<usize, FormatError>(e) && final(self).source().position() == (
                if e is Truncated {
                    old(self).source().contents().len() as int
                } else {
                    old(self).source().position()
                }),
            },
    {
        let ghost s = self.bytes.bytes@;
        let start = self.bytes.pos;
        let len = self.bytes.bytes.len();
        if start >= len {
            return Err(FormatError::Exhausted { offset: start });
        }
        let mut i: usize = start;
        let mut value: usize = 0;
        let mut overflow = false;
        loop
            invariant_except_break
                start <= i <= len,
                group_end(s, start as int) == group_end(s, i as int),
            invariant
                s == self.bytes.bytes@,
                s == old(self).source().contents(),
                start == old(self).source().position(),
                start == self.bytes.pos,
                len == s.len(),
                start < len,
                start <= i <= len,
                !overflow ==> value == group_value(s.subrange(start as int, i as int)),
                overflow ==> group_value(s.subrange(start as int, i as int)) > usize::MAX,
            ensures
                start < i <= len,
                s[i - 1] >= 128,
                group_end(s, start as int) == i - 1,
            decreases len - i,
        {
            if i >= len {
                self.bytes.pos = len;
                return Err(FormatError::Truncated { offset: start });
            }
            let b = self.bytes.bytes[i];
            let digit = b % 128;
            let ghost prev = s.subrange(start as int, i as int);
            assert(s.subrange(start as int, i + 1).drop_last() =~= prev);
            if !overflow {
                let next: u128 = value as u128 * 128 + digit as u128;
                if next > usize::MAX as u128 {
                    overflow = true;
                } else {
                    value = next as usize;
                }
            } else {
                assert(group_value(prev) * 128 >= group_value(prev)) by (nonlinear_arith);
            }
            i = i + 1;
            if b >= 128 {
                break;
            }
        }
        if overflow {
            return Err(FormatError::Overflow { offset: start });
        }
        self.bytes.pos = i;
        Ok(value)
    }
}

} // verus!
