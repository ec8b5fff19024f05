//! Common helpers for manipulating binary data: big- and little-endian
//! integer codecs, exact reads with an end-of-stream error, stream
//! comparison, and the content hash used to compare lines.

use vstd::prelude::*;
use vstd::string::*;
use crate::error::DiffError;
use crate::readslice::ReadSlice;

verus! {

/// The value of a big-endian byte string.
pub open spec fn be_val(s: Seq<u8>) -> nat
    decreases s.len(),
{
    if s.len() == 0 {
        0
    } else {
        be_val(s.drop_last()) * 256 + (s.last() as nat)
    }
}

/// The value of a little-endian byte string.
pub open spec fn le_val(s: Seq<u8>) -> nat
    decreases s.len(),
{
    if s.len() == 0 {
        0
    } else {
        (s[0] as nat) + 256 * le_val(s.skip(1))
    }
}

/// `256^n`, the number of values of an `n`-byte string.
pub open spec fn pow256(n: nat) -> nat
    decreases n,
{
    if n == 0 {
        1
    } else {
        256 * pow256((n - 1) as nat)
    }
}

/// The two big-endian bytes of a 16-bit value.
pub open spec fn spec_u16_be(n: u16) -> Seq<u8> {
    seq![(n / 0x100) as u8, (n % 0x100) as u8]
}

/// The four big-endian bytes of a 32-bit value.
pub open spec fn spec_u32_be(n: u32) -> Seq<u8> {
    seq![
        (n / 0x1000000) as u8,
        ((n / 0x10000) % 0x100) as u8,
        ((n / 0x100) % 0x100) as u8,
        (n % 0x100) as u8,
    ]
}

/// The eight big-endian bytes of a 64-bit value.
pub open spec fn spec_u64_be(n: u64) -> Seq<u8> {
    seq![
        (n / 0x100000000000000) as u8,
        ((n / 0x1000000000000) % 0x100) as u8,
        ((n / 0x10000000000) % 0x100) as u8,
        ((n / 0x100000000) % 0x100) as u8,
        ((n / 0x1000000) % 0x100) as u8,
        ((n / 0x10000) % 0x100) as u8,
        ((n / 0x100) % 0x100) as u8,
        (n % 0x100) as u8,
    ]
}

/// A big-endian string is worth less than `256^len`.
pub proof fn lemma_be_val_bound(s: Seq<u8>)
    ensures
        be_val(s) < pow256(s.len()),
    decreases s.len(),
{
    if s.len() == 0 {
    } else {
        lemma_be_val_bound(s.drop_last());
    }
}

/// A little-endian string is worth less than `256^len`.
pub proof fn lemma_le_val_bound(s: Seq<u8>)
    ensures
        le_val(s) < pow256(s.len()),
    decreases s.len(),
{
    if s.len() == 0 {
    } else {
        lemma_le_val_bound(s.skip(1));
        assert(256 * le_val(s.skip(1)) <= 256 * (pow256((s.len() - 1) as nat) - 1));
    }
}

/// Reading back the four big-endian bytes of a 32-bit value gives the value.
pub proof fn lemma_u32_be_val(n: u32)
    ensures
        be_val(spec_u32_be(n)) == n,
{
    reveal_with_fuel(be_val, 5);
    let s = spec_u32_be(n);
    assert(s.drop_last() =~= s.take(3));
    assert(s.take(3).drop_last() =~= s.take(2));
    assert(s.take(2).drop_last() =~= s.take(1));
    assert(s.take(1).drop_last() =~= Seq::<u8>::empty());
    assert(((n / 0x1000000) * 0x100 + ((n / 0x10000) % 0x100)) * 0x100 * 0x100 + ((n / 0x100)
            % 0x100) * 0x100 + (n % 0x100) == n) by (bit_vector);
}

/// Serializes a 16-bit value to its two big-endian bytes.
pub fn u16_to_u8_be_vec(n: u16) -> (r: Vec<u8>)
    ensures
        r@ == spec_u16_be(n),
{
    let mut r: Vec<u8> = Vec::new();
    r.push((n / 0x100) as u8);
    r.push((n % 0x100) as u8);
    proof {
        assert(r@ =~= spec_u16_be(n));
    }
    r
}

/// Serializes a 32-bit value to its four big-endian bytes.
pub fn u32_to_u8_be_vec(n: u32) -> (r: Vec<u8>)
    ensures
        r@ == spec_u32_be(n),
{
    let mut r: Vec<u8> = Vec::new();
    r.push((n / 0x1000000) as u8);
    r.push(((n / 0x10000) % 0x100) as u8);
    r.push(((n / 0x100) % 0x100) as u8);
    r.push((n % 0x100) as u8);
    proof {
        assert(r@ =~= spec_u32_be(n));
    }
    r
}

/// Serializes a 64-bit value to its eight big-endian bytes.
pub fn u64_to_u8_be_vec(n: u64) -> (r: Vec<u8>)
    ensures
        r@ == spec_u64_be(n),
{
    let mut r: Vec<u8> = Vec::new();
    r.push((n / 0x100000000000000) as u8);
    r.push(((n / 0x1000000000000) % 0x100) as u8);
    r.push(((n / 0x10000000000) % 0x100) as u8);
    r.push(((n / 0x100000000) % 0x100) as u8);
    r.push(((n / 0x1000000) % 0x100) as u8);
    r.push(((n / 0x10000) % 0x100) as u8);
    r.push(((n / 0x100) % 0x100) as u8);
    r.push((n % 0x100) as u8);
    proof {
        assert(r@ =~= spec_u64_be(n));
    }
    r
}

/// Reinterprets a 16-bit value as signed, in two's complement.
pub fn u_to_i16_be(n: u16) -> (r: i16)
    ensures
        n <= 0x7fff ==> r == n as int,
        n >= 0x8000 ==> r == n - 0x10000,
{
    if n <= 0x7fff {
        n as i16
    } else {
        let v: i32 = n as i32 - 0x10000;
        proof {
            assert(i16::MIN <= v <= i16::MAX);
        }
        v as i16
    }
}

/// Converts a big-endian byte slice of at most two bytes to a signed
/// 16-bit value, in two's complement.
pub fn vec_to_i16_be(n: &[u8]) -> (r: i16)
    requires
        n@.len() <= 2,
    ensures
        be_val(n@) <= 0x7fff ==> r == be_val(n@),
        be_val(n@) >= 0x8000 ==> r == be_val(n@) - 0x10000,
{
    proof {
        lemma_be_val_bound(n@);
        lemma_pow256_values();
        lemma_pow256_increases(n@.len(), 2);
    }
    let v = vec_to_u32_be(n);
    u_to_i16_be(v as u16)
}

/// Converts a big-endian byte slice of at most four bytes to a 32-bit value.
pub fn vec_to_u32_be(input: &[u8]) -> (r: u32)
    requires
        input@.len() <= 4,
    ensures
        r == be_val(input@),
{
    let len = input.len();
    let mut o: u32 = 0;
    let mut i: usize = 0;
    while i < len
        invariant
            i <= len <= 4,
            len == input@.len(),
            o == be_val(input@.take(i as int)),
        decreases len - i,
    {
        proof {
            lemma_be_val_bound(input@.take(i as int));
            lemma_pow256_values();
            assert(input@.take(i + 1).drop_last() =~= input@.take(i as int));
        }
        o = o * 0x100 + input[i] as u32;
        i = i + 1;
    }
    proof {
        assert(input@.take(len as int) =~= input@);
    }
    o
}

/// Converts a big-endian byte slice to a machine word, when the word is
/// wide enough to hold any value of that many bytes.
pub fn vec_to_usize_be(input: &[u8]) -> (r: usize)
    requires
        pow256(input@.len()) <= usize::MAX + 1,
    ensures
        r == be_val(input@),
{
    let len = input.len();
    let mut o: usize = 0;
    let mut i: usize = 0;
    proof {
        lemma_pow256_increases(0, input@.len());
    }
    while i < len
        invariant
            i <= len,
            len == input@.len(),
            pow256(input@.len()) <= usize::MAX + 1,
            o == be_val(input@.take(i as int)),
        decreases len - i,
    {
        proof {
            lemma_be_val_bound(input@.take(i + 1));
            lemma_pow256_increases((i + 1) as nat, input@.len());
            assert(input@.take(i + 1).drop_last() =~= input@.take(i as int));
        }
        o = o * 0x100 + input[i] as usize;
        i = i + 1;
    }
    proof {
        assert(input@.take(len as int) =~= input@);
    }
    o
}

/// Converts a little-endian byte slice to a machine word, when the word is
/// wide enough to hold any value of that many bytes.
pub fn vec_to_usize_le(input: &[u8]) -> (r: usize)
    requires
        pow256(input@.len()) <= usize::MAX + 1,
    ensures
        r == le_val(input@),
{
    let len = input.len();
    let mut o: usize = 0;
    let mut i: usize = len;
    while i > 0
        invariant
            i <= len,
            len == input@.len(),
            pow256(input@.len()) <= usize::MAX + 1,
            o == le_val(input@.skip(i as int)),
        decreases i,
    {
        proof {
            lemma_le_val_bound(input@.skip(i as int));
            lemma_pow256_increases((len - i + 1) as nat, input@.len());
            assert(256 * le_val(input@.skip(i as int)) <= 256 * (pow256((len - i) as nat) - 1));
            assert(input@.skip(i - 1).skip(1) =~= input@.skip(i as int));
        }
        i = i - 1;
        o = input[i] as usize + 0x100 * o;
    }
    proof {
        assert(input@.skip(0) =~= input@);
    }
    o
}

/// Every power of 256 is positive.
pub proof fn lemma_pow256_pos(n: nat)
    ensures
        pow256(n) >= 1,
    decreases n,
{
    if n > 0 {
        lemma_pow256_pos((n - 1) as nat);
    }
}

/// `256^m <= 256^n` whenever `m <= n`.
pub proof fn lemma_pow256_increases(m: nat, n: nat)
    requires
        m <= n,
    ensures
        pow256(m) <= pow256(n),
        pow256(m) >= 1,
    decreases n,
{
    lemma_pow256_pos(m);
    if m < n {
        lemma_pow256_increases(m, (n - 1) as nat);
        assert(pow256(n) == 256 * pow256((n - 1) as nat));
        lemma_pow256_pos((n - 1) as nat);
        assert(256 * pow256((n - 1) as nat) >= pow256((n - 1) as nat));
    }
}

/// The concrete powers used by the four-byte codec.
pub proof fn lemma_pow256_values()
    ensures
        pow256(0) == 1,
        pow256(1) == 0x100,
        pow256(2) == 0x10000,
        pow256(3) == 0x1000000,
        pow256(4) == 0x100000000,
{
    reveal_with_fuel(pow256, 5);
}

/// Removes the first item from a vector and returns it.
pub fn vec_shift<T>(vec: &mut Vec<T>) -> (r: Option<T>)
    ensures
        old(vec)@.len() == 0 ==> r is None && final(vec)@ == old(vec)@,
        old(vec)@.len() > 0 ==> r == Some(old(vec)@[0]) && final(vec)@ == old(vec)@.skip(1),
{
    if vec.is_empty() {
        return None;
    }
    let r = vec.remove(0);
    proof {
        assert(final(vec)@ =~= old(vec)@.skip(1));
    }
    Some(r)
}

/// Reads exactly `size` bytes from `input` into the front of `buf`.
/// Fails with an end-of-stream error when fewer bytes remain; in that case
/// whatever was available has been consumed.
pub fn read_n(input: &mut ReadSlice, buf: &mut Vec<u8>, size: u32) -> (r: Result<
    usize,
    DiffError,
>)
    requires
        size <= old(buf)@.len(),
    ensures
        final(input)@ == old(input)@,
        final(buf)@.len() == old(buf)@.len(),
        old(input).remaining().len() >= size ==> {
            &&& r == Ok::<usize, DiffError>(size as usize)
            &&& final(buf)@ == old(input).remaining().take(size as int) + old(buf)@.skip(
                size as int,
            )
            &&& final(input).remaining() == old(input).remaining().skip(size as int)
        },
        old(input).remaining().len() < size ==> {
            &&& r == Err::<usize, DiffError>(DiffError::UnexpectedEof)
            &&& final(input).remaining().len() == 0
            &&& final(buf)@ == old(buf)@
        },
{
    let mut tmp: Vec<u8> = vec![0u8; size as usize];
    let got = input.read(&mut tmp);
    if got < size as usize {
        return Err(DiffError::UnexpectedEof);
    }
    let mut i: usize = 0;
    while i < size as usize
        invariant
            i <= size,
            size <= buf@.len(),
            buf@.len() == old(buf)@.len(),
            tmp@.len() == size,
            tmp@ == old(input).remaining().take(size as int),
            buf@ =~= tmp@.take(i as int) + old(buf)@.skip(i as int),
        decreases size - i,
    {
        let b = tmp[i];
        buf[i] = b;
        proof {
            assert(buf@ =~= tmp@.take(i + 1) + old(buf)@.skip(i + 1));
        }
        i = i + 1;
    }
    proof {
        assert(tmp@.take(size as int) =~= tmp@);
    }
    Ok(size as usize)
}

/// Compares the unread parts of two streams for byte equality, consuming
/// both. The buffer size hint is accepted for interface compatibility and
/// does not affect the result.
pub fn cmp_read(a: &mut ReadSlice, b: &mut ReadSlice, buffer_size_in_kb: usize) -> (r: Result<
    bool,
    DiffError,
>)
    ensures
        r == Ok::<bool, DiffError>(old(a).remaining() == old(b).remaining()),
        final(a)@ == old(a)@,
        final(b)@ == old(b)@,
        final(a).remaining().len() == 0,
        final(b).remaining().len() == 0,
{
    let _ = buffer_size_in_kb;
    let va = a.read_remaining();
    let vb = b.read_remaining();
    if va.len() != vb.len() {
        proof {
            assert(old(a).remaining() != old(b).remaining());
        }
        return Ok(false);
    }
    let mut i: usize = 0;
    while i < va.len()
        invariant
            i <= va@.len(),
            va@.len() == vb@.len(),
            forall|j: int| 0 <= j < i ==> va@[j] == vb@[j],
        decreases va@.len() - i,
    {
        if va[i] != vb[i] {
            proof {
                assert(old(a).remaining()[i as int] != old(b).remaining()[i as int]);
            }
            return Ok(false);
        }
        i = i + 1;
    }
    proof {
        assert(va@ =~= vb@);
    }
    Ok(true)
}

/// `cmp_read` with a 64 KiB buffer hint, for medium chunks.
pub fn cmp_read_medium(a: &mut ReadSlice, b: &mut ReadSlice) -> (r: Result<bool, DiffError>)
    ensures
        r == Ok::<bool, DiffError>(old(a).remaining() == old(b).remaining()),
        final(a)@ == old(a)@,
        final(b)@ == old(b)@,
        final(a).remaining().len() == 0,
        final(b).remaining().len() == 0,
{
    cmp_read(a, b, 64)
}

/// `cmp_read` with a 1 KiB buffer hint, for small chunks.
pub fn cmp_read_small(a: &mut ReadSlice, b: &mut ReadSlice) -> (r: Result<bool, DiffError>)
    ensures
        r == Ok::<bool, DiffError>(old(a).remaining() == old(b).remaining()),
        final(a)@ == old(a)@,
        final(b)@ == old(b)@,
        final(a).remaining().len() == 0,
        final(b).remaining().len() == 0,
{
    cmp_read(a, b, 1)
}

/// Reads `size` bytes from the stream and converts them as a big-endian
/// machine word.
pub fn read_usize_be(input: &mut ReadSlice, size: usize) -> (r: Result<usize, DiffError>)
    requires
        pow256(size as nat) <= usize::MAX + 1,
        size <= u32::MAX,
    ensures
        final(input)@ == old(input)@,
        old(input).remaining().len() >= size ==> {
            &&& r == Ok::<usize, DiffError>(
                be_val(old(input).remaining().take(size as int)) as usize,
            )
            &&& final(input).remaining() == old(input).remaining().skip(size as int)
        },
        old(input).remaining().len() < size ==> {
            &&& r == Err::<usize, DiffError>(DiffError::UnexpectedEof)
            &&& final(input).remaining().len() == 0
        },
{
    let mut buf: Vec<u8> = vec![0u8; size];
    read_n(input, &mut buf, size as u32)?;
    proof {
        assert(buf@ =~= old(input).remaining().take(size as int));
    }
    Ok(vec_to_usize_be(buf.as_slice()))
}

/// Reads `size` bytes from the stream and converts them as a little-endian
/// machine word.
pub fn read_usize_le(input: &mut ReadSlice, size: usize) -> (r: Result<usize, DiffError>)
    requires
        pow256(size as nat) <= usize::MAX + 1,
        size <= u32::MAX,
    ensures
        final(input)@ == old(input)@,
        old(input).remaining().len() >= size ==> {
            &&& r == Ok::<usize, DiffError>(
                le_val(old(input).remaining().take(size as int)) as usize,
            )
            &&& final(input).remaining() == old(input).remaining().skip(size as int)
        },
        old(input).remaining().len() < size ==> {
            &&& r == Err::<usize, DiffError>(DiffError::UnexpectedEof)
            &&& final(input).remaining().len() == 0
        },
{
    let mut buf: Vec<u8> = vec![0u8; size];
    read_n(input, &mut buf, size as u32)?;
    proof {
        assert(buf@ =~= old(input).remaining().take(size as int));
    }
    Ok(vec_to_usize_le(buf.as_slice()))
}

/// Compares two strings character by character.
pub fn str_eq(a: &str, b: &str) -> (r: bool)
    ensures
        r == (a@ == b@),
{
    let la = a.unicode_len();
    let lb = b.unicode_len();
    if la != lb {
        return false;
    }
    let mut i: usize = 0;
    while i < la
        invariant
            i <= la,
            la == a@.len(),
            lb == b@.len(),
            la == lb,
            forall|j: int| 0 <= j < i ==> a@[j] == b@[j],
        decreases la - i,
    {
        if a.get_char(i) != b.get_char(i) {
            return false;
        }
        i = i + 1;
    }
    proof {
        assert(a@ =~= b@);
    }
    true
}

/// The hex digest that the engine assigns to a byte string. The digest is
/// a pure function of the bytes; nothing further is assumed of its value.
pub uninterp spec fn digest_of(bytes: Seq<u8>) -> Seq<char>;

/// True of the sixteen lowercase hexadecimal digits.
pub open spec fn is_hex_char(c: char) -> bool {
    ('0' <= c && c <= '9') || ('a' <= c && c <= 'f')
}

/// Computes the sha256 hash of the input, rendered as lowercase hex.
///
/// Relies on `sha2::Sha256::digest`: the digest is a deterministic
/// function of the input bytes alone, 32 bytes long, and the `{:02x}`
/// rendering of each byte yields exactly two lowercase hex digits.
#[verifier::external_body]
pub fn compute_hash(input: &Vec<u8>) -> (r: String)
    ensures
        r@ == digest_of(input@),
        r@.len() == 64,
        forall|i: int| 0 <= i < r@.len() ==> is_hex_char(#[trigger] r@[i]),
{
    let digest = <sha2::Sha256 as sha2::Digest>::digest(input.as_slice());
    let mut out = String::new();
    for byte in digest.iter() {
        out.push_str(&format!("{:02x}", byte));
    }
    out
}

} // verus!
