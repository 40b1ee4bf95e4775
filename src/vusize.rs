//! A self-delimiting little-endian length prefix.
//!
//! The number of trailing zero bits of the first byte, plus one, is the length
//! of the header. A header of `n <= size_of::<usize>()` bytes carries `7 * n`
//! bits of payload above its marker bit; the longest form is a marker byte
//! followed by the whole `usize` in little-endian order.
use vstd::prelude::*;
use vstd::std_specs::bits::{axiom_u8_trailing_zeros, u8_trailing_zeros};

verus! {

/// `size_of::<usize>()`.
pub open spec fn usize_bytes() -> nat {
    (usize::BITS / 8) as nat
}

/// Can `value` be written in a header of `n` bytes?
pub open spec fn fits_in(value: usize, n: nat) -> bool {
    ||| 1 <= n <= usize_bytes() && (value as u64) >> ((7 * n) as u64) == 0
    ||| n == usize_bytes() + 1
}

/// The first length from `n` on whose header can carry `value`.
pub open spec fn header_len_from(value: usize, n: nat) -> nat
    decreases usize_bytes() + 1 - n,
{
    if n > usize_bytes() || (value as u64) >> ((7 * n) as u64) == 0 {
        n
    } else {
        header_len_from(value, n + 1)
    }
}

/// The length of the shortest header that carries `value`.
pub open spec fn header_len(value: usize) -> nat {
    header_len_from(value, 1)
}

/// A smaller value fits wherever a larger one does.
pub proof fn lemma_fits_smaller(small: usize, large: usize, n: nat)
    requires
        small <= large,
        fits_in(large, n),
    ensures
        fits_in(small, n),
{
    if 1 <= n <= usize_bytes() {
        let a = small as u64;
        let b = large as u64;
        let k = (7 * n) as u64;
        assert(a <= b && b >> k == 0 ==> a >> k == 0) by (bit_vector);
    }
}

/// Byte `i` of `x`, least significant first.
pub open spec fn byte_of(x: u64, i: nat) -> u8 {
    ((x >> ((8 * i) as u64)) & 0xff) as u8
}

/// The `n` low bytes of `x`, least significant first.
pub open spec fn le_bytes(x: u64, n: nat) -> Seq<u8> {
    Seq::new(n, |i: int| byte_of(x, i as nat))
}

/// The value of up to eight bytes read least significant first.
pub open spec fn le_value(s: Seq<u8>) -> u64
    decreases s.len(),
{
    if s.len() == 0 {
        0
    } else {
        le_value(s.drop_last()) | ((s.last() as u64) << ((8 * (s.len() - 1)) as u64))
    }
}

/// The first byte of the longest form.
pub open spec fn max_header_byte() -> u8 {
    ((1u64 << (usize_bytes() as u64)) & 0xff) as u8
}

/// `value` shifted above a marker bit at position `n - 1`.
pub open spec fn packed(value: usize, n: nat) -> u64 {
    (((value as u64) << 1u64) | 1u64) << ((n - 1) as u64)
}

/// The header of `n` bytes that carries `value`.
pub open spec fn encoding(value: usize, n: nat) -> Seq<u8> {
    if n == usize_bytes() + 1 {
        seq![max_header_byte()] + le_bytes(value as u64, usize_bytes())
    } else {
        le_bytes(packed(value, n), n)
    }
}

/// The length of the header that starts with `first`.
pub open spec fn decoded_len_of(first: u8) -> nat {
    (u8_trailing_zeros(first) + 1) as nat
}

/// The value carried by the header at the start of `s`.
pub open spec fn decoding(s: Seq<u8>) -> usize {
    let n = decoded_len_of(s[0]);
    if n == usize_bytes() + 1 {
        le_value(s.subrange(1, n as int)) as usize
    } else {
        (le_value(s.subrange(0, n as int)) >> (n as u64)) as usize
    }
}

/// The mask of the `bits` low bits.
pub open spec fn low_mask(bits: u64) -> u64 {
    if bits >= 64 {
        0xffff_ffff_ffff_ffffu64
    } else {
        ((1u64 << bits) - 1) as u64
    }
}

proof fn lemma_usize_bytes()
    ensures
        usize_bytes() == 4 || usize_bytes() == 8,
{
}

proof fn lemma_mask_step(x: u64, s: u64)
    requires
        s <= 56,
    ensures
        (x & low_mask(s)) | ((((x >> s) & 0xff) as u8 as u64) << s) == x & low_mask(
            (s + 8) as u64,
        ),
{
    assert((x & low_mask(s)) | ((((x >> s) & 0xff) as u8 as u64) << s) == x & low_mask(
        (s + 8) as u64,
    )) by (bit_vector)
        requires
            s <= 56,
    ;
}

proof fn lemma_le_value_of_bytes(x: u64, n: nat)
    requires
        n <= 8,
    ensures
        le_value(le_bytes(x, n)) == x & low_mask((8 * n) as u64),
    decreases n,
{
    if n == 0 {
        assert(x & low_mask(0) == 0) by (bit_vector);
    } else {
        lemma_le_value_of_bytes(x, (n - 1) as nat);
        assert(le_bytes(x, n).drop_last() =~= le_bytes(x, (n - 1) as nat));
        lemma_mask_step(x, (8 * (n - 1)) as u64);
    }
}

proof fn lemma_trailing_zeros_exact(b: u8, k: u8)
    requires
        k < 8,
        (b >> k) & 1 == 1,
        forall|j: u8| j < k ==> #[trigger] ((b >> j) & 1) == 0,
    ensures
        u8_trailing_zeros(b) == k,
{
    axiom_u8_trailing_zeros(b);
    let t = u8_trailing_zeros(b);
    if t < k {
        assert((b >> (t as u8)) & 1 == 0);
    } else if t > k {
        assert(0 <= k < u8_trailing_zeros(b));
        assert((b >> k) & 1u8 == 0u8);
    }
}

proof fn lemma_packed(v: u64, n: u64)
    requires
        1 <= n <= 8,
        v >> ((7 * n) as u64) == 0,
    ensures
        (((v << 1) | 1) << ((n - 1) as u64)) & low_mask((8 * n) as u64) == ((v << 1) | 1) << (n - 1),
        (((v << 1) | 1) << ((n - 1) as u64)) >> n == v,
        (((((v << 1) | 1) << ((n - 1) as u64)) & 0xff) as u8 >> ((n - 1) as u8)) & 1 == 1,
        forall|j: u8|
            j < n - 1 ==> #[trigger] ((((((v << 1) | 1) << ((n - 1) as u64)) & 0xff) as u8 >> j) & 1)
                == 0,
{
    assert((((v << 1) | 1) << ((n - 1) as u64)) & low_mask((8 * n) as u64) == ((v << 1) | 1) << ((n - 1) as u64))
        by (bit_vector)
        requires
            1 <= n <= 8,
            v >> ((7 * n) as u64) == 0,
    ;
    assert((((v << 1) | 1) << ((n - 1) as u64)) >> n == v) by (bit_vector)
        requires
            1 <= n <= 8,
            v >> ((7 * n) as u64) == 0,
    ;
    assert((((((v << 1) | 1) << ((n - 1) as u64)) & 0xff) as u8 >> ((n - 1) as u8)) & 1 == 1)
        by (bit_vector)
        requires
            1 <= n <= 8,
    ;
    assert forall|j: u8| j < n - 1 implies #[trigger] ((((((v << 1) | 1) << ((n - 1) as u64)) & 0xff) as u8
        >> j) & 1) == 0 by {
        assert(j < n - 1 && 1 <= n <= 8 ==> ((((((v << 1) | 1) << ((n - 1) as u64)) & 0xff) as u8 >> j)
            & 1) == 0) by (bit_vector);
    }
}

/// Every value that fits in `n` bytes reads back from its header of `n`
/// bytes, and the header announces its own length.
pub proof fn lemma_round_trip(value: usize, n: nat)
    requires
        fits_in(value, n),
    ensures
        encoding(value, n).len() == n,
        decoded_len_of(encoding(value, n)[0]) == n,
        decoding(encoding(value, n)) == value,
{
    lemma_usize_bytes();
    let e = encoding(value, n);
    let b = usize_bytes();
    if n == b + 1 {
        let h = max_header_byte();
        axiom_u8_trailing_zeros(h);
        if b == 8 {
            assert(((1u64 << 8u64) & 0xff) as u8 == 0) by (bit_vector);
        } else {
            assert(((1u64 << 4u64) & 0xff) as u8 == 16) by (bit_vector);
            assert forall|j: u8| j < 4 implies #[trigger] ((16u8 >> j) & 1) == 0 by {
                assert(j < 4 ==> ((16u8 >> j) & 1) == 0) by (bit_vector);
            }
            assert((16u8 >> 4u8) & 1 == 1) by (bit_vector);
            lemma_trailing_zeros_exact(16, 4);
        }
        assert(e.subrange(1, n as int) =~= le_bytes(value as u64, b));
        lemma_le_value_of_bytes(value as u64, b);
        let v = value as u64;
        if b == 8 {
            assert(v & low_mask(64) == v) by (bit_vector);
        } else {
            assert(v <= 0xffff_ffff);
            assert(v <= 0xffff_ffff ==> v & low_mask(32) == v) by (bit_vector);
        }
    } else {
        let v = value as u64;
        let k = n as u64;
        lemma_packed(v, k);
        let p = packed(value, n);
        assert(e[0] == byte_of(p, 0));
        assert(p >> 0u64 == p) by (bit_vector);
        lemma_trailing_zeros_exact(e[0], (k - 1) as u8);
        assert(e.subrange(0, n as int) =~= le_bytes(p, n));
        lemma_le_value_of_bytes(p, n);
    }
}

pub(crate) fn usize_size() -> (r: usize)
    ensures
        r == usize_bytes(),
        r == 4 || r == 8,
{
    (usize::BITS / 8) as usize
}

fn max_size_header() -> (r: u8)
    ensures
        r == max_header_byte(),
        decoded_len_of(r) == usize_bytes() + 1,
{
    let size = usize_size();
    let r = ((1u64 << (size as u64)) & 0xff) as u8;
    proof {
        axiom_u8_trailing_zeros(r);
        if size == 8 {
            assert(((1u64 << 8u64) & 0xff) as u8 == 0) by (bit_vector);
        } else {
            assert(((1u64 << 4u64) & 0xff) as u8 == 16) by (bit_vector);
            assert forall|j: u8| j < 4 implies #[trigger] ((16u8 >> j) & 1) == 0 by {
                assert(j < 4 ==> ((16u8 >> j) & 1) == 0) by (bit_vector);
            }
            assert((16u8 >> 4u8) & 1 == 1) by (bit_vector);
            lemma_trailing_zeros_exact(16, 4);
        }
    }
    r
}

/// The length of the shortest header that carries `value`.
pub fn encoded_len(value: usize) -> (r: usize)
    ensures
        r == header_len(value),
        fits_in(value, r as nat),
        forall|m: nat| 1 <= m < r ==> !fits_in(value, m),
{
    let size = usize_size();
    let v = value as u64;
    let mut n: usize = 1;
    while n <= size && v >> ((7 * n) as u64) != 0
        invariant
            size == usize_bytes(),
            size == 4 || size == 8,
            v == value as u64,
            1 <= n <= size + 1,
            forall|m: nat| 1 <= m < n ==> !fits_in(value, m),
            header_len(value) == header_len_from(value, n as nat),
        decreases size + 1 - n,
    {
        n = n + 1;
    }
    n
}

/// The length of the header that starts with `byte`.
pub fn decoded_len(byte: u8) -> (r: usize)
    ensures
        r == decoded_len_of(byte),
        1 <= r <= 9,
{
    proof {
        axiom_u8_trailing_zeros(byte);
    }
    byte.trailing_zeros() as usize + 1
}

/// Writes the header of `length` bytes that carries `value` to the start of
/// `slice`.
pub fn encode_usize_to_slice(value: usize, length: usize, slice: &mut [u8])
    requires
        fits_in(value, length as nat),
        length <= old(slice)@.len(),
    ensures
        final(slice)@.len() == old(slice)@.len(),
        final(slice)@.subrange(0, length as int) == encoding(value, length as nat),
        final(slice)@.subrange(length as int, final(slice)@.len() as int) == old(slice)@.subrange(
            length as int,
            old(slice)@.len() as int,
        ),
{
    let size = usize_size();
    if length >= size + 1 {
        slice[0] = max_size_header();
        let v = value as u64;
        let mut i: usize = 0;
        while i < size
            invariant
                size == usize_bytes(),
                size == 4 || size == 8,
                length == size + 1,
                v == value as u64,
                i <= size,
                slice@.len() == old(slice)@.len(),
                length <= old(slice)@.len(),
                slice@[0] == max_header_byte(),
                forall|j: int| 1 <= j <= i ==> #[trigger] slice@[j] == byte_of(v, (j - 1) as nat),
                forall|j: int|
                    length <= j < slice@.len() ==> slice@[j] == old(slice)@[j],
            decreases size - i,
        {
            slice[1 + i] = (#[verifier::truncate] (((v >> ((8 * i) as u64)) & 0xff) as u8));
            i = i + 1;
        }
        assert(slice@.subrange(0, length as int) =~= encoding(value, length as nat));
    } else {
        let encoded: u64 = (((value as u64) << 1u64) | 1u64) << ((length - 1) as u64);
        let mut i: usize = 0;
        while i < length
            invariant
                size == usize_bytes(),
                1 <= length <= size,
                encoded == packed(value, length as nat),
                i <= length,
                slice@.len() == old(slice)@.len(),
                length <= old(slice)@.len(),
                forall|j: int| 0 <= j < i ==> slice@[j] == byte_of(encoded, j as nat),
                forall|j: int|
                    length <= j < slice@.len() ==> slice@[j] == old(slice)@[j],
            decreases length - i,
        {
            slice[i] = (#[verifier::truncate] (((encoded >> ((8 * i) as u64)) & 0xff) as u8));
            i = i + 1;
        }
        assert(slice@.subrange(0, length as int) =~= encoding(value, length as nat));
    }
    assert(slice@.subrange(length as int, slice@.len() as int) =~= old(slice)@.subrange(
        length as int,
        old(slice)@.len() as int,
    ));
}

/// Reads the value carried by the header at the start of `input`.
pub fn decode_usize(input: &[u8]) -> (r: usize)
    requires
        input@.len() >= 1,
        decoded_len_of(input@[0]) <= input@.len(),
        decoded_len_of(input@[0]) <= usize_bytes() + 1,
    ensures
        r == decoding(input@),
{
    let length = decoded_len(input[0]);
    let size = usize_size();
    let start: usize = if length >= size + 1 { 1 } else { 0 };
    let mut encoded: u64 = 0;
    let mut i: usize = start;
    while i < length
        invariant
            size == usize_bytes(),
            size == 4 || size == 8,
            length == decoded_len_of(input@[0]),
            1 <= length <= size + 1,
            length <= input@.len(),
            start == (if length == size + 1 { 1usize } else { 0usize }),
            start <= i <= length,
            encoded == le_value(input@.subrange(start as int, i as int)),
        decreases length - i,
    {
        proof {
            let s = input@.subrange(start as int, i + 1);
            assert(s.drop_last() =~= input@.subrange(start as int, i as int));
        }
        encoded = encoded | ((input[i] as u64) << ((8 * (i - start)) as u64));
        i = i + 1;
    }
    if length >= size + 1 {
        encoded as usize
    } else {
        (encoded >> (length as u64)) as usize
    }
}

} // verus!
