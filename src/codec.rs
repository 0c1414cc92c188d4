//! Encoding of whole byte sequences: a padding-count byte, the data and zero
//! filler, cut into groups of 7 and packed into groups of 8.
use vstd::prelude::*;
use vstd::arithmetic::div_mod::lemma_fundamental_div_mod_converse;
use vstd::string::StringSliceAdditionalSpecFns;
use vstd::utf8::encode_utf8;

use crate::group::{pack, unpack, lemma_pack_ascii, lemma_unpack_pack, encode78, decode87};

verus! {

/// Why a text could not be decoded; each carries the text's length in bytes.
#[derive(Debug, Clone, Copy, PartialEq, Eq, Structural)]
pub enum DecodeError {
    /// The length is not a multiple of 8.
    InvalidLength(usize),
    /// The first group does not hold a padding count below 7.
    InvalidPadding(usize),
}

/// How many zero bytes follow `len` data bytes and the count byte, so that
/// their total is a multiple of 7.
pub open spec fn padding(len: nat) -> nat {
    ((7 - (len + 1) % 7) % 7) as nat
}

/// The length of the encoding of `len` bytes.
pub open spec fn encoded_len(len: nat) -> nat {
    (len + 1 + padding(len)) / 7 * 8
}

/// The bytes that get packed: the padding count, the data, then the filler.
pub open spec fn source_stream(b: Seq<u8>) -> Seq<u8> {
    seq![padding(b.len()) as u8] + b + Seq::new(padding(b.len()), |i: int| 0u8)
}

/// Each group of 7 bytes of `s` packed into a group of 8.
pub open spec fn pack_all(s: Seq<u8>) -> Seq<u8> {
    Seq::new(s.len() / 7 * 8, |j: int| pack(s.subrange(j / 8 * 7, j / 8 * 7 + 7))[j % 8])
}

/// Each group of 8 bytes of `t` unpacked into a group of 7.
pub open spec fn unpack_all(t: Seq<u8>) -> Seq<u8> {
    Seq::new(t.len() / 8 * 7, |j: int| unpack(t.subrange(j / 7 * 8, j / 7 * 8 + 8))[j % 7])
}

/// The encoding of `b`, as bytes.
pub open spec fn encoded(b: Seq<u8>) -> Seq<u8> {
    pack_all(source_stream(b))
}

/// The padding count that the first group of `t` holds.
pub open spec fn padding_field(t: Seq<u8>) -> u8 {
    unpack(t.subrange(0, 8))[0]
}

/// What decoding the bytes `t` gives.
pub open spec fn decoded(t: Seq<u8>) -> Result<Seq<u8>, DecodeError> {
    if t.len() == 0 {
        Ok(Seq::empty())
    } else if t.len() % 8 != 0 {
        Err(DecodeError::InvalidLength(t.len() as usize))
    } else if padding_field(t) >= 7 {
        Err(DecodeError::InvalidPadding(t.len() as usize))
    } else {
        Ok(unpack_all(t).subrange(1, t.len() / 8 * 7 - padding_field(t)))
    }
}

proof fn lemma_split_index(k: int, j: int, w: int)
    requires
        0 <= k,
        0 <= j < w,
    ensures
        (w * k + j) / w == k,
        (w * k + j) % w == j,
{
    assert(w * k + j == k * w + j) by (nonlinear_arith);
    lemma_fundamental_div_mod_converse(w * k + j, w, k, j);
}

proof fn lemma_stream_len(b: Seq<u8>)
    ensures
        source_stream(b).len() == b.len() + 1 + padding(b.len()),
        source_stream(b).len() % 7 == 0,
        source_stream(b).len() / 7 * 8 == encoded_len(b.len()),
        padding(b.len()) < 7,
{
}

/// Group `q` of `pack_all(s)` is the packing of group `q` of `s`.
proof fn lemma_pack_all_group(s: Seq<u8>, q: int)
    requires
        0 <= q < s.len() / 7,
    ensures
        pack_all(s).subrange(8 * q, 8 * q + 8) == pack(s.subrange(7 * q, 7 * q + 7)),
{
    assert(8 * q + 8 <= s.len() / 7 * 8) by (nonlinear_arith)
        requires q < s.len() / 7;
    assert(7 * q + 7 <= s.len() / 7 * 7) by (nonlinear_arith)
        requires q < s.len() / 7;
    assert(s.len() / 7 * 7 <= s.len()) by (nonlinear_arith);
    assert forall|m: int| 0 <= m < 8 implies #[trigger] pack_all(s).subrange(8 * q, 8 * q + 8)[m]
        == pack(s.subrange(7 * q, 7 * q + 7))[m] by {
        lemma_split_index(q, m, 8);
    }
    assert(pack_all(s).subrange(8 * q, 8 * q + 8) =~= pack(s.subrange(7 * q, 7 * q + 7)));
}

/// Unpacking every group undoes packing every group.
proof fn lemma_unpack_all_pack_all(s: Seq<u8>)
    requires
        s.len() % 7 == 0,
    ensures
        unpack_all(pack_all(s)) == s,
{
    let e = pack_all(s);
    assert(e.len() / 8 * 7 == s.len()) by (nonlinear_arith)
        requires e.len() == s.len() / 7 * 8, s.len() % 7 == 0;
    assert forall|j: int| 0 <= j < s.len() implies #[trigger] unpack_all(e)[j] == s[j] by {
        let q = j / 7;
        let m = j % 7;
        assert(0 <= q < s.len() / 7) by (nonlinear_arith)
            requires 0 <= j < s.len(), q == j / 7, s.len() % 7 == 0;
        assert(j == 7 * q + m);
        lemma_pack_all_group(s, q);
        lemma_unpack_pack(s.subrange(7 * q, 7 * q + 7));
    }
    assert(unpack_all(e) =~= s);
}

/// Decoding the encoding of any byte sequence gives that sequence back.
pub proof fn lemma_round_trip(b: Seq<u8>)
    ensures
        decoded(encoded(b)) == Ok::<Seq<u8>, DecodeError>(b),
{
    let s = source_stream(b);
    let e = encoded(b);
    lemma_stream_len(b);
    lemma_unpack_all_pack_all(s);
    assert(e.len() == s.len() / 7 * 8);
    assert(e.len() % 8 == 0 && e.len() > 0) by (nonlinear_arith)
        requires e.len() == s.len() / 7 * 8, s.len() % 7 == 0, s.len() > 0;
    assert(e.subrange(0, 8) =~= e.subrange(8 * 0int, 8 * 0int + 8));
    lemma_pack_all_group(s, 0);
    lemma_unpack_pack(s.subrange(0, 7));
    assert(padding_field(e) == s[0]);
    assert(unpack_all(e).subrange(1, e.len() / 8 * 7 - padding_field(e)) =~= b);
}

/// Any text whose bytes are the encoding of `b` decodes to `b`: this joins
/// what `encode` ensures of its result to what `decode` ensures of its input.
pub proof fn lemma_round_trip_text(text: &str, b: Seq<u8>)
    requires
        encode_utf8(text@) == encoded(b),
    ensures
        decoded(text.spec_bytes()) == Ok::<Seq<u8>, DecodeError>(b),
{
    lemma_round_trip(b);
}

/// Every encoding is made of whole groups of 8 bytes, each below 0x80, and
/// its length follows from the input's length alone.
pub proof fn lemma_encoded_shape(b: Seq<u8>)
    ensures
        encoded(b).len() == encoded_len(b.len()),
        encoded_len(b.len()) == (b.len() + 7) / 7 * 8,
        encoded(b).len() % 8 == 0,
        encoded(b).len() >= 8,
        forall|j: int| 0 <= j < encoded(b).len() ==> #[trigger] encoded(b)[j] < 0x80,
{
    let s = source_stream(b);
    let e = encoded(b);
    lemma_stream_len(b);
    assert(e.len() % 8 == 0 && e.len() >= 8) by (nonlinear_arith)
        requires e.len() == s.len() / 7 * 8, s.len() % 7 == 0, s.len() > 0;
    assert((b.len() + 1 + padding(b.len())) / 7 == (b.len() + 7) / 7);
    assert forall|j: int| 0 <= j < e.len() implies #[trigger] e[j] < 0x80 by {
        let q = j / 8;
        assert(7 * q + 7 <= s.len()) by (nonlinear_arith)
            requires 0 <= j < s.len() / 7 * 8, q == j / 8, s.len() % 7 == 0;
        lemma_pack_ascii(s.subrange(q * 7, q * 7 + 7));
    }
}

/// A non-empty text whose length is not a multiple of 8 is refused for its length.
pub proof fn lemma_rejects_bad_length(t: Seq<u8>)
    requires
        t.len() % 8 != 0,
        t.len() != 0,
    ensures
        decoded(t) == Err::<Seq<u8>, DecodeError>(DecodeError::InvalidLength(t.len() as usize)),
{
}

/// A text of whole groups whose first group unpacks to a count of 7 or more
/// is refused for its padding.
pub proof fn lemma_rejects_bad_padding(t: Seq<u8>)
    requires
        t.len() % 8 == 0,
        t.len() != 0,
        unpack(t.subrange(0, 8))[0] >= 7,
    ensures
        decoded(t) == Err::<Seq<u8>, DecodeError>(DecodeError::InvalidPadding(t.len() as usize)),
{
}

/// Relies on String::from_utf8: bytes below 0x80 are valid UTF-8, and the
/// string then holds exactly those bytes.
#[verifier::external_body]
fn ascii_string(v: Vec<u8>) -> (r: String)
    requires
        forall|i: int| 0 <= i < v@.len() ==> v@[i] < 0x80,
    ensures
        encode_utf8(r@) == v@,
{
    String::from_utf8(v).unwrap()
}

/// Encodes `arr` as ASCII text, 8 bytes for every 7 of the padded input.
pub fn encode(arr: &[u8]) -> (r: String)
    requires
        encoded_len(arr@.len()) <= usize::MAX,
    ensures
        encode_utf8(r@) == encoded(arr@),
        encode_utf8(r@).len() == encoded_len(arr@.len()),
        encode_utf8(r@).len() % 8 == 0,
        encode_utf8(r@).len() >= 8,
        forall|j: int| 0 <= j < encode_utf8(r@).len() ==> #[trigger] encode_utf8(r@)[j] < 0x80,
{
    proof {
        lemma_stream_len(arr@);
        lemma_encoded_shape(arr@);
    }
    let ghost s = source_stream(arr@);
    let len = arr.len();
    let padding: usize = (7 - ((len + 1) % 7)) % 7;
    let groups: usize = (len + 1 + padding) / 7;
    let mut ans: Vec<u8> = Vec::new();
    let mut k: usize = 0;
    while k < groups
        invariant
            s == source_stream(arr@),
            s.len() == len + 1 + padding,
            s.len() <= groups * 8 <= usize::MAX,
            padding == crate::codec::padding(len as nat),
            groups == s.len() / 7,
            groups * 8 == encoded_len(len as nat),
            encoded(arr@).len() == groups * 8,
            arr@.len() == len,
            k <= groups,
            ans@.len() == 8 * k,
            forall|j: int| 0 <= j < ans@.len() ==> ans@[j] == encoded(arr@)[j],
            forall|j: int| 0 <= j < encoded(arr@).len() ==> #[trigger] encoded(arr@)[j] < 0x80,
        decreases groups - k,
    {
        assert(7 * k + 7 <= s.len()) by (nonlinear_arith)
            requires k < groups, groups == s.len() / 7;
        let mut src = [0u8; 7];
        for i in 0..7
            invariant
                src@.len() == 7,
                7 * k + 7 <= s.len() <= usize::MAX,
                s == source_stream(arr@),
                arr@.len() == len,
                padding == crate::codec::padding(len as nat),
                forall|m: int| 0 <= m < i ==> src@[m] == s[7 * k + m],
        {
            let p: usize = 7 * k + i;
            let v: u8 = if p == 0 {
                padding as u8
            } else if p - 1 < len {
                arr[p - 1]
            } else {
                0
            };
            src[i] = v;
        }
        assert(src@ =~= s.subrange(7 * k as int, 7 * k + 7));
        let mut buf = [0u8; 8];
        encode78(&src, &mut buf);
        proof {
            lemma_pack_all_group(s, k as int);
        }
        for m in 0..8
            invariant
                buf@ == encoded(arr@).subrange(8 * k as int, 8 * k + 8),
                8 * k + 8 <= encoded(arr@).len(),
                ans@.len() == 8 * k + m,
                forall|j: int| 0 <= j < ans@.len() ==> ans@[j] == encoded(arr@)[j],
        {
            ans.push(buf[m]);
        }
        k = k + 1;
    }
    ascii_string(ans)
}

/// Copies the 8 bytes of `bytes` that start at `start`.
fn group_at(bytes: &[u8], start: usize) -> (r: [u8; 8])
    requires
        start + 8 <= bytes@.len(),
    ensures
        r@ == bytes@.subrange(start as int, start + 8),
{
    let n = bytes.len();
    let mut r = [0u8; 8];
    for m in 0..8
        invariant
            r@.len() == 8,
            n == bytes@.len(),
            start + 8 <= bytes@.len(),
            forall|j: int| 0 <= j < m ==> r@[j] == bytes@[start + j],
    {
        r[m] = bytes[start + m];
    }
    assert(r@ =~= bytes@.subrange(start as int, start + 8));
    r
}

/// Decodes text made by `encode` back into the original bytes.
pub fn decode(arr: &str) -> (r: Result<Vec<u8>, DecodeError>)
    ensures
        match r {
            Ok(v) => decoded(arr.spec_bytes()) == Ok::<Seq<u8>, DecodeError>(v@),
            Err(e) => decoded(arr.spec_bytes()) == Err::<Seq<u8>, DecodeError>(e),
        },
{
    let bytes = arr.as_bytes();
    let ghost t = bytes@;
    let n = bytes.len();
    if n == 0 {
        assert(t =~= Seq::<u8>::empty());
        return Ok(Vec::new());
    }
    if n % 8 != 0 {
        return Err(DecodeError::InvalidLength(n));
    }
    let mut first = [0u8; 7];
    let g = group_at(bytes, 0);
    decode87(&g, &mut first);
    let padding = first[0];
    if padding >= 7 {
        return Err(DecodeError::InvalidPadding(n));
    }
    let groups: usize = n / 8;
    let out_len: usize = groups * 7 - 1 - padding as usize;
    let ghost u = unpack_all(t);
    let mut ans: Vec<u8> = Vec::new();
    let mut k: usize = 0;
    while k < groups
        invariant
            t == bytes@,
            t.len() == n,
            u == unpack_all(t),
            groups == n / 8,
            n % 8 == 0,
            u.len() == groups * 7,
            groups * 7 <= n,
            out_len + 1 <= groups * 7,
            k <= groups,
            ans@.len() == if 7 * k <= out_len + 1 { if k == 0 { 0 } else { 7 * k - 1 } } else { out_len as int },
            forall|j: int| 0 <= j < ans@.len() ==> ans@[j] == u[j + 1],
        decreases groups - k,
    {
        assert(8 * k + 8 <= n) by (nonlinear_arith)
            requires k < groups, groups == n / 8, n % 8 == 0;
        let g = group_at(bytes, 8 * k);
        let mut buf = [0u8; 7];
        decode87(&g, &mut buf);
        for m in 0..7
            invariant
                buf@ == unpack(t.subrange(8 * k as int, 8 * k + 8)),
                u == unpack_all(t),
                u.len() == groups * 7,
                groups * 7 <= n,
                k < groups,
                out_len + 1 <= groups * 7,
                ans@.len() == if 7 * k + m <= out_len + 1 { if 7 * k + m == 0 { 0 } else { 7 * k + m - 1 } } else { out_len as int },
                forall|j: int| 0 <= j < ans@.len() ==> ans@[j] == u[j + 1],
        {
            let p: usize = 7 * k + m;
            if p >= 1 && ans.len() < out_len {
                proof {
                    lemma_split_index(k as int, m as int, 7);
                }
                assert(u[p as int] == buf@[m as int]);
                ans.push(buf[m]);
            }
        }
        k = k + 1;
    }
    assert(ans@ =~= u.subrange(1, t.len() / 8 * 7 - padding_field(t)));
    Ok(ans)
}

} // verus!
