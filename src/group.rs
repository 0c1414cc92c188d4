//! The 7-to-8 byte transposition that every group of the codec goes through.
use vstd::prelude::*;

verus! {

/// The high bits of the first `n` bytes of `g`, byte `i`'s high bit at bit `6 - i`.
pub open spec fn high_bits(g: Seq<u8>, n: nat) -> u8
    decreases n,
{
    if n == 0 {
        0u8
    } else {
        let i = (n - 1) as nat;
        high_bits(g, i) | ((g[i as int] & 0x80u8) >> ((i + 1) as u8))
    }
}

/// Packs 7 bytes into 8: the collected high bits first, then the low 7 bits of each byte.
pub open spec fn pack(g: Seq<u8>) -> Seq<u8> {
    Seq::new(8, |j: int| if j == 0 { high_bits(g, 7) } else { g[j - 1] & 0x7fu8 })
}

/// Unpacks 8 bytes into 7: each low part with its high bit restored from the first byte.
pub open spec fn unpack(h: Seq<u8>) -> Seq<u8> {
    Seq::new(7, |i: int| h[i + 1] | ((h[0] << ((i + 1) as u8)) & 0x80u8))
}

/// Packing clears the high bit of every output byte.
pub proof fn lemma_pack_ascii(g: Seq<u8>)
    requires
        g.len() == 7,
    ensures
        forall|j: int| 0 <= j < 8 ==> #[trigger] pack(g)[j] < 0x80,
{
    reveal_with_fuel(high_bits, 8);
    let (a0, a1, a2, a3, a4, a5, a6) = (g[0], g[1], g[2], g[3], g[4], g[5], g[6]);
    assert((((((((0u8 | ((a0 & 0x80u8) >> 1u8)) | ((a1 & 0x80u8) >> 2u8)) | ((a2 & 0x80u8)
        >> 3u8)) | ((a3 & 0x80u8) >> 4u8)) | ((a4 & 0x80u8) >> 5u8)) | ((a5 & 0x80u8) >> 6u8))
        | ((a6 & 0x80u8) >> 7u8)) < 0x80u8) by (bit_vector);
    assert forall|j: int| 1 <= j < 8 implies #[trigger] pack(g)[j] < 0x80 by {
        let b = g[j - 1];
        assert(b & 0x7fu8 < 0x80u8) by (bit_vector);
    }
}

/// Unpacking a packed group gives the group back.
pub proof fn lemma_unpack_pack(g: Seq<u8>)
    requires
        g.len() == 7,
    ensures
        unpack(pack(g)) == g,
{
    reveal_with_fuel(high_bits, 8);
    let (a0, a1, a2, a3, a4, a5, a6) = (g[0], g[1], g[2], g[3], g[4], g[5], g[6]);
    let h = high_bits(g, 7);
    assert(h == (((((((0u8 | ((a0 & 0x80u8) >> 1u8)) | ((a1 & 0x80u8) >> 2u8)) | ((a2 & 0x80u8)
        >> 3u8)) | ((a3 & 0x80u8) >> 4u8)) | ((a4 & 0x80u8) >> 5u8)) | ((a5 & 0x80u8) >> 6u8))
        | ((a6 & 0x80u8) >> 7u8)));
    assert(h == (((((((0u8 | ((a0 & 0x80u8) >> 1u8)) | ((a1 & 0x80u8) >> 2u8)) | ((a2 & 0x80u8)
        >> 3u8)) | ((a3 & 0x80u8) >> 4u8)) | ((a4 & 0x80u8) >> 5u8)) | ((a5 & 0x80u8) >> 6u8))
        | ((a6 & 0x80u8) >> 7u8)) ==> (a0 & 0x7fu8) | ((h << 1u8) & 0x80u8) == a0 && (a1
        & 0x7fu8) | ((h << 2u8) & 0x80u8) == a1 && (a2 & 0x7fu8) | ((h << 3u8) & 0x80u8) == a2
        && (a3 & 0x7fu8) | ((h << 4u8) & 0x80u8) == a3 && (a4 & 0x7fu8) | ((h << 5u8) & 0x80u8)
        == a4 && (a5 & 0x7fu8) | ((h << 6u8) & 0x80u8) == a5 && (a6 & 0x7fu8) | ((h << 7u8)
        & 0x80u8) == a6) by (bit_vector);
    assert(unpack(pack(g)) =~= g);
}

/// Packs one group of 7 bytes into `buffer`: the low 7 bits of each byte go to
/// bytes 1 to 7, and the collected high bits are OR-ed into byte 0.
pub(crate) fn encode78(arr: &[u8; 7], buffer: &mut [u8; 8])
    ensures
        final(buffer)@[0] == old(buffer)@[0] | high_bits(arr@, 7),
        forall|j: int| 0 <= j < 7 ==> final(buffer)@[j + 1] == arr@[j] & 0x7fu8,
        old(buffer)@[0] == 0 ==> final(buffer)@ == pack(arr@),
        old(buffer)@[0] < 0x80 ==> forall|j: int| 0 <= j < 8 ==> #[trigger] final(buffer)@[j] < 0x80,
{
    let ghost o = buffer@[0];
    assert(o | 0u8 == o) by (bit_vector);
    for i in 0..7
        invariant
            buffer@.len() == 8,
            buffer@[0] == o | high_bits(arr@, i as nat),
            forall|j: int| 0 <= j < i ==> buffer@[j + 1] == arr@[j] & 0x7fu8,
    {
        let ghost h = high_bits(arr@, i as nat);
        let x = (arr[i] & 0x80) >> ((i + 1) as u8);
        assert((o | h) | x == o | (h | x)) by (bit_vector);
        buffer[i + 1] = arr[i] & 0x7f;
        buffer[0] = buffer[0] | x;
    }
    proof {
        let h = high_bits(arr@, 7);
        assert(0u8 | h == h) by (bit_vector);
        if o == 0 {
            assert(buffer@ =~= pack(arr@));
        }
        lemma_pack_ascii(arr@);
        assert(pack(arr@)[0] == h);
        assert(o < 0x80u8 && h < 0x80u8 ==> o | h < 0x80u8) by (bit_vector);
        assert forall|j: int| 1 <= j < 8 implies #[trigger] buffer@[j] < 0x80 by {
            assert(pack(arr@)[j] == buffer@[j]);
        }
    }
}

/// Unpacks one group of 8 bytes into the 7 bytes of `buffer`.
pub(crate) fn decode87(arr: &[u8; 8], buffer: &mut [u8; 7])
    ensures
        final(buffer)@ == unpack(arr@),
{
    for i in 0..7
        invariant
            buffer@.len() == 7,
            forall|j: int| 0 <= j < i ==> buffer@[j] == unpack(arr@)[j],
    {
        buffer[i] = arr[i + 1] | ((arr[0] << ((i + 1) as u8)) & 0x80);
    }
    assert(buffer@ =~= unpack(arr@));
}

} // verus!
