//! Fixed-width little-endian fields, as sequences of bytes.
use vstd::prelude::*;

verus! {

/// The number that `width` bytes at `pos` denote, least significant byte first.
pub open spec fn le_value(bytes: Seq<u8>, pos: int, width: nat) -> int
    decreases width,
{
    if width == 0 {
        0
    } else {
        bytes[pos] as int + 256 * le_value(bytes, pos + 1, (width - 1) as nat)
    }
}

/// The `width` low bytes of `v`, least significant byte first.
pub open spec fn le_bytes(v: int, width: nat) -> Seq<u8>
    decreases width,
{
    if width == 0 {
        Seq::empty()
    } else {
        seq![(v % 256) as u8] + le_bytes(v / 256, (width - 1) as nat)
    }
}

/// Two hundred and fifty-six to the power `n`: one more than the largest
/// number that `n` bytes can hold.
pub open spec fn pow256(n: nat) -> int
    decreases n,
{
    if n == 0 {
        1
    } else {
        256 * pow256((n - 1) as nat)
    }
}

/// The unsigned number whose `width` bytes are the two's complement form of `v`.
pub open spec fn to_unsigned(v: int, width: nat) -> int {
    if v < 0 {
        v + pow256(width)
    } else {
        v
    }
}

/// The signed number that the `width`-byte two's complement form `raw` denotes.
pub open spec fn to_signed(raw: int, width: nat) -> int {
    if 2 * raw >= pow256(width) {
        raw - pow256(width)
    } else {
        raw
    }
}

/// The powers of 256 that the fields of this format use.
pub proof fn lemma_pow256_values()
    ensures
        pow256(0) == 1,
        pow256(1) == 0x100,
        pow256(2) == 0x1_0000,
        pow256(3) == 0x100_0000,
        pow256(4) == 0x1_0000_0000,
        pow256(5) == 0x100_0000_0000,
{
    reveal_with_fuel(pow256, 6);
}

/// `le_bytes` yields exactly `width` bytes.
pub proof fn lemma_le_bytes_len(v: int, width: nat)
    ensures
        le_bytes(v, width).len() == width,
    decreases width,
{
    if width > 0 {
        lemma_le_bytes_len(v / 256, (width - 1) as nat);
    }
}

/// A field's value lies in the range of its width.
pub proof fn lemma_le_value_bound(bytes: Seq<u8>, pos: int, width: nat)
    ensures
        0 <= le_value(bytes, pos, width) < pow256(width),
    decreases width,
{
    if width > 0 {
        lemma_le_value_bound(bytes, pos + 1, (width - 1) as nat);
    }
}

/// A field's value depends only on the bytes of the field.
pub proof fn lemma_le_value_same(a: Seq<u8>, pa: int, b: Seq<u8>, pb: int, width: nat)
    requires
        forall|k: int| pa <= k < pa + width ==> #[trigger] a[k] == b[k - pa + pb],
    ensures
        le_value(a, pa, width) == le_value(b, pb, width),
    decreases width,
{
    if width > 0 {
        assert(a[pa] == b[pa - pa + pb]);
        assert forall|k: int| pa + 1 <= k < pa + 1 + (width - 1) implies #[trigger] a[k] == b[k
            - (pa + 1) + (pb + 1)] by {
            assert(a[k] == b[k - pa + pb]);
        }
        lemma_le_value_same(a, pa + 1, b, pb + 1, (width - 1) as nat);
    }
}

/// Reading back the bytes of a number that fits its width gives the number.
pub proof fn lemma_le_round_trip(v: int, width: nat)
    requires
        0 <= v < pow256(width),
    ensures
        le_value(le_bytes(v, width), 0, width) == v,
    decreases width,
{
    if width > 0 {
        let rest = le_bytes(v / 256, (width - 1) as nat);
        let all = le_bytes(v, width);
        lemma_le_bytes_len(v / 256, (width - 1) as nat);
        lemma_le_round_trip(v / 256, (width - 1) as nat);
        assert forall|k: int| 1 <= k < 1 + (width - 1) implies #[trigger] all[k] == rest[k - 1
            + 0] by {}
        lemma_le_value_same(all, 1, rest, 0, (width - 1) as nat);
    }
}

/// Two's complement forms and the numbers they denote correspond one to one.
pub proof fn lemma_signed_round_trip(v: int, width: nat)
    requires
        -pow256(width) <= 2 * v < pow256(width),
    ensures
        0 <= to_unsigned(v, width) < pow256(width),
        to_signed(to_unsigned(v, width), width) == v,
{
}

/// Reads a field of up to five bytes, least significant byte first.
pub fn read_le(bytes: &[u8], pos: usize, width: usize) -> (v: u64)
    requires
        width <= 5,
        pos + width <= bytes@.len(),
    ensures
        v == le_value(bytes@, pos as int, width as nat),
        v < pow256(width as nat),
{
    let n: usize = bytes.len();
    let mut v: u64 = 0;
    let mut k: usize = width;
    while k > 0
        invariant
            k <= width <= 5,
            pos + width <= n,
            n == bytes@.len(),
            v == le_value(bytes@, pos + k, (width - k) as nat),
        decreases k,
    {
        proof {
            lemma_le_value_bound(bytes@, pos + k, (width - k) as nat);
            lemma_pow256_values();
        }
        k = k - 1;
        v = v * 256 + bytes[pos + k] as u64;
    }
    proof {
        lemma_le_value_bound(bytes@, pos as int, width as nat);
    }
    v
}

/// Appends the `width` low bytes of `v`, least significant byte first.
pub fn write_le(out: &mut Vec<u8>, v: u64, width: usize)
    ensures
        final(out)@ == old(out)@ + le_bytes(v as int, width as nat),
{
    let mut rest: u64 = v;
    let mut k: usize = 0;
    while k < width
        invariant
            k <= width,
            old(out)@ + le_bytes(v as int, width as nat) == out@ + le_bytes(
                rest as int,
                (width - k) as nat,
            ),
        decreases width - k,
    {
        let ghost before = out@;
        out.push((rest % 256) as u8);
        assert(out@ + le_bytes(rest as int / 256, (width - k - 1) as nat) =~= before + le_bytes(
            rest as int,
            (width - k) as nat,
        ));
        rest = rest / 256;
        k = k + 1;
    }
    assert(out@ + le_bytes(rest as int, 0) =~= out@);
}

} // verus!
