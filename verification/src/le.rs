//! Little-endian byte strings of fixed width, as arithmetic on natural numbers.

use vstd::prelude::*;

verus! {

/// 256 to the power `width`: how many values `width` bytes can tell apart.
pub open spec fn pow256(width: nat) -> nat
    decreases width,
{
    if width == 0 {
        1
    } else {
        256 * pow256((width - 1) as nat)
    }
}

/// The `width` lowest base-256 digits of `n`, lowest first.
pub open spec fn le_bytes(n: nat, width: nat) -> Seq<u8>
    decreases width,
{
    if width == 0 {
        Seq::empty()
    } else {
        seq![(n % 256) as u8] + le_bytes(n / 256, (width - 1) as nat)
    }
}

/// The number whose base-256 digits are `bytes`, lowest first.
pub open spec fn le_nat(bytes: Seq<u8>) -> nat
    decreases bytes.len(),
{
    if bytes.len() == 0 {
        0
    } else {
        bytes[0] as nat + 256 * le_nat(bytes.drop_first())
    }
}

/// The two's-complement code of `x` in `width` bytes.
pub open spec fn twos(x: int, width: nat) -> nat {
    if x >= 0 {
        x as nat
    } else {
        (x + pow256(width)) as nat
    }
}

/// The signed number whose two's-complement code in `width` bytes is `n`.
pub open spec fn untwos(n: nat, width: nat) -> int {
    if 2 * n < pow256(width) {
        n as int
    } else {
        n - pow256(width)
    }
}

pub proof fn lemma_pow256_values()
    ensures
        pow256(0) == 1,
        pow256(1) == 0x100,
        pow256(2) == 0x1_0000,
        pow256(4) == 0x1_0000_0000,
        pow256(8) == 0x1_0000_0000_0000_0000,
{
    reveal_with_fuel(pow256, 9);
}

pub proof fn lemma_le_bytes_len(n: nat, width: nat)
    ensures
        le_bytes(n, width).len() == width,
    decreases width,
{
    if width > 0 {
        lemma_le_bytes_len(n / 256, (width - 1) as nat);
    }
}

pub proof fn lemma_le_nat_bound(bytes: Seq<u8>)
    ensures
        le_nat(bytes) < pow256(bytes.len()),
    decreases bytes.len(),
{
    if bytes.len() > 0 {
        lemma_le_nat_bound(bytes.drop_first());
    }
}

/// Decoding undoes encoding for every number that fits the width.
pub proof fn lemma_le_nat_of_bytes(n: nat, width: nat)
    requires
        n < pow256(width),
    ensures
        le_nat(le_bytes(n, width)) == n,
    decreases width,
{
    if width > 0 {
        let rest = le_bytes(n / 256, (width - 1) as nat);
        let all = le_bytes(n, width);
        lemma_le_bytes_len(n / 256, (width - 1) as nat);
        assert(all.drop_first() =~= rest);
        lemma_le_nat_of_bytes(n / 256, (width - 1) as nat);
    }
}

/// Encoding undoes decoding.
pub proof fn lemma_le_bytes_of_nat(bytes: Seq<u8>)
    ensures
        le_bytes(le_nat(bytes), bytes.len()) == bytes,
    decreases bytes.len(),
{
    if bytes.len() > 0 {
        let rest = bytes.drop_first();
        lemma_le_bytes_of_nat(rest);
        let n = le_nat(bytes);
        assert(n % 256 == bytes[0] as nat && n / 256 == le_nat(rest)) by {
            let b: int = bytes[0] as int;
            let r: int = le_nat(rest) as int;
            assert((b + 256 * r) % 256 == b && (b + 256 * r) / 256 == r) by (nonlinear_arith)
                requires
                    0 <= b < 256,
                    0 <= r,
            ;
        }
        assert(le_bytes(n, bytes.len()) =~= bytes);
    } else {
        assert(le_bytes(le_nat(bytes), bytes.len()) =~= bytes);
    }
}

/// The code of a signed number that fits the width is below `pow256(width)`, and
/// decodes to the number.
pub proof fn lemma_untwos_of_twos(x: int, width: nat)
    requires
        -(pow256(width) as int) <= 2 * x < pow256(width),
    ensures
        twos(x, width) < pow256(width),
        untwos(twos(x, width), width) == x,
{
}

/// A code below `pow256(width)` decodes to a signed number that fits the width and
/// whose code it is.
pub proof fn lemma_twos_of_untwos(n: nat, width: nat)
    requires
        n < pow256(width),
    ensures
        -(pow256(width) as int) <= 2 * untwos(n, width) < pow256(width),
        twos(untwos(n, width), width) == n,
{
}

} // verus!
