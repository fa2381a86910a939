//! The rolling Adler-32 checksum of a window of bytes. The hasher is that
//! of the `adler32` crate, and what its four functions do is taken from
//! that crate without proof; that it then holds the checksum of the window
//! it was slid to is proved here.

use adler32::RollingAdler32;
use vstd::prelude::*;

verus! {

/// `adler32::RollingAdler32`, the hasher, as a type that is carried along
/// and not looked into.
#[verifier::external_type_specification]
#[verifier::external_body]
pub struct ExRollingAdler32(RollingAdler32);

/// The checksum that a rolling hasher holds: what `hash` returns for it.
pub uninterp spec fn held(hasher: RollingAdler32) -> u32;

/// The modulus of Adler-32, the largest prime below 65536.
pub open spec fn base() -> int {
    65521
}

/// The low half of a checksum: one plus the sum of the bytes.
pub open spec fn low(value: u32) -> int {
    value as int % 65536
}

/// The high half of a checksum: the sum of the low halves so far.
pub open spec fn high(value: u32) -> int {
    value as int / 65536
}

/// The checksum with the given halves.
pub open spec fn packed(low: int, high: int) -> u32 {
    (high * 65536 + low) as u32
}

/// The checksum after one more byte has been fed.
pub open spec fn fed(value: u32, byte: u8) -> u32 {
    let a = (low(value) + byte) % base();
    let b = (high(value) + a) % base();
    packed(a, b)
}

/// The checksum after the byte that was fed `size` bytes ago has been taken
/// out again.
pub open spec fn unfed(value: u32, size: int, byte: u8) -> u32 {
    let a = (low(value) + base() - byte) % base();
    let b = (high(value) + base() - 1 + (base() - size) * byte) % base();
    packed(a, b)
}

/// `RollingAdler32::new`: a hasher that has been fed nothing; its checksum is 1.
pub assume_specification[ RollingAdler32::new ]() -> (hasher: RollingAdler32)
    ensures
        held(hasher) == 1,
;

/// `RollingAdler32::hash`: the checksum that the hasher holds, its high half
/// in the upper sixteen bits and its low half in the lower.
pub assume_specification[ RollingAdler32::hash ](hasher: &RollingAdler32) -> (value: u32)
    ensures
        value == held(*hasher),
;

/// `RollingAdler32::update`: adds the byte to the low half, and then the
/// new low half to the high half, each modulo 65521.
pub assume_specification[ RollingAdler32::update ](hasher: &mut RollingAdler32, byte: u8)
    ensures
        held(*final(hasher)) == fed(held(*old(hasher)), byte),
;

/// `RollingAdler32::remove`: takes the byte out of the low half, and one plus
/// `size` times the byte out of the high half, each modulo 65521. Above
/// 65521 the crate's arithmetic on `size` wraps, so such a size is left out.
pub assume_specification[ RollingAdler32::remove ](
    hasher: &mut RollingAdler32,
    size: usize,
    byte: u8,
)
    requires
        size <= 65521,
    ensures
        held(*final(hasher)) == unfed(held(*old(hasher)), size as int, byte),
;

/// One plus the sum of the bytes of a window.
pub open spec fn window_sum(window: Seq<u8>) -> int
    decreases window.len(),
{
    if window.len() == 0 {
        1
    } else {
        window_sum(window.drop_last()) + window.last()
    }
}

/// The sum, over the prefixes of a window, of `window_sum`.
pub open spec fn window_weight(window: Seq<u8>) -> int
    decreases window.len(),
{
    if window.len() == 0 {
        0
    } else {
        window_weight(window.drop_last()) + window_sum(window)
    }
}

/// The Adler-32 checksum of a window of bytes.
pub open spec fn adler_of(window: Seq<u8>) -> u32 {
    packed(window_sum(window) % base(), window_weight(window) % base())
}

/// A checksum whose halves are below the modulus gives them back.
pub proof fn lemma_halves(a: int, b: int)
    requires
        0 <= a < base(),
        0 <= b < base(),
    ensures
        low(packed(a, b)) == a,
        high(packed(a, b)) == b,
{
}

/// Feeding a byte to the checksum of a window gives the checksum of the
/// window with that byte behind it.
pub proof fn lemma_fed(window: Seq<u8>, byte: u8)
    ensures
        fed(adler_of(window), byte) == adler_of(window.push(byte)),
{
    let m = base();
    let sum = window_sum(window);
    let weight = window_weight(window);
    let longer = window.push(byte);
    assert(longer.drop_last() =~= window);
    assert(window_sum(longer) == sum + byte);
    assert(window_weight(longer) == weight + sum + byte);
    lemma_halves(sum % m, weight % m);
    let a = (sum % m + byte) % m;
    assert(a == (sum + byte) % m) by {
        vstd::arithmetic::div_mod::lemma_add_mod_noop(sum, byte as int, m);
        vstd::arithmetic::div_mod::lemma_small_mod(byte as nat, m as nat);
    }
    assert((weight % m + a) % m == (weight + sum + byte) % m) by {
        vstd::arithmetic::div_mod::lemma_add_mod_noop(weight, sum + byte, m);
    }
}

/// Dropping the first byte of a window takes it out of the sum, and takes
/// one and the byte times the window's length out of the weight.
pub proof fn lemma_drop_first(window: Seq<u8>)
    requires
        window.len() >= 1,
    ensures
        window_sum(window.drop_first()) == window_sum(window) - window[0],
        window_weight(window.drop_first()) == window_weight(window) - 1 - window.len()
            * window[0],
    decreases window.len(),
{
    if window.len() == 1 {
        assert(window.drop_last() =~= Seq::<u8>::empty());
        assert(window.drop_first() =~= Seq::<u8>::empty());
        assert(window_sum(window.drop_last()) == 1);
        assert(window_weight(window.drop_last()) == 0);
    } else {
        let front = window.drop_last();
        lemma_drop_first(front);
        assert(window.drop_first().drop_last() =~= front.drop_first());
        assert(window.drop_first().last() == window.last());
        assert(front[0] == window[0]);
        assert(window.len() * window[0] == front.len() * window[0] + window[0])
            by (nonlinear_arith)
            requires
                window.len() == front.len() + 1,
        ;
    }
}

/// Taking the first byte of a window out of its checksum gives the checksum
/// of the rest, whatever the window's length.
pub proof fn lemma_unfed(window: Seq<u8>)
    requires
        window.len() >= 1,
    ensures
        unfed(adler_of(window), window.len() as int % base(), window[0]) == adler_of(
            window.drop_first(),
        ),
{
    let m = base();
    let sum = window_sum(window);
    let weight = window_weight(window);
    let n = window.len() as int;
    let x = window[0] as int;
    let r = n % m;
    let q = n / m;
    lemma_drop_first(window);
    lemma_halves(sum % m, weight % m);
    assert((sum % m + m - x) % m == (sum - x) % m) by {
        vstd::arithmetic::div_mod::lemma_mod_multiples_vanish(1, sum % m - x, m);
        vstd::arithmetic::div_mod::lemma_sub_mod_noop(sum, x, m);
        vstd::arithmetic::div_mod::lemma_small_mod(x as nat, m as nat);
    }
    let extra = m - 1 + (m - r) * x;
    assert(extra == m * (1 + x + q * x) + (-1 - n * x)) by (nonlinear_arith)
        requires
            extra == m - 1 + (m - r) * x,
            n == q * m + r,
    ;
    assert((weight % m + extra) % m == (weight - 1 - n * x) % m) by {
        vstd::arithmetic::div_mod::lemma_add_mod_noop(weight, extra, m);
        vstd::arithmetic::div_mod::lemma_mod_multiples_vanish(1 + x + q * x, -1 - n * x, m);
        vstd::arithmetic::div_mod::lemma_add_mod_noop(weight, -1 - n * x, m);
    }
    assert(n == q * m + r) by {
        vstd::arithmetic::div_mod::lemma_fundamental_div_mod(n, m);
    }
}

} // verus!
