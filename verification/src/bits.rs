//! A model of the compressed stream as a sequence of bits.
//!
//! Bits go into each byte from the lowest bit to the highest, and a value of
//! `n` bits goes in from its lowest bit.

use vstd::prelude::*;

verus! {

/// `2` to the power `n`, for the small exponents that code lengths use.
pub open spec fn pow2_small(n: u32) -> u32 {
    if n == 0 { 1 }
    else if n == 1 { 2 }
    else if n == 2 { 4 }
    else if n == 3 { 8 }
    else if n == 4 { 16 }
    else if n == 5 { 32 }
    else if n == 6 { 64 }
    else if n == 7 { 128 }
    else if n == 8 { 256 }
    else if n == 9 { 512 }
    else if n == 10 { 1024 }
    else if n == 11 { 2048 }
    else if n == 12 { 4096 }
    else if n == 13 { 8192 }
    else if n == 14 { 16384 }
    else if n == 15 { 32768 }
    else if n == 16 { 65536 }
    else { 0 }
}

/// Bit `i` of `v`.
pub open spec fn bit_at(v: u32, i: int) -> bool {
    0 <= i < 32 && ((v >> (i as u32)) & 1u32) == 1u32
}

/// The low `n` bits of `v`, lowest first.
pub open spec fn low_bits(v: u32, n: nat) -> Seq<bool> {
    Seq::new(n, |i: int| bit_at(v, i))
}

/// The eight bits of a byte, lowest first.
pub open spec fn byte_bits(b: u8) -> Seq<bool> {
    low_bits(b as u32, 8)
}

/// The bits of a sequence of bytes, first byte first.
pub open spec fn bytes_bits(s: Seq<u8>) -> Seq<bool>
    decreases s.len(),
{
    if s.len() == 0 {
        Seq::empty()
    } else {
        bytes_bits(s.drop_last()) + byte_bits(s.last())
    }
}

/// `bits` followed by as many zero bits as it takes to fill the last byte.
pub open spec fn pad_bits(bits: Seq<bool>) -> Seq<bool> {
    bits + Seq::new(((8 - bits.len() % 8) % 8) as nat, |i: int| false)
}

/// Every set bit of `c` from bit `ob` up is also set in `v`, `ob` places lower.
pub open spec fn covers(c: u32, ob: u32, v: u32) -> bool {
    (c >> ob) & !v == 0
}

pub proof fn lemma_pow2_small_shift(n: u32)
    by (bit_vector)
    requires
        n <= 16,
    ensures
        pow2_small(n) == (1u32 << n),
{
}

pub proof fn lemma_bytes_bits_len(s: Seq<u8>)
    ensures
        bytes_bits(s).len() == 8 * s.len(),
    decreases s.len(),
{
    if s.len() > 0 {
        lemma_bytes_bits_len(s.drop_last());
    }
}

/// The bits of two byte sequences one after the other.
pub proof fn lemma_bytes_bits_append(a: Seq<u8>, b: Seq<u8>)
    ensures
        bytes_bits(a + b) == bytes_bits(a) + bytes_bits(b),
    decreases b.len(),
{
    if b.len() == 0 {
        assert(a + b =~= a);
        assert(bytes_bits(a) + bytes_bits(b) =~= bytes_bits(a));
    } else {
        lemma_bytes_bits_append(a, b.drop_last());
        assert((a + b).drop_last() =~= a + b.drop_last());
        assert((a + b).last() == b.last());
        assert(bytes_bits(a + b) =~= bytes_bits(a) + bytes_bits(b));
    }
}

pub proof fn lemma_bytes_bits_push(s: Seq<u8>, b: u8)
    ensures
        bytes_bits(s.push(b)) == bytes_bits(s) + byte_bits(b),
{
    assert(s.push(b).drop_last() =~= s);
}

proof fn lemma_or_bit(c: u32, v: u32, ob: u32, n: u32, i: u32)
    by (bit_vector)
    requires
        c < 256,
        ob < 8,
        1 <= n <= 8,
        (c >> ob) & !v == 0,
        i < 8,
    ensures
        i < ob ==> (((c | ((v << ob) & 0xff)) >> i) & 1) == ((c >> i) & 1),
        ob <= i ==> (((c | ((v << ob) & 0xff)) >> i) & 1) == ((v >> ((i - ob) as u32)) & 1),
        ob + n < 8 ==> ((c | ((v << ob) & 0xff)) >> ((ob + n) as u32)) & !(v >> n) == 0,
        (c | ((v << ob) & 0xff)) < 256,
{
}

proof fn lemma_or_cast(c: u8, w: u32)
    by (bit_vector)
    requires
        w <= 0xff,
    ensures
        ((c | (w as u8)) as u32) == (c as u32) | w,
{
}

/// Or-ing `v`, shifted up by `ob`, into a byte whose first `ob` bits are in
/// use appends the low bits of `v` that fit into the byte.
pub proof fn lemma_or_step(c: u8, c2: u8, v: u32, ob: u32, n: u32)
    requires
        ob < 8,
        1 <= n <= 8,
        covers(c as u32, ob, v),
        c2 == c | (((v << ob) & 0xff) as u8),
    ensures
        ob + n <= 8 ==> byte_bits(c2).take((ob + n) as int) == byte_bits(c).take(ob as int)
            + low_bits(v, n as nat),
        ob + n > 8 ==> byte_bits(c2) == byte_bits(c).take(ob as int) + low_bits(
            v,
            (8 - ob) as nat,
        ),
        ob + n < 8 ==> covers(c2 as u32, (ob + n) as u32, v >> n),
{
    let w: u32 = (v << ob) & 0xff;
    assert((v << ob) & 0xff <= 0xff) by (bit_vector);
    lemma_or_cast(c, w);
    let cc = c as u32;
    assert(c2 as u32 == cc | w);
    assert forall|i: int| 0 <= i < 8 implies #[trigger] bit_at(c2 as u32, i) == (if i < ob {
        bit_at(cc, i)
    } else {
        bit_at(v, i - ob)
    }) by {
        let iu = i as u32;
        lemma_or_bit(cc, v, ob, n, iu);
        if ob <= iu {
            assert((i - ob) as u32 == iu - ob);
        }
    }
    lemma_or_bit(cc, v, ob, n, 0);
    if ob + n <= 8 {
        assert(byte_bits(c2).take((ob + n) as int) =~= byte_bits(c).take(ob as int) + low_bits(
            v,
            n as nat,
        ));
    } else {
        assert(byte_bits(c2) =~= byte_bits(c).take(ob as int) + low_bits(v, (8 - ob) as nat));
    }
}

proof fn lemma_carry_bit(v: u32, ob: u32, n: u32, i: u32)
    by (bit_vector)
    requires
        ob < 8,
        n <= 8,
        ob + n > 8,
        i < 8,
    ensures
        ((((v >> ((8 - ob) as u32)) & 0xff) >> i) & 1) == ((v >> ((i + 8 - ob) as u32)) & 1),
        (((v >> ((8 - ob) as u32)) & 0xff) >> ((ob + n - 8) as u32)) & !(v >> n) == 0,
        ((v >> ((8 - ob) as u32)) & 0xff) < 256,
{
}

/// The byte that takes the bits of `v` that did not fit into the previous byte.
pub proof fn lemma_carry_step(v: u32, d: u8, ob: u32, n: u32)
    requires
        ob < 8,
        n <= 8,
        ob + n > 8,
        d == ((v >> (8 - ob)) & 0xff) as u8,
    ensures
        low_bits(v, (8 - ob) as nat) + byte_bits(d).take((ob + n - 8) as int) == low_bits(
            v,
            n as nat,
        ),
        covers(d as u32, (ob + n - 8) as u32, v >> n),
{
    lemma_carry_bit(v, ob, n, 0);
    assert(d as u32 == (v >> (8 - ob)) & 0xff);
    assert forall|i: int| 0 <= i < 8 implies #[trigger] bit_at(d as u32, i) == bit_at(
        v,
        i + 8 - ob,
    ) by {
        let iu = i as u32;
        lemma_carry_bit(v, ob, n, iu);
        assert((i + 8 - ob) as u32 == iu + 8 - ob);
    }
    assert(low_bits(v, (8 - ob) as nat) + byte_bits(d).take((ob + n - 8) as int) =~= low_bits(
        v,
        n as nat,
    ));
}

proof fn lemma_shift8_bit(v: u32, n: u32, i: u32)
    by (bit_vector)
    requires
        8 < n <= 32,
        i < 24,
    ensures
        (((v >> 8) >> i) & 1) == ((v >> ((i + 8) as u32)) & 1),
        (v >> 8) >> ((n - 8) as u32) == v >> n,
{
}

/// Writing the low eight bits of `v` and then `n - 8` bits of `v >> 8` writes
/// the low `n` bits of `v`.
pub proof fn lemma_split_bits(v: u32, n: u32)
    requires
        8 < n <= 32,
    ensures
        low_bits(v, 8) + low_bits(v >> 8, (n - 8) as nat) == low_bits(v, n as nat),
        (v >> 8) >> (n - 8) == v >> n,
{
    lemma_shift8_bit(v, n, 0);
    assert forall|i: int| 0 <= i < n - 8 implies #[trigger] bit_at(v >> 8, i) == bit_at(
        v,
        i + 8,
    ) by {
        let iu = i as u32;
        lemma_shift8_bit(v, n, iu);
        assert((i + 8) as u32 == iu + 8);
    }
    assert(low_bits(v, 8) + low_bits(v >> 8, (n - 8) as nat) =~= low_bits(v, n as nat));
}

/// A value below `2^n` has no bits from bit `n` up.
pub proof fn lemma_fits(v: u32, n: u32)
    requires
        n <= 16,
        v < pow2_small(n),
    ensures
        v >> n == 0,
{
    lemma_pow2_small_shift(n);
    assert(v < (1u32 << n) ==> v >> n == 0) by (bit_vector)
        requires
            n <= 16,
    ;
}

/// Nothing is left over above bit `ob` when the rest of the value is zero.
pub proof fn lemma_covers_zero(c: u32, ob: u32)
    requires
        covers(c, ob, 0),
        c < 256,
        ob < 8,
    ensures
        c >> ob == 0,
        forall|i: int| ob <= i < 8 ==> !#[trigger] bit_at(c, i),
{
    assert((c >> ob) & !0u32 == 0 ==> c >> ob == 0) by (bit_vector);
    assert forall|i: int| ob <= i < 8 implies !#[trigger] bit_at(c, i) by {
        let iu = i as u32;
        assert(c >> ob == 0 && ob <= iu && iu < 8 ==> (c >> iu) & 1 == 0) by (bit_vector);
    }
}

/// Any byte whose bits from `ob` up are clear is covered by every value.
pub proof fn lemma_covers_any(c: u32, ob: u32, v: u32)
    requires
        c >> ob == 0,
    ensures
        covers(c, ob, v),
{
    assert(c >> ob == 0 ==> (c >> ob) & !v == 0) by (bit_vector);
}

/// Appending `n` bits when they all fit into the partial byte.
pub proof fn lemma_stream_within(s0: Seq<u8>, c: u8, c2: u8, v: u32, ob: u32, n: u32)
    requires
        ob < 8,
        1 <= n <= 8,
        ob + n < 8,
        covers(c as u32, ob, v),
        c2 == c | (((v << ob) & 0xff) as u8),
    ensures
        bytes_bits(s0) + byte_bits(c2).take((ob + n) as int) == (bytes_bits(s0) + byte_bits(
            c,
        ).take(ob as int)) + low_bits(v, n as nat),
        covers(c2 as u32, (ob + n) as u32, v >> n),
{
    lemma_or_step(c, c2, v, ob, n);
    assert(bytes_bits(s0) + byte_bits(c2).take((ob + n) as int) =~= (bytes_bits(s0) + byte_bits(
        c,
    ).take(ob as int)) + low_bits(v, n as nat));
}

/// Appending `n` bits that exactly fill the partial byte.
pub proof fn lemma_stream_fill(s0: Seq<u8>, c: u8, c2: u8, v: u32, ob: u32, n: u32)
    requires
        ob < 8,
        1 <= n <= 8,
        ob + n == 8,
        covers(c as u32, ob, v),
        c2 == c | (((v << ob) & 0xff) as u8),
    ensures
        bytes_bits(s0.push(c2)) + byte_bits(0u8).take(0) == (bytes_bits(s0) + byte_bits(c).take(
            ob as int,
        )) + low_bits(v, n as nat),
{
    lemma_or_step(c, c2, v, ob, n);
    lemma_bytes_bits_push(s0, c2);
    assert(byte_bits(c2).take(8) =~= byte_bits(c2));
    assert(bytes_bits(s0.push(c2)) + byte_bits(0u8).take(0) =~= (bytes_bits(s0) + byte_bits(
        c,
    ).take(ob as int)) + low_bits(v, n as nat));
}

/// Appending `n` bits that overflow the partial byte into the next one.
pub proof fn lemma_stream_carry(s0: Seq<u8>, c: u8, c2: u8, d: u8, v: u32, ob: u32, n: u32)
    requires
        ob < 8,
        1 <= n <= 8,
        ob + n > 8,
        covers(c as u32, ob, v),
        c2 == c | (((v << ob) & 0xff) as u8),
        d == ((v >> (8 - ob)) & 0xff) as u8,
    ensures
        bytes_bits(s0.push(c2)) + byte_bits(d).take((ob + n - 8) as int) == (bytes_bits(s0)
            + byte_bits(c).take(ob as int)) + low_bits(v, n as nat),
        covers(d as u32, (ob + n - 8) as u32, v >> n),
{
    lemma_or_step(c, c2, v, ob, n);
    lemma_carry_step(v, d, ob, n);
    lemma_bytes_bits_push(s0, c2);
    assert(bytes_bits(s0.push(c2)) + byte_bits(d).take((ob + n - 8) as int) =~= (bytes_bits(s0)
        + byte_bits(c).take(ob as int)) + low_bits(v, n as nat));
}

/// The zero byte with no bits in use is covered by every value.
pub proof fn lemma_covers_zero_byte(v: u32)
    ensures
        covers(0u32, 0u32, v),
{
    assert((0u32 >> 0u32) & !v == 0) by (bit_vector);
}

/// Shifting right by `s` divides by `2^s`, and masking the low `s` bits
/// takes the remainder (for the shifts that distances use).
pub proof fn lemma_distance_parts(x: u32, s: u32)
    requires
        s == 2 || 4 <= s <= 6,
    ensures
        (x >> s) as int == x as int / pow2_small(s) as int,
        (x & ((pow2_small(s) - 1) as u32)) as int == x as int % pow2_small(s) as int,
        (x & ((pow2_small(s) - 1) as u32)) < pow2_small(s),
        (x & ((pow2_small(s) - 1) as u32)) >> s == 0,
{
    if s == 2 {
        assert(x >> 2 == x / 4 && x & 3 == x % 4 && x & 3 < 4 && (x & 3) >> 2 == 0) by (bit_vector);
    } else if s == 4 {
        assert(x >> 4 == x / 16 && x & 15 == x % 16 && x & 15 < 16 && (x & 15) >> 4 == 0)
            by (bit_vector);
    } else if s == 5 {
        assert(x >> 5 == x / 32 && x & 31 == x % 32 && x & 31 < 32 && (x & 31) >> 5 == 0)
            by (bit_vector);
    } else {
        assert(x >> 6 == x / 64 && x & 63 == x % 64 && x & 63 < 64 && (x & 63) >> 6 == 0)
            by (bit_vector);
    }
}

} // verus!
