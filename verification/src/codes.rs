//! What the literal/length table codes: the bits written for each literal
//! byte and for each repetition length, stated from the format's tables.

use vstd::prelude::*;
use crate::bits::{bit_at, byte_bits, low_bits, pow2_small, lemma_pow2_small_shift};
use crate::common::{CompressionMode, DictionarySize, LITERAL_TABLE_SIZE};
use crate::state::{class_codes, class_bits, length_bits_upto, length_codes_upto};
use crate::tables::{
    lemma_ascii_table_facts, lemma_dist_table_facts, lemma_length_table_facts, CH_BITS_ASC,
    CH_CODE_ASC, DIST_BITS, DIST_CODE, EX_LEN_BITS, LEN_BITS, LEN_CODE, LEN_START,
};
use crate::tokens::{code_tables, literal_entry_bits};

verus! {

/// Doubling a value moves each of its bits one place up and leaves bit 0 clear.
proof fn lemma_double_bit(c: u32, i: u32)
    by (bit_vector)
    requires
        c < 0x8000,
        i < 16,
    ensures
        (((c * 2) as u32) & 1u32) == 0u32,
        ((((c * 2) as u32) >> 0u32) & 1u32) == 0u32,
        ((((c * 2) as u32) >> (i + 1)) & 1u32) == ((c >> i) & 1u32),
{
}

/// The bits of `2 * c` in `n + 1` places: a 0, then the low `n` bits of `c`.
proof fn lemma_flagged_literal(c: u32, n: nat)
    requires
        c < 0x4000,
        n <= 15,
    ensures
        low_bits((c * 2) as u32, n + 1) == seq![false] + low_bits(c, n),
{
    assert forall|j: int| 0 <= j < n + 1 implies #[trigger] low_bits((c * 2) as u32, n + 1)[j] == (seq![false]
        + low_bits(c, n))[j] by {
        if j == 0 {
            lemma_double_bit(c, 0);
            assert(!bit_at((c * 2) as u32, 0));
        } else {
            lemma_double_bit(c, (j - 1) as u32);
            assert(((j - 1) as u32 + 1) as u32 == j as u32);
            assert((seq![false] + low_bits(c, n))[j] == low_bits(c, n)[j - 1]);
            assert(bit_at((c * 2) as u32, j) == bit_at(c, j - 1));
        }
    }
    assert(low_bits((c * 2) as u32, n + 1) =~= seq![false] + low_bits(c, n));
}

/// In binary mode a literal byte is coded as a 0 bit (a literal follows) and
/// then the eight bits of the byte, lowest first.
pub proof fn lemma_binary_literal_code(size: DictionarySize, b: u8)
    ensures
        literal_entry_bits(code_tables(CompressionMode::Binary, size), b as int) == seq![false]
            + byte_bits(b),
{
    let t = code_tables(CompressionMode::Binary, size);
    assert(t.literal_codes[b as int] == (2 * b) as u16);
    assert(t.literal_bits[b as int] == 9);
    assert((t.literal_codes[b as int] as u32) == ((b as u32) * 2) as u32);
    lemma_flagged_literal(b as u32, 8);
}

/// In ASCII mode a literal byte is coded as a 0 bit (a literal follows) and
/// then its code in the ASCII table, lowest bit first.
pub proof fn lemma_ascii_literal_code(size: DictionarySize, b: u8)
    ensures
        literal_entry_bits(code_tables(CompressionMode::ASCII, size), b as int) == seq![false]
            + low_bits(CH_CODE_ASC[b as int] as u32, CH_BITS_ASC[b as int] as nat),
{
    let c = CH_CODE_ASC[b as int];
    let n = CH_BITS_ASC[b as int];
    assert(4 <= n <= 13 && (c as int) < pow2_small(n as u32)) by {
        lemma_ascii_table_facts();
    }
    assert(c < 8192);
    let t = code_tables(CompressionMode::ASCII, size);
    assert(t.literal_codes[b as int] == (c * 2) as u16);
    assert(t.literal_bits[b as int] == (n + 1) as u8);
    assert((t.literal_codes[b as int] as u32) == ((c as u32) * 2) as u32);
    lemma_flagged_literal(c as u32, n as nat);
}

/// The bits of a length code: bit 0 set, the class code above it, and the
/// extra bits above that.
proof fn lemma_length_code_bit(e: u32, lc: u32, lb: u32, ex: u32, j: u32)
    by (bit_vector)
    requires
        ex <= 8,
        2 <= lb <= 7,
        e < (1u32 << ex),
        lc < (1u32 << lb),
        j < 16,
    ensures
        j == 0 ==> ((((e << ((lb + 1) as u32)) | ((lc * 2) as u32) | 1u32) >> j) & 1u32) == 1u32,
        1 <= j <= lb ==> ((((e << ((lb + 1) as u32)) | ((lc * 2) as u32) | 1u32) >> j) & 1u32) == ((lc >> ((j - 1) as u32))
            & 1u32),
        lb < j ==> ((((e << ((lb + 1) as u32)) | ((lc * 2) as u32) | 1u32) >> j) & 1u32) == ((e >> ((j - lb - 1) as u32))
            & 1u32),
{
}

/// The length classes below `n` fill `LEN_START[n]` entries, and entry
/// `LEN_START[i] + e` is the `e`-th of class `i`.
proof fn lemma_length_entry(n: int, i: int, e: int)
    requires
        0 <= i < n <= 16,
        0 <= e < pow2_small(EX_LEN_BITS[i] as u32),
    ensures
        length_codes_upto(n).len() == LEN_START[n],
        length_bits_upto(n).len() == LEN_START[n],
        length_codes_upto(n)[LEN_START[i] + e] == class_codes(i)[e],
        length_bits_upto(n)[LEN_START[i] + e] == class_bits(i)[e],
    decreases n,
{
    lemma_length_table_facts();
    lemma_upto_len(n - 1);
    if i < n - 1 {
        lemma_length_entry(n - 1, i, e);
    }
}

proof fn lemma_upto_len(n: int)
    requires
        0 <= n <= 16,
    ensures
        length_codes_upto(n).len() == LEN_START[n],
        length_bits_upto(n).len() == LEN_START[n],
    decreases n,
{
    lemma_length_table_facts();
    if n > 0 {
        lemma_upto_len(n - 1);
    }
}

/// Repetition length `LEN_START[i] + e + 2` (the `e`-th length of class `i`)
/// is coded as a 1 bit (a repetition follows), then the code of class `i`,
/// then `e` in the class's extra bits, lowest bits first. The end marker is
/// the last length of the last class.
pub proof fn lemma_length_code(mode: CompressionMode, size: DictionarySize, i: int, e: u32)
    requires
        0 <= i < 16,
        e < pow2_small(EX_LEN_BITS[i] as u32),
    ensures
        literal_entry_bits(code_tables(mode, size), 256 + LEN_START[i] + e) == seq![true]
            + low_bits(LEN_CODE[i] as u32, LEN_BITS[i] as nat) + low_bits(e, EX_LEN_BITS[i] as nat),
{
    lemma_length_table_facts();
    let t = code_tables(mode, size);
    lemma_length_entry(16, i, e as int);
    let k = 256 + LEN_START[i] + e;
    let ex = EX_LEN_BITS[i] as u32;
    let lb = LEN_BITS[i] as u32;
    let lc = LEN_CODE[i] as u32;
    lemma_pow2_small_shift(ex);
    lemma_pow2_small_shift(lb);
    let code: u32 = (e << ((lb + 1) as u32)) | ((lc * 2) as u32) | 1u32;
    crate::state::lemma_length_code_fits(e, ex, lb, lc);
    lemma_pow2_small_shift((ex + lb + 1) as u32);
    assert(t.literal_codes[k] == class_codes(i)[e as int]);
    assert(t.literal_codes[k] as u32 == code);
    assert(t.literal_bits[k] as nat == ex + lb + 1);
    let lhs = low_bits(code, (ex + lb + 1) as nat);
    let rhs = seq![true] + low_bits(lc, lb as nat) + low_bits(e, ex as nat);
    assert forall|j: int| 0 <= j < ex + lb + 1 implies #[trigger] lhs[j] == rhs[j] by {
        lemma_length_code_bit(e, lc, lb, ex, j as u32);
        if 1 <= j <= lb {
            assert((j - 1) as u32 == (j as u32 - 1) as u32);
        } else if j > lb {
            assert((j - lb - 1) as u32 == (j as u32 - lb - 1) as u32);
        }
    }
    assert(lhs =~= rhs);
}


/// `a` starts `b`.
pub open spec fn is_prefix(a: Seq<bool>, b: Seq<bool>) -> bool {
    a.len() <= b.len() && b.take(a.len() as int) == a
}

/// The low 13 bits of `c` in reverse order: a code read first bit first, as a
/// 13-bit number. The codes that start with a code of `n` bits are those whose
/// number lies in an interval of `2^(13 - n)` from its number.
#[verifier::opaque]
pub open spec fn rev13(c: u32) -> u32 {
    (((c >> 0u32) & 1u32) << 12u32) | (((c >> 1u32) & 1u32) << 11u32) | (((c >> 2u32) & 1u32) << 10u32)
        | (((c >> 3u32) & 1u32) << 9u32) | (((c >> 4u32) & 1u32) << 8u32) | (((c >> 5u32) & 1u32) << 7u32)
        | (((c >> 6u32) & 1u32) << 6u32) | (((c >> 7u32) & 1u32) << 5u32) | (((c >> 8u32) & 1u32) << 4u32)
        | (((c >> 9u32) & 1u32) << 3u32) | (((c >> 10u32) & 1u32) << 2u32) | (((c >> 11u32) & 1u32) << 1u32)
        | ((c >> 12u32) & 1u32)
}

/// A code of `na` bits that starts a code of `nb` bits: the number of the
/// longer one lies in the interval of the shorter one.
proof fn lemma_prefix_interval(ca: u32, cb: u32, na: u32, nb: u32)
    requires
        1 <= na <= nb <= 13,
        ca < pow2_small(na),
        cb < pow2_small(nb),
        forall|i: int| 0 <= i < na ==> #[trigger] bit_at(cb, i) == bit_at(ca, i),
    ensures
        rev13(ca) <= rev13(cb),
        rev13(cb) < rev13(ca) + pow2_small((13 - na) as u32),
{
    if 0 < na {
        assert(bit_at(cb, 0) == bit_at(ca, 0));
    }
    if 1 < na {
        assert(bit_at(cb, 1) == bit_at(ca, 1));
    }
    if 2 < na {
        assert(bit_at(cb, 2) == bit_at(ca, 2));
    }
    if 3 < na {
        assert(bit_at(cb, 3) == bit_at(ca, 3));
    }
    if 4 < na {
        assert(bit_at(cb, 4) == bit_at(ca, 4));
    }
    if 5 < na {
        assert(bit_at(cb, 5) == bit_at(ca, 5));
    }
    if 6 < na {
        assert(bit_at(cb, 6) == bit_at(ca, 6));
    }
    if 7 < na {
        assert(bit_at(cb, 7) == bit_at(ca, 7));
    }
    if 8 < na {
        assert(bit_at(cb, 8) == bit_at(ca, 8));
    }
    if 9 < na {
        assert(bit_at(cb, 9) == bit_at(ca, 9));
    }
    if 10 < na {
        assert(bit_at(cb, 10) == bit_at(ca, 10));
    }
    if 11 < na {
        assert(bit_at(cb, 11) == bit_at(ca, 11));
    }
    if 12 < na {
        assert(bit_at(cb, 12) == bit_at(ca, 12));
    }
    lemma_pow2_small_shift(na);
    lemma_pow2_small_shift(nb);
    lemma_pow2_small_shift((13 - na) as u32);
    reveal(rev13);
    assert(rev13(ca) <= rev13(cb) && rev13(cb) < rev13(ca) + (1u32 << ((13 - na) as u32))) by (bit_vector)
        requires
            1 <= na <= nb <= 13,
            ca < (1u32 << na),
            cb < (1u32 << nb),
            0 < na ==> ((((cb >> 0u32) & 1u32) == 1u32) == (((ca >> 0u32) & 1u32) == 1u32)),
            1 < na ==> ((((cb >> 1u32) & 1u32) == 1u32) == (((ca >> 1u32) & 1u32) == 1u32)),
            2 < na ==> ((((cb >> 2u32) & 1u32) == 1u32) == (((ca >> 2u32) & 1u32) == 1u32)),
            3 < na ==> ((((cb >> 3u32) & 1u32) == 1u32) == (((ca >> 3u32) & 1u32) == 1u32)),
            4 < na ==> ((((cb >> 4u32) & 1u32) == 1u32) == (((ca >> 4u32) & 1u32) == 1u32)),
            5 < na ==> ((((cb >> 5u32) & 1u32) == 1u32) == (((ca >> 5u32) & 1u32) == 1u32)),
            6 < na ==> ((((cb >> 6u32) & 1u32) == 1u32) == (((ca >> 6u32) & 1u32) == 1u32)),
            7 < na ==> ((((cb >> 7u32) & 1u32) == 1u32) == (((ca >> 7u32) & 1u32) == 1u32)),
            8 < na ==> ((((cb >> 8u32) & 1u32) == 1u32) == (((ca >> 8u32) & 1u32) == 1u32)),
            9 < na ==> ((((cb >> 9u32) & 1u32) == 1u32) == (((ca >> 9u32) & 1u32) == 1u32)),
            10 < na ==> ((((cb >> 10u32) & 1u32) == 1u32) == (((ca >> 10u32) & 1u32) == 1u32)),
            11 < na ==> ((((cb >> 11u32) & 1u32) == 1u32) == (((ca >> 11u32) & 1u32) == 1u32)),
            12 < na ==> ((((cb >> 12u32) & 1u32) == 1u32) == (((ca >> 12u32) & 1u32) == 1u32)),
    ;
}

/// The width of the interval of a code of `n` bits.
pub open spec fn width(n: u32) -> int {
    pow2_small((13 - n) as u32) as int
}

/// The interval of the code at place `m` of the list ends before the number
/// of the code at place `m + 1`.
pub open spec fn step_ok(bits: Seq<u32>, keys: Seq<u32>, order: Seq<int>, m: int) -> bool {
    keys[order[m]] + width(bits[order[m]]) <= keys[order[m + 1]]
}

proof fn lemma_width_pos(n: u32)
    requires
        1 <= n <= 13,
    ensures
        width(n) >= 1,
{
    lemma_pow2_small_shift((13 - n) as u32);
    let k = (13 - n) as u32;
    assert((1u32 << k) >= 1u32) by (bit_vector)
        requires
            k <= 12,
    ;
}

/// A code that starts another is no longer, and their first bits agree.
proof fn lemma_prefix_bits(ca: u32, na: nat, cb: u32, nb: nat)
    requires
        is_prefix(low_bits(ca, na), low_bits(cb, nb)),
    ensures
        na <= nb,
        forall|i: int| 0 <= i < na ==> #[trigger] bit_at(cb, i) == bit_at(ca, i),
{
    let sa = low_bits(ca, na);
    let sb = low_bits(cb, nb);
    assert(sa.len() == na);
    assert(sb.len() == nb);
    assert forall|i: int| 0 <= i < na implies #[trigger] bit_at(cb, i) == bit_at(ca, i) by {
        assert(sb.take(na as int)[i] == sb[i]);
        assert(sa[i] == bit_at(ca, i));
    }
}

/// Along a list of codes in increasing order of their numbers, where each
/// interval ends before the next number, the interval of an earlier code ends
/// before the number of every later one.
proof fn lemma_sorted_chain(bits: Seq<u32>, keys: Seq<u32>, order: Seq<int>, i: int, j: int)
    requires
        0 <= i < j < order.len(),
        forall|m: int| 0 <= m < order.len() ==> 0 <= #[trigger] order[m] < bits.len(),
        forall|k: int| 0 <= k < bits.len() ==> 1 <= #[trigger] bits[k] <= 13,
        forall|m: int| 0 <= m < order.len() - 1 ==> #[trigger] step_ok(bits, keys, order, m),
    ensures
        keys[order[i]] + width(bits[order[i]]) <= keys[order[j]],
    decreases j - i,
{
    assert(step_ok(bits, keys, order, j - 1));
    if j > i + 1 {
        lemma_sorted_chain(bits, keys, order, i, j - 1);
        assert(0 <= order[j - 1] < bits.len());
        lemma_width_pos(bits[order[j - 1]]);
    }
}

/// Codes whose numbers, listed in increasing order, each end their interval
/// before the next number begin no other code: they form a prefix code.
proof fn lemma_sorted_prefix_free(
    codes: Seq<u32>,
    bits: Seq<u32>,
    keys: Seq<u32>,
    order: Seq<int>,
    pos: Seq<int>,
    a: int,
    b: int,
)
    requires
        bits.len() == codes.len(),
        keys.len() == codes.len(),
        order.len() == codes.len(),
        pos.len() == codes.len(),
        forall|k: int|
            0 <= k < codes.len() ==> 1 <= #[trigger] bits[k] <= 13 && codes[k] < pow2_small(bits[k])
                && keys[k] == rev13(codes[k]),
        forall|k: int| 0 <= k < codes.len() ==> 0 <= #[trigger] pos[k] < codes.len() && order[pos[k]] == k,
        forall|m: int| 0 <= m < order.len() ==> 0 <= #[trigger] order[m] < codes.len(),
        forall|m: int| 0 <= m < order.len() - 1 ==> #[trigger] step_ok(bits, keys, order, m),
        0 <= a < codes.len(),
        0 <= b < codes.len(),
        a != b,
    ensures
        !is_prefix(low_bits(codes[a], bits[a] as nat), low_bits(codes[b], bits[b] as nat)),
{
    if is_prefix(low_bits(codes[a], bits[a] as nat), low_bits(codes[b], bits[b] as nat)) {
        lemma_prefix_bits(codes[a], bits[a] as nat, codes[b], bits[b] as nat);
        lemma_prefix_interval(codes[a], codes[b], bits[a], bits[b]);
        let pa = pos[a];
        let pb = pos[b];
        assert(pa != pb);
        if pa < pb {
            lemma_sorted_chain(bits, keys, order, pa, pb);
        } else {
            lemma_sorted_chain(bits, keys, order, pb, pa);
            lemma_width_pos(bits[b]);
        }
    }
}

/// The number (`rev13`) of each ASCII literal code.
pub const ASC_KEY: [u16; 256] = [
    0x0124, 0x00FE, 0x00FC, 0x00FA, 0x00F8, 0x00F6, 0x00F4, 0x00F2, 0x00F0, 0x03A0, 0x08C0, 0x00EE, 0x00EC, 0x0880, 0x00EA, 0x00E8,
    0x00E6, 0x00E4, 0x00E2, 0x00E0, 0x00DE, 0x00DC, 0x00DA, 0x00D8, 0x00D6, 0x00D4, 0x0049, 0x00D2, 0x00D0, 0x00CE, 0x00CC, 0x00CA,
    0x1E00, 0x0148, 0x0380, 0x00C8, 0x0140, 0x00C6, 0x0138, 0x0360, 0x0840, 0x0800, 0x0340, 0x01B0, 0x07C0, 0x1280, 0x0780, 0x0320,
    0x0740, 0x1200, 0x0700, 0x06C0, 0x0680, 0x0640, 0x0300, 0x0600, 0x05C0, 0x02E0, 0x02C0, 0x00C4, 0x0120, 0x0580, 0x01A0, 0x011C,
    0x00C2, 0x1180, 0x0540, 0x1100, 0x1080, 0x1D00, 0x0500, 0x02A0, 0x0280, 0x1000, 0x0118, 0x0190, 0x0F80, 0x04C0, 0x0F00, 0x0E80,
    0x0480, 0x0114, 0x0E00, 0x0D80, 0x0D00, 0x0440, 0x0180, 0x0260, 0x0170, 0x0160, 0x0110, 0x0240, 0x010C, 0x0150, 0x00C0, 0x0220,
    0x00BE, 0x1C00, 0x0C80, 0x0C00, 0x0B80, 0x1B00, 0x0B00, 0x0A80, 0x0A00, 0x1A00, 0x0108, 0x0400, 0x1900, 0x0980, 0x1800, 0x1700,
    0x0900, 0x0130, 0x1600, 0x1500, 0x1400, 0x1300, 0x0200, 0x03C0, 0x01E0, 0x01C0, 0x0128, 0x0104, 0x0100, 0x00BC, 0x00BA, 0x00B8,
    0x0048, 0x0047, 0x0046, 0x0045, 0x0044, 0x0043, 0x0042, 0x0041, 0x0040, 0x003F, 0x003E, 0x003D, 0x003C, 0x003B, 0x003A, 0x0039,
    0x0038, 0x0037, 0x0036, 0x0035, 0x0034, 0x0033, 0x0032, 0x0031, 0x0030, 0x002F, 0x002E, 0x002D, 0x002C, 0x002B, 0x002A, 0x0029,
    0x0028, 0x0027, 0x0026, 0x0025, 0x0024, 0x0023, 0x0022, 0x0021, 0x0020, 0x001F, 0x001E, 0x001D, 0x001C, 0x001B, 0x001A, 0x0019,
    0x00B6, 0x00B4, 0x00B2, 0x00B0, 0x00AE, 0x00AC, 0x00AA, 0x00A8, 0x00A6, 0x00A4, 0x00A2, 0x00A0, 0x009E, 0x009C, 0x009A, 0x0098,
    0x0096, 0x0094, 0x0092, 0x0090, 0x008E, 0x008C, 0x008A, 0x0088, 0x0086, 0x0084, 0x0082, 0x0080, 0x007E, 0x007C, 0x007A, 0x0078,
    0x0076, 0x0074, 0x0072, 0x0070, 0x006E, 0x006C, 0x006A, 0x0068, 0x0066, 0x0064, 0x0062, 0x0060, 0x005E, 0x005C, 0x005A, 0x0058,
    0x0018, 0x0056, 0x0017, 0x0016, 0x0015, 0x0054, 0x0014, 0x0013, 0x0012, 0x0052, 0x0011, 0x0010, 0x000F, 0x000E, 0x0050, 0x000D,
    0x000C, 0x000B, 0x004E, 0x004C, 0x004A, 0x000A, 0x0009, 0x0008, 0x0007, 0x0006, 0x0005, 0x0004, 0x0003, 0x0002, 0x0001, 0x0000,
];

/// The bytes in increasing order of the numbers of their ASCII codes.
pub const ASC_ORDER: [u8; 256] = [
    255, 254, 253, 252, 251, 250, 249, 248, 247, 246, 245, 241, 240, 239, 237, 236,
    235, 234, 232, 231, 230, 228, 227, 226, 224, 175, 174, 173, 172, 171, 170, 169,
    168, 167, 166, 165, 164, 163, 162, 161, 160, 159, 158, 157, 156, 155, 154, 153,
    152, 151, 150, 149, 148, 147, 146, 145, 144, 143, 142, 141, 140, 139, 138, 137,
    136, 135, 134, 133, 132, 131, 130, 129, 128, 26, 244, 243, 242, 238, 233, 229,
    225, 223, 222, 221, 220, 219, 218, 217, 216, 215, 214, 213, 212, 211, 210, 209,
    208, 207, 206, 205, 204, 203, 202, 201, 200, 199, 198, 197, 196, 195, 194, 193,
    192, 191, 190, 189, 188, 187, 186, 185, 184, 183, 182, 181, 180, 179, 178, 177,
    176, 127, 126, 125, 96, 94, 64, 59, 37, 35, 31, 30, 29, 28, 27, 25,
    24, 23, 22, 21, 20, 19, 18, 17, 16, 15, 14, 12, 11, 8, 7, 6,
    5, 4, 3, 2, 1, 124, 123, 106, 92, 90, 81, 74, 63, 60, 0, 122,
    113, 38, 36, 33, 93, 89, 88, 86, 75, 62, 43, 121, 120, 118, 95, 91,
    87, 72, 71, 58, 57, 54, 47, 42, 39, 34, 9, 119, 107, 85, 80, 77,
    70, 66, 61, 56, 55, 53, 52, 51, 50, 48, 46, 44, 41, 40, 13, 10,
    112, 109, 104, 103, 102, 100, 99, 98, 84, 83, 82, 79, 78, 76, 73, 68,
    67, 65, 49, 45, 117, 116, 115, 114, 111, 110, 108, 105, 101, 97, 69, 32,
];

/// The place of each byte in `ASC_ORDER`.
pub const ASC_POS: [u8; 256] = [
    174, 164, 163, 162, 161, 160, 159, 158, 157, 202, 223, 156, 155, 222, 154, 153,
    152, 151, 150, 149, 148, 147, 146, 145, 144, 143, 73, 142, 141, 140, 139, 138,
    255, 179, 201, 137, 178, 136, 177, 200, 221, 220, 199, 186, 219, 243, 218, 198,
    217, 242, 216, 215, 214, 213, 197, 212, 211, 196, 195, 135, 173, 210, 185, 172,
    134, 241, 209, 240, 239, 254, 208, 194, 193, 238, 171, 184, 237, 207, 236, 235,
    206, 170, 234, 233, 232, 205, 183, 192, 182, 181, 169, 191, 168, 180, 133, 190,
    132, 253, 231, 230, 229, 252, 228, 227, 226, 251, 167, 204, 250, 225, 249, 248,
    224, 176, 247, 246, 245, 244, 189, 203, 188, 187, 175, 166, 165, 131, 130, 129,
    72, 71, 70, 69, 68, 67, 66, 65, 64, 63, 62, 61, 60, 59, 58, 57,
    56, 55, 54, 53, 52, 51, 50, 49, 48, 47, 46, 45, 44, 43, 42, 41,
    40, 39, 38, 37, 36, 35, 34, 33, 32, 31, 30, 29, 28, 27, 26, 25,
    128, 127, 126, 125, 124, 123, 122, 121, 120, 119, 118, 117, 116, 115, 114, 113,
    112, 111, 110, 109, 108, 107, 106, 105, 104, 103, 102, 101, 100, 99, 98, 97,
    96, 95, 94, 93, 92, 91, 90, 89, 88, 87, 86, 85, 84, 83, 82, 81,
    24, 80, 23, 22, 21, 79, 20, 19, 18, 78, 17, 16, 15, 14, 77, 13,
    12, 11, 76, 75, 74, 10, 9, 8, 7, 6, 5, 4, 3, 2, 1, 0,
];

/// The numbers of the ASCII literal codes, computed bit by bit.
proof fn lemma_asc_rev_values()
    ensures
        rev13(0x0490u32) == 0x0124u32 &&
        rev13(0x0FE0u32) == 0x00FEu32 &&
        rev13(0x07E0u32) == 0x00FCu32 &&
        rev13(0x0BE0u32) == 0x00FAu32 &&
        rev13(0x03E0u32) == 0x00F8u32 &&
        rev13(0x0DE0u32) == 0x00F6u32 &&
        rev13(0x05E0u32) == 0x00F4u32 &&
        rev13(0x09E0u32) == 0x00F2u32 &&
        rev13(0x01E0u32) == 0x00F0u32 &&
        rev13(0x00B8u32) == 0x03A0u32 &&
        rev13(0x0062u32) == 0x08C0u32 &&
        rev13(0x0EE0u32) == 0x00EEu32 &&
        rev13(0x06E0u32) == 0x00ECu32 &&
        rev13(0x0022u32) == 0x0880u32 &&
        rev13(0x0AE0u32) == 0x00EAu32 &&
        rev13(0x02E0u32) == 0x00E8u32 &&
        rev13(0x0CE0u32) == 0x00E6u32 &&
        rev13(0x04E0u32) == 0x00E4u32 &&
        rev13(0x08E0u32) == 0x00E2u32 &&
        rev13(0x00E0u32) == 0x00E0u32 &&
        rev13(0x0F60u32) == 0x00DEu32 &&
        rev13(0x0760u32) == 0x00DCu32 &&
        rev13(0x0B60u32) == 0x00DAu32 &&
        rev13(0x0360u32) == 0x00D8u32 &&
        rev13(0x0D60u32) == 0x00D6u32 &&
        rev13(0x0560u32) == 0x00D4u32 &&
        rev13(0x1240u32) == 0x0049u32 &&
        rev13(0x0960u32) == 0x00D2u32 &&
        rev13(0x0160u32) == 0x00D0u32 &&
        rev13(0x0E60u32) == 0x00CEu32 &&
        rev13(0x0660u32) == 0x00CCu32 &&
        rev13(0x0A60u32) == 0x00CAu32 &&
        rev13(0x000Fu32) == 0x1E00u32 &&
        rev13(0x0250u32) == 0x0148u32 &&
        rev13(0x0038u32) == 0x0380u32 &&
        rev13(0x0260u32) == 0x00C8u32 &&
        rev13(0x0050u32) == 0x0140u32 &&
        rev13(0x0C60u32) == 0x00C6u32 &&
        rev13(0x0390u32) == 0x0138u32 &&
        rev13(0x00D8u32) == 0x0360u32 &&
        rev13(0x0042u32) == 0x0840u32 &&
        rev13(0x0002u32) == 0x0800u32 &&
        rev13(0x0058u32) == 0x0340u32 &&
        rev13(0x01B0u32) == 0x01B0u32 &&
        rev13(0x007Cu32) == 0x07C0u32 &&
        rev13(0x0029u32) == 0x1280u32 &&
        rev13(0x003Cu32) == 0x0780u32 &&
        rev13(0x0098u32) == 0x0320u32 &&
        rev13(0x005Cu32) == 0x0740u32 &&
        rev13(0x0009u32) == 0x1200u32 &&
        rev13(0x001Cu32) == 0x0700u32 &&
        rev13(0x006Cu32) == 0x06C0u32 &&
        rev13(0x002Cu32) == 0x0680u32 &&
        rev13(0x004Cu32) == 0x0640u32 &&
        rev13(0x0018u32) == 0x0300u32 &&
        rev13(0x000Cu32) == 0x0600u32 &&
        rev13(0x0074u32) == 0x05C0u32 &&
        rev13(0x00E8u32) == 0x02E0u32 &&
        rev13(0x0068u32) == 0x02C0u32 &&
        rev13(0x0460u32) == 0x00C4u32 &&
        rev13(0x0090u32) == 0x0120u32 &&
        rev13(0x0034u32) == 0x0580u32 &&
        rev13(0x00B0u32) == 0x01A0u32 &&
        rev13(0x0710u32) == 0x011Cu32 &&
        rev13(0x0860u32) == 0x00C2u32 &&
        rev13(0x0031u32) == 0x1180u32 &&
        rev13(0x0054u32) == 0x0540u32 &&
        rev13(0x0011u32) == 0x1100u32 &&
        rev13(0x0021u32) == 0x1080u32 &&
        rev13(0x0017u32) == 0x1D00u32 &&
        rev13(0x0014u32) == 0x0500u32 &&
        rev13(0x00A8u32) == 0x02A0u32 &&
        rev13(0x0028u32) == 0x0280u32 &&
        rev13(0x0001u32) == 0x1000u32 &&
        rev13(0x0310u32) == 0x0118u32 &&
        rev13(0x0130u32) == 0x0190u32 &&
        rev13(0x003Eu32) == 0x0F80u32 &&
        rev13(0x0064u32) == 0x04C0u32 &&
        rev13(0x001Eu32) == 0x0F00u32 &&
        rev13(0x002Eu32) == 0x0E80u32 &&
        rev13(0x0024u32) == 0x0480u32 &&
        rev13(0x0510u32) == 0x0114u32 &&
        rev13(0x000Eu32) == 0x0E00u32 &&
        rev13(0x0036u32) == 0x0D80u32 &&
        rev13(0x0016u32) == 0x0D00u32 &&
        rev13(0x0044u32) == 0x0440u32 &&
        rev13(0x0030u32) == 0x0180u32 &&
        rev13(0x00C8u32) == 0x0260u32 &&
        rev13(0x01D0u32) == 0x0170u32 &&
        rev13(0x00D0u32) == 0x0160u32 &&
        rev13(0x0110u32) == 0x0110u32 &&
        rev13(0x0048u32) == 0x0240u32 &&
        rev13(0x0610u32) == 0x010Cu32 &&
        rev13(0x0150u32) == 0x0150u32 &&
        rev13(0x0060u32) == 0x00C0u32 &&
        rev13(0x0088u32) == 0x0220u32 &&
        rev13(0x0FA0u32) == 0x00BEu32 &&
        rev13(0x0007u32) == 0x1C00u32 &&
        rev13(0x0026u32) == 0x0C80u32 &&
        rev13(0x0006u32) == 0x0C00u32 &&
        rev13(0x003Au32) == 0x0B80u32 &&
        rev13(0x001Bu32) == 0x1B00u32 &&
        rev13(0x001Au32) == 0x0B00u32 &&
        rev13(0x002Au32) == 0x0A80u32 &&
        rev13(0x000Au32) == 0x0A00u32 &&
        rev13(0x000Bu32) == 0x1A00u32 &&
        rev13(0x0210u32) == 0x0108u32 &&
        rev13(0x0004u32) == 0x0400u32 &&
        rev13(0x0013u32) == 0x1900u32 &&
        rev13(0x0032u32) == 0x0980u32 &&
        rev13(0x0003u32) == 0x1800u32 &&
        rev13(0x001Du32) == 0x1700u32 &&
        rev13(0x0012u32) == 0x0900u32 &&
        rev13(0x0190u32) == 0x0130u32 &&
        rev13(0x000Du32) == 0x1600u32 &&
        rev13(0x0015u32) == 0x1500u32 &&
        rev13(0x0005u32) == 0x1400u32 &&
        rev13(0x0019u32) == 0x1300u32 &&
        rev13(0x0008u32) == 0x0200u32 &&
        rev13(0x0078u32) == 0x03C0u32 &&
        rev13(0x00F0u32) == 0x01E0u32 &&
        rev13(0x0070u32) == 0x01C0u32 &&
        rev13(0x0290u32) == 0x0128u32 &&
        rev13(0x0410u32) == 0x0104u32 &&
        rev13(0x0010u32) == 0x0100u32 &&
        rev13(0x07A0u32) == 0x00BCu32 &&
        rev13(0x0BA0u32) == 0x00BAu32 &&
        rev13(0x03A0u32) == 0x00B8u32 &&
        rev13(0x0240u32) == 0x0048u32 &&
        rev13(0x1C40u32) == 0x0047u32 &&
        rev13(0x0C40u32) == 0x0046u32 &&
        rev13(0x1440u32) == 0x0045u32 &&
        rev13(0x0440u32) == 0x0044u32 &&
        rev13(0x1840u32) == 0x0043u32 &&
        rev13(0x0840u32) == 0x0042u32 &&
        rev13(0x1040u32) == 0x0041u32 &&
        rev13(0x0040u32) == 0x0040u32 &&
        rev13(0x1F80u32) == 0x003Fu32 &&
        rev13(0x0F80u32) == 0x003Eu32 &&
        rev13(0x1780u32) == 0x003Du32 &&
        rev13(0x0780u32) == 0x003Cu32 &&
        rev13(0x1B80u32) == 0x003Bu32 &&
        rev13(0x0B80u32) == 0x003Au32 &&
        rev13(0x1380u32) == 0x0039u32 &&
        rev13(0x0380u32) == 0x0038u32 &&
        rev13(0x1D80u32) == 0x0037u32 &&
        rev13(0x0D80u32) == 0x0036u32 &&
        rev13(0x1580u32) == 0x0035u32 &&
        rev13(0x0580u32) == 0x0034u32 &&
        rev13(0x1980u32) == 0x0033u32 &&
        rev13(0x0980u32) == 0x0032u32 &&
        rev13(0x1180u32) == 0x0031u32 &&
        rev13(0x0180u32) == 0x0030u32 &&
        rev13(0x1E80u32) == 0x002Fu32 &&
        rev13(0x0E80u32) == 0x002Eu32 &&
        rev13(0x1680u32) == 0x002Du32 &&
        rev13(0x0680u32) == 0x002Cu32 &&
        rev13(0x1A80u32) == 0x002Bu32 &&
        rev13(0x0A80u32) == 0x002Au32 &&
        rev13(0x1280u32) == 0x0029u32 &&
        rev13(0x0280u32) == 0x0028u32 &&
        rev13(0x1C80u32) == 0x0027u32 &&
        rev13(0x0C80u32) == 0x0026u32 &&
        rev13(0x1480u32) == 0x0025u32 &&
        rev13(0x0480u32) == 0x0024u32 &&
        rev13(0x1880u32) == 0x0023u32 &&
        rev13(0x0880u32) == 0x0022u32 &&
        rev13(0x1080u32) == 0x0021u32 &&
        rev13(0x0080u32) == 0x0020u32 &&
        rev13(0x1F00u32) == 0x001Fu32 &&
        rev13(0x0F00u32) == 0x001Eu32 &&
        rev13(0x1700u32) == 0x001Du32 &&
        rev13(0x0700u32) == 0x001Cu32 &&
        rev13(0x1B00u32) == 0x001Bu32 &&
        rev13(0x0B00u32) == 0x001Au32 &&
        rev13(0x1300u32) == 0x0019u32 &&
        rev13(0x0DA0u32) == 0x00B6u32 &&
        rev13(0x05A0u32) == 0x00B4u32 &&
        rev13(0x09A0u32) == 0x00B2u32 &&
        rev13(0x01A0u32) == 0x00B0u32 &&
        rev13(0x0EA0u32) == 0x00AEu32 &&
        rev13(0x06A0u32) == 0x00ACu32 &&
        rev13(0x0AA0u32) == 0x00AAu32 &&
        rev13(0x02A0u32) == 0x00A8u32 &&
        rev13(0x0CA0u32) == 0x00A6u32 &&
        rev13(0x04A0u32) == 0x00A4u32 &&
        rev13(0x08A0u32) == 0x00A2u32 &&
        rev13(0x00A0u32) == 0x00A0u32 &&
        rev13(0x0F20u32) == 0x009Eu32 &&
        rev13(0x0720u32) == 0x009Cu32 &&
        rev13(0x0B20u32) == 0x009Au32 &&
        rev13(0x0320u32) == 0x0098u32 &&
        rev13(0x0D20u32) == 0x0096u32 &&
        rev13(0x0520u32) == 0x0094u32 &&
        rev13(0x0920u32) == 0x0092u32 &&
        rev13(0x0120u32) == 0x0090u32 &&
        rev13(0x0E20u32) == 0x008Eu32 &&
        rev13(0x0620u32) == 0x008Cu32 &&
        rev13(0x0A20u32) == 0x008Au32 &&
        rev13(0x0220u32) == 0x0088u32 &&
        rev13(0x0C20u32) == 0x0086u32 &&
        rev13(0x0420u32) == 0x0084u32 &&
        rev13(0x0820u32) == 0x0082u32 &&
        rev13(0x0020u32) == 0x0080u32 &&
        rev13(0x0FC0u32) == 0x007Eu32 &&
        rev13(0x07C0u32) == 0x007Cu32 &&
        rev13(0x0BC0u32) == 0x007Au32 &&
        rev13(0x03C0u32) == 0x0078u32 &&
        rev13(0x0DC0u32) == 0x0076u32 &&
        rev13(0x05C0u32) == 0x0074u32 &&
        rev13(0x09C0u32) == 0x0072u32 &&
        rev13(0x01C0u32) == 0x0070u32 &&
        rev13(0x0EC0u32) == 0x006Eu32 &&
        rev13(0x06C0u32) == 0x006Cu32 &&
        rev13(0x0AC0u32) == 0x006Au32 &&
        rev13(0x02C0u32) == 0x0068u32 &&
        rev13(0x0CC0u32) == 0x0066u32 &&
        rev13(0x04C0u32) == 0x0064u32 &&
        rev13(0x08C0u32) == 0x0062u32 &&
        rev13(0x00C0u32) == 0x0060u32 &&
        rev13(0x0F40u32) == 0x005Eu32 &&
        rev13(0x0740u32) == 0x005Cu32 &&
        rev13(0x0B40u32) == 0x005Au32 &&
        rev13(0x0340u32) == 0x0058u32 &&
        rev13(0x0300u32) == 0x0018u32 &&
        rev13(0x0D40u32) == 0x0056u32 &&
        rev13(0x1D00u32) == 0x0017u32 &&
        rev13(0x0D00u32) == 0x0016u32 &&
        rev13(0x1500u32) == 0x0015u32 &&
        rev13(0x0540u32) == 0x0054u32 &&
        rev13(0x0500u32) == 0x0014u32 &&
        rev13(0x1900u32) == 0x0013u32 &&
        rev13(0x0900u32) == 0x0012u32 &&
        rev13(0x0940u32) == 0x0052u32 &&
        rev13(0x1100u32) == 0x0011u32 &&
        rev13(0x0100u32) == 0x0010u32 &&
        rev13(0x1E00u32) == 0x000Fu32 &&
        rev13(0x0E00u32) == 0x000Eu32 &&
        rev13(0x0140u32) == 0x0050u32 &&
        rev13(0x1600u32) == 0x000Du32 &&
        rev13(0x0600u32) == 0x000Cu32 &&
        rev13(0x1A00u32) == 0x000Bu32 &&
        rev13(0x0E40u32) == 0x004Eu32 &&
        rev13(0x0640u32) == 0x004Cu32 &&
        rev13(0x0A40u32) == 0x004Au32 &&
        rev13(0x0A00u32) == 0x000Au32 &&
        rev13(0x1200u32) == 0x0009u32 &&
        rev13(0x0200u32) == 0x0008u32 &&
        rev13(0x1C00u32) == 0x0007u32 &&
        rev13(0x0C00u32) == 0x0006u32 &&
        rev13(0x1400u32) == 0x0005u32 &&
        rev13(0x0400u32) == 0x0004u32 &&
        rev13(0x1800u32) == 0x0003u32 &&
        rev13(0x0800u32) == 0x0002u32 &&
        rev13(0x1000u32) == 0x0001u32 &&
        rev13(0x0000u32) == 0x0000u32,
{
    reveal(rev13);
    assert(
        rev13(0x0490u32) == 0x0124u32 &&
        rev13(0x0FE0u32) == 0x00FEu32 &&
        rev13(0x07E0u32) == 0x00FCu32 &&
        rev13(0x0BE0u32) == 0x00FAu32 &&
        rev13(0x03E0u32) == 0x00F8u32 &&
        rev13(0x0DE0u32) == 0x00F6u32 &&
        rev13(0x05E0u32) == 0x00F4u32 &&
        rev13(0x09E0u32) == 0x00F2u32 &&
        rev13(0x01E0u32) == 0x00F0u32 &&
        rev13(0x00B8u32) == 0x03A0u32 &&
        rev13(0x0062u32) == 0x08C0u32 &&
        rev13(0x0EE0u32) == 0x00EEu32 &&
        rev13(0x06E0u32) == 0x00ECu32 &&
        rev13(0x0022u32) == 0x0880u32 &&
        rev13(0x0AE0u32) == 0x00EAu32 &&
        rev13(0x02E0u32) == 0x00E8u32 &&
        rev13(0x0CE0u32) == 0x00E6u32 &&
        rev13(0x04E0u32) == 0x00E4u32 &&
        rev13(0x08E0u32) == 0x00E2u32 &&
        rev13(0x00E0u32) == 0x00E0u32 &&
        rev13(0x0F60u32) == 0x00DEu32 &&
        rev13(0x0760u32) == 0x00DCu32 &&
        rev13(0x0B60u32) == 0x00DAu32 &&
        rev13(0x0360u32) == 0x00D8u32 &&
        rev13(0x0D60u32) == 0x00D6u32 &&
        rev13(0x0560u32) == 0x00D4u32 &&
        rev13(0x1240u32) == 0x0049u32 &&
        rev13(0x0960u32) == 0x00D2u32 &&
        rev13(0x0160u32) == 0x00D0u32 &&
        rev13(0x0E60u32) == 0x00CEu32 &&
        rev13(0x0660u32) == 0x00CCu32 &&
        rev13(0x0A60u32) == 0x00CAu32 &&
        rev13(0x000Fu32) == 0x1E00u32 &&
        rev13(0x0250u32) == 0x0148u32 &&
        rev13(0x0038u32) == 0x0380u32 &&
        rev13(0x0260u32) == 0x00C8u32 &&
        rev13(0x0050u32) == 0x0140u32 &&
        rev13(0x0C60u32) == 0x00C6u32 &&
        rev13(0x0390u32) == 0x0138u32 &&
        rev13(0x00D8u32) == 0x0360u32 &&
        rev13(0x0042u32) == 0x0840u32 &&
        rev13(0x0002u32) == 0x0800u32 &&
        rev13(0x0058u32) == 0x0340u32 &&
        rev13(0x01B0u32) == 0x01B0u32 &&
        rev13(0x007Cu32) == 0x07C0u32 &&
        rev13(0x0029u32) == 0x1280u32 &&
        rev13(0x003Cu32) == 0x0780u32 &&
        rev13(0x0098u32) == 0x0320u32 &&
        rev13(0x005Cu32) == 0x0740u32 &&
        rev13(0x0009u32) == 0x1200u32 &&
        rev13(0x001Cu32) == 0x0700u32 &&
        rev13(0x006Cu32) == 0x06C0u32 &&
        rev13(0x002Cu32) == 0x0680u32 &&
        rev13(0x004Cu32) == 0x0640u32 &&
        rev13(0x0018u32) == 0x0300u32 &&
        rev13(0x000Cu32) == 0x0600u32 &&
        rev13(0x0074u32) == 0x05C0u32 &&
        rev13(0x00E8u32) == 0x02E0u32 &&
        rev13(0x0068u32) == 0x02C0u32 &&
        rev13(0x0460u32) == 0x00C4u32 &&
        rev13(0x0090u32) == 0x0120u32 &&
        rev13(0x0034u32) == 0x0580u32 &&
        rev13(0x00B0u32) == 0x01A0u32 &&
        rev13(0x0710u32) == 0x011Cu32 &&
        rev13(0x0860u32) == 0x00C2u32 &&
        rev13(0x0031u32) == 0x1180u32 &&
        rev13(0x0054u32) == 0x0540u32 &&
        rev13(0x0011u32) == 0x1100u32 &&
        rev13(0x0021u32) == 0x1080u32 &&
        rev13(0x0017u32) == 0x1D00u32 &&
        rev13(0x0014u32) == 0x0500u32 &&
        rev13(0x00A8u32) == 0x02A0u32 &&
        rev13(0x0028u32) == 0x0280u32 &&
        rev13(0x0001u32) == 0x1000u32 &&
        rev13(0x0310u32) == 0x0118u32 &&
        rev13(0x0130u32) == 0x0190u32 &&
        rev13(0x003Eu32) == 0x0F80u32 &&
        rev13(0x0064u32) == 0x04C0u32 &&
        rev13(0x001Eu32) == 0x0F00u32 &&
        rev13(0x002Eu32) == 0x0E80u32 &&
        rev13(0x0024u32) == 0x0480u32 &&
        rev13(0x0510u32) == 0x0114u32 &&
        rev13(0x000Eu32) == 0x0E00u32 &&
        rev13(0x0036u32) == 0x0D80u32 &&
        rev13(0x0016u32) == 0x0D00u32 &&
        rev13(0x0044u32) == 0x0440u32 &&
        rev13(0x0030u32) == 0x0180u32 &&
        rev13(0x00C8u32) == 0x0260u32 &&
        rev13(0x01D0u32) == 0x0170u32 &&
        rev13(0x00D0u32) == 0x0160u32 &&
        rev13(0x0110u32) == 0x0110u32 &&
        rev13(0x0048u32) == 0x0240u32 &&
        rev13(0x0610u32) == 0x010Cu32 &&
        rev13(0x0150u32) == 0x0150u32 &&
        rev13(0x0060u32) == 0x00C0u32 &&
        rev13(0x0088u32) == 0x0220u32 &&
        rev13(0x0FA0u32) == 0x00BEu32 &&
        rev13(0x0007u32) == 0x1C00u32 &&
        rev13(0x0026u32) == 0x0C80u32 &&
        rev13(0x0006u32) == 0x0C00u32 &&
        rev13(0x003Au32) == 0x0B80u32 &&
        rev13(0x001Bu32) == 0x1B00u32 &&
        rev13(0x001Au32) == 0x0B00u32 &&
        rev13(0x002Au32) == 0x0A80u32 &&
        rev13(0x000Au32) == 0x0A00u32 &&
        rev13(0x000Bu32) == 0x1A00u32 &&
        rev13(0x0210u32) == 0x0108u32 &&
        rev13(0x0004u32) == 0x0400u32 &&
        rev13(0x0013u32) == 0x1900u32 &&
        rev13(0x0032u32) == 0x0980u32 &&
        rev13(0x0003u32) == 0x1800u32 &&
        rev13(0x001Du32) == 0x1700u32 &&
        rev13(0x0012u32) == 0x0900u32 &&
        rev13(0x0190u32) == 0x0130u32 &&
        rev13(0x000Du32) == 0x1600u32 &&
        rev13(0x0015u32) == 0x1500u32 &&
        rev13(0x0005u32) == 0x1400u32 &&
        rev13(0x0019u32) == 0x1300u32 &&
        rev13(0x0008u32) == 0x0200u32 &&
        rev13(0x0078u32) == 0x03C0u32 &&
        rev13(0x00F0u32) == 0x01E0u32 &&
        rev13(0x0070u32) == 0x01C0u32 &&
        rev13(0x0290u32) == 0x0128u32 &&
        rev13(0x0410u32) == 0x0104u32 &&
        rev13(0x0010u32) == 0x0100u32 &&
        rev13(0x07A0u32) == 0x00BCu32 &&
        rev13(0x0BA0u32) == 0x00BAu32 &&
        rev13(0x03A0u32) == 0x00B8u32 &&
        rev13(0x0240u32) == 0x0048u32 &&
        rev13(0x1C40u32) == 0x0047u32 &&
        rev13(0x0C40u32) == 0x0046u32 &&
        rev13(0x1440u32) == 0x0045u32 &&
        rev13(0x0440u32) == 0x0044u32 &&
        rev13(0x1840u32) == 0x0043u32 &&
        rev13(0x0840u32) == 0x0042u32 &&
        rev13(0x1040u32) == 0x0041u32 &&
        rev13(0x0040u32) == 0x0040u32 &&
        rev13(0x1F80u32) == 0x003Fu32 &&
        rev13(0x0F80u32) == 0x003Eu32 &&
        rev13(0x1780u32) == 0x003Du32 &&
        rev13(0x0780u32) == 0x003Cu32 &&
        rev13(0x1B80u32) == 0x003Bu32 &&
        rev13(0x0B80u32) == 0x003Au32 &&
        rev13(0x1380u32) == 0x0039u32 &&
        rev13(0x0380u32) == 0x0038u32 &&
        rev13(0x1D80u32) == 0x0037u32 &&
        rev13(0x0D80u32) == 0x0036u32 &&
        rev13(0x1580u32) == 0x0035u32 &&
        rev13(0x0580u32) == 0x0034u32 &&
        rev13(0x1980u32) == 0x0033u32 &&
        rev13(0x0980u32) == 0x0032u32 &&
        rev13(0x1180u32) == 0x0031u32 &&
        rev13(0x0180u32) == 0x0030u32 &&
        rev13(0x1E80u32) == 0x002Fu32 &&
        rev13(0x0E80u32) == 0x002Eu32 &&
        rev13(0x1680u32) == 0x002Du32 &&
        rev13(0x0680u32) == 0x002Cu32 &&
        rev13(0x1A80u32) == 0x002Bu32 &&
        rev13(0x0A80u32) == 0x002Au32 &&
        rev13(0x1280u32) == 0x0029u32 &&
        rev13(0x0280u32) == 0x0028u32 &&
        rev13(0x1C80u32) == 0x0027u32 &&
        rev13(0x0C80u32) == 0x0026u32 &&
        rev13(0x1480u32) == 0x0025u32 &&
        rev13(0x0480u32) == 0x0024u32 &&
        rev13(0x1880u32) == 0x0023u32 &&
        rev13(0x0880u32) == 0x0022u32 &&
        rev13(0x1080u32) == 0x0021u32 &&
        rev13(0x0080u32) == 0x0020u32 &&
        rev13(0x1F00u32) == 0x001Fu32 &&
        rev13(0x0F00u32) == 0x001Eu32 &&
        rev13(0x1700u32) == 0x001Du32 &&
        rev13(0x0700u32) == 0x001Cu32 &&
        rev13(0x1B00u32) == 0x001Bu32 &&
        rev13(0x0B00u32) == 0x001Au32 &&
        rev13(0x1300u32) == 0x0019u32 &&
        rev13(0x0DA0u32) == 0x00B6u32 &&
        rev13(0x05A0u32) == 0x00B4u32 &&
        rev13(0x09A0u32) == 0x00B2u32 &&
        rev13(0x01A0u32) == 0x00B0u32 &&
        rev13(0x0EA0u32) == 0x00AEu32 &&
        rev13(0x06A0u32) == 0x00ACu32 &&
        rev13(0x0AA0u32) == 0x00AAu32 &&
        rev13(0x02A0u32) == 0x00A8u32 &&
        rev13(0x0CA0u32) == 0x00A6u32 &&
        rev13(0x04A0u32) == 0x00A4u32 &&
        rev13(0x08A0u32) == 0x00A2u32 &&
        rev13(0x00A0u32) == 0x00A0u32 &&
        rev13(0x0F20u32) == 0x009Eu32 &&
        rev13(0x0720u32) == 0x009Cu32 &&
        rev13(0x0B20u32) == 0x009Au32 &&
        rev13(0x0320u32) == 0x0098u32 &&
        rev13(0x0D20u32) == 0x0096u32 &&
        rev13(0x0520u32) == 0x0094u32 &&
        rev13(0x0920u32) == 0x0092u32 &&
        rev13(0x0120u32) == 0x0090u32 &&
        rev13(0x0E20u32) == 0x008Eu32 &&
        rev13(0x0620u32) == 0x008Cu32 &&
        rev13(0x0A20u32) == 0x008Au32 &&
        rev13(0x0220u32) == 0x0088u32 &&
        rev13(0x0C20u32) == 0x0086u32 &&
        rev13(0x0420u32) == 0x0084u32 &&
        rev13(0x0820u32) == 0x0082u32 &&
        rev13(0x0020u32) == 0x0080u32 &&
        rev13(0x0FC0u32) == 0x007Eu32 &&
        rev13(0x07C0u32) == 0x007Cu32 &&
        rev13(0x0BC0u32) == 0x007Au32 &&
        rev13(0x03C0u32) == 0x0078u32 &&
        rev13(0x0DC0u32) == 0x0076u32 &&
        rev13(0x05C0u32) == 0x0074u32 &&
        rev13(0x09C0u32) == 0x0072u32 &&
        rev13(0x01C0u32) == 0x0070u32 &&
        rev13(0x0EC0u32) == 0x006Eu32 &&
        rev13(0x06C0u32) == 0x006Cu32 &&
        rev13(0x0AC0u32) == 0x006Au32 &&
        rev13(0x02C0u32) == 0x0068u32 &&
        rev13(0x0CC0u32) == 0x0066u32 &&
        rev13(0x04C0u32) == 0x0064u32 &&
        rev13(0x08C0u32) == 0x0062u32 &&
        rev13(0x00C0u32) == 0x0060u32 &&
        rev13(0x0F40u32) == 0x005Eu32 &&
        rev13(0x0740u32) == 0x005Cu32 &&
        rev13(0x0B40u32) == 0x005Au32 &&
        rev13(0x0340u32) == 0x0058u32 &&
        rev13(0x0300u32) == 0x0018u32 &&
        rev13(0x0D40u32) == 0x0056u32 &&
        rev13(0x1D00u32) == 0x0017u32 &&
        rev13(0x0D00u32) == 0x0016u32 &&
        rev13(0x1500u32) == 0x0015u32 &&
        rev13(0x0540u32) == 0x0054u32 &&
        rev13(0x0500u32) == 0x0014u32 &&
        rev13(0x1900u32) == 0x0013u32 &&
        rev13(0x0900u32) == 0x0012u32 &&
        rev13(0x0940u32) == 0x0052u32 &&
        rev13(0x1100u32) == 0x0011u32 &&
        rev13(0x0100u32) == 0x0010u32 &&
        rev13(0x1E00u32) == 0x000Fu32 &&
        rev13(0x0E00u32) == 0x000Eu32 &&
        rev13(0x0140u32) == 0x0050u32 &&
        rev13(0x1600u32) == 0x000Du32 &&
        rev13(0x0600u32) == 0x000Cu32 &&
        rev13(0x1A00u32) == 0x000Bu32 &&
        rev13(0x0E40u32) == 0x004Eu32 &&
        rev13(0x0640u32) == 0x004Cu32 &&
        rev13(0x0A40u32) == 0x004Au32 &&
        rev13(0x0A00u32) == 0x000Au32 &&
        rev13(0x1200u32) == 0x0009u32 &&
        rev13(0x0200u32) == 0x0008u32 &&
        rev13(0x1C00u32) == 0x0007u32 &&
        rev13(0x0C00u32) == 0x0006u32 &&
        rev13(0x1400u32) == 0x0005u32 &&
        rev13(0x0400u32) == 0x0004u32 &&
        rev13(0x1800u32) == 0x0003u32 &&
        rev13(0x0800u32) == 0x0002u32 &&
        rev13(0x1000u32) == 0x0001u32 &&
        rev13(0x0000u32) == 0x0000u32
    ) by (bit_vector);
}

/// Each ASCII code has the number `ASC_KEY` gives.
proof fn lemma_asc_keys()
    ensures
        forall|k: int| 0 <= k < 256 ==> rev13(#[trigger] CH_CODE_ASC[k] as u32) == ASC_KEY[k] as u32,
{
    lemma_asc_rev_values();
}

/// `ASC_POS` gives each byte's place in `ASC_ORDER`.
proof fn lemma_asc_pos()
    ensures
        forall|k: int| 0 <= k < 256 ==> ASC_ORDER[#[trigger] ASC_POS[k] as int] as int == k,
{
}

/// In `ASC_ORDER` the interval of each code ends before the next number.
#[verifier::rlimit(50)]
proof fn lemma_asc_sorted()
    ensures
        forall|m: int|
            0 <= m < 255 ==> (ASC_KEY[#[trigger] ASC_ORDER[m] as int] as int) + width(
                CH_BITS_ASC[ASC_ORDER[m] as int] as u32,
            ) <= ASC_KEY[ASC_ORDER[m + 1] as int] as int,
{
}

/// The codes of the ASCII table form a prefix code: no code starts another.
#[verifier::rlimit(100)]
pub proof fn lemma_ascii_codes_prefix_free(a: int, b: int)
    requires
        0 <= a < 256,
        0 <= b < 256,
        a != b,
    ensures
        !is_prefix(
            low_bits(CH_CODE_ASC[a] as u32, CH_BITS_ASC[a] as nat),
            low_bits(CH_CODE_ASC[b] as u32, CH_BITS_ASC[b] as nat),
        ),
{
    lemma_ascii_table_facts();
    lemma_asc_keys();
    lemma_asc_pos();
    lemma_asc_sorted();
    let codes = Seq::new(256, |k: int| CH_CODE_ASC[k] as u32);
    let bits = Seq::new(256, |k: int| CH_BITS_ASC[k] as u32);
    let keys = Seq::new(256, |k: int| ASC_KEY[k] as u32);
    let order = Seq::new(256, |k: int| ASC_ORDER[k] as int);
    let pos = Seq::new(256, |k: int| ASC_POS[k] as int);
    assert forall|k: int| 0 <= k < 256 implies 1 <= #[trigger] bits[k] <= 13 && codes[k] < pow2_small(
        bits[k],
    ) && keys[k] == rev13(codes[k]) by {
        assert(rev13(CH_CODE_ASC[k] as u32) == ASC_KEY[k] as u32);
        assert(4 <= CH_BITS_ASC[k] <= 13);
    }
    assert forall|k: int| 0 <= k < 256 implies 0 <= #[trigger] pos[k] < 256 && order[pos[k]] == k by {
        assert(ASC_ORDER[ASC_POS[k] as int] as int == k);
    }
    assert forall|m: int| 0 <= m < 255 implies #[trigger] step_ok(bits, keys, order, m) by {
        assert((ASC_KEY[ASC_ORDER[m] as int] as int) + width(CH_BITS_ASC[ASC_ORDER[m] as int] as u32)
            <= ASC_KEY[ASC_ORDER[m + 1] as int] as int);
    }
    lemma_sorted_prefix_free(codes, bits, keys, order, pos, a, b);
}

/// The number (`rev13`) of each length class code.
pub const LEN_KEY: [u16; 16] = [
    0x1400, 0x1800, 0x1000, 0x0C00, 0x0A00, 0x0800, 0x0600, 0x0500, 0x0400, 0x0300, 0x0200, 0x0180, 0x0100, 0x0080, 0x0040, 0x0000,
];

/// The length classes in increasing order of the numbers of their codes.
pub const LEN_ORDER: [u8; 16] = [
    15, 14, 13, 12, 11, 10, 9, 8, 7, 6, 5, 4, 3, 2, 0, 1,
];

/// The place of each length class in `LEN_ORDER`.
pub const LEN_POS: [u8; 16] = [
    14, 15, 13, 12, 11, 10, 9, 8, 7, 6, 5, 4, 3, 2, 1, 0,
];

/// The numbers of the length class codes, computed bit by bit.
proof fn lemma_len_rev_values()
    ensures
        rev13(0x0005u32) == 0x1400u32 &&
        rev13(0x0003u32) == 0x1800u32 &&
        rev13(0x0001u32) == 0x1000u32 &&
        rev13(0x0006u32) == 0x0C00u32 &&
        rev13(0x000Au32) == 0x0A00u32 &&
        rev13(0x0002u32) == 0x0800u32 &&
        rev13(0x000Cu32) == 0x0600u32 &&
        rev13(0x0014u32) == 0x0500u32 &&
        rev13(0x0004u32) == 0x0400u32 &&
        rev13(0x0018u32) == 0x0300u32 &&
        rev13(0x0008u32) == 0x0200u32 &&
        rev13(0x0030u32) == 0x0180u32 &&
        rev13(0x0010u32) == 0x0100u32 &&
        rev13(0x0020u32) == 0x0080u32 &&
        rev13(0x0040u32) == 0x0040u32 &&
        rev13(0x0000u32) == 0x0000u32,
{
    reveal(rev13);
    assert(
        rev13(0x0005u32) == 0x1400u32 &&
        rev13(0x0003u32) == 0x1800u32 &&
        rev13(0x0001u32) == 0x1000u32 &&
        rev13(0x0006u32) == 0x0C00u32 &&
        rev13(0x000Au32) == 0x0A00u32 &&
        rev13(0x0002u32) == 0x0800u32 &&
        rev13(0x000Cu32) == 0x0600u32 &&
        rev13(0x0014u32) == 0x0500u32 &&
        rev13(0x0004u32) == 0x0400u32 &&
        rev13(0x0018u32) == 0x0300u32 &&
        rev13(0x0008u32) == 0x0200u32 &&
        rev13(0x0030u32) == 0x0180u32 &&
        rev13(0x0010u32) == 0x0100u32 &&
        rev13(0x0020u32) == 0x0080u32 &&
        rev13(0x0040u32) == 0x0040u32 &&
        rev13(0x0000u32) == 0x0000u32
    ) by (bit_vector);
}

/// The codes of the sixteen length classes form a prefix code.
pub proof fn lemma_length_class_codes_prefix_free(a: int, b: int)
    requires
        0 <= a < 16,
        0 <= b < 16,
        a != b,
    ensures
        !is_prefix(
            low_bits(LEN_CODE[a] as u32, LEN_BITS[a] as nat),
            low_bits(LEN_CODE[b] as u32, LEN_BITS[b] as nat),
        ),
{
    lemma_length_table_facts();
    lemma_len_rev_values();
    let codes = Seq::new(16, |k: int| LEN_CODE[k] as u32);
    let bits = Seq::new(16, |k: int| LEN_BITS[k] as u32);
    let keys = Seq::new(16, |k: int| LEN_KEY[k] as u32);
    let order = Seq::new(16, |k: int| LEN_ORDER[k] as int);
    let pos = Seq::new(16, |k: int| LEN_POS[k] as int);
    assert forall|k: int| 0 <= k < 16 implies 1 <= #[trigger] bits[k] <= 13 && codes[k] < pow2_small(
        bits[k],
    ) && keys[k] == rev13(codes[k]) by {
        assert(2 <= LEN_BITS[k] <= 7);
    }
    assert forall|k: int| 0 <= k < 16 implies 0 <= #[trigger] pos[k] < 16 && order[pos[k]] == k by {
    }
    assert forall|m: int| 0 <= m < 15 implies #[trigger] step_ok(bits, keys, order, m) by {
    }
    lemma_sorted_prefix_free(codes, bits, keys, order, pos, a, b);
}

/// Values below `2^n` with the same low `n` bits are equal.
proof fn lemma_low_bits_injective(x: u32, y: u32, n: nat)
    requires
        n <= 8,
        x < pow2_small(n as u32),
        y < pow2_small(n as u32),
        low_bits(x, n) == low_bits(y, n),
    ensures
        x == y,
{
    assert forall|i: int| 0 <= i < n implies #[trigger] bit_at(x, i) == bit_at(y, i) by {
        assert(low_bits(x, n)[i] == low_bits(y, n)[i]);
        assert(low_bits(x, n)[i] == bit_at(x, i));
        assert(low_bits(y, n)[i] == bit_at(y, i));
    }
    if 0 < n {
        assert(bit_at(x, 0) == bit_at(y, 0));
    }
    if 1 < n {
        assert(bit_at(x, 1) == bit_at(y, 1));
    }
    if 2 < n {
        assert(bit_at(x, 2) == bit_at(y, 2));
    }
    if 3 < n {
        assert(bit_at(x, 3) == bit_at(y, 3));
    }
    if 4 < n {
        assert(bit_at(x, 4) == bit_at(y, 4));
    }
    if 5 < n {
        assert(bit_at(x, 5) == bit_at(y, 5));
    }
    if 6 < n {
        assert(bit_at(x, 6) == bit_at(y, 6));
    }
    if 7 < n {
        assert(bit_at(x, 7) == bit_at(y, 7));
    }
    lemma_pow2_small_shift(n as u32);
    let nn = n as u32;
    assert(x == y) by (bit_vector)
        requires
            nn <= 8,
            x < (1u32 << nn),
            y < (1u32 << nn),
            0 < nn ==> ((((x >> 0u32) & 1u32) == 1u32) == (((y >> 0u32) & 1u32) == 1u32)),
            1 < nn ==> ((((x >> 1u32) & 1u32) == 1u32) == (((y >> 1u32) & 1u32) == 1u32)),
            2 < nn ==> ((((x >> 2u32) & 1u32) == 1u32) == (((y >> 2u32) & 1u32) == 1u32)),
            3 < nn ==> ((((x >> 3u32) & 1u32) == 1u32) == (((y >> 3u32) & 1u32) == 1u32)),
            4 < nn ==> ((((x >> 4u32) & 1u32) == 1u32) == (((y >> 4u32) & 1u32) == 1u32)),
            5 < nn ==> ((((x >> 5u32) & 1u32) == 1u32) == (((y >> 5u32) & 1u32) == 1u32)),
            6 < nn ==> ((((x >> 6u32) & 1u32) == 1u32) == (((y >> 6u32) & 1u32) == 1u32)),
            7 < nn ==> ((((x >> 7u32) & 1u32) == 1u32) == (((y >> 7u32) & 1u32) == 1u32)),
    ;
}

/// Cutting the same start off two sequences keeps one a start of the other.
proof fn lemma_prefix_drop_head(p: Seq<bool>, a: Seq<bool>, b: Seq<bool>)
    requires
        is_prefix(p + a, p + b),
    ensures
        is_prefix(a, b),
{
    assert forall|i: int| 0 <= i < a.len() implies b.take(a.len() as int)[i] == a[i] by {
        assert((p + b).take((p + a).len() as int)[p.len() + i] == (p + a)[p.len() + i]);
    }
    assert(b.take(a.len() as int) =~= a);
}

/// If `a + x` starts `b + y` and `a` is no longer than `b`, `a` starts `b`.
proof fn lemma_prefix_heads(a: Seq<bool>, x: Seq<bool>, b: Seq<bool>, y: Seq<bool>)
    requires
        is_prefix(a + x, b + y),
        a.len() <= b.len(),
    ensures
        is_prefix(a, b),
{
    assert forall|i: int| 0 <= i < a.len() implies b.take(a.len() as int)[i] == a[i] by {
        assert((b + y).take((a + x).len() as int)[i] == (a + x)[i]);
    }
    assert(b.take(a.len() as int) =~= a);
}

/// The length class of entry `v` of the lengths.
proof fn lemma_find_class(v: int) -> (c: int)
    requires
        0 <= v < 518,
    ensures
        0 <= c < 16,
        LEN_START[c] <= v < LEN_START[c + 1],
{
    if v < 1 {
        0
    } else if v < 2 {
        1
    } else if v < 3 {
        2
    } else if v < 4 {
        3
    } else if v < 5 {
        4
    } else if v < 6 {
        5
    } else if v < 7 {
        6
    } else if v < 8 {
        7
    } else if v < 10 {
        8
    } else if v < 14 {
        9
    } else if v < 22 {
        10
    } else if v < 38 {
        11
    } else if v < 70 {
        12
    } else if v < 134 {
        13
    } else if v < 262 {
        14
    } else {
        15
    }
}

/// The entry of a literal/length table at `k`.
pub open spec fn table_entry(mode: CompressionMode, size: DictionarySize, k: int) -> Seq<bool> {
    literal_entry_bits(code_tables(mode, size), k)
}

/// Two literals: the byte codes of the mode form a prefix code.
proof fn lemma_literals_prefix_free(mode: CompressionMode, size: DictionarySize, k1: int, k2: int)
    requires
        0 <= k1 < 256,
        0 <= k2 < 256,
        k1 != k2,
    ensures
        !is_prefix(table_entry(mode, size, k1), table_entry(mode, size, k2)),
{
    let e1 = table_entry(mode, size, k1);
    let e2 = table_entry(mode, size, k2);
    if is_prefix(e1, e2) {
        let b1 = k1 as u8;
        let b2 = k2 as u8;
        match mode {
            CompressionMode::Binary => {
                lemma_binary_literal_code(size, b1);
                lemma_binary_literal_code(size, b2);
                lemma_prefix_drop_head(seq![false], byte_bits(b1), byte_bits(b2));
                assert(byte_bits(b2).take(8) =~= byte_bits(b2));
                lemma_low_bits_injective(b1 as u32, b2 as u32, 8);
            },
            CompressionMode::ASCII => {
                lemma_ascii_literal_code(size, b1);
                lemma_ascii_literal_code(size, b2);
                lemma_prefix_drop_head(
                    seq![false],
                    low_bits(CH_CODE_ASC[k1] as u32, CH_BITS_ASC[k1] as nat),
                    low_bits(CH_CODE_ASC[k2] as u32, CH_BITS_ASC[k2] as nat),
                );
                lemma_ascii_codes_prefix_free(k1, k2);
            },
        }
    }
}

/// A literal and a length: their first bits differ.
proof fn lemma_literal_length_apart(mode: CompressionMode, size: DictionarySize, kl: int, kr: int)
    requires
        0 <= kl < 256,
        256 <= kr < LITERAL_TABLE_SIZE,
    ensures
        !is_prefix(table_entry(mode, size, kl), table_entry(mode, size, kr)),
        !is_prefix(table_entry(mode, size, kr), table_entry(mode, size, kl)),
{
    lemma_literal_first_bit(mode, size, kl);
    let c = lemma_find_class(kr - 256);
    lemma_length_table_facts();
    assert(LEN_START[c + 1] == LEN_START[c] + pow2_small(EX_LEN_BITS[c] as u32));
    let e = (kr - 256 - LEN_START[c]) as u32;
    lemma_length_code(mode, size, c, e);
    let a = table_entry(mode, size, kl);
    let b = table_entry(mode, size, kr);
    assert(b[0] == true);
    if is_prefix(a, b) {
        assert(b.take(a.len() as int)[0] == a[0]);
    }
    if is_prefix(b, a) {
        assert(a.take(b.len() as int)[0] == b[0]);
    }
}

/// Two lengths: the class codes form a prefix code, and within a class the
/// extra bits tell the lengths apart.
#[verifier::rlimit(40)]
proof fn lemma_lengths_prefix_free(mode: CompressionMode, size: DictionarySize, k1: int, k2: int)
    requires
        256 <= k1 < LITERAL_TABLE_SIZE,
        256 <= k2 < LITERAL_TABLE_SIZE,
        k1 != k2,
    ensures
        !is_prefix(table_entry(mode, size, k1), table_entry(mode, size, k2)),
{
    let e1 = table_entry(mode, size, k1);
    let e2 = table_entry(mode, size, k2);
    lemma_length_table_facts();
    if is_prefix(e1, e2) {
        let c1 = lemma_find_class(k1 - 256);
        let c2 = lemma_find_class(k2 - 256);
        assert(LEN_START[c1 + 1] == LEN_START[c1] + pow2_small(EX_LEN_BITS[c1] as u32));
        assert(LEN_START[c2 + 1] == LEN_START[c2] + pow2_small(EX_LEN_BITS[c2] as u32));
        let x1 = (k1 - 256 - LEN_START[c1]) as u32;
        let x2 = (k2 - 256 - LEN_START[c2]) as u32;
        lemma_length_code(mode, size, c1, x1);
        lemma_length_code(mode, size, c2, x2);
        let l1 = low_bits(LEN_CODE[c1] as u32, LEN_BITS[c1] as nat);
        let l2 = low_bits(LEN_CODE[c2] as u32, LEN_BITS[c2] as nat);
        let r1 = low_bits(x1, EX_LEN_BITS[c1] as nat);
        let r2 = low_bits(x2, EX_LEN_BITS[c2] as nat);
        assert(e1 == seq![true] + (l1 + r1)) by {
            assert(seq![true] + l1 + r1 =~= seq![true] + (l1 + r1));
        }
        assert(e2 == seq![true] + (l2 + r2)) by {
            assert(seq![true] + l2 + r2 =~= seq![true] + (l2 + r2));
        }
        lemma_prefix_drop_head(seq![true], l1 + r1, l2 + r2);
        if c1 == c2 {
            lemma_prefix_drop_head(l1, r1, r2);
            assert(r2.take(r1.len() as int) =~= r2);
            assert(EX_LEN_BITS[c1] <= 8);
            lemma_low_bits_injective(x1, x2, EX_LEN_BITS[c1] as nat);
        } else if l1.len() <= l2.len() {
            lemma_prefix_heads(l1, r1, l2, r2);
            lemma_length_class_codes_prefix_free(c1, c2);
        } else {
            // The shorter class code starts the longer one.
            assert(is_prefix(l2, l1)) by {
                assert forall|i: int| 0 <= i < l2.len() implies l1.take(l2.len() as int)[i]
                    == l2[i] by {
                    assert((l2 + r2).take((l1 + r1).len() as int)[i] == (l1 + r1)[i]);
                }
                assert(l1.take(l2.len() as int) =~= l2);
            }
            lemma_length_class_codes_prefix_free(c2, c1);
        }
    }
}

/// The literal/length table is a prefix code: no entry starts another, so a
/// reader of the stream tells each literal, each repetition length and the
/// end marker from the others by their bits alone.
pub proof fn lemma_literal_table_prefix_free(
    mode: CompressionMode,
    size: DictionarySize,
    k1: int,
    k2: int,
)
    requires
        0 <= k1 < LITERAL_TABLE_SIZE,
        0 <= k2 < LITERAL_TABLE_SIZE,
        k1 != k2,
    ensures
        !is_prefix(table_entry(mode, size, k1), table_entry(mode, size, k2)),
{
    if k1 < 256 && k2 < 256 {
        lemma_literals_prefix_free(mode, size, k1, k2);
    } else if k1 < 256 {
        lemma_literal_length_apart(mode, size, k1, k2);
    } else if k2 < 256 {
        lemma_literal_length_apart(mode, size, k2, k1);
    } else {
        lemma_lengths_prefix_free(mode, size, k1, k2);
    }
}

/// A literal's entry starts with a 0 bit.
proof fn lemma_literal_first_bit(mode: CompressionMode, size: DictionarySize, k: int)
    requires
        0 <= k < 256,
    ensures
        table_entry(mode, size, k).len() >= 1,
        table_entry(mode, size, k)[0] == false,
{
    match mode {
        CompressionMode::Binary => lemma_binary_literal_code(size, k as u8),
        CompressionMode::ASCII => lemma_ascii_literal_code(size, k as u8),
    }
}

/// The number (`rev13`) of each distance code.
pub const DIST_KEY: [u16; 64] = [
    0x1800, 0x1600, 0x1400, 0x1300, 0x1200, 0x1100, 0x1000, 0x0F80, 0x0F00, 0x0E80, 0x0E00, 0x0D80, 0x0D00, 0x0C80, 0x0C00, 0x0B80,
    0x0B00, 0x0A80, 0x0A00, 0x0980, 0x0900, 0x0880, 0x0840, 0x0800, 0x07C0, 0x0780, 0x0740, 0x0700, 0x06C0, 0x0680, 0x0640, 0x0600,
    0x05C0, 0x0580, 0x0540, 0x0500, 0x04C0, 0x0480, 0x0440, 0x0400, 0x03C0, 0x0380, 0x0340, 0x0300, 0x02C0, 0x0280, 0x0240, 0x0200,
    0x01E0, 0x01C0, 0x01A0, 0x0180, 0x0160, 0x0140, 0x0120, 0x0100, 0x00E0, 0x00C0, 0x00A0, 0x0080, 0x0060, 0x0040, 0x0020, 0x0000,
];

/// The distance codes in increasing order of their numbers.
pub const DIST_ORDER: [u8; 64] = [
    63, 62, 61, 60, 59, 58, 57, 56, 55, 54, 53, 52, 51, 50, 49, 48,
    47, 46, 45, 44, 43, 42, 41, 40, 39, 38, 37, 36, 35, 34, 33, 32,
    31, 30, 29, 28, 27, 26, 25, 24, 23, 22, 21, 20, 19, 18, 17, 16,
    15, 14, 13, 12, 11, 10, 9, 8, 7, 6, 5, 4, 3, 2, 1, 0,
];

/// The place of each distance code in `DIST_ORDER`.
pub const DIST_POS: [u8; 64] = [
    63, 62, 61, 60, 59, 58, 57, 56, 55, 54, 53, 52, 51, 50, 49, 48,
    47, 46, 45, 44, 43, 42, 41, 40, 39, 38, 37, 36, 35, 34, 33, 32,
    31, 30, 29, 28, 27, 26, 25, 24, 23, 22, 21, 20, 19, 18, 17, 16,
    15, 14, 13, 12, 11, 10, 9, 8, 7, 6, 5, 4, 3, 2, 1, 0,
];

/// The numbers of the distance codes, computed bit by bit.
proof fn lemma_dist_rev_values()
    ensures
        rev13(0x0003u32) == 0x1800u32 &&
        rev13(0x000Du32) == 0x1600u32 &&
        rev13(0x0005u32) == 0x1400u32 &&
        rev13(0x0019u32) == 0x1300u32 &&
        rev13(0x0009u32) == 0x1200u32 &&
        rev13(0x0011u32) == 0x1100u32 &&
        rev13(0x0001u32) == 0x1000u32 &&
        rev13(0x003Eu32) == 0x0F80u32 &&
        rev13(0x001Eu32) == 0x0F00u32 &&
        rev13(0x002Eu32) == 0x0E80u32 &&
        rev13(0x000Eu32) == 0x0E00u32 &&
        rev13(0x0036u32) == 0x0D80u32 &&
        rev13(0x0016u32) == 0x0D00u32 &&
        rev13(0x0026u32) == 0x0C80u32 &&
        rev13(0x0006u32) == 0x0C00u32 &&
        rev13(0x003Au32) == 0x0B80u32 &&
        rev13(0x001Au32) == 0x0B00u32 &&
        rev13(0x002Au32) == 0x0A80u32 &&
        rev13(0x000Au32) == 0x0A00u32 &&
        rev13(0x0032u32) == 0x0980u32 &&
        rev13(0x0012u32) == 0x0900u32 &&
        rev13(0x0022u32) == 0x0880u32 &&
        rev13(0x0042u32) == 0x0840u32 &&
        rev13(0x0002u32) == 0x0800u32 &&
        rev13(0x007Cu32) == 0x07C0u32 &&
        rev13(0x003Cu32) == 0x0780u32 &&
        rev13(0x005Cu32) == 0x0740u32 &&
        rev13(0x001Cu32) == 0x0700u32 &&
        rev13(0x006Cu32) == 0x06C0u32 &&
        rev13(0x002Cu32) == 0x0680u32 &&
        rev13(0x004Cu32) == 0x0640u32 &&
        rev13(0x000Cu32) == 0x0600u32 &&
        rev13(0x0074u32) == 0x05C0u32 &&
        rev13(0x0034u32) == 0x0580u32 &&
        rev13(0x0054u32) == 0x0540u32 &&
        rev13(0x0014u32) == 0x0500u32 &&
        rev13(0x0064u32) == 0x04C0u32 &&
        rev13(0x0024u32) == 0x0480u32 &&
        rev13(0x0044u32) == 0x0440u32 &&
        rev13(0x0004u32) == 0x0400u32 &&
        rev13(0x0078u32) == 0x03C0u32 &&
        rev13(0x0038u32) == 0x0380u32 &&
        rev13(0x0058u32) == 0x0340u32 &&
        rev13(0x0018u32) == 0x0300u32 &&
        rev13(0x0068u32) == 0x02C0u32 &&
        rev13(0x0028u32) == 0x0280u32 &&
        rev13(0x0048u32) == 0x0240u32 &&
        rev13(0x0008u32) == 0x0200u32 &&
        rev13(0x00F0u32) == 0x01E0u32 &&
        rev13(0x0070u32) == 0x01C0u32 &&
        rev13(0x00B0u32) == 0x01A0u32 &&
        rev13(0x0030u32) == 0x0180u32 &&
        rev13(0x00D0u32) == 0x0160u32 &&
        rev13(0x0050u32) == 0x0140u32 &&
        rev13(0x0090u32) == 0x0120u32 &&
        rev13(0x0010u32) == 0x0100u32 &&
        rev13(0x00E0u32) == 0x00E0u32 &&
        rev13(0x0060u32) == 0x00C0u32 &&
        rev13(0x00A0u32) == 0x00A0u32 &&
        rev13(0x0020u32) == 0x0080u32 &&
        rev13(0x00C0u32) == 0x0060u32 &&
        rev13(0x0040u32) == 0x0040u32 &&
        rev13(0x0080u32) == 0x0020u32 &&
        rev13(0x0000u32) == 0x0000u32,
{
    reveal(rev13);
    assert(
        rev13(0x0003u32) == 0x1800u32 &&
        rev13(0x000Du32) == 0x1600u32 &&
        rev13(0x0005u32) == 0x1400u32 &&
        rev13(0x0019u32) == 0x1300u32 &&
        rev13(0x0009u32) == 0x1200u32 &&
        rev13(0x0011u32) == 0x1100u32 &&
        rev13(0x0001u32) == 0x1000u32 &&
        rev13(0x003Eu32) == 0x0F80u32 &&
        rev13(0x001Eu32) == 0x0F00u32 &&
        rev13(0x002Eu32) == 0x0E80u32 &&
        rev13(0x000Eu32) == 0x0E00u32 &&
        rev13(0x0036u32) == 0x0D80u32 &&
        rev13(0x0016u32) == 0x0D00u32 &&
        rev13(0x0026u32) == 0x0C80u32 &&
        rev13(0x0006u32) == 0x0C00u32 &&
        rev13(0x003Au32) == 0x0B80u32 &&
        rev13(0x001Au32) == 0x0B00u32 &&
        rev13(0x002Au32) == 0x0A80u32 &&
        rev13(0x000Au32) == 0x0A00u32 &&
        rev13(0x0032u32) == 0x0980u32 &&
        rev13(0x0012u32) == 0x0900u32 &&
        rev13(0x0022u32) == 0x0880u32 &&
        rev13(0x0042u32) == 0x0840u32 &&
        rev13(0x0002u32) == 0x0800u32 &&
        rev13(0x007Cu32) == 0x07C0u32 &&
        rev13(0x003Cu32) == 0x0780u32 &&
        rev13(0x005Cu32) == 0x0740u32 &&
        rev13(0x001Cu32) == 0x0700u32 &&
        rev13(0x006Cu32) == 0x06C0u32 &&
        rev13(0x002Cu32) == 0x0680u32 &&
        rev13(0x004Cu32) == 0x0640u32 &&
        rev13(0x000Cu32) == 0x0600u32 &&
        rev13(0x0074u32) == 0x05C0u32 &&
        rev13(0x0034u32) == 0x0580u32 &&
        rev13(0x0054u32) == 0x0540u32 &&
        rev13(0x0014u32) == 0x0500u32 &&
        rev13(0x0064u32) == 0x04C0u32 &&
        rev13(0x0024u32) == 0x0480u32 &&
        rev13(0x0044u32) == 0x0440u32 &&
        rev13(0x0004u32) == 0x0400u32 &&
        rev13(0x0078u32) == 0x03C0u32 &&
        rev13(0x0038u32) == 0x0380u32 &&
        rev13(0x0058u32) == 0x0340u32 &&
        rev13(0x0018u32) == 0x0300u32 &&
        rev13(0x0068u32) == 0x02C0u32 &&
        rev13(0x0028u32) == 0x0280u32 &&
        rev13(0x0048u32) == 0x0240u32 &&
        rev13(0x0008u32) == 0x0200u32 &&
        rev13(0x00F0u32) == 0x01E0u32 &&
        rev13(0x0070u32) == 0x01C0u32 &&
        rev13(0x00B0u32) == 0x01A0u32 &&
        rev13(0x0030u32) == 0x0180u32 &&
        rev13(0x00D0u32) == 0x0160u32 &&
        rev13(0x0050u32) == 0x0140u32 &&
        rev13(0x0090u32) == 0x0120u32 &&
        rev13(0x0010u32) == 0x0100u32 &&
        rev13(0x00E0u32) == 0x00E0u32 &&
        rev13(0x0060u32) == 0x00C0u32 &&
        rev13(0x00A0u32) == 0x00A0u32 &&
        rev13(0x0020u32) == 0x0080u32 &&
        rev13(0x00C0u32) == 0x0060u32 &&
        rev13(0x0040u32) == 0x0040u32 &&
        rev13(0x0080u32) == 0x0020u32 &&
        rev13(0x0000u32) == 0x0000u32
    ) by (bit_vector);
}

/// The sixty-four codes of the upper distance bits form a prefix code.
#[verifier::rlimit(50)]
pub proof fn lemma_distance_codes_prefix_free(a: int, b: int)
    requires
        0 <= a < 64,
        0 <= b < 64,
        a != b,
    ensures
        !is_prefix(
            low_bits(DIST_CODE[a] as u32, DIST_BITS[a] as nat),
            low_bits(DIST_CODE[b] as u32, DIST_BITS[b] as nat),
        ),
{
    lemma_dist_table_facts();
    lemma_dist_rev_values();
    let codes = Seq::new(64, |k: int| DIST_CODE[k] as u32);
    let bits = Seq::new(64, |k: int| DIST_BITS[k] as u32);
    let keys = Seq::new(64, |k: int| DIST_KEY[k] as u32);
    let order = Seq::new(64, |k: int| DIST_ORDER[k] as int);
    let pos = Seq::new(64, |k: int| DIST_POS[k] as int);
    assert forall|k: int| 0 <= k < 64 implies 1 <= #[trigger] bits[k] <= 13 && codes[k] < pow2_small(
        bits[k],
    ) && keys[k] == rev13(codes[k]) by {
        assert(2 <= DIST_BITS[k] <= 8);
    }
    assert forall|k: int| 0 <= k < 64 implies 0 <= #[trigger] pos[k] < 64 && order[pos[k]] == k by {
    }
    assert forall|m: int| 0 <= m < 63 implies #[trigger] step_ok(bits, keys, order, m) by {
    }
    lemma_sorted_prefix_free(codes, bits, keys, order, pos, a, b);
}

} // verus!
