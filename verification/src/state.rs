//! The compressor's working state: the window, the hash tables, the output
//! buffer and the code tables.

use vstd::prelude::*;
use crate::bits::{pow2_small, lemma_pow2_small_shift};
use crate::common::{
    dict_bits, dict_bytes, mode_ctype, CompressionMode, DictionarySize, PkLibError, DIST_TABLE_SIZE,
    HASH_TABLE_SIZE, LITERAL_TABLE_SIZE, OUT_BUFF_SIZE, WORK_BUFF_SIZE,
};
use crate::tables::{
    lemma_ascii_table_facts, lemma_dist_table_facts, lemma_length_table_facts, CH_BITS_ASC, CH_CODE_ASC, DIST_BITS, DIST_CODE, EX_LEN_BITS, LEN_BITS, LEN_CODE,
    LEN_START,
};

verus! {

/// All the state of one compression run.
pub struct ImplodeState {
    /// Mode byte written at the start of the stream (0 binary, 1 ASCII).
    pub ctype: u32,
    /// Number of low distance bits written after a distance code.
    pub dsize_bits: u32,
    /// Mask of those low distance bits.
    pub dsize_mask: u32,
    /// Size of the dictionary in bytes.
    pub dsize_bytes: u32,
    /// The sliding window followed by the data still to compress.
    pub work_buff: Vec<u8>,
    /// Number of bytes of `work_buff` in use.
    pub work_bytes: usize,
    /// Position in `work_buff` of the next byte to compress.
    pub work_pos: usize,
    /// For each pair hash, the index of its first entry in `phash_offs`.
    pub phash_to_index: Vec<u16>,
    /// Positions of byte pairs, sorted by hash.
    pub phash_offs: Vec<u16>,
    /// Compressed bytes not yet handed out.
    pub out_buff: Vec<u8>,
    /// Number of complete bytes in `out_buff`.
    pub out_bytes: u32,
    /// Number of bits in use in `out_buff[out_bytes]`.
    pub out_bits: u32,
    /// Code length of each literal, repetition length and the end marker.
    pub literal_bits: Vec<u8>,
    /// Code of each literal, repetition length and the end marker.
    pub literal_codes: Vec<u16>,
    /// Code length of the upper bits of a distance.
    pub dist_bits: Vec<u8>,
    /// Code of the upper bits of a distance.
    pub dist_codes: Vec<u8>,
}

/// Code length of literal byte `k` in a mode.
pub open spec fn literal_bits_of(mode: CompressionMode, k: int) -> u8 {
    match mode {
        CompressionMode::Binary => 9,
        CompressionMode::ASCII => (CH_BITS_ASC[k] + 1) as u8,
    }
}

/// Code of literal byte `k` in a mode; the lowest bit (0) marks a literal.
pub open spec fn literal_code_of(mode: CompressionMode, k: int) -> u16 {
    match mode {
        CompressionMode::Binary => (2 * k) as u16,
        CompressionMode::ASCII => (CH_CODE_ASC[k] * 2) as u16,
    }
}

/// Code of the `e`-th length of length class `i`: the class code, then `e` in
/// the class's extra bits; the lowest bit (1) marks a repetition.
pub open spec fn length_code_of(i: int, e: u32) -> u16 {
    ((e << ((LEN_BITS[i] + 1) as u32)) | ((LEN_CODE[i] * 2) as u32) | 1u32) as u16
}

/// Code lengths of the lengths of class `i`.
pub open spec fn class_bits(i: int) -> Seq<u8> {
    Seq::new(pow2_small(EX_LEN_BITS[i] as u32) as nat, |e: int| (EX_LEN_BITS[i] + LEN_BITS[i] + 1) as u8)
}

/// Codes of the lengths of class `i`.
pub open spec fn class_codes(i: int) -> Seq<u16> {
    Seq::new(pow2_small(EX_LEN_BITS[i] as u32) as nat, |e: int| length_code_of(i, e as u32))
}

/// Code lengths of the length classes below `n`, one after the other.
pub open spec fn length_bits_upto(n: int) -> Seq<u8>
    decreases n,
{
    if n <= 0 {
        Seq::empty()
    } else {
        length_bits_upto(n - 1) + class_bits(n - 1)
    }
}

/// Codes of the length classes below `n`, one after the other.
pub open spec fn length_codes_upto(n: int) -> Seq<u16>
    decreases n,
{
    if n <= 0 {
        Seq::empty()
    } else {
        length_codes_upto(n - 1) + class_codes(n - 1)
    }
}

/// The literal/length tables of a mode: the 256 literal bytes, then the
/// repetition lengths from 2 up, class by class, the last of which is the end
/// marker.
pub open spec fn literal_table_is(mode: CompressionMode, bits: Seq<u8>, codes: Seq<u16>) -> bool {
    &&& bits == Seq::new(256, |k: int| literal_bits_of(mode, k)) + length_bits_upto(16)
    &&& codes == Seq::new(256, |k: int| literal_code_of(mode, k)) + length_codes_upto(16)
}

/// Every code fits into its code length, which is between 1 and `max`.
pub open spec fn codes_fit(bits: Seq<u8>, codes: Seq<u16>, max: u8) -> bool {
    &&& bits.len() == codes.len()
    &&& forall|k: int|
        0 <= k < bits.len() ==> 1 <= #[trigger] bits[k] <= max && (codes[k] as u32) < pow2_small(
            bits[k] as u32,
        )
}

impl ImplodeState {
    /// The buffers and tables have the sizes of the format.
    pub open spec fn sizes_ok(&self) -> bool {
        &&& self.work_buff@.len() == WORK_BUFF_SIZE
        &&& self.phash_to_index@.len() == HASH_TABLE_SIZE
        &&& self.phash_offs@.len() == WORK_BUFF_SIZE
        &&& self.out_buff@.len() == OUT_BUFF_SIZE
        &&& self.literal_bits@.len() == LITERAL_TABLE_SIZE
        &&& self.literal_codes@.len() == LITERAL_TABLE_SIZE
        &&& self.dist_bits@.len() == DIST_TABLE_SIZE
        &&& self.dist_codes@.len() == DIST_TABLE_SIZE
    }

    /// Every code fits into its length, and the dictionary fields agree.
    pub open spec fn tables_ok(&self) -> bool {
        &&& forall|k: int|
            0 <= k < LITERAL_TABLE_SIZE ==> 1 <= #[trigger] self.literal_bits@[k] <= 16
                && (self.literal_codes@[k] as u32) < pow2_small(self.literal_bits@[k] as u32)
        &&& forall|k: int|
            0 <= k < DIST_TABLE_SIZE ==> 1 <= #[trigger] self.dist_bits@[k] <= 8
                && (self.dist_codes@[k] as u32) < pow2_small(self.dist_bits@[k] as u32)
        &&& 4 <= self.dsize_bits <= 6
        &&& self.dsize_mask == pow2_small(self.dsize_bits) - 1
        &&& self.dsize_bytes == 64 * pow2_small(self.dsize_bits)
        &&& self.ctype <= 1
    }

    /// The state is one that compression can continue from.
    pub open spec fn wf(&self) -> bool {
        &&& self.sizes_ok()
        &&& self.tables_ok()
        &&& self.work_pos <= self.work_bytes <= WORK_BUFF_SIZE
    }

    /// The tables and dictionary fields are the ones of a mode and a dictionary size.
    pub open spec fn configured_for(&self, mode: CompressionMode, size: DictionarySize) -> bool {
        &&& self.ctype == mode_ctype(mode)
        &&& self.dsize_bits == dict_bits(size)
        &&& self.dsize_bytes == dict_bytes(size)
        &&& literal_table_is(mode, self.literal_bits@, self.literal_codes@)
        &&& self.dist_bits@ == DIST_BITS@
        &&& self.dist_codes@ == DIST_CODE@
    }
}

pub(crate) fn zeroed_u8(n: usize) -> (v: Vec<u8>)
    ensures
        v@ == Seq::new(n as nat, |i: int| 0u8),
{
    let mut v: Vec<u8> = Vec::new();
    for i in 0..n
        invariant
            v@ == Seq::new(i as nat, |j: int| 0u8),
    {
        v.push(0);
    }
    v
}

pub(crate) fn zeroed_u16(n: usize) -> (v: Vec<u16>)
    ensures
        v@ == Seq::new(n as nat, |i: int| 0u16),
{
    let mut v: Vec<u16> = Vec::new();
    for i in 0..n
        invariant
            v@ == Seq::new(i as nat, |j: int| 0u16),
    {
        v.push(0);
    }
    v
}

proof fn lemma_pow2_small_double(b: u32)
    requires
        b <= 15,
    ensures
        pow2_small((b + 1) as u32) == 2 * pow2_small(b),
{
}

pub(crate) proof fn lemma_length_code_fits(e: u32, ex: u32, lb: u32, lc: u32)
    requires
        ex <= 8,
        2 <= lb <= 7,
        e < pow2_small(ex),
        lc < pow2_small(lb),
    ensures
        ((e << ((lb + 1) as u32)) | ((lc * 2) as u32) | 1u32) < pow2_small((ex + lb + 1) as u32),
{
    lemma_pow2_small_shift(ex);
    lemma_pow2_small_shift(lb);
    lemma_pow2_small_shift((ex + lb + 1) as u32);
    assert(((e << ((lb + 1) as u32)) | ((lc * 2) as u32) | 1u32) < (1u32 << ((ex + lb + 1) as u32))) by (bit_vector)
        requires
            ex <= 8,
            2 <= lb <= 7,
            e < (1u32 << ex),
            lc < (1u32 << lb),
    ;
}

fn literal_entries(mode: CompressionMode) -> (r: (Vec<u8>, Vec<u16>))
    ensures
        r.0@ == Seq::new(256, |k: int| literal_bits_of(mode, k)),
        r.1@ == Seq::new(256, |k: int| literal_code_of(mode, k)),
        codes_fit(r.0@, r.1@, 16),
{
    proof {
        lemma_ascii_table_facts();
    }
    let mut bits: Vec<u8> = Vec::new();
    let mut codes: Vec<u16> = Vec::new();
    for k in 0..256usize
        invariant
            bits@ == Seq::new(k as nat, |j: int| literal_bits_of(mode, j)),
            codes@ == Seq::new(k as nat, |j: int| literal_code_of(mode, j)),
            codes_fit(bits@, codes@, 16),
            forall|i: int|
                0 <= i < 256 ==> 4 <= #[trigger] CH_BITS_ASC[i] <= 13 && (CH_CODE_ASC[i] as int)
                    < pow2_small(CH_BITS_ASC[i] as u32),
    {
        match mode {
            CompressionMode::Binary => {
                bits.push(9);
                codes.push((2 * k) as u16);
            },
            CompressionMode::ASCII => {
                let b = CH_BITS_ASC[k];
                let c = CH_CODE_ASC[k];
                proof {
                    lemma_pow2_small_double(b as u32);
                }
                bits.push(b + 1);
                codes.push(c * 2);
            },
        }
        assert(bits@ =~= Seq::new((k + 1) as nat, |j: int| literal_bits_of(mode, j)));
        assert(codes@ =~= Seq::new((k + 1) as nat, |j: int| literal_code_of(mode, j)));
    }
    (bits, codes)
}

/// Appends the entries of length class `i`.
fn push_length_class(bits: &mut Vec<u8>, codes: &mut Vec<u16>, i: usize)
    requires
        i < 16,
        codes_fit(old(bits)@, old(codes)@, 16),
    ensures
        final(bits)@ == old(bits)@ + class_bits(i as int),
        final(codes)@ == old(codes)@ + class_codes(i as int),
        codes_fit(final(bits)@, final(codes)@, 16),
{
    proof {
        lemma_length_table_facts();
    }
    let ex = EX_LEN_BITS[i] as u32;
    let lb = LEN_BITS[i] as u32;
    let lc = LEN_CODE[i] as u32;
    proof {
        lemma_pow2_small_shift(ex);
    }
    let count: u32 = 1u32 << ex;
    let ghost b0 = bits@;
    let ghost c0 = codes@;
    for e in 0..count
        invariant
            count == pow2_small(ex),
            ex == EX_LEN_BITS[i as int],
            lb == LEN_BITS[i as int],
            lc == LEN_CODE[i as int],
            i < 16,
            ex <= 8,
            2 <= lb <= 7,
            lc < pow2_small(lb),
            bits@ == b0 + class_bits(i as int).take(e as int),
            codes@ == c0 + class_codes(i as int).take(e as int),
            codes_fit(bits@, codes@, 16),
    {
        proof {
            lemma_length_code_fits(e, ex, lb, lc);
            assert(ex + lb + 1 <= 16);
        }
        let code: u32 = (e << (lb + 1)) | (lc * 2) | 1u32;
        bits.push((ex + lb + 1) as u8);
        codes.push(code as u16);
        assert(bits@ =~= b0 + class_bits(i as int).take(e + 1));
        assert(codes@ =~= c0 + class_codes(i as int).take(e + 1));
    }
    assert(class_bits(i as int).take(count as int) =~= class_bits(i as int));
    assert(class_codes(i as int).take(count as int) =~= class_codes(i as int));
}

/// Builds the literal/length tables of a mode.
fn build_literal_tables(mode: CompressionMode) -> (r: (Vec<u8>, Vec<u16>))
    ensures
        literal_table_is(mode, r.0@, r.1@),
        codes_fit(r.0@, r.1@, 16),
        r.0@.len() == LITERAL_TABLE_SIZE,
{
    let (mut bits, mut codes) = literal_entries(mode);
    let ghost lb0 = bits@;
    let ghost lc0 = codes@;
    proof {
        lemma_length_table_facts();
    }
    for i in 0..16usize
        invariant
            bits@ == lb0 + length_bits_upto(i as int),
            codes@ == lc0 + length_codes_upto(i as int),
            codes_fit(bits@, codes@, 16),
            bits@.len() == 256 + LEN_START[i as int],
            forall|ii: int|
                0 <= ii < 16 ==> #[trigger] LEN_START[ii + 1] == LEN_START[ii] + pow2_small(
                    EX_LEN_BITS[ii] as u32,
                ),
            LEN_START[0] == 0,
            LEN_START[16] == 518,
            lb0.len() == 256,
    {
        push_length_class(&mut bits, &mut codes, i);
        assert(LEN_START[i + 1] == LEN_START[i as int] + pow2_small(EX_LEN_BITS[i as int] as u32));
        assert(bits@ =~= lb0 + length_bits_upto(i + 1));
        assert(codes@ =~= lc0 + length_codes_upto(i + 1));
    }
    (bits, codes)
}

fn copy_table(t: &[u8; 64]) -> (v: Vec<u8>)
    ensures
        v@ == t@,
{
    let mut v: Vec<u8> = Vec::new();
    for i in 0..64usize
        invariant
            v@ == t@.take(i as int),
    {
        v.push(t[i]);
        assert(t@.take(i + 1) =~= t@.take(i as int).push(t@[i as int]));
    }
    assert(t@.take(64) =~= t@);
    v
}

impl ImplodeState {
    /// A fresh state for a mode and a dictionary size: empty window and output,
    /// zeroed hash tables, and the code tables of the mode.
    pub fn new(mode: CompressionMode, dict_size: DictionarySize) -> (r: Result<Self, PkLibError>)
        ensures
            r is Ok,
            r matches Ok(st) ==> {
                &&& st.wf()
                &&& st.configured_for(mode, dict_size)
                &&& st.work_bytes == 0
                &&& st.work_pos == 0
                &&& st.out_bytes == 0
                &&& st.out_bits == 0
                &&& st.out_buff@ == Seq::new(OUT_BUFF_SIZE as nat, |i: int| 0u8)
                &&& st.work_buff@ == Seq::new(WORK_BUFF_SIZE as nat, |i: int| 0u8)
                &&& st.phash_to_index@ == Seq::new(HASH_TABLE_SIZE as nat, |i: int| 0u16)
                &&& st.phash_offs@ == Seq::new(WORK_BUFF_SIZE as nat, |i: int| 0u16)
            },
    {
        let (dsize_bits, dsize_mask, dsize_bytes): (u32, u32, u32) = match dict_size {
            DictionarySize::Size1K => (4, 0x0F, 1024),
            DictionarySize::Size2K => (5, 0x1F, 2048),
            DictionarySize::Size4K => (6, 0x3F, 4096),
        };
        let ctype: u32 = match mode {
            CompressionMode::Binary => 0,
            CompressionMode::ASCII => 1,
        };
        let (literal_bits, literal_codes) = build_literal_tables(mode);
        proof {
            lemma_dist_table_facts();
        }
        let dist_bits = copy_table(&DIST_BITS);
        let dist_codes = copy_table(&DIST_CODE);
        Ok(ImplodeState {
            ctype,
            dsize_bits,
            dsize_mask,
            dsize_bytes,
            work_buff: zeroed_u8(WORK_BUFF_SIZE),
            work_bytes: 0,
            work_pos: 0,
            phash_to_index: zeroed_u16(HASH_TABLE_SIZE),
            phash_offs: zeroed_u16(WORK_BUFF_SIZE),
            out_buff: zeroed_u8(OUT_BUFF_SIZE),
            out_bytes: 0,
            out_bits: 0,
            literal_bits,
            literal_codes,
            dist_bits,
            dist_codes,
        })
    }
}

} // verus!
