//! What the compressed stream says: a sequence of tokens, each a literal byte
//! or a repetition of earlier data, and the bits that code them.

use vstd::prelude::*;
use crate::bits::{byte_bits, lemma_distance_parts, low_bits, pow2_small};
use crate::common::{
    dict_bits, dict_bytes, mode_ctype, CompressionMode, DictionarySize, END_MARKER, LITERAL_TABLE_SIZE,
};
use crate::state::{
    length_bits_upto, length_codes_upto, literal_bits_of, literal_code_of, ImplodeState,
};
use crate::tables::{DIST_BITS, DIST_CODE};

verus! {

/// One unit of the compressed data.
pub enum Token {
    /// A byte stored as itself.
    Literal(u8),
    /// `length` bytes, each equal to the byte `distance` places before it.
    Repeat { length: nat, distance: nat },
}

/// Number of bytes a token stands for.
pub open spec fn token_len(t: Token) -> nat {
    match t {
        Token::Literal(_) => 1,
        Token::Repeat { length, distance } => length,
    }
}

/// Number of bytes a token sequence stands for.
pub open spec fn tokens_len(ts: Seq<Token>) -> nat
    decreases ts.len(),
{
    if ts.len() == 0 {
        0
    } else {
        tokens_len(ts.drop_last()) + token_len(ts.last())
    }
}

/// Token `t`, placed at position `p`, agrees with `data`.
pub open spec fn token_matches(t: Token, data: Seq<u8>, p: int) -> bool {
    match t {
        Token::Literal(b) => data[p] == b,
        Token::Repeat { length, distance } => {
            &&& 1 <= distance <= p
            &&& forall|k: int| 0 <= k < length ==> #[trigger] data[p + k] == data[p + k - distance]
        },
    }
}

/// The tokens `ts`, expanded one after the other, give exactly `data`.
pub open spec fn describes(ts: Seq<Token>, data: Seq<u8>) -> bool
    decreases ts.len(),
{
    if ts.len() == 0 {
        data.len() == 0
    } else {
        let p = tokens_len(ts.drop_last());
        &&& data.len() == p + token_len(ts.last())
        &&& describes(ts.drop_last(), data.take(p as int))
        &&& token_matches(ts.last(), data, p as int)
    }
}

/// The code tables of one compression run.
pub struct CodeTables {
    pub literal_bits: Seq<u8>,
    pub literal_codes: Seq<u16>,
    pub dist_bits: Seq<u8>,
    pub dist_codes: Seq<u8>,
    pub dsize_bits: u32,
    pub dsize_bytes: u32,
}

/// The code tables of a mode and a dictionary size.
pub open spec fn code_tables(mode: CompressionMode, size: DictionarySize) -> CodeTables {
    CodeTables {
        literal_bits: Seq::new(256, |k: int| literal_bits_of(mode, k)) + length_bits_upto(16),
        literal_codes: Seq::new(256, |k: int| literal_code_of(mode, k)) + length_codes_upto(16),
        dist_bits: DIST_BITS@,
        dist_codes: DIST_CODE@,
        dsize_bits: dict_bits(size),
        dsize_bytes: dict_bytes(size),
    }
}

impl ImplodeState {
    /// The code tables this state holds.
    pub open spec fn code_tables_view(&self) -> CodeTables {
        CodeTables {
            literal_bits: self.literal_bits@,
            literal_codes: self.literal_codes@,
            dist_bits: self.dist_bits@,
            dist_codes: self.dist_codes@,
            dsize_bits: self.dsize_bits,
            dsize_bytes: self.dsize_bytes,
        }
    }
}

/// A state set up for a mode and a dictionary size holds their code tables.
pub proof fn lemma_configured_tables(st: ImplodeState, mode: CompressionMode, size: DictionarySize)
    requires
        st.configured_for(mode, size),
    ensures
        st.code_tables_view() == code_tables(mode, size),
{
}

/// The first two bytes of a stream: the mode and the number of low distance bits.
pub open spec fn header_bits(mode: CompressionMode, size: DictionarySize) -> Seq<bool> {
    byte_bits(mode_ctype(mode) as u8) + byte_bits(dict_bits(size) as u8)
}

/// The bits of entry `k` of the literal/length table.
pub open spec fn literal_entry_bits(t: CodeTables, k: int) -> Seq<bool> {
    low_bits(t.literal_codes[k] as u32, t.literal_bits[k] as nat)
}

/// The bits of entry `k` of the distance table.
pub open spec fn dist_entry_bits(t: CodeTables, k: int) -> Seq<bool> {
    low_bits(t.dist_codes[k] as u32, t.dist_bits[k] as nat)
}

/// The bits that code a distance (stored less one) after a repetition of `length`
/// bytes: the upper bits through the distance table, then the low bits as they are.
/// A repetition of two bytes keeps two low bits, a longer one `dsize_bits`.
pub open spec fn distance_bits(t: CodeTables, length: nat, distance: nat) -> Seq<bool> {
    let d = distance - 1;
    if length == 2 {
        dist_entry_bits(t, (d / 4) as int) + low_bits((d % 4) as u32, 2)
    } else {
        let m = pow2_small(t.dsize_bits) as int;
        dist_entry_bits(t, (d / m) as int) + low_bits((d % m) as u32, t.dsize_bits as nat)
    }
}

/// Index into the distance table that the compressor computes for a
/// repetition: the distance less one, without its low bits.
pub open spec fn match_dist_index(dsize_bits: u32, length: usize, distance: usize) -> u32 {
    let d = (distance - 1) as u32;
    if length == 2 {
        d >> 2
    } else {
        d >> dsize_bits
    }
}

/// The low distance bits that follow the distance code.
pub open spec fn match_low_bits(dsize_bits: u32, length: usize, distance: usize) -> Seq<bool> {
    let d = (distance - 1) as u32;
    if length == 2 {
        low_bits(d & ((pow2_small(2) - 1) as u32), 2)
    } else {
        low_bits(d & ((pow2_small(dsize_bits) - 1) as u32), dsize_bits as nat)
    }
}

/// The bits that code one token.
pub open spec fn token_bits(t: CodeTables, tok: Token) -> Seq<bool> {
    match tok {
        Token::Literal(b) => literal_entry_bits(t, b as int),
        Token::Repeat { length, distance } => literal_entry_bits(t, length + 0xFE as int)
            + distance_bits(t, length, distance),
    }
}

/// The bits that code a token sequence.
pub open spec fn tokens_bits(t: CodeTables, ts: Seq<Token>) -> Seq<bool>
    decreases ts.len(),
{
    if ts.len() == 0 {
        Seq::empty()
    } else {
        tokens_bits(t, ts.drop_last()) + token_bits(t, ts.last())
    }
}

/// The bits of the end marker.
pub open spec fn end_bits(t: CodeTables) -> Seq<bool> {
    literal_entry_bits(t, END_MARKER as int)
}

/// A token that the format can code: a repetition takes 2 to 516 bytes and
/// reaches back at most the dictionary size, and at most 256 bytes when it
/// takes only two.
pub open spec fn token_codable(t: CodeTables, tok: Token) -> bool {
    match tok {
        Token::Literal(_) => true,
        Token::Repeat { length, distance } => {
            &&& 2 <= length <= 516
            &&& 1 <= distance <= t.dsize_bytes
            &&& length == 2 ==> distance <= 256
        },
    }
}

/// Every token of a sequence can be coded.
pub open spec fn tokens_codable(t: CodeTables, ts: Seq<Token>) -> bool {
    forall|i: int| 0 <= i < ts.len() ==> #[trigger] token_codable(t, ts[i])
}

/// For a repetition the format can code, the compressor's computation of the
/// code is in range and gives the token's bits.
pub proof fn lemma_codable_match(t: CodeTables, length: nat, distance: nat)
    requires
        4 <= t.dsize_bits <= 6,
        t.dsize_bytes == 64 * pow2_small(t.dsize_bits),
    ensures
        token_codable(t, Token::Repeat { length, distance }) ==> {
            let idx = match_dist_index(t.dsize_bits, length as usize, distance as usize);
            &&& length + 0xFE < LITERAL_TABLE_SIZE
            &&& idx < 64
            &&& literal_entry_bits(t, (length + 0xFE) as int) + dist_entry_bits(t, idx as int)
                + match_low_bits(t.dsize_bits, length as usize, distance as usize) == token_bits(
                t,
                Token::Repeat { length, distance },
            )
        },
{
    if token_codable(t, Token::Repeat { length, distance }) {
        let dm1 = (distance - 1) as u32;
        assert(dm1 == distance - 1);
        if length == 2 {
            lemma_distance_parts(dm1, 2);
        } else {
            lemma_distance_parts(dm1, t.dsize_bits);
            assert((dm1 as int) / (pow2_small(t.dsize_bits) as int) < 64) by (nonlinear_arith)
                requires
                    dm1 < 64 * pow2_small(t.dsize_bits),
                    pow2_small(t.dsize_bits) > 0,
            ;
        }
        assert(literal_entry_bits(t, (length + 0xFE) as int) + dist_entry_bits(
            t,
            match_dist_index(t.dsize_bits, length as usize, distance as usize) as int,
        ) + match_low_bits(t.dsize_bits, length as usize, distance as usize) =~= token_bits(
            t,
            Token::Repeat { length, distance },
        ));
    }
}

/// A description fixes the length of the data.
pub proof fn lemma_describes_len(ts: Seq<Token>, data: Seq<u8>)
    requires
        describes(ts, data),
    ensures
        data.len() == tokens_len(ts),
    decreases ts.len(),
{
}

/// Appending a token that agrees with the data extends a description.
pub proof fn lemma_describes_push(ts: Seq<Token>, data: Seq<u8>, t: Token, n: int)
    requires
        describes(ts, data.take(tokens_len(ts) as int)),
        tokens_len(ts) + token_len(t) == n,
        n <= data.len(),
        token_matches(t, data.take(n), tokens_len(ts) as int),
    ensures
        describes(ts.push(t), data.take(n)),
{
    let ts2 = ts.push(t);
    assert(ts2.drop_last() =~= ts);
    assert(data.take(n).take(tokens_len(ts) as int) =~= data.take(tokens_len(ts) as int));
}

/// Tokens determine the data they describe: a decoder that expands them one
/// after the other gets back the data that was compressed.
pub proof fn lemma_describes_unique(ts: Seq<Token>, d1: Seq<u8>, d2: Seq<u8>)
    requires
        describes(ts, d1),
        describes(ts, d2),
    ensures
        d1 == d2,
    decreases ts.len(),
{
    if ts.len() == 0 {
        assert(d1 =~= d2);
    } else {
        let p = tokens_len(ts.drop_last()) as int;
        lemma_describes_unique(ts.drop_last(), d1.take(p), d2.take(p));
        assert forall|i: int| 0 <= i < p implies d1[i] == d2[i] by {
            assert(d1.take(p)[i] == d2.take(p)[i]);
        }
        match ts.last() {
            Token::Literal(b) => {
                assert(d1 =~= d2);
            },
            Token::Repeat { length, distance } => {
                lemma_repeat_unique(d1, d2, p, length as int, distance as int, length as int);
                assert forall|i: int| 0 <= i < d1.len() implies d1[i] == d2[i] by {
                    if i >= p {
                        assert(d1[p + (i - p)] == d2[p + (i - p)]);
                    }
                }
                assert(d1 =~= d2);
            },
        }
    }
}

proof fn lemma_repeat_unique(d1: Seq<u8>, d2: Seq<u8>, p: int, length: int, distance: int, k: int)
    requires
        0 <= k <= length,
        d1.len() == p + length,
        d2.len() == p + length,
        1 <= distance <= p,
        forall|i: int| 0 <= i < p ==> d1[i] == d2[i],
        forall|j: int| 0 <= j < length ==> #[trigger] d1[p + j] == d1[p + j - distance],
        forall|j: int| 0 <= j < length ==> #[trigger] d2[p + j] == d2[p + j - distance],
    ensures
        forall|j: int| 0 <= j < k ==> #[trigger] d1[p + j] == d2[p + j],
    decreases k,
{
    if k > 0 {
        lemma_repeat_unique(d1, d2, p, length, distance, k - 1);
        let j = k - 1;
        assert(d1[p + j] == d1[p + j - distance]);
        assert(d2[p + j] == d2[p + j - distance]);
        if j - distance >= 0 {
            assert(d1[p + (j - distance)] == d2[p + (j - distance)]);
        }
    }
}

/// `b` starts with `a`.
#[verifier::opaque]
pub open spec fn tokens_extend(a: Seq<Token>, b: Seq<Token>) -> bool {
    a.len() <= b.len() && b.take(a.len() as int) == a
}

/// Every token sequence extends itself.
pub proof fn lemma_tokens_extend_refl(a: Seq<Token>)
    ensures
        tokens_extend(a, a),
{
    reveal(tokens_extend);
    assert(a.take(a.len() as int) =~= a);
}

/// Extending is transitive.
pub proof fn lemma_tokens_extend_trans(a: Seq<Token>, b: Seq<Token>, c: Seq<Token>)
    requires
        tokens_extend(a, b),
        tokens_extend(b, c),
    ensures
        tokens_extend(a, c),
{
    reveal(tokens_extend);
    assert(c.take(a.len() as int) =~= c.take(b.len() as int).take(a.len() as int));
}

/// Appending a token extends a sequence.
pub proof fn lemma_tokens_extend_push(a: Seq<Token>, b: Seq<Token>, t: Token)
    requires
        tokens_extend(a, b),
    ensures
        tokens_extend(a, b.push(t)),
{
    reveal(tokens_extend);
    assert(b.push(t).take(a.len() as int) =~= b.take(a.len() as int));
}

/// The bits of a longer token sequence start with those of a shorter one.
pub proof fn lemma_tokens_bits_prefix(t: CodeTables, a: Seq<Token>, b: Seq<Token>)
    requires
        tokens_extend(a, b),
    ensures
        tokens_bits(t, a).len() <= tokens_bits(t, b).len(),
        tokens_bits(t, b).take(tokens_bits(t, a).len() as int) == tokens_bits(t, a),
    decreases b.len(),
{
    reveal(tokens_extend);
    if b.len() > a.len() {
        assert(b.drop_last().take(a.len() as int) =~= b.take(a.len() as int));
        lemma_tokens_bits_prefix(t, a, b.drop_last());
        assert(tokens_bits(t, b).take(tokens_bits(t, a).len() as int) =~= tokens_bits(
            t,
            b.drop_last(),
        ).take(tokens_bits(t, a).len() as int));
    } else {
        assert(b =~= a);
        assert(tokens_bits(t, b).take(tokens_bits(t, a).len() as int) =~= tokens_bits(t, a));
    }
}

/// The bits of a token sequence with one more token.
pub proof fn lemma_tokens_bits_push(t: CodeTables, ts: Seq<Token>, tok: Token)
    ensures
        tokens_bits(t, ts.push(tok)) == tokens_bits(t, ts) + token_bits(t, tok),
        tokens_len(ts.push(tok)) == tokens_len(ts) + token_len(tok),
{
    assert(ts.push(tok).drop_last() =~= ts);
}

} // verus!
