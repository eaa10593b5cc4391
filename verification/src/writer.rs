//! The streaming compressor: it gathers input, codes it as literals and
//! repetitions, and packs the codes into bytes.
//!
//! Handing the compressed bytes to a sink is left to the caller: the writer
//! keeps them until `take_output` (or `finish`) gives them away.

use vstd::prelude::*;
use crate::bits::{
    byte_bits, bytes_bits, covers, lemma_bytes_bits_append, lemma_bytes_bits_len, lemma_bytes_bits_push, lemma_covers_any,
    lemma_covers_zero, lemma_covers_zero_byte, lemma_distance_parts, lemma_fits, lemma_split_bits, lemma_stream_carry,
    lemma_stream_fill, lemma_stream_within, low_bits, pad_bits,
};
use crate::common::{
    CompressionMode, DictionarySize, MatchResult, PkLibError, END_MARKER, LITERAL_TABLE_SIZE,
    MAX_REP_LENGTH, OUT_BUFF_SIZE, OUT_FLUSH_LIMIT, WORK_BUFF_SIZE,
};
use crate::common::dict_bytes;
use crate::hash::{sort_stop, table_built};
use crate::pattern::{lemma_repetition_model, model_repetition, valid_repeat};
use crate::state::{zeroed_u8, ImplodeState};
use crate::tokens::{
    code_tables, describes, dist_entry_bits, end_bits, header_bits, lemma_codable_match,
    lemma_configured_tables, lemma_describes_len, lemma_describes_push, lemma_tokens_bits_push,
    literal_entry_bits, match_dist_index, match_low_bits, token_bits, token_codable, token_len,
    lemma_tokens_bits_prefix, lemma_tokens_extend_push, lemma_tokens_extend_refl,
    lemma_tokens_extend_trans, tokens_bits, tokens_codable, tokens_extend, tokens_len,
    CodeTables, Token,
};

verus! {

/// Streaming compressor.
pub struct ImplodeWriter {
    state: ImplodeState,
    initialized: bool,
    input_buffer: Vec<u8>,
    output: Vec<u8>,
    mode: Ghost<CompressionMode>,
    size: Ghost<DictionarySize>,
    written: Ghost<Seq<u8>>,
    consumed: Ghost<Seq<u8>>,
    base: Ghost<int>,
    tokens: Ghost<Seq<Token>>,
    taken: Ghost<Seq<u8>>,
}

/// Where `compress_buffer(is_final)` stops coding a window of `work_bytes`
/// bytes: at its end when `is_final`, else 516 bytes before it (or at 0).
pub open spec fn compress_limit(work_bytes: int, is_final: bool) -> int {
    if is_final {
        work_bytes
    } else if work_bytes >= MAX_REP_LENGTH {
        work_bytes - MAX_REP_LENGTH
    } else {
        0
    }
}

/// The greedy parse of the window of `st` from `pos` until `limit` is
/// reached: at each position the repetition that `repetition_at` gives, if
/// it has two bytes or more, else the byte there as a literal. Gives the
/// tokens and the position after the last one.
pub open spec fn greedy_parse(st: ImplodeState, pos: int, limit: int) -> (Seq<Token>, int)
    decreases (if pos < limit {
        limit - pos
    } else {
        0
    }),
{
    if pos >= limit {
        (Seq::empty(), pos)
    } else {
        let l = st.repetition_at(pos).0;
        let d = st.repetition_at(pos).1;
        if l >= 2 {
            let rest = greedy_parse(st, pos + l, limit);
            (seq![Token::Repeat { length: l as nat, distance: d as nat }] + rest.0, rest.1)
        } else {
            let rest = greedy_parse(st, pos + 1, limit);
            (seq![Token::Literal(st.work_buff@[pos])] + rest.0, rest.1)
        }
    }
}

/// The greedy parse of `data` from `pos` until `limit` is reached, stated on
/// the data alone: at each position the repetition of `model_repetition`, if
/// it has two bytes or more, else the byte there as a literal.
pub open spec fn model_greedy(data: Seq<u8>, dsize: int, pos: int, limit: int) -> (Seq<Token>, int)
    decreases (if pos < limit {
        limit - pos
    } else {
        0
    }),
{
    if pos >= limit {
        (Seq::empty(), pos)
    } else {
        let l = model_repetition(data, dsize, pos).0;
        let d = model_repetition(data, dsize, pos).1;
        if l >= 2 {
            let rest = model_greedy(data, dsize, pos + l, limit);
            (seq![Token::Repeat { length: l as nat, distance: d as nat }] + rest.0, rest.1)
        } else {
            let rest = model_greedy(data, dsize, pos + 1, limit);
            (seq![Token::Literal(data[pos])] + rest.0, rest.1)
        }
    }
}

/// With the hash table built over a window that holds `data`, the greedy
/// parse of the window is that of the data alone.
proof fn lemma_greedy_model(st: ImplodeState, data: Seq<u8>, pos: int, limit: int)
    requires
        st.sizes_ok(),
        st.work_bytes == data.len(),
        st.work_bytes <= WORK_BUFF_SIZE,
        st.work_buff@.take(data.len() as int) == data,
        data.len() >= 2 ==> table_built(&st, st.work_buff@, 0, data.len() - 1),
        0 <= pos,
        limit <= data.len(),
    ensures
        greedy_parse(st, pos, limit) == model_greedy(data, st.dsize_bytes as int, pos, limit),
    decreases (if pos < limit {
        limit - pos
    } else {
        0
    }),
{
    if pos < limit {
        lemma_repetition_model(&st, data, pos);
        assert(st.work_buff@.take(data.len() as int)[pos] == st.work_buff@[pos]);
        let l = st.repetition_at(pos).0;
        if l >= 2 {
            lemma_greedy_model(st, data, pos + l, limit);
        } else {
            lemma_greedy_model(st, data, pos + 1, limit);
        }
    }
}

/// What making room in a full window does, on the window, its position and
/// the dictionary size alone: keep the last dictionary before the position,
/// or, when the position is not that far in, code the whole window and start
/// an empty one. Gives the tokens coded, the window and the position.
pub open spec fn model_slide(window: Seq<u8>, pos: int, ds: int) -> (Seq<Token>, Seq<u8>, int) {
    if window.len() == WORK_BUFF_SIZE {
        if pos > ds {
            (Seq::empty(), window.skip(pos - ds), ds)
        } else {
            (model_greedy(window, ds, pos, window.len() as int).0, Seq::empty(), 0)
        }
    } else {
        (Seq::empty(), window, pos)
    }
}

/// What moving `input` into the window and coding it does, on the data
/// alone: while input is left, make room if the window is full, move in as
/// much as fits, and, once the window holds two bytes or more, code it
/// greedily up to 516 bytes before its end. Gives the tokens coded, the
/// window and the position.
#[verifier::opaque]
pub open spec fn model_process(window: Seq<u8>, pos: int, input: Seq<u8>, ds: int) -> (
    Seq<Token>,
    Seq<u8>,
    int,
)
    decreases input.len(),
{
    if input.len() == 0 || window.len() > WORK_BUFF_SIZE || pos < 0 || pos > window.len() || ds
        < 0 {
        (Seq::empty(), window, pos)
    } else {
        let slid = model_slide(window, pos, ds);
        let space = WORK_BUFF_SIZE - slid.1.len();
        let k = if input.len() < space {
            input.len() as int
        } else {
            space
        };
        if k < 1 {
            (Seq::empty(), window, pos)
        } else {
            let w2 = slid.1 + input.take(k);
            let g = if w2.len() > 1 {
                model_greedy(w2, ds, slid.2, compress_limit(w2.len() as int, false))
            } else {
                (Seq::empty(), slid.2)
            };
            let rest = model_process(w2, g.1, input.skip(k), ds);
            (slid.0 + g.0 + rest.0, rest.1, rest.2)
        }
    }
}

/// The tokens that coding everything to the end gives, from a window, its
/// position and the input not yet moved in, on the data alone: the input is
/// processed, then the rest of the window is coded to its end.
pub open spec fn model_finish(window: Seq<u8>, pos: int, input: Seq<u8>, ds: int) -> Seq<Token> {
    let m = model_process(window, pos, input, ds);
    m.0 + model_greedy(m.1, ds, m.2, m.1.len() as int).0
}

/// The tokens for compressing `data` in one go with a dictionary of `ds`
/// bytes.
pub open spec fn model_compress(data: Seq<u8>, ds: int) -> Seq<Token> {
    model_finish(Seq::empty(), 0, data, ds)
}

/// One pass of `model_process`.
proof fn lemma_model_process_step(window: Seq<u8>, pos: int, input: Seq<u8>, ds: int)
    requires
        input.len() > 0,
        window.len() <= WORK_BUFF_SIZE,
        0 <= pos <= window.len(),
        ds >= 0,
    ensures
        ({
            let slid = model_slide(window, pos, ds);
            let k = if input.len() < WORK_BUFF_SIZE - slid.1.len() {
                input.len() as int
            } else {
                WORK_BUFF_SIZE - slid.1.len()
            };
            let w2 = slid.1 + input.take(k);
            let g = if w2.len() > 1 {
                model_greedy(w2, ds, slid.2, compress_limit(w2.len() as int, false))
            } else {
                (Seq::<Token>::empty(), slid.2)
            };
            let rest = model_process(w2, g.1, input.skip(k), ds);
            k >= 1 ==> model_process(window, pos, input, ds) == (slid.0 + g.0 + rest.0, rest.1, rest.2)
        }),
{
    reveal(model_process);
}

/// The greedy parse depends only on the window, the hash table and the
/// dictionary size.
proof fn lemma_greedy_same(s1: ImplodeState, s2: ImplodeState, pos: int, limit: int)
    requires
        s1.work_buff == s2.work_buff,
        s1.work_bytes == s2.work_bytes,
        s1.phash_to_index == s2.phash_to_index,
        s1.phash_offs == s2.phash_offs,
        s1.dsize_bytes == s2.dsize_bytes,
    ensures
        greedy_parse(s1, pos, limit) == greedy_parse(s2, pos, limit),
    decreases (if pos < limit {
        limit - pos
    } else {
        0
    }),
{
    if pos < limit {
        assert(s1.repetition_at(pos) == s2.repetition_at(pos));
        let l = s1.repetition_at(pos).0;
        if l >= 2 {
            lemma_greedy_same(s1, s2, pos + l, limit);
        } else {
            lemma_greedy_same(s1, s2, pos + 1, limit);
        }
    }
}

impl ImplodeWriter {
    /// All the bytes given to `write` so far.
    pub closed spec fn written(&self) -> Seq<u8> {
        self.written@
    }

    /// All the compressed bytes handed out so far.
    pub closed spec fn taken(&self) -> Seq<u8> {
        self.taken@
    }

    /// Compressed bytes ready to be handed out.
    pub closed spec fn pending(&self) -> Seq<u8> {
        self.output@
    }

    /// The mode the writer was made with.
    pub closed spec fn mode(&self) -> CompressionMode {
        self.mode@
    }

    /// The dictionary size the writer was made with.
    pub closed spec fn dict_size(&self) -> DictionarySize {
        self.size@
    }

    /// The code tables in use.
    pub open spec fn tables(&self) -> CodeTables {
        code_tables(self.mode(), self.dict_size())
    }

    /// The bits produced so far: those handed out or pending, then the
    /// complete bytes of the output buffer, then the bits in use of its
    /// partial byte.
    pub closed spec fn stream(&self) -> Seq<bool> {
        bytes_bits(self.taken@ + self.output@ + self.state.out_buff@.take(
            self.state.out_bytes as int,
        )) + byte_bits(self.state.out_buff@[self.state.out_bytes as int]).take(
            self.state.out_bits as int,
        )
    }

    /// The output buffer is in shape, and the bits of its partial byte above
    /// those in use are bits of `pending`, the rest of the value being written.
    closed spec fn out_ok(&self, pending: u32) -> bool {
        &&& self.state.sizes_ok()
        &&& self.state.out_bytes < OUT_FLUSH_LIMIT
        &&& self.state.out_bits < 8
        &&& forall|i: int|
            self.state.out_bytes < i < OUT_BUFF_SIZE ==> #[trigger] self.state.out_buff@[i] == 0
        &&& covers(self.state.out_buff@[self.state.out_bytes as int] as u32, self.state.out_bits, pending)
    }

    /// The pending output grew from that of `old` by whole blocks of 0x800
    /// bytes, the size at which the output buffer is emptied.
    closed spec fn grew_by_blocks(&self, old: &ImplodeWriter) -> bool {
        &&& old.output@.len() <= self.output@.len()
        &&& (self.output@.len() - old.output@.len()) % (OUT_FLUSH_LIMIT as int) == 0
    }

    /// Growth by whole blocks adds up.
    proof fn lemma_blocks_trans(a: ImplodeWriter, b: ImplodeWriter, c: ImplodeWriter)
        requires
            b.grew_by_blocks(&a),
            c.grew_by_blocks(&b),
        ensures
            c.grew_by_blocks(&a),
    {
        let x = b.output@.len() - a.output@.len();
        let y = c.output@.len() - b.output@.len();
        assert((x + y) % 0x800 == 0) by (nonlinear_arith)
            requires
                x % 0x800 == 0,
                y % 0x800 == 0,
                x >= 0,
                y >= 0,
        ;
    }

    /// Everything but the output buffer is as in `old`.
    closed spec fn same_but_output(&self, old: &ImplodeWriter) -> bool {
        &&& self.state.ctype == old.state.ctype
        &&& self.state.dsize_bits == old.state.dsize_bits
        &&& self.state.dsize_mask == old.state.dsize_mask
        &&& self.state.dsize_bytes == old.state.dsize_bytes
        &&& self.state.work_buff == old.state.work_buff
        &&& self.state.work_bytes == old.state.work_bytes
        &&& self.state.work_pos == old.state.work_pos
        &&& self.state.phash_to_index == old.state.phash_to_index
        &&& self.state.phash_offs == old.state.phash_offs
        &&& self.state.literal_bits == old.state.literal_bits
        &&& self.state.literal_codes == old.state.literal_codes
        &&& self.state.dist_bits == old.state.dist_bits
        &&& self.state.dist_codes == old.state.dist_codes
        &&& self.initialized == old.initialized
        &&& self.input_buffer == old.input_buffer
        &&& self.mode == old.mode
        &&& self.size == old.size
        &&& self.written == old.written
        &&& self.consumed == old.consumed
        &&& self.base == old.base
        &&& self.tokens == old.tokens
        &&& self.taken == old.taken
    }

    /// The start of the stream: the two header bytes once the writer has begun.
    closed spec fn header(&self) -> Seq<bool> {
        if self.initialized {
            header_bits(self.mode@, self.size@)
        } else {
            Seq::empty()
        }
    }

    /// The window holds the latest consumed input, the tokens describe the
    /// consumed input up to the window position, and the stream codes them.
    closed spec fn core_ok(&self) -> bool {
        &&& self.state.wf()
        &&& self.state.configured_for(self.mode@, self.size@)
        &&& 0 <= self.base@
        &&& self.base@ + self.state.work_bytes == self.consumed@.len()
        &&& self.state.work_buff@.take(self.state.work_bytes as int) == self.consumed@.skip(
            self.base@,
        )
        &&& describes(self.tokens@, self.consumed@.take(self.base@ + self.state.work_pos))
        &&& tokens_codable(self.tables(), self.tokens@)
        &&& self.stream() == self.header() + tokens_bits(self.tables(), self.tokens@)
        &&& !self.initialized ==> {
            &&& self.consumed@.len() == 0
            &&& self.tokens@.len() == 0
            &&& self.state.out_bytes == 0
            &&& self.state.out_bits == 0
            &&& self.taken@.len() == 0
            &&& self.output@.len() == 0
        }
    }

    /// The writer is consistent: all written input is either in the window
    /// or waiting in the input buffer.
    pub closed spec fn inv(&self) -> bool {
        &&& self.core_ok()
        &&& self.out_ok(0)
        &&& self.consumed@ + self.input_buffer@ == self.written@
        &&& self.state.work_bytes - self.state.work_pos <= MAX_REP_LENGTH
        &&& self.hashed()
    }

    /// A window of two bytes or more has its hash table built over it.
    closed spec fn hashed(&self) -> bool {
        self.state.work_bytes > 1 ==> table_built(
            &self.state,
            self.state.work_buff@,
            0,
            self.state.work_bytes - 1,
        )
    }

    /// The tokens whose codes are in the stream, in order.
    pub closed spec fn tokens(&self) -> Seq<Token> {
        self.tokens@
    }

    /// The window: the latest input moved in, the base of repetitions.
    pub closed spec fn window(&self) -> Seq<u8> {
        self.state.work_buff@.take(self.state.work_bytes as int)
    }

    /// The position in the window up to which its bytes are coded.
    pub closed spec fn window_pos(&self) -> int {
        self.state.work_pos as int
    }

    /// The written bytes not yet moved into the window.
    pub closed spec fn buffered(&self) -> Seq<u8> {
        self.input_buffer@
    }

    /// Number of written bytes not yet moved into the window.
    pub closed spec fn waiting(&self) -> nat {
        self.input_buffer@.len()
    }

    /// Number of written bytes, from the first on, whose codes are in the
    /// stream.
    pub closed spec fn coded_len(&self) -> int {
        self.base@ + self.state.work_pos
    }

    /// A writer for a mode and a dictionary size; nothing written yet.
    pub fn new(mode: CompressionMode, dict_size: DictionarySize) -> (r: Result<Self, PkLibError>)
        ensures
            r is Ok,
            r matches Ok(w) ==> {
                &&& w.inv()
                &&& w.mode() == mode
                &&& w.dict_size() == dict_size
                &&& w.written() == Seq::<u8>::empty()
                &&& w.taken() == Seq::<u8>::empty()
                &&& w.pending() == Seq::<u8>::empty()
                &&& w.tokens() == Seq::<Token>::empty()
                &&& w.window() == Seq::<u8>::empty()
                &&& w.window_pos() == 0
                &&& w.buffered() == Seq::<u8>::empty()
                &&& !w.started()
            },
    {
        let state = ImplodeState::new(mode, dict_size)?;
        let w = ImplodeWriter {
            state,
            initialized: false,
            input_buffer: Vec::new(),
            output: Vec::new(),
            mode: Ghost(mode),
            size: Ghost(dict_size),
            written: Ghost(Seq::empty()),
            consumed: Ghost(Seq::empty()),
            base: Ghost(0),
            tokens: Ghost(Seq::empty()),
            taken: Ghost(Seq::empty()),
        };
        proof {
            assert(w.state.work_buff@.take(0) =~= w.consumed@.skip(0));
            assert(w.consumed@.take(0) =~= Seq::<u8>::empty());
            assert(w.taken@ + w.output@ + w.state.out_buff@.take(0) =~= Seq::<u8>::empty());
            assert(w.stream() =~= Seq::<bool>::empty());
            assert(tokens_bits(w.tables(), Seq::<Token>::empty()) =~= Seq::<bool>::empty());
            lemma_covers_zero_byte(0);
        }
        Ok(w)
    }

    /// Hands out the compressed bytes gathered so far.
    pub fn take_output(&mut self) -> (r: Vec<u8>)
        requires
            old(self).inv(),
        ensures
            final(self).inv(),
            r@ == old(self).pending(),
            final(self).pending() == Seq::<u8>::empty(),
            final(self).taken() == old(self).taken() + old(self).pending(),
            final(self).written() == old(self).written(),
            final(self).mode() == old(self).mode(),
            final(self).dict_size() == old(self).dict_size(),
            final(self).started() == old(self).started(),
            final(self).stream() == old(self).stream(),
    {
        let mut r: Vec<u8> = Vec::new();
        std::mem::swap(&mut r, &mut self.output);
        proof {
            self.taken@ = self.taken@ + r@;
            assert(self.taken@ + self.output@ =~= old(self).taken@ + old(self).output@);
        }
        r
    }

    /// Moves the complete bytes of the output buffer to the pending output and
    /// keeps the partial byte, if any, at the start of the buffer. With no
    /// complete byte, or a count past the buffer, nothing changes.
    fn flush_output_buffer(&mut self)
        requires
            old(self).state.sizes_ok(),
        ensures
            final(self).same_but_output(old(self)),
            final(self).state.sizes_ok(),
            final(self).state.out_bits == old(self).state.out_bits,
            0 < old(self).state.out_bytes <= OUT_BUFF_SIZE ==> {
                &&& final(self).state.out_bytes == 0
                &&& final(self).output@ == old(self).output@ + old(self).state.out_buff@.take(
                    old(self).state.out_bytes as int,
                )
                &&& final(self).state.out_buff@[0] == (if old(self).state.out_bits > 0
                    && old(self).state.out_bytes < OUT_BUFF_SIZE {
                    old(self).state.out_buff@[old(self).state.out_bytes as int]
                } else {
                    0
                })
                &&& forall|i: int|
                    0 < i < OUT_BUFF_SIZE ==> #[trigger] final(self).state.out_buff@[i] == 0
            },
            0 < old(self).state.out_bytes < OUT_BUFF_SIZE && old(self).state.out_bits < 8
                ==> final(self).stream() == old(self).stream(),
            old(self).state.out_bytes == 0 || old(self).state.out_bytes > OUT_BUFF_SIZE
                ==> *final(self) == *old(self),
    {
        if self.state.out_bytes > 0 {
            let bytes_to_write = self.state.out_bytes as usize;
            if bytes_to_write <= self.state.out_buff.len() {
                let mut chunk = copy_prefix(&self.state.out_buff, bytes_to_write);
                self.output.append(&mut chunk);
                let save_byte = if self.state.out_bits > 0 && bytes_to_write
                    < self.state.out_buff.len() {
                    self.state.out_buff[bytes_to_write]
                } else {
                    0
                };
                let ghost before = self.state.out_buff@;
                self.state.out_buff = zeroed_u8(OUT_BUFF_SIZE);
                self.state.out_bytes = 0;
                if self.state.out_bits > 0 {
                    self.state.out_buff.set(0, save_byte);
                }
                proof {
                    assert(self.state.out_buff@.take(0) =~= Seq::<u8>::empty());
                    assert(old(self).taken@ + old(self).output@ + old(self).state.out_buff@.take(
                        old(self).state.out_bytes as int,
                    ) =~= self.taken@ + self.output@ + self.state.out_buff@.take(0));
                    if bytes_to_write < OUT_BUFF_SIZE && self.state.out_bits < 8 {
                        assert(byte_bits(self.state.out_buff@[0]).take(self.state.out_bits as int)
                            =~= byte_bits(before[bytes_to_write as int]).take(
                            self.state.out_bits as int,
                        ));
                    }
                }
            }
        }
    }

    /// Appends the low `n_bits` bits of `bit_buffer` to the stream. When the
    /// output buffer reaches 0x800 complete bytes, they move to the pending
    /// output and the partial byte stays in the buffer.
    #[verifier::rlimit(30)]
    fn output_bits(&mut self, n_bits: u32, bit_buffer: u32)
        requires
            1 <= n_bits <= 32,
            old(self).out_ok(bit_buffer),
        ensures
            final(self).out_ok(bit_buffer >> n_bits),
            final(self).stream() == old(self).stream() + low_bits(bit_buffer, n_bits as nat),
            final(self).same_but_output(old(self)),
            final(self).state.out_bits == (old(self).state.out_bits + n_bits) % 8,
            final(self).output@.take(old(self).output@.len() as int) == old(self).output@,
            final(self).grew_by_blocks(old(self)),
            old(self).state.out_bytes + (old(self).state.out_bits + n_bits) / 8 < OUT_FLUSH_LIMIT
                ==> {
                &&& final(self).output == old(self).output
                &&& final(self).state.out_bytes == old(self).state.out_bytes + (old(self).state.out_bits
                    + n_bits) / 8
            },
            old(self).state.out_bytes + (old(self).state.out_bits + n_bits) / 8 >= OUT_FLUSH_LIMIT
                ==> {
                &&& final(self).output@.len() == old(self).output@.len() + OUT_FLUSH_LIMIT
                &&& final(self).state.out_bytes + OUT_FLUSH_LIMIT == old(self).state.out_bytes + (
                old(self).state.out_bits + n_bits) / 8
            },
        decreases n_bits,
    {
        let mut n_bits = n_bits;
        let mut bit_buffer = bit_buffer;
        let ghost v = bit_buffer;
        let ghost n = n_bits;
        // More than eight bits go in as eight and then the rest.
        if n_bits > 8 {
            self.output_bits(8, bit_buffer);
            bit_buffer = bit_buffer >> 8;
            n_bits = n_bits - 8;
            proof {
                lemma_split_bits(v, n);
            }
            self.output_bits(n_bits, bit_buffer);
            proof {
                assert(self.stream() =~= old(self).stream() + low_bits(v, n as nat));
            }
            return ;
        }
        let out_bits = self.state.out_bits;
        let out_bytes = self.state.out_bytes as usize;
        let ghost s0 = self.taken@ + self.output@ + self.state.out_buff@.take(out_bytes as int);
        let c = self.state.out_buff[out_bytes];
        let c2 = c | (((bit_buffer << out_bits) & 0xFF) as u8);
        self.state.out_buff.set(out_bytes, c2);
        self.state.out_bits = self.state.out_bits + n_bits;
        assert(self.state.out_buff@.take(out_bytes as int) =~= old(self).state.out_buff@.take(
            out_bytes as int,
        ));
        if self.state.out_bits > 8 {
            self.state.out_bytes = self.state.out_bytes + 1;
            bit_buffer = bit_buffer >> (8 - out_bits);
            let new_out_bytes = self.state.out_bytes as usize;
            let d = (bit_buffer & 0xFF) as u8;
            if new_out_bytes < self.state.out_buff.len() {
                self.state.out_buff.set(new_out_bytes, d);
            }
            let ob = self.state.out_bits;
            assert(ob & 7 == ob - 8) by (bit_vector)
                requires
                    8 < ob < 16,
            ;
            self.state.out_bits = self.state.out_bits & 7;
            proof {
                lemma_stream_carry(s0, c, c2, d, v, out_bits, n);
                assert(self.state.out_buff@.take(new_out_bytes as int) =~= old(self).state.out_buff@.take(
                    out_bytes as int,
                ).push(c2));
                assert(self.taken@ + self.output@ + self.state.out_buff@.take(
                    new_out_bytes as int,
                ) =~= s0.push(c2));
            }
        } else {
            let ob = self.state.out_bits;
            assert(ob <= 8 ==> (ob & 7 == if ob == 8 { 0 } else { ob })) by (bit_vector);
            self.state.out_bits = self.state.out_bits & 7;
            if self.state.out_bits == 0 {
                self.state.out_bytes = self.state.out_bytes + 1;
                proof {
                    lemma_stream_fill(s0, c, c2, v, out_bits, n);
                    assert(self.state.out_buff@.take((out_bytes + 1) as int) =~= old(self).state.out_buff@.take(
                        out_bytes as int,
                    ).push(c2));
                    assert(self.taken@ + self.output@ + self.state.out_buff@.take(
                        (out_bytes + 1) as int,
                    ) =~= s0.push(c2));
                    assert(self.state.out_buff@[(out_bytes + 1) as int] == 0);
                    lemma_covers_zero_byte(v >> n);
                }
            } else {
                proof {
                    lemma_stream_within(s0, c, c2, v, out_bits, n);
                }
            }
        }
        if self.state.out_bytes >= OUT_FLUSH_LIMIT {
            self.flush_output_buffer();
            proof {
                lemma_covers_zero_byte(v >> n);
            }
        }
    }

    /// A partial byte with nothing above its bits in use can take any value.
    proof fn lemma_out_ok_any(&self, v: u32)
        requires
            self.out_ok(0),
        ensures
            self.out_ok(v),
    {
        let c = self.state.out_buff@[self.state.out_bytes as int] as u32;
        lemma_covers_zero(c, self.state.out_bits);
        lemma_covers_any(c, self.state.out_bits, v);
    }

    /// Codes one literal byte.
    fn encode_literal(&mut self, byte: u8) -> (r: Result<(), PkLibError>)
        requires
            old(self).out_ok(0),
            old(self).state.tables_ok(),
        ensures
            r is Ok,
            final(self).out_ok(0),
            final(self).stream() == old(self).stream() + literal_entry_bits(
                old(self).state.code_tables_view(),
                byte as int,
            ),
            final(self).same_but_output(old(self)),
            final(self).grew_by_blocks(old(self)),
    {
        let literal_index = byte as usize;
        if literal_index < self.state.literal_bits.len() {
            let bits = self.state.literal_bits[literal_index];
            let code = self.state.literal_codes[literal_index] as u32;
            proof {
                self.lemma_out_ok_any(code);
            }
            self.output_bits(bits as u32, code);
            proof {
                lemma_fits(code, bits as u32);
            }
        } else {
            return Err(PkLibError::InvalidData("Invalid literal value".to_string()));
        }
        Ok(())
    }

    /// Codes a repetition: its length through the literal/length table, then
    /// its distance.
    #[verifier::rlimit(50)]
    fn encode_match(&mut self, match_result: MatchResult) -> (r: Result<(), PkLibError>)
        requires
            old(self).out_ok(0),
            old(self).state.tables_ok(),
            match_result.length + 0xFE <= usize::MAX,
            match_result.length + 0xFE < LITERAL_TABLE_SIZE ==> match_result.distance >= 1,
        ensures
            final(self).out_ok(0),
            final(self).same_but_output(old(self)),
            final(self).grew_by_blocks(old(self)),
            ({
                let t = old(self).state.code_tables_view();
                let len = match_result.length;
                let dist = match_result.distance;
                let idx = match_dist_index(old(self).state.dsize_bits, len, dist);
                &&& len + 0xFE >= LITERAL_TABLE_SIZE ==> r == Err::<(), PkLibError>(
                    PkLibError::InvalidLength(len as u32),
                ) && *final(self) == *old(self)
                &&& len + 0xFE < LITERAL_TABLE_SIZE && idx >= 64 ==> r == Err::<(), PkLibError>(
                    PkLibError::InvalidDistance(dist as u32),
                ) && final(self).stream() == old(self).stream() + literal_entry_bits(t, (len + 0xFE) as int)
                &&& len + 0xFE < LITERAL_TABLE_SIZE && idx < 64 ==> r is Ok && final(self).stream()
                    == old(self).stream() + literal_entry_bits(t, (len + 0xFE) as int) + dist_entry_bits(
                    t,
                    idx as int,
                ) + match_low_bits(old(self).state.dsize_bits, len, dist)
            }),
            token_codable(
                old(self).state.code_tables_view(),
                Token::Repeat {
                    length: match_result.length as nat,
                    distance: match_result.distance as nat,
                },
            ) ==> r is Ok && final(self).stream() == old(self).stream() + token_bits(
                old(self).state.code_tables_view(),
                Token::Repeat {
                    length: match_result.length as nat,
                    distance: match_result.distance as nat,
                },
            ),
    {
        let length = match_result.length;
        let distance = match_result.distance;
        let ghost t = self.state.code_tables_view();
        let ghost s_start = self.stream();
        proof {
            lemma_codable_match(t, length as nat, distance as nat);
        }

        // The length goes in through entry `length + 0xFE`.
        let length_code = length + 0xFE;
        if length_code < self.state.literal_bits.len() {
            let bits = self.state.literal_bits[length_code];
            let code = self.state.literal_codes[length_code] as u32;
            proof {
                self.lemma_out_ok_any(code);
            }
            self.output_bits(bits as u32, code);
            proof {
                lemma_fits(code, bits as u32);
            }
        } else {
            return Err(PkLibError::InvalidLength(length as u32));
        }
        let ghost s_len = self.stream();
        let ghost w1 = *self;

        // The distance goes in less one.
        let dist_minus_one = (distance - 1) as u32;
        if length == 2 {
            let dist_code_index = (dist_minus_one >> 2) as usize;
            if dist_code_index < self.state.dist_bits.len() {
                let bits = self.state.dist_bits[dist_code_index];
                let code = self.state.dist_codes[dist_code_index] as u32;
                proof {
                    self.lemma_out_ok_any(code);
                }
                self.output_bits(bits as u32, code);
                proof {
                    lemma_fits(code, bits as u32);
                    Self::lemma_blocks_trans(*old(self), w1, *self);
                }
                let ghost w2 = *self;
                let low = dist_minus_one & 3;
                assert(low < 4 && low >> 2 == 0) by (bit_vector)
                    requires
                        low == dist_minus_one & 3,
                ;
                proof {
                    self.lemma_out_ok_any(low);
                }
                self.output_bits(2, low);
                proof {
                    Self::lemma_blocks_trans(*old(self), w2, *self);
                    lemma_distance_parts(dist_minus_one, 2);
                    assert(self.stream() =~= s_len + dist_entry_bits(t, dist_code_index as int)
                        + low_bits(low, 2));
                }
            } else {
                return Err(PkLibError::InvalidDistance(distance as u32));
            }
        } else {
            let dist_code_index = (dist_minus_one >> self.state.dsize_bits) as usize;
            if dist_code_index < self.state.dist_bits.len() {
                let bits = self.state.dist_bits[dist_code_index];
                let code = self.state.dist_codes[dist_code_index] as u32;
                proof {
                    self.lemma_out_ok_any(code);
                }
                self.output_bits(bits as u32, code);
                proof {
                    lemma_fits(code, bits as u32);
                    Self::lemma_blocks_trans(*old(self), w1, *self);
                }
                let ghost w2 = *self;
                let low = dist_minus_one & self.state.dsize_mask;
                proof {
                    lemma_distance_parts(dist_minus_one, self.state.dsize_bits);
                }
                proof {
                    self.lemma_out_ok_any(low);
                }
                self.output_bits(self.state.dsize_bits, low);
                proof {
                    Self::lemma_blocks_trans(*old(self), w2, *self);
                    assert(self.stream() =~= s_len + dist_entry_bits(t, dist_code_index as int)
                        + low_bits(low, self.state.dsize_bits as nat));
                }
            } else {
                return Err(PkLibError::InvalidDistance(distance as u32));
            }
        }
        Ok(())
    }

    /// Codes the end marker and counts a partial last byte as complete.
    fn write_end_marker(&mut self)
        requires
            old(self).out_ok(0),
            old(self).state.tables_ok(),
        ensures
            final(self).same_but_output(old(self)),
            final(self).state.sizes_ok(),
            final(self).state.out_bits < 8,
            final(self).state.out_bytes <= OUT_FLUSH_LIMIT,
            bytes_bits(final(self).taken@ + final(self).output@ + final(self).state.out_buff@.take(
                final(self).state.out_bytes as int,
            )) == pad_bits(old(self).stream() + end_bits(old(self).state.code_tables_view())),
    {
        let ghost t = self.state.code_tables_view();
        if END_MARKER < self.state.literal_bits.len() {
            let bits = self.state.literal_bits[END_MARKER];
            let code = self.state.literal_codes[END_MARKER] as u32;
            proof {
                self.lemma_out_ok_any(code);
            }
            self.output_bits(bits as u32, code);
            proof {
                lemma_fits(code, bits as u32);
            }
        }
        let ghost s = self.stream();
        let ghost ob = self.state.out_bits;
        let ghost s0 = self.taken@ + self.output@ + self.state.out_buff@.take(
            self.state.out_bytes as int,
        );
        let ghost c = self.state.out_buff@[self.state.out_bytes as int];
        proof {
            lemma_bytes_bits_len(s0);
            lemma_covers_zero(c as u32, ob);
        }
        if self.state.out_bits > 0 {
            self.state.out_bytes = self.state.out_bytes + 1;
            proof {
                assert(self.state.out_buff@.take(self.state.out_bytes as int) =~= self.state.out_buff@.take(
                    (self.state.out_bytes - 1) as int,
                ).push(c));
                assert(self.taken@ + self.output@ + self.state.out_buff@.take(
                    self.state.out_bytes as int,
                ) =~= s0.push(c));
                lemma_bytes_bits_push(s0, c);
                assert(bytes_bits(s0.push(c)) =~= pad_bits(s));
            }
        } else {
            proof {
                assert(pad_bits(s) =~= s);
                assert(byte_bits(c).take(0) =~= Seq::<bool>::empty());
                assert(s =~= bytes_bits(s0));
            }
        }
    }

    /// Starts the stream with the mode byte and the dictionary byte.
    fn initialize(&mut self) -> (r: Result<(), PkLibError>)
        requires
            old(self).inv(),
        ensures
            r is Ok,
            final(self).inv(),
            final(self).initialized,
            final(self).written == old(self).written,
            final(self).mode == old(self).mode,
            final(self).size == old(self).size,
            final(self).taken == old(self).taken,
            final(self).output == old(self).output,
            final(self).state.work_buff == old(self).state.work_buff,
            final(self).state.work_bytes == old(self).state.work_bytes,
            final(self).state.work_pos == old(self).state.work_pos,
            final(self).input_buffer == old(self).input_buffer,
            final(self).consumed == old(self).consumed,
            final(self).base == old(self).base,
            final(self).tokens == old(self).tokens,
            final(self).state.phash_to_index == old(self).state.phash_to_index,
            final(self).state.phash_offs == old(self).state.phash_offs,
            old(self).initialized ==> *final(self) == *old(self),
    {
        if self.initialized {
            return Ok(());
        }
        let mut buff = zeroed_u8(OUT_BUFF_SIZE);
        buff.set(0, self.state.ctype as u8);
        buff.set(1, self.state.dsize_bits as u8);
        self.state.out_buff = buff;
        self.state.out_bytes = 2;
        self.state.out_bits = 0;
        self.initialized = true;
        proof {
            let hb = seq![self.state.ctype as u8, self.state.dsize_bits as u8];
            assert(self.taken@ + self.output@ + self.state.out_buff@.take(2) =~= hb);
            assert(hb =~= seq![self.state.ctype as u8].push(self.state.dsize_bits as u8));
            lemma_bytes_bits_push(seq![self.state.ctype as u8], self.state.dsize_bits as u8);
            assert(seq![self.state.ctype as u8] =~= Seq::<u8>::empty().push(self.state.ctype as u8));
            lemma_bytes_bits_push(Seq::<u8>::empty(), self.state.ctype as u8);
            assert(byte_bits(self.state.out_buff@[2]).take(0) =~= Seq::<bool>::empty());
            assert(self.stream() =~= header_bits(self.mode@, self.size@));
            assert(tokens_bits(self.tables(), self.tokens@) =~= Seq::<bool>::empty());
            lemma_covers_zero_byte(0);
        }
        Ok(())
    }

    /// The window, the input and the hand-out record are as in `old`.
    closed spec fn same_window(&self, old: &ImplodeWriter) -> bool {
        &&& self.state.work_buff == old.state.work_buff
        &&& self.state.work_bytes == old.state.work_bytes
        &&& self.initialized == old.initialized
        &&& self.input_buffer == old.input_buffer
        &&& self.mode == old.mode
        &&& self.size == old.size
        &&& self.written == old.written
        &&& self.consumed == old.consumed
        &&& self.base == old.base
        &&& self.taken == old.taken
    }

    /// Codes the window from `work_pos` on: to its end when `is_final`, else
    /// up to 516 bytes before its end, so that a repetition can still reach
    /// the data that comes next. The tokens coded are those of the greedy
    /// parse: at each position the repetition that `find_repetition`
    /// reports, or else the byte as a literal.
    fn compress_buffer(&mut self, is_final: bool) -> (r: Result<(), PkLibError>)
        requires
            old(self).core_ok(),
            old(self).out_ok(0),
            old(self).initialized,
        ensures
            r is Ok,
            final(self).core_ok(),
            final(self).out_ok(0),
            final(self).same_window(old(self)),
            final(self).state.phash_to_index == old(self).state.phash_to_index,
            final(self).state.phash_offs == old(self).state.phash_offs,
            final(self).state.dsize_bytes == old(self).state.dsize_bytes,
            final(self).state.work_pos >= compress_limit(old(self).state.work_bytes as int, is_final),
            is_final ==> final(self).state.work_pos == final(self).state.work_bytes,
            tokens_extend(old(self).tokens@, final(self).tokens@),
            ({
                let g = greedy_parse(
                    old(self).state,
                    old(self).state.work_pos as int,
                    compress_limit(old(self).state.work_bytes as int, is_final),
                );
                &&& final(self).tokens@ == old(self).tokens@ + g.0
                &&& final(self).state.work_pos == g.1
            }),
            old(self).state.work_pos >= compress_limit(old(self).state.work_bytes as int, is_final)
                ==> *final(self) == *old(self),
            final(self).tokens@.len() == old(self).tokens@.len() ==> *final(self) == *old(self),
            final(self).grew_by_blocks(old(self)),
    {
        proof {
            lemma_tokens_extend_refl(self.tokens@);
        }
        let end_limit = if is_final {
            self.state.work_bytes
        } else {
            self.state.work_bytes.saturating_sub(MAX_REP_LENGTH)
        };
        if self.state.work_pos >= end_limit {
            return Ok(());
        }
        let ghost st0 = self.state;
        let ghost p0 = self.state.work_pos as int;
        while self.state.work_pos < end_limit
            invariant
                self.core_ok(),
                self.out_ok(0),
                self.initialized,
                self.same_window(old(self)),
                st0 == old(self).state,
                p0 == old(self).state.work_pos,
                self.state.phash_to_index == st0.phash_to_index,
                self.state.phash_offs == st0.phash_offs,
                self.state.dsize_bytes == st0.dsize_bytes,
                self.grew_by_blocks(old(self)),
                tokens_extend(old(self).tokens@, self.tokens@),
                end_limit <= self.state.work_bytes,
                end_limit == compress_limit(old(self).state.work_bytes as int, is_final),
                old(self).tokens@ + greedy_parse(st0, p0, end_limit as int).0 == self.tokens@
                    + greedy_parse(st0, self.state.work_pos as int, end_limit as int).0,
                greedy_parse(st0, p0, end_limit as int).1 == greedy_parse(
                    st0,
                    self.state.work_pos as int,
                    end_limit as int,
                ).1,
            decreases self.state.work_bytes - self.state.work_pos,
        {
            let ghost pre = *self;
            let ghost pos = self.state.work_pos as int;
            let match_result = self.state.find_repetition(self.state.work_pos);
            proof {
                lemma_configured_tables(self.state, self.mode@, self.size@);
                assert(self.state.repetition_at(pos) == st0.repetition_at(pos));
            }
            if match_result.is_match() {
                self.encode_match(match_result)?;
                self.state.work_pos = self.state.work_pos + match_result.length;
                proof {
                    Self::lemma_blocks_trans(*old(self), pre, *self);
                    let tok = Token::Repeat {
                        length: match_result.length as nat,
                        distance: match_result.distance as nat,
                    };
                    self.lemma_add_token(pre, tok);
                    lemma_tokens_extend_push(old(self).tokens@, self.tokens@, tok);
                    let rest = greedy_parse(st0, self.state.work_pos as int, end_limit as int);
                    assert(greedy_parse(st0, pos, end_limit as int).0 == seq![tok] + rest.0);
                    assert(self.tokens@ + greedy_parse(st0, pos, end_limit as int).0
                        =~= self.tokens@.push(tok) + rest.0);
                    self.tokens@ = self.tokens@.push(tok);
                }
            } else {
                let byte = self.state.work_buff[self.state.work_pos];
                self.encode_literal(byte)?;
                self.state.work_pos = self.state.work_pos + 1;
                proof {
                    Self::lemma_blocks_trans(*old(self), pre, *self);
                    let tok = Token::Literal(byte);
                    self.lemma_add_token(pre, tok);
                    lemma_tokens_extend_push(old(self).tokens@, self.tokens@, tok);
                    let rest = greedy_parse(st0, self.state.work_pos as int, end_limit as int);
                    assert(greedy_parse(st0, pos, end_limit as int).0 == seq![tok] + rest.0);
                    assert(self.tokens@ + greedy_parse(st0, pos, end_limit as int).0
                        =~= self.tokens@.push(tok) + rest.0);
                    self.tokens@ = self.tokens@.push(tok);
                }
            }
        }
        proof {
            let g = greedy_parse(st0, self.state.work_pos as int, end_limit as int);
            assert(g.0 =~= Seq::<Token>::empty());
            assert(self.tokens@ + g.0 =~= self.tokens@);
            assert(greedy_parse(st0, p0, end_limit as int).0.len() >= 1);
        }
        Ok(())
    }

    /// After coding `tok` at the window position of `pre`, with the window
    /// position moved past it, the tokens extended by `tok` still describe
    /// the consumed input and the stream codes them.
    proof fn lemma_add_token(&self, pre: ImplodeWriter, tok: Token)
        requires
            pre.core_ok(),
            pre.initialized,
            self.same_window(&pre),
            self.tokens == pre.tokens,
            self.state.sizes_ok(),
            self.state.tables_ok(),
            self.state.ctype == pre.state.ctype,
            self.state.dsize_bits == pre.state.dsize_bits,
            self.state.dsize_bytes == pre.state.dsize_bytes,
            self.state.dsize_mask == pre.state.dsize_mask,
            self.state.literal_bits == pre.state.literal_bits,
            self.state.literal_codes == pre.state.literal_codes,
            self.state.dist_bits == pre.state.dist_bits,
            self.state.dist_codes == pre.state.dist_codes,
            self.state.work_pos == pre.state.work_pos + token_len(tok),
            self.state.work_pos <= self.state.work_bytes,
            self.stream() == pre.stream() + token_bits(pre.tables(), tok),
            token_codable(pre.tables(), tok),
            match tok {
                Token::Literal(b) => b == pre.state.work_buff@[pre.state.work_pos as int],
                Token::Repeat { length, distance } => valid_repeat(
                    pre.state.work_buff@,
                    pre.state.work_bytes as int,
                    pre.state.work_pos as int,
                    length as int,
                    distance as int,
                    pre.state.dsize_bytes as int,
                ),
            },
        ensures
            describes(
                self.tokens@.push(tok),
                self.consumed@.take(self.base@ + self.state.work_pos),
            ),
            tokens_codable(self.tables(), self.tokens@.push(tok)),
            self.stream() == self.header() + tokens_bits(self.tables(), self.tokens@.push(tok)),
    {
        let ts = pre.tokens@;
        let c = pre.consumed@;
        let base = pre.base@;
        let wb = pre.state.work_buff@;
        let p = base + pre.state.work_pos;
        let n = p + token_len(tok);
        lemma_describes_len(ts, c.take(p));
        assert(c.take(p).len() == p);
        assert forall|i: int| 0 <= i < pre.state.work_bytes implies #[trigger] wb[i] == c[base + i] by {
            assert(wb.take(pre.state.work_bytes as int)[i] == c.skip(base)[i]);
        }
        match tok {
            Token::Literal(b) => {
                assert(c.take(n)[p] == b);
            },
            Token::Repeat { length, distance } => {
                assert forall|k: int| 0 <= k < length implies #[trigger] c.take(n)[p + k] == c.take(
                    n,
                )[p + k - distance] by {
                    assert(wb[pre.state.work_pos + k] == wb[pre.state.work_pos + k - distance]);
                    assert(wb[pre.state.work_pos + k] == c[base + (pre.state.work_pos + k)]);
                    assert(wb[pre.state.work_pos + k - distance] == c[base + (pre.state.work_pos
                        + k - distance)]);
                }
            },
        }
        assert(c.take(p) == c.take(tokens_len(ts) as int));
        lemma_describes_push(ts, c, tok, n);
        lemma_tokens_bits_push(pre.tables(), ts, tok);
        assert(self.stream() =~= self.header() + tokens_bits(self.tables(), self.tokens@.push(tok)));
        assert forall|i: int| 0 <= i < ts.len() + 1 implies #[trigger] token_codable(
            self.tables(),
            ts.push(tok)[i],
        ) by {
            if i < ts.len() {
                assert(ts.push(tok)[i] == ts[i]);
            }
        }
    }

    /// Makes room in a full window: keeps the last dictionary before the
    /// window position and moves it to the start, or, when the position is
    /// not that far in, codes the whole window and starts an empty one.
    fn slide_window(&mut self, dict_size: usize) -> (r: Result<(), PkLibError>)
        requires
            old(self).core_ok(),
            old(self).out_ok(0),
            old(self).initialized,
            old(self).state.work_bytes == WORK_BUFF_SIZE,
            dict_size == old(self).state.dsize_bytes,
            table_built(&old(self).state, old(self).state.work_buff@, 0, WORK_BUFF_SIZE - 1),
        ensures
            r is Ok,
            ({
                let m = model_slide(
                    old(self).window(),
                    old(self).window_pos(),
                    old(self).state.dsize_bytes as int,
                );
                &&& final(self).tokens@ == old(self).tokens@ + m.0
                &&& final(self).window() == m.1
                &&& final(self).window_pos() == m.2
            }),
            final(self).state.dsize_bytes == old(self).state.dsize_bytes,
            final(self).tokens@.len() == old(self).tokens@.len() ==> final(self).output
                == old(self).output,
            final(self).grew_by_blocks(old(self)),
            final(self).core_ok(),
            final(self).out_ok(0),
            final(self).initialized,
            final(self).state.work_bytes < WORK_BUFF_SIZE,
            final(self).state.work_bytes - final(self).state.work_pos <= old(self).state.work_bytes
                - old(self).state.work_pos,
            tokens_extend(old(self).tokens@, final(self).tokens@),
            final(self).input_buffer == old(self).input_buffer,
            final(self).consumed == old(self).consumed,
            final(self).written == old(self).written,
            final(self).taken == old(self).taken,
            final(self).mode == old(self).mode,
            final(self).size == old(self).size,
    {
        if self.state.work_pos > dict_size {
            let shift = self.state.work_pos - dict_size;
            let remaining = self.state.work_bytes - shift;
            let ghost pre = *self;
            let work_bytes = self.state.work_bytes;
            proof {
                lemma_tokens_extend_refl(self.tokens@);
            }
            shift_left(&mut self.state.work_buff, shift, work_bytes);
            self.state.work_bytes = remaining;
            self.state.work_pos = self.state.work_pos - shift;
            proof {
                self.base@ = self.base@ + shift;
                let c = self.consumed@;
                assert(pre.state.work_buff@.take(work_bytes as int) == c.skip(pre.base@));
                assert(pre.state.work_buff@.subrange(shift as int, work_bytes as int)
                    =~= pre.state.work_buff@.take(work_bytes as int).subrange(
                    shift as int,
                    work_bytes as int,
                ));
                assert(c.skip(self.base@) =~= c.skip(pre.base@).subrange(
                    shift as int,
                    work_bytes as int,
                ));
                assert(self.state.work_buff@.take(remaining as int) =~= c.skip(self.base@));
                assert(self.stream() == pre.stream());
                assert(self.window() =~= pre.window().skip(shift as int));
                assert(pre.tokens@ + Seq::<Token>::empty() =~= pre.tokens@);
            }
        } else {
            let ghost pre = *self;
            self.compress_buffer(true)?;
            proof {
                lemma_greedy_model(pre.state, pre.window(), pre.state.work_pos as int, WORK_BUFF_SIZE as int);
                self.base@ = self.base@ + self.state.work_bytes;
                assert(self.consumed@.skip(self.base@) =~= Seq::<u8>::empty());
                assert(self.state.work_buff@.take(0) =~= Seq::<u8>::empty());
            }
            self.state.work_bytes = 0;
            self.state.work_pos = 0;
            proof {
                assert(self.window() =~= Seq::<u8>::empty());
            }
        }
        Ok(())
    }

    /// Rebuilds the hash table over the window and codes it, leaving a tail
    /// of up to 516 bytes: the tokens are the greedy parse over the rebuilt
    /// table.
    fn sort_and_compress(&mut self) -> (r: Result<(), PkLibError>)
        requires
            old(self).core_ok(),
            old(self).out_ok(0),
            old(self).initialized,
            old(self).state.work_bytes > 1,
        ensures
            r is Ok,
            final(self).core_ok(),
            final(self).out_ok(0),
            final(self).same_window(old(self)),
            tokens_extend(old(self).tokens@, final(self).tokens@),
            final(self).tokens@.len() == old(self).tokens@.len() ==> final(self).output
                == old(self).output,
            final(self).grew_by_blocks(old(self)),
            final(self).state.dsize_bytes == old(self).state.dsize_bytes,
            final(self).state.work_pos >= compress_limit(old(self).state.work_bytes as int, false),
            table_built(
                &final(self).state,
                final(self).state.work_buff@,
                0,
                sort_stop(WORK_BUFF_SIZE as int, final(self).state.work_bytes as int),
            ),
            ({
                let g = greedy_parse(
                    final(self).state,
                    old(self).state.work_pos as int,
                    compress_limit(old(self).state.work_bytes as int, false),
                );
                &&& final(self).tokens@ == old(self).tokens@ + g.0
                &&& final(self).state.work_pos == g.1
            }),
    {
        self.rebuild_hash();
        let ghost st1 = self.state;
        let r = self.compress_buffer(false);
        proof {
            lemma_greedy_same(
                st1,
                self.state,
                old(self).state.work_pos as int,
                compress_limit(old(self).state.work_bytes as int, false),
            );
        }
        r
    }

    /// Rebuilds the hash table over the whole window.
    fn rebuild_hash(&mut self)
        requires
            old(self).core_ok(),
            old(self).out_ok(0),
        ensures
            final(self).core_ok(),
            final(self).out_ok(0),
            final(self).same_window(old(self)),
            final(self).state.work_pos == old(self).state.work_pos,
            final(self).state.dsize_bytes == old(self).state.dsize_bytes,
            final(self).tokens == old(self).tokens,
            final(self).output == old(self).output,
            old(self).state.work_bytes > 1 ==> table_built(
                &final(self).state,
                final(self).state.work_buff@,
                0,
                sort_stop(WORK_BUFF_SIZE as int, final(self).state.work_bytes as int),
            ),
    {
        let work_bytes = self.state.work_bytes;
        let ghost pre = *self;
        self.state.sort_buffer(0, work_bytes);
        proof {
            assert(self.stream() == pre.stream());
        }
    }

    /// Appends `copy_len` bytes of `data`, from `input_offset` on, to the window.
    fn fill_window(&mut self, data: &Vec<u8>, input_offset: usize, copy_len: usize)
        requires
            old(self).core_ok(),
            old(self).out_ok(0),
            old(self).initialized,
            old(self).state.work_bytes + copy_len <= WORK_BUFF_SIZE,
            input_offset + copy_len <= data@.len(),
        ensures
            final(self).core_ok(),
            final(self).out_ok(0),
            final(self).state.work_bytes == old(self).state.work_bytes + copy_len,
            final(self).consumed@ == old(self).consumed@ + data@.subrange(
                input_offset as int,
                (input_offset + copy_len) as int,
            ),
            final(self).initialized == old(self).initialized,
            final(self).input_buffer == old(self).input_buffer,
            final(self).written == old(self).written,
            final(self).taken == old(self).taken,
            final(self).mode == old(self).mode,
            final(self).size == old(self).size,
            final(self).tokens == old(self).tokens,
            final(self).state.work_pos == old(self).state.work_pos,
            final(self).base == old(self).base,
            final(self).window() == old(self).window() + data@.subrange(
                input_offset as int,
                (input_offset + copy_len) as int,
            ),
            final(self).state.dsize_bytes == old(self).state.dsize_bytes,
            final(self).output == old(self).output,
    {
        let ghost pre = *self;
        let work_bytes = self.state.work_bytes;
        copy_into(&mut self.state.work_buff, work_bytes, data, input_offset, copy_len);
        self.state.work_bytes = self.state.work_bytes + copy_len;
        proof {
            let added = data@.subrange(input_offset as int, (input_offset + copy_len) as int);
            self.consumed@ = self.consumed@ + added;
            assert(self.consumed@.skip(self.base@) =~= pre.consumed@.skip(pre.base@) + added);
            assert(self.consumed@.take(self.base@ + self.state.work_pos) =~= pre.consumed@.take(
                self.base@ + self.state.work_pos,
            ));
            assert(self.stream() == pre.stream());
        }
    }

    /// Moves the gathered input into the window and codes it. When the
    /// window is full, it first drops all but one dictionary of the data
    /// already coded. Every time the window holds at least two bytes, the
    /// hash table is rebuilt and the window is coded up to 516 bytes before
    /// its end.
    /// One pass of `process_input`: makes room if the window is full, moves
    /// in as much of `data` from `input_offset` on as fits, and, once the
    /// window holds two bytes or more, rebuilds the hash table and codes the
    /// window up to 516 bytes before its end. Returns the new offset.
    #[verifier::rlimit(100)]
    #[verifier::spinoff_prover]
    fn process_step(&mut self, data: &Vec<u8>, input_offset: usize) -> (r: Result<
        usize,
        PkLibError,
    >)
        requires
            old(self).core_ok(),
            old(self).out_ok(0),
            old(self).initialized,
            old(self).input_buffer@.len() == 0,
            input_offset < data@.len(),
            old(self).consumed@ + data@.skip(input_offset as int) == old(self).written@,
            old(self).hashed(),
        ensures
            r matches Ok(off) && ({
                let ds = old(self).state.dsize_bytes as int;
                let rest = data@.skip(input_offset as int);
                let slid = model_slide(old(self).window(), old(self).window_pos(), ds);
                let k = off - input_offset;
                let w2 = slid.1 + rest.take(k);
                let g = if w2.len() > 1 {
                    model_greedy(w2, ds, slid.2, compress_limit(w2.len() as int, false))
                } else {
                    (Seq::<Token>::empty(), slid.2)
                };
                &&& input_offset < off <= data@.len()
                &&& k == (if rest.len() < WORK_BUFF_SIZE - slid.1.len() {
                    rest.len() as int
                } else {
                    WORK_BUFF_SIZE - slid.1.len()
                })
                &&& final(self).tokens@ == old(self).tokens@ + slid.0 + g.0
                &&& final(self).window() == w2
                &&& final(self).window_pos() == g.1
                &&& final(self).consumed@ + data@.skip(off as int) == final(self).written@
            }),
            final(self).core_ok(),
            final(self).out_ok(0),
            final(self).initialized,
            final(self).input_buffer@.len() == 0,
            final(self).written == old(self).written,
            final(self).taken == old(self).taken,
            final(self).mode == old(self).mode,
            final(self).size == old(self).size,
            final(self).state.dsize_bytes == old(self).state.dsize_bytes,
            tokens_extend(old(self).tokens@, final(self).tokens@),
            final(self).state.work_bytes - final(self).state.work_pos <= MAX_REP_LENGTH,
            final(self).hashed(),
            final(self).state.work_bytes >= 1,
            final(self).tokens@.len() >= old(self).tokens@.len(),
            final(self).tokens@.len() == old(self).tokens@.len() ==> final(self).output
                == old(self).output,
            final(self).grew_by_blocks(old(self)),
    {
        proof {
            lemma_tokens_extend_refl(self.tokens@);
        }
        let ghost ds = self.state.dsize_bytes as int;
        let ghost rest = data@.skip(input_offset as int);
        let ghost slid = model_slide(self.window(), self.window_pos(), ds);
        let ghost t_it = self.tokens@;
        let dict_size = self.state.dsize_bytes as usize;
        let remaining_input = data.len() - input_offset;
        let available_space = self.state.work_buff.len() - self.state.work_bytes;

        // If the buffer is filled and there's still input data we push the window to the left
        let ghost w_0 = *self;
        if available_space == 0 && remaining_input > 0 {
            self.slide_window(dict_size)?;
            proof {
                lemma_tokens_extend_trans(old(self).tokens@, t_it, self.tokens@);
            }
        } else {
            proof {
                assert(self.tokens@ =~= t_it + slid.0);
            }
        }
        let ghost t_s = self.tokens@;
        let ghost out_s = self.output;

        // Copy the data into the available space
        let available_space = self.state.work_buff.len() - self.state.work_bytes;
        let copy_len = if remaining_input < available_space {
            remaining_input
        } else {
            available_space
        };
        let ghost c0 = self.consumed@;
        self.fill_window(data, input_offset, copy_len);
        proof {
            assert(data@.skip(input_offset as int) =~= data@.subrange(
                input_offset as int,
                (input_offset + copy_len) as int,
            ) + data@.skip((input_offset + copy_len) as int));
            assert(self.consumed@ + data@.skip((input_offset + copy_len) as int) =~= c0
                + data@.skip(input_offset as int));
            assert(rest.take(copy_len as int) =~= data@.subrange(
                input_offset as int,
                (input_offset + copy_len) as int,
            ));
        }
        let off = input_offset + copy_len;
        let ghost w2 = self.window();
        let ghost p2 = self.window_pos();
        let ghost t2 = self.tokens@;
        let ghost w_2 = *self;
        proof {
            assert(w_2.grew_by_blocks(&w_0));
        }

        // We create the hash table and compress everything apart from a 516 byte tail
        if self.state.work_bytes > 1 {
            self.sort_and_compress()?;
            proof {
                Self::lemma_blocks_trans(w_0, w_2, *self);
                lemma_tokens_extend_trans(old(self).tokens@, t2, self.tokens@);
                lemma_greedy_model(self.state, w2, p2, compress_limit(w2.len() as int, false));
            }
        } else {
            proof {
                assert(t2 + Seq::<Token>::empty() =~= t2);
            }
        }
        proof {
            lemma_describes_len(self.tokens@, self.consumed@.take(self.base@ + self.state.work_pos));
        }
        Ok(off)
    }

    /// Moves the gathered input into the window and codes it, pass by pass
    /// (`process_step`). The tokens, the window and its position are those of
    /// `model_process`.
    #[verifier::rlimit(100)]
    #[verifier::spinoff_prover]
    fn process_input(&mut self) -> (r: Result<(), PkLibError>)
        requires
            old(self).inv(),
        ensures
            r is Ok,
            final(self).inv(),
            final(self).initialized,
            final(self).input_buffer@.len() == 0,
            final(self).written == old(self).written,
            final(self).taken == old(self).taken,
            final(self).mode == old(self).mode,
            final(self).size == old(self).size,
            tokens_extend(old(self).tokens@, final(self).tokens@),
            old(self).input_buffer@.len() > 0 ==> final(self).state.work_bytes >= 1,
            old(self).input_buffer@.len() == 0 ==> {
                &&& final(self).tokens == old(self).tokens
                &&& final(self).coded_len() == old(self).coded_len()
                &&& final(self).stream() == old(self).stream() || !old(self).initialized
            },
            ({
                let m = model_process(
                    old(self).window(),
                    old(self).window_pos(),
                    old(self).input_buffer@,
                    old(self).state.dsize_bytes as int,
                );
                &&& final(self).tokens@ == old(self).tokens@ + m.0
                &&& final(self).window() == m.1
                &&& final(self).window_pos() == m.2
            }),
            final(self).tokens@.len() == old(self).tokens@.len() ==> final(self).output
                == old(self).output,
            final(self).grew_by_blocks(old(self)),
    {
        proof {
            lemma_tokens_extend_refl(self.tokens@);
        }
        if !self.initialized {
            self.initialize()?;
        }
        let ghost w0 = *self;
        let ghost ds = self.state.dsize_bytes as int;
        let ghost m0 = model_process(w0.window(), w0.window_pos(), w0.input_buffer@, ds);
        // We take data without copying
        let mut data: Vec<u8> = Vec::new();
        std::mem::swap(&mut data, &mut self.input_buffer);
        let mut input_offset: usize = 0;
        proof {
            assert(data@.skip(0) =~= data@);
            assert(old(self).tokens@ + m0.0 == self.tokens@ + m0.0);
        }
        while input_offset < data.len()
            invariant
                self.core_ok(),
                self.out_ok(0),
                self.initialized,
                self.input_buffer@.len() == 0,
                input_offset <= data@.len(),
                self.consumed@ + data@.skip(input_offset as int) == self.written@,
                self.written == old(self).written,
                self.taken == old(self).taken,
                self.mode == old(self).mode,
                self.size == old(self).size,
                tokens_extend(old(self).tokens@, self.tokens@),
                self.state.work_bytes - self.state.work_pos <= MAX_REP_LENGTH,
                self.hashed(),
                input_offset > 0 ==> self.state.work_bytes >= 1,
                self.state.dsize_bytes == ds,
                ({
                    let m = model_process(
                        self.window(),
                        self.window_pos(),
                        data@.skip(input_offset as int),
                        ds,
                    );
                    &&& old(self).tokens@ + m0.0 == self.tokens@ + m.0
                    &&& m0.1 == m.1
                    &&& m0.2 == m.2
                }),
                self.tokens@.len() >= old(self).tokens@.len(),
                self.tokens@.len() == old(self).tokens@.len() ==> self.output == old(self).output,
                self.grew_by_blocks(old(self)),
                input_offset == 0 ==> {
                    &&& self.stream() == w0.stream()
                    &&& self.tokens == w0.tokens
                    &&& self.base == w0.base
                    &&& self.state.work_pos == w0.state.work_pos
                },
                w0.tokens == old(self).tokens,
                w0.base == old(self).base,
                w0.state.work_pos == old(self).state.work_pos,
                old(self).initialized ==> w0.stream() == old(self).stream(),
            decreases data@.len() - input_offset,
        {
            let ghost rest = data@.skip(input_offset as int);
            let ghost t_it = self.tokens@;
            proof {
                lemma_model_process_step(self.window(), self.window_pos(), rest, ds);
            }
            let ghost w_it = *self;
            let off = self.process_step(&data, input_offset)?;
            proof {
                Self::lemma_blocks_trans(*old(self), w_it, *self);
                lemma_tokens_extend_trans(old(self).tokens@, t_it, self.tokens@);
                assert(rest.skip(off - input_offset) =~= data@.skip(off as int));
            }
            input_offset = off;
        }
        proof {
            assert(data@.skip(input_offset as int) =~= Seq::<u8>::empty());
            reveal(model_process);
            let m = model_process(self.window(), self.window_pos(), Seq::<u8>::empty(), ds);
            assert(self.tokens@ + m.0 =~= self.tokens@);
        }
        Ok(())
    }

    /// The writer has written the stream header.
    pub closed spec fn started(&self) -> bool {
        self.initialized
    }

    /// Codes all input gathered so far, to its very end.
    #[verifier::rlimit(60)]
    #[verifier::spinoff_prover]
    fn flush_remaining_data(&mut self) -> (r: Result<(), PkLibError>)
        requires
            old(self).inv(),
        ensures
            r is Ok,
            final(self).inv(),
            final(self).input_buffer@.len() == 0,
            final(self).state.work_pos == final(self).state.work_bytes,
            final(self).initialized == (old(self).initialized || old(self).input_buffer@.len() > 0),
            final(self).written == old(self).written,
            final(self).taken == old(self).taken,
            final(self).mode == old(self).mode,
            final(self).size == old(self).size,
            tokens_extend(old(self).tokens@, final(self).tokens@),
            final(self).tokens@ == old(self).tokens@ + model_finish(
                old(self).window(),
                old(self).window_pos(),
                old(self).buffered(),
                old(self).state.dsize_bytes as int,
            ),
    {
        proof {
            lemma_tokens_extend_refl(self.tokens@);
        }
        let ghost t0 = self.tokens@;
        let ghost ds = self.state.dsize_bytes as int;
        let ghost m = model_process(self.window(), self.window_pos(), self.input_buffer@, ds);
        if self.input_buffer.len() > 0 {
            self.process_input()?;
        } else {
            proof {
                reveal(model_process);
                assert(t0 + m.0 =~= t0);
            }
        }
        let ghost t1 = self.tokens@;
        let ghost p1 = self.state.work_pos as int;
        let ghost w1 = self.window();
        proof {
            assert(t1 == t0 + m.0);
            assert(w1 == m.1 && p1 == m.2);
            assert(self.state.dsize_bytes == ds);
        }
        // We're compressing everything remaining in `work_buff`
        if self.state.work_pos < self.state.work_bytes {
            if self.state.work_bytes > 1 {
                self.rebuild_hash();
            }
            let ghost st2 = self.state;
            self.compress_buffer(true)?;
            proof {
                lemma_tokens_extend_trans(old(self).tokens@, t1, self.tokens@);
                lemma_greedy_model(st2, w1, p1, w1.len() as int);
            }
        } else {
            proof {
                assert(model_greedy(w1, ds, p1, w1.len() as int).0 =~= Seq::<Token>::empty());
                assert(t1 + Seq::<Token>::empty() =~= t1);
            }
        }
        proof {
            assert(self.tokens@ =~= t0 + model_finish(
                old(self).window(),
                old(self).window_pos(),
                old(self).buffered(),
                ds,
            ));
        }
        Ok(())
    }

    /// The coded bits only grow: those of `a` start those of `b` when `b`
    /// came from `a` by coding more tokens.
    proof fn lemma_stream_grows(a: ImplodeWriter, b: ImplodeWriter)
        requires
            a.core_ok(),
            b.core_ok(),
            tokens_extend(a.tokens@, b.tokens@),
            a.initialized ==> b.initialized,
            a.mode == b.mode,
            a.size == b.size,
        ensures
            a.stream().len() <= b.stream().len(),
            b.stream().take(a.stream().len() as int) == a.stream(),
    {
        if !a.initialized {
            assert(a.tokens@ =~= Seq::<Token>::empty());
            assert(a.stream() =~= Seq::<bool>::empty());
            assert(b.stream().take(0) =~= Seq::<bool>::empty());
        } else {
            lemma_tokens_bits_prefix(a.tables(), a.tokens@, b.tokens@);
            let h = a.header();
            let ta = tokens_bits(a.tables(), a.tokens@);
            let tb = tokens_bits(a.tables(), b.tokens@);
            assert((h + tb).take((h.len() + ta.len()) as int) =~= h + ta) by {
                assert forall|i: int| 0 <= i < h.len() + ta.len() implies (h + tb)[i] == (h + ta)[i] by {
                    if i >= h.len() {
                        assert(tb.take(ta.len() as int)[i - h.len()] == ta[i - h.len()]);
                    }
                }
            }
        }
    }

    /// Takes `buf` into the input; once 4096 bytes or more are gathered,
    /// codes them. Always accepts the whole of `buf`.
    pub fn write(&mut self, buf: &[u8]) -> (r: Result<usize, PkLibError>)
        requires
            old(self).inv(),
        ensures
            r == Ok::<usize, PkLibError>(buf@.len() as usize),
            final(self).inv(),
            final(self).written() == old(self).written() + buf@,
            final(self).taken() == old(self).taken(),
            final(self).mode() == old(self).mode(),
            final(self).dict_size() == old(self).dict_size(),
            old(self).started() ==> final(self).started(),
            old(self).stream().len() <= final(self).stream().len(),
            final(self).stream().take(old(self).stream().len() as int) == old(self).stream(),
            old(self).waiting() + buf@.len() < 4096 ==> {
                &&& final(self).buffered() == old(self).buffered() + buf@
                &&& final(self).tokens() == old(self).tokens()
                &&& final(self).window() == old(self).window()
                &&& final(self).window_pos() == old(self).window_pos()
                &&& final(self).waiting() == old(self).waiting() + buf@.len()
                &&& final(self).stream() == old(self).stream()
                &&& final(self).coded_len() == old(self).coded_len()
                &&& final(self).pending() == old(self).pending()
            },
            old(self).waiting() + buf@.len() >= 4096 ==> {
                &&& final(self).started()
                &&& final(self).waiting() == 0
                &&& final(self).written().len() - final(self).coded_len() <= MAX_REP_LENGTH
            },
            old(self).waiting() + buf@.len() >= 4096 ==> {
                let m = model_process(
                    old(self).window(),
                    old(self).window_pos(),
                    old(self).buffered() + buf@,
                    dict_bytes(old(self).dict_size()) as int,
                );
                &&& final(self).tokens() == old(self).tokens() + m.0
                &&& final(self).window() == m.1
                &&& final(self).window_pos() == m.2
            },
            final(self).coded_len() <= final(self).written().len(),
            old(self).pending().len() <= final(self).pending().len(),
            (final(self).pending().len() - old(self).pending().len()) % (OUT_FLUSH_LIMIT as int) == 0,
            bytes_bits(final(self).taken() + final(self).pending()).len() <= final(self).stream().len(),
            final(self).stream().take(bytes_bits(final(self).taken() + final(self).pending()).len() as int)
                == bytes_bits(final(self).taken() + final(self).pending()),
            final(self).stream().len() < bytes_bits(final(self).taken() + final(self).pending()).len()
                + 8 * OUT_FLUSH_LIMIT,
    {
        // Accumulate input data
        let n = buf.len();
        let mut ib: Vec<u8> = Vec::new();
        std::mem::swap(&mut ib, &mut self.input_buffer);
        let ghost ib0 = ib@;
        for i in 0..n
            invariant
                n == buf@.len(),
                ib@ == ib0 + buf@.take(i as int),
        {
            ib.push(buf[i]);
            assert(ib@ =~= ib0 + buf@.take(i + 1));
        }
        std::mem::swap(&mut ib, &mut self.input_buffer);
        proof {
            assert(buf@.take(n as int) =~= buf@);
            self.written@ = self.written@ + buf@;
            assert(self.consumed@ + self.input_buffer@ =~= self.written@);
        }
        let ghost mid = *self;
        proof {
            lemma_tokens_extend_refl(self.tokens@);
            Self::lemma_stream_grows(mid, mid);
        }
        // Process when we have enough data
        if self.input_buffer.len() >= 4096 {
            self.process_input()?;
            proof {
                Self::lemma_stream_grows(mid, *self);
                assert(mid.input_buffer@ == old(self).buffered() + buf@);
                assert(mid.state.dsize_bytes == dict_bytes(old(self).dict_size()));
            }
        }
        proof {
            self.lemma_flushed_prefix();
        }
        Ok(buf.len())
    }

    /// The complete bytes handed out or pending start the stream, and fewer
    /// than 0x800 complete bytes and a partial byte follow them.
    proof fn lemma_flushed_prefix(&self)
        requires
            self.inv(),
        ensures
            bytes_bits(self.taken() + self.pending()).len() <= self.stream().len(),
            self.stream().take(bytes_bits(self.taken() + self.pending()).len() as int)
                == bytes_bits(self.taken() + self.pending()),
            self.stream().len() < bytes_bits(self.taken() + self.pending()).len() + 8
                * OUT_FLUSH_LIMIT,
    {
        let a = self.taken@ + self.output@;
        let b = self.state.out_buff@.take(self.state.out_bytes as int);
        lemma_bytes_bits_append(a, b);
        lemma_bytes_bits_len(a);
        lemma_bytes_bits_len(b);
        assert(self.taken@ + self.output@ + b == a + b);
        let p = byte_bits(self.state.out_buff@[self.state.out_bytes as int]).take(
            self.state.out_bits as int,
        );
        assert(self.stream() == bytes_bits(a) + bytes_bits(b) + p);
        assert(self.stream().take(bytes_bits(a).len() as int) =~= bytes_bits(a));
    }

    /// Codes all gathered input that can be coded now and makes the complete
    /// compressed bytes pending.
    pub fn flush(&mut self) -> (r: Result<(), PkLibError>)
        requires
            old(self).inv(),
        ensures
            r is Ok,
            final(self).inv(),
            final(self).started(),
            final(self).written() == old(self).written(),
            final(self).taken() == old(self).taken(),
            final(self).mode() == old(self).mode(),
            final(self).dict_size() == old(self).dict_size(),
            old(self).stream().len() <= final(self).stream().len(),
            final(self).stream().take(old(self).stream().len() as int) == old(self).stream(),
            final(self).stream().take(bytes_bits(final(self).taken() + final(self).pending()).len() as int)
                == bytes_bits(final(self).taken() + final(self).pending()),
            final(self).stream().len() < bytes_bits(final(self).taken() + final(self).pending()).len()
                + 8,
            final(self).waiting() == 0,
            final(self).written().len() - final(self).coded_len() <= MAX_REP_LENGTH,
            ({
                let m = model_process(
                    old(self).window(),
                    old(self).window_pos(),
                    old(self).buffered(),
                    dict_bytes(old(self).dict_size()) as int,
                );
                &&& final(self).tokens() == old(self).tokens() + m.0
                &&& final(self).window() == m.1
                &&& final(self).window_pos() == m.2
            }),
            exists|ts: Seq<Token>|
                #![trigger tokens_bits(final(self).tables(), ts)]
                describes(ts, final(self).written().take(final(self).coded_len()))
                    && tokens_codable(final(self).tables(), ts) && final(self).stream()
                    == header_bits(final(self).mode(), final(self).dict_size()) + tokens_bits(
                    final(self).tables(),
                    ts,
                ),
    {
        proof {
            assert(old(self).state.dsize_bytes == dict_bytes(old(self).dict_size()));
        }
        self.process_input()?;
        let ghost pre = *self;
        proof {
            Self::lemma_stream_grows(*old(self), pre);
        }
        self.flush_output_buffer();
        proof {
            if pre.state.out_bytes > 0 {
                if pre.state.out_bits == 0 {
                    lemma_covers_zero_byte(0);
                }
            }
            let all = self.taken@ + self.output@;
            assert(all + self.state.out_buff@.take(0) =~= all);
            assert(self.stream() == bytes_bits(all) + byte_bits(self.state.out_buff@[0]).take(
                self.state.out_bits as int,
            ));
            assert(self.stream().take(bytes_bits(all).len() as int) =~= bytes_bits(all));
            self.lemma_written_in_order();
        }
        Ok(())
    }

    /// Codes everything written, adds the end marker, pads the last byte with
    /// zero bits, and returns the compressed bytes not handed out before.
    /// All the compressed bytes, those handed out before and those returned,
    /// are the header (the mode byte and the dictionary byte), the codes of
    /// tokens that describe all the written data, and the end marker. The
    /// tokens are those coded so far and then those of `model_finish`.
    #[verifier::rlimit(60)]
    #[verifier::spinoff_prover]
    pub fn finish(self) -> (r: Result<Vec<u8>, PkLibError>)
        requires
            self.inv(),
        ensures
            r matches Ok(bytes) ==> bytes_bits(self.taken() + bytes@) == pad_bits(
                header_bits(self.mode(), self.dict_size()) + tokens_bits(
                    self.tables(),
                    self.tokens() + model_finish(
                        self.window(),
                        self.window_pos(),
                        self.buffered(),
                        dict_bytes(self.dict_size()) as int,
                    ),
                ) + end_bits(self.tables()),
            ),
            r is Ok,
            r matches Ok(bytes) ==> self.taken().len() + bytes@.len() >= 3,
            r matches Ok(bytes) ==> bytes_bits(self.taken() + bytes@).take(
                self.stream().len() as int,
            ) == self.stream(),
            r matches Ok(bytes) ==> exists|ts: Seq<Token>|
                #![trigger tokens_bits(self.tables(), ts)]
                describes(ts, self.written()) && tokens_codable(self.tables(), ts) && bytes_bits(
                    self.taken() + bytes@,
                ) == pad_bits(
                    header_bits(self.mode(), self.dict_size()) + tokens_bits(self.tables(), ts)
                        + end_bits(self.tables()),
                ),
    {
        let mut w = self;
        // Ensure initialization even for empty data
        if !w.initialized {
            w.initialize()?;
        }
        let ghost w1 = w;
        w.flush_remaining_data()?;
        let ghost pre = w;
        w.end_stream();
        proof {
            assert(w1.state.dsize_bytes == dict_bytes(self.dict_size()));
            assert(w1.window() == self.window());
            assert(w1.buffered() == self.buffered());
            Self::lemma_stream_grows(w1, pre);
            self.lemma_kept_prefix(w1, pre, end_bits(pre.tables()));
            assert(pre.header() == header_bits(self.mode(), self.dict_size()));
            let all = pad_bits(pre.header() + tokens_bits(pre.tables(), pre.tokens@) + end_bits(
                pre.tables(),
            ));
            assert(header_bits(self.mode(), self.dict_size()).len() == 16);
            assert(all.len() >= 17);
            lemma_bytes_bits_len(w.taken@ + w.output@);
            assert(all.len() % 8 == 0);
        }
        Ok(w.output)
    }

    /// What dropping an unfinished writer does: finishes the stream as
    /// `finish` does (header, codes of all written data, end marker, padding)
    /// and returns the compressed bytes not handed out before: the same bytes
    /// as `finish`.
    #[verifier::rlimit(60)]
    #[verifier::spinoff_prover]
    pub fn close(self) -> (r: Vec<u8>)
        requires
            self.inv(),
        ensures
            bytes_bits(self.taken() + r@) == pad_bits(
                header_bits(self.mode(), self.dict_size()) + tokens_bits(
                    self.tables(),
                    self.tokens() + model_finish(
                        self.window(),
                        self.window_pos(),
                        self.buffered(),
                        dict_bytes(self.dict_size()) as int,
                    ),
                ) + end_bits(self.tables()),
            ),
            self.taken().len() + r@.len() >= 3,
            bytes_bits(self.taken() + r@).take(self.stream().len() as int) == self.stream(),
            exists|ts: Seq<Token>|
                #![trigger tokens_bits(self.tables(), ts)]
                describes(ts, self.written()) && tokens_codable(self.tables(), ts) && bytes_bits(
                    self.taken() + r@,
                ) == pad_bits(
                    header_bits(self.mode(), self.dict_size()) + tokens_bits(self.tables(), ts)
                        + end_bits(self.tables()),
                ),
    {
        let mut w = self;
        if !w.initialized {
            let _ = w.initialize();
        }
        let ghost w1 = w;
        let _ = w.flush_remaining_data();
        let ghost pre = w;
        w.end_stream();
        proof {
            assert(w1.state.dsize_bytes == dict_bytes(self.dict_size()));
            assert(w1.window() == self.window());
            assert(w1.buffered() == self.buffered());
            Self::lemma_stream_grows(w1, pre);
            self.lemma_kept_prefix(w1, pre, end_bits(pre.tables()));
            assert(pre.header() == header_bits(self.mode(), self.dict_size()));
            let all = pad_bits(pre.header() + tokens_bits(pre.tables(), pre.tokens@) + end_bits(
                pre.tables(),
            ));
            assert(header_bits(self.mode(), self.dict_size()).len() == 16);
            assert(all.len() >= 17);
            lemma_bytes_bits_len(w.taken@ + w.output@);
            assert(all.len() % 8 == 0);
        }
        w.output
    }

    /// Adds the end marker, pads the last byte and makes all complete bytes
    /// pending; all input must be coded already.
    fn end_stream(&mut self)
        requires
            old(self).inv(),
            old(self).input_buffer@.len() == 0,
            old(self).state.work_pos == old(self).state.work_bytes,
        ensures
            describes(old(self).tokens@, old(self).written@),
            tokens_codable(old(self).tables(), old(self).tokens@),
            bytes_bits(final(self).taken@ + final(self).output@) == pad_bits(
                old(self).header() + tokens_bits(old(self).tables(), old(self).tokens@) + end_bits(
                    old(self).tables(),
                ),
            ),
            end_bits(old(self).tables()).len() >= 1,
            final(self).taken == old(self).taken,
    {
        proof {
            self.lemma_finished_tokens();
            lemma_configured_tables(self.state, self.mode@, self.size@);
            assert(self.state.literal_bits@[END_MARKER as int] >= 1);
        }
        self.write_end_marker();
        let ghost mid = *self;
        let ghost all = mid.taken@ + mid.output@ + mid.state.out_buff@.take(mid.state.out_bytes as int);
        self.flush_output_buffer();
        proof {
            if mid.state.out_bytes > 0 {
                assert(self.taken@ + self.output@ =~= all);
            } else {
                assert(self.taken@ + self.output@ =~= all);
            }
        }
    }

    /// The final bits, padded after the end marker, start with the bits coded
    /// before: `mid` is `self` or, if `self` had not started, `self` after
    /// starting, and `pre` comes from `mid` by coding more.
    proof fn lemma_kept_prefix(&self, mid: ImplodeWriter, pre: ImplodeWriter, e: Seq<bool>)
        requires
            self.core_ok(),
            self.initialized ==> mid == *self,
            mid.stream().len() <= pre.stream().len(),
            pre.stream().take(mid.stream().len() as int) == mid.stream(),
        ensures
            pad_bits(pre.stream() + e).take(self.stream().len() as int) == self.stream(),
    {
        if !self.initialized {
            assert(self.taken@ + self.output@ + self.state.out_buff@.take(0) =~= Seq::<u8>::empty());
            assert(self.stream() =~= Seq::<bool>::empty());
            assert(pad_bits(pre.stream() + e).take(0) =~= Seq::<bool>::empty());
        } else {
            assert(pad_bits(pre.stream() + e).take(self.stream().len() as int) =~= self.stream()) by {
                assert forall|i: int| 0 <= i < self.stream().len() implies pad_bits(pre.stream()
                    + e)[i] == self.stream()[i] by {
                    assert(pre.stream().take(mid.stream().len() as int)[i] == mid.stream()[i]);
                }
            }
        }
    }

    /// Every written byte is coded or waiting, once and in order: the written
    /// bytes are those whose codes are in the stream (the first `coded_len`),
    /// then the rest of the window from its position, then the bytes not yet
    /// moved into the window. Once started, the stream is the header and the
    /// codes of the tokens, which describe the first `coded_len` bytes.
    pub proof fn lemma_written_in_order(&self)
        requires
            self.inv(),
        ensures
            0 <= self.coded_len() <= self.written().len(),
            self.written() == self.written().take(self.coded_len()) + self.window().skip(
                self.window_pos(),
            ) + self.buffered(),
            describes(self.tokens(), self.written().take(self.coded_len())),
            tokens_codable(self.tables(), self.tokens()),
            self.started() ==> self.stream() == header_bits(self.mode(), self.dict_size())
                + tokens_bits(self.tables(), self.tokens()),
            self.started() ==> exists|ts: Seq<Token>|
                #![trigger tokens_bits(self.tables(), ts)]
                describes(ts, self.written().take(self.coded_len())) && tokens_codable(
                    self.tables(),
                    ts,
                ) && self.stream() == header_bits(self.mode(), self.dict_size()) + tokens_bits(
                    self.tables(),
                    ts,
                ),
    {
        let n = self.coded_len();
        let c = self.consumed@;
        assert(c.take(n) =~= self.written@.take(n));
        assert(self.window().skip(self.window_pos()) =~= c.skip(n));
        assert(self.written@ =~= c.take(n) + c.skip(n) + self.input_buffer@);
        if !self.initialized {
            assert(self.tokens@.len() == 0);
        }
        assert(tokens_bits(self.tables(), self.tokens@) == tokens_bits(self.tables(), self.tokens@));
    }

    /// With all input coded, the tokens describe everything written.
    proof fn lemma_finished_tokens(&self)
        requires
            self.inv(),
            self.input_buffer@.len() == 0,
            self.state.work_pos == self.state.work_bytes,
        ensures
            describes(self.tokens@, self.written@),
            self.stream() == self.header() + tokens_bits(self.tables(), self.tokens@),
            tokens_codable(self.tables(), self.tokens@),
    {
        assert(self.consumed@.take(self.base@ + self.state.work_pos) =~= self.consumed@);
        assert(self.consumed@ + self.input_buffer@ =~= self.consumed@);
    }
}

/// Compresses `data` in one go: the result is the header of the mode and
/// dictionary size, the codes of tokens that describe `data`, and the end
/// marker, padded to whole bytes. The tokens are those of `model_compress`.
pub fn implode_bytes(data: &[u8], mode: CompressionMode, dict_size: DictionarySize) -> (r: Result<
    Vec<u8>,
    PkLibError,
>)
    ensures
        r is Ok,
        r matches Ok(bytes) ==> bytes@.len() >= 3,
        r matches Ok(bytes) ==> exists|ts: Seq<Token>|
            #![trigger tokens_bits(code_tables(mode, dict_size), ts)]
            describes(ts, data@) && tokens_codable(code_tables(mode, dict_size), ts) && bytes_bits(
                bytes@,
            ) == pad_bits(
                header_bits(mode, dict_size) + tokens_bits(code_tables(mode, dict_size), ts)
                    + end_bits(code_tables(mode, dict_size)),
            ),
        r matches Ok(bytes) ==> bytes_bits(bytes@) == pad_bits(
            header_bits(mode, dict_size) + tokens_bits(
                code_tables(mode, dict_size),
                model_compress(data@, dict_bytes(dict_size) as int),
            ) + end_bits(code_tables(mode, dict_size)),
        ),
{
    let mut writer = ImplodeWriter::new(mode, dict_size)?;
    let ghost w0 = writer;
    writer.write(data)?;
    proof {
        assert(Seq::<u8>::empty() + data@ =~= data@);
    }
    let ghost w = writer;
    let bytes = writer.finish()?;
    proof {
        assert(w.taken() + bytes@ =~= bytes@);
        let ds = dict_bytes(dict_size) as int;
        reveal(model_process);
        if data@.len() < 4096 {
            assert(w.buffered() =~= data@);
            assert(Seq::<Token>::empty() + model_finish(Seq::empty(), 0, data@, ds) =~= model_finish(
                Seq::empty(),
                0,
                data@,
                ds,
            ));
        } else {
            assert(w0.buffered() + data@ =~= data@);
            let m = model_process(Seq::empty(), 0, data@, ds);
            assert(w.buffered() =~= Seq::<u8>::empty());
            assert(model_process(w.window(), w.window_pos(), Seq::<u8>::empty(), ds).0 =~= Seq::<Token>::empty());
            assert(Seq::<Token>::empty() + m.0 =~= m.0);
            assert(m.0 + (Seq::<Token>::empty() + model_greedy(m.1, ds, m.2, m.1.len() as int).0) =~= m.0
                + model_greedy(m.1, ds, m.2, m.1.len() as int).0);
        }
    }
    Ok(bytes)
}

/// Moves bytes `from..to` of `buf` to its start.
fn shift_left(buf: &mut Vec<u8>, from: usize, to: usize)
    requires
        from <= to <= old(buf)@.len(),
    ensures
        final(buf)@.len() == old(buf)@.len(),
        final(buf)@.take((to - from) as int) == old(buf)@.subrange(from as int, to as int),
{
    let n = to - from;
    let blen = buf.len();
    let mut i: usize = 0;
    while i < n
        invariant
            blen == buf@.len(),
            n == to - from,
            to <= buf@.len(),
            buf@.len() == old(buf)@.len(),
            0 <= i <= n,
            forall|j: int| 0 <= j < i ==> #[trigger] buf@[j] == old(buf)@[from + j],
            forall|j: int| i <= j < buf@.len() ==> #[trigger] buf@[j] == old(buf)@[j],
        decreases n - i,
    {
        let b = buf[i + from];
        buf.set(i, b);
        i = i + 1;
    }
    assert(buf@.take(n as int) =~= old(buf)@.subrange(from as int, to as int));
}

/// Copies `n` bytes of `src`, from `start` on, into `buf` at `at`.
fn copy_into(buf: &mut Vec<u8>, at: usize, src: &Vec<u8>, start: usize, n: usize)
    requires
        at + n <= old(buf)@.len(),
        start + n <= src@.len(),
    ensures
        final(buf)@.len() == old(buf)@.len(),
        final(buf)@.take((at + n) as int) == old(buf)@.take(at as int) + src@.subrange(
            start as int,
            (start + n) as int,
        ),
{
    let blen = buf.len();
    let slen = src.len();
    let mut i: usize = 0;
    while i < n
        invariant
            blen == buf@.len(),
            slen == src@.len(),
            at + n <= buf@.len(),
            start + n <= src@.len(),
            buf@.len() == old(buf)@.len(),
            0 <= i <= n,
            forall|j: int| 0 <= j < at ==> #[trigger] buf@[j] == old(buf)@[j],
            forall|j: int| 0 <= j < i ==> #[trigger] buf@[at + j] == src@[start + j],
        decreases n - i,
    {
        let b = src[start + i];
        buf.set(at + i, b);
        i = i + 1;
    }
    assert forall|k: int| at <= k < at + n implies #[trigger] buf@[k] == src@[start + (k - at)] by {
        assert(buf@[at + (k - at)] == src@[start + (k - at)]);
    }
    assert(buf@.take((at + n) as int) =~= old(buf)@.take(at as int) + src@.subrange(
        start as int,
        (start + n) as int,
    ));
}

/// The first `n` bytes of `v`.
fn copy_prefix(v: &Vec<u8>, n: usize) -> (r: Vec<u8>)
    requires
        n <= v@.len(),
    ensures
        r@ == v@.take(n as int),
{
    let mut r: Vec<u8> = Vec::new();
    for i in 0..n
        invariant
            n <= v@.len(),
            r@ == v@.take(i as int),
    {
        r.push(v[i]);
        assert(r@ =~= v@.take(i + 1));
    }
    r
}

} // verus!
