//! The byte-pair hash table: for every pair hash, the positions in the work
//! buffer where a pair with that hash starts, so that earlier occurrences of
//! the bytes at the current position can be found quickly.

use vstd::prelude::*;
use crate::common::{byte_pair_hash, pair_hash, HASH_TABLE_SIZE, WORK_BUFF_SIZE};
use crate::state::ImplodeState;

verus! {

/// Hash of the byte pair at position `p`.
pub open spec fn hash_at(wb: Seq<u8>, p: int) -> int {
    pair_hash(wb[p], wb[p + 1])
}

/// Number of positions in `lo..hi` whose pair hash is below `h`.
pub open spec fn count_below(wb: Seq<u8>, lo: int, hi: int, h: int) -> nat
    decreases hi - lo,
{
    if hi <= lo {
        0
    } else {
        count_below(wb, lo, hi - 1, h) + if hash_at(wb, hi - 1) < h {
            1nat
        } else {
            0nat
        }
    }
}

/// Number of positions in `lo..hi` whose pair hash is `h`.
pub open spec fn count_eq(wb: Seq<u8>, lo: int, hi: int, h: int) -> nat
    decreases hi - lo,
{
    if hi <= lo {
        0
    } else {
        count_eq(wb, lo, hi - 1, h) + if hash_at(wb, hi - 1) == h {
            1nat
        } else {
            0nat
        }
    }
}

/// Place of position `p` when the positions `lo..hi` are ordered by pair hash
/// and, for equal hashes, by position.
pub open spec fn pair_rank(wb: Seq<u8>, lo: int, hi: int, p: int) -> nat {
    count_below(wb, lo, hi, hash_at(wb, p)) + count_eq(wb, lo, p, hash_at(wb, p))
}

/// The end of the positions that `sort_buffer(begin, end)` sorts: a pair must
/// start before `end - 1` and lie inside the work buffer.
pub open spec fn sort_stop(len: int, end: int) -> int {
    if end - 1 < len - 1 {
        end - 1
    } else {
        len - 1
    }
}

proof fn lemma_count_split(wb: Seq<u8>, lo: int, hi: int, h: int)
    ensures
        count_below(wb, lo, hi, h + 1) == count_below(wb, lo, hi, h) + count_eq(wb, lo, hi, h),
    decreases hi - lo,
{
    if hi > lo {
        lemma_count_split(wb, lo, hi - 1, h);
    }
}

proof fn lemma_count_below_zero(wb: Seq<u8>, lo: int, hi: int)
    ensures
        count_below(wb, lo, hi, 0) == 0,
    decreases hi - lo,
{
    if hi > lo {
        lemma_count_below_zero(wb, lo, hi - 1);
    }
}

proof fn lemma_count_below_mono(wb: Seq<u8>, lo: int, hi: int, h1: int, h2: int)
    requires
        h1 <= h2,
    ensures
        count_below(wb, lo, hi, h1) <= count_below(wb, lo, hi, h2),
    decreases hi - lo,
{
    if hi > lo {
        lemma_count_below_mono(wb, lo, hi - 1, h1, h2);
    }
}

proof fn lemma_count_eq_mono(wb: Seq<u8>, lo: int, hi1: int, hi2: int, h: int)
    requires
        lo <= hi1 <= hi2,
    ensures
        count_eq(wb, lo, hi1, h) <= count_eq(wb, lo, hi2, h),
    decreases hi2 - hi1,
{
    if hi1 < hi2 {
        lemma_count_eq_mono(wb, lo, hi1, hi2 - 1, h);
    }
}

proof fn lemma_count_bounds(wb: Seq<u8>, lo: int, hi: int, h: int)
    requires
        lo <= hi,
    ensures
        count_below(wb, lo, hi, h) <= hi - lo,
        count_eq(wb, lo, hi, h) <= hi - lo,
    decreases hi - lo,
{
    if hi > lo {
        lemma_count_bounds(wb, lo, hi - 1, h);
    }
}

proof fn lemma_count_all(wb: Seq<u8>, lo: int, hi: int)
    requires
        lo <= hi,
    ensures
        count_below(wb, lo, hi, HASH_TABLE_SIZE as int) == hi - lo,
    decreases hi - lo,
{
    if hi > lo {
        lemma_count_all(wb, lo, hi - 1);
    }
}

/// Every position of `lo..hi` has a place below the number of positions, and
/// no two positions share a place.
proof fn lemma_rank_facts(wb: Seq<u8>, lo: int, hi: int, p: int, q: int)
    requires
        lo <= p < hi,
        lo <= q < hi,
    ensures
        pair_rank(wb, lo, hi, p) < hi - lo,
        pair_rank(wb, lo, hi, q) < hi - lo,
        p != q ==> pair_rank(wb, lo, hi, p) != pair_rank(wb, lo, hi, q),
{
    lemma_rank_below(wb, lo, hi, p);
    lemma_rank_below(wb, lo, hi, q);
    if p != q {
        let hp = hash_at(wb, p);
        let hq = hash_at(wb, q);
        if hp == hq {
            if p < q {
                lemma_count_eq_mono(wb, lo, p + 1, q, hp);
            } else {
                lemma_count_eq_mono(wb, lo, q + 1, p, hp);
            }
        } else if hp < hq {
            lemma_count_below_mono(wb, lo, hi, hp + 1, hq);
        } else {
            lemma_count_below_mono(wb, lo, hi, hq + 1, hp);
        }
    }
}

/// A position's place lies inside the block of its hash.
proof fn lemma_rank_below(wb: Seq<u8>, lo: int, hi: int, p: int)
    requires
        lo <= p < hi,
    ensures
        pair_rank(wb, lo, hi, p) < count_below(wb, lo, hi, hash_at(wb, p) + 1),
        count_below(wb, lo, hi, hash_at(wb, p) + 1) <= hi - lo,
{
    let h = hash_at(wb, p);
    lemma_count_split(wb, lo, hi, h);
    lemma_count_eq_mono(wb, lo, p + 1, hi, h);
    lemma_count_bounds(wb, lo, hi, h + 1);
}

/// The hash table describes the pairs at positions `lo..stop` of `wb`:
/// `phash_to_index[h]` counts the pairs whose hash is below `h`, and
/// `phash_offs` lists the positions, counted from the start of the work
/// buffer, ordered by hash, then by position.
pub open spec fn table_built(st: &ImplodeState, wb: Seq<u8>, lo: int, stop: int) -> bool {
    &&& forall|h: int|
        0 <= h < HASH_TABLE_SIZE ==> #[trigger] st.phash_to_index@[h] as int == count_below(
            wb,
            lo,
            stop,
            h,
        )
    &&& forall|p: int|
        lo <= p < stop ==> st.phash_offs@[#[trigger] pair_rank(wb, lo, stop, p) as int] as int == p
}

/// No pair before `p` (from `lo` on) has the hash of the pair at `p`.
pub open spec fn first_with_hash(wb: Seq<u8>, lo: int, p: int) -> bool {
    forall|q: int| lo <= q < p ==> #[trigger] hash_at(wb, q) != hash_at(wb, p)
}

/// Some pair starting in `lo..stop` has hash `h`.
pub open spec fn hash_occurs(wb: Seq<u8>, lo: int, stop: int, h: int) -> bool {
    exists|p: int| lo <= p < stop && #[trigger] hash_at(wb, p) == h
}

/// A pair hash is at most 9 * 255, below the last entry of the table.
proof fn lemma_hash_range(wb: Seq<u8>, p: int)
    ensures
        0 <= hash_at(wb, p) < HASH_TABLE_SIZE - 1,
{
}

/// A pair with hash `h` at `p` makes the count of `h` positive.
proof fn lemma_count_eq_pos(wb: Seq<u8>, lo: int, stop: int, p: int)
    requires
        lo <= p < stop,
    ensures
        count_eq(wb, lo, stop, hash_at(wb, p)) >= 1,
{
    lemma_count_eq_mono(wb, lo, p + 1, stop, hash_at(wb, p));
}

/// In a built table, `get_hash_index` finds every hash that occurs, and the
/// entry it reports holds the first position with that hash.
pub proof fn lemma_index_finds_first_occurrence(
    st: &ImplodeState,
    wb: Seq<u8>,
    lo: int,
    stop: int,
    p: int,
)
    requires
        st.sizes_ok(),
        table_built(st, wb, lo, stop),
        0 <= lo <= p < stop,
        stop - lo <= WORK_BUFF_SIZE,
        first_with_hash(wb, lo, p),
    ensures
        st.hash_index_spec(hash_at(wb, p) as usize) == Some(
            st.phash_to_index@[hash_at(wb, p)] as usize,
        ),
        st.phash_offs@[st.phash_to_index@[hash_at(wb, p)] as int] as int == p,
{
    let h = hash_at(wb, p);
    lemma_hash_range(wb, p);
    lemma_count_eq_zero(wb, lo, p, h);
    lemma_count_eq_pos(wb, lo, stop, p);
    lemma_count_split(wb, lo, stop, h);
    lemma_rank_facts(wb, lo, stop, p, p);
    assert(st.phash_to_index@[h] as int == count_below(wb, lo, stop, h));
    assert(st.phash_to_index@[h + 1] as int == count_below(wb, lo, stop, h + 1));
    assert(pair_rank(wb, lo, stop, p) == count_below(wb, lo, stop, h));
}

/// In a built table, `get_hash_index` reports nothing for a hash that no
/// pair has.
pub proof fn lemma_index_absent(st: &ImplodeState, wb: Seq<u8>, lo: int, stop: int, h: int)
    requires
        st.sizes_ok(),
        table_built(st, wb, lo, stop),
        lo <= stop,
        0 <= h < HASH_TABLE_SIZE,
        !hash_occurs(wb, lo, stop, h),
    ensures
        st.hash_index_spec(h as usize) == None::<usize>,
{
    lemma_count_eq_zero(wb, lo, stop, h);
    lemma_count_split(wb, lo, stop, h);
}

/// In a built table, pairs with the same hash are listed in the order of
/// their positions.
pub proof fn lemma_same_hash_in_order(wb: Seq<u8>, lo: int, stop: int, p: int, q: int)
    requires
        lo <= p < q < stop,
        hash_at(wb, p) == hash_at(wb, q),
    ensures
        pair_rank(wb, lo, stop, p) < pair_rank(wb, lo, stop, q),
{
    lemma_count_eq_mono(wb, lo, p + 1, q, hash_at(wb, p));
}

/// Every count below the number of pairs with hash `h` is reached by one of
/// them: the `j`-th pair with that hash.
proof fn lemma_rank_onto(wb: Seq<u8>, lo: int, hi: int, h: int, j: int)
    requires
        lo <= hi,
        0 <= j < count_eq(wb, lo, hi, h),
    ensures
        exists|p: int| lo <= p < hi && hash_at(wb, p) == h && #[trigger] count_eq(wb, lo, p, h) == j,
    decreases hi - lo,
{
    if count_eq(wb, lo, hi - 1, h) > j {
        lemma_rank_onto(wb, lo, hi - 1, h, j);
        let p = choose|p: int| lo <= p < hi - 1 && hash_at(wb, p) == h && #[trigger] count_eq(wb, lo, p, h) == j;
        assert(lo <= p < hi && hash_at(wb, p) == h && count_eq(wb, lo, p, h) == j);
    } else {
        assert(hash_at(wb, hi - 1) == h && count_eq(wb, lo, hi - 1, h) == j);
    }
}

/// The block of hash `h`: the entries from `count_below(h)` to
/// `count_below(h + 1)` hold exactly the positions with hash `h`, in
/// increasing order.
proof fn lemma_bucket(st: &ImplodeState, wb: Seq<u8>, lo: int, stop: int, h: int)
    requires
        table_built(st, wb, lo, stop),
        lo <= stop,
        0 <= h,
    ensures
        count_below(wb, lo, stop, h) <= count_below(wb, lo, stop, h + 1) <= stop - lo,
        forall|k: int|
            count_below(wb, lo, stop, h) <= k < count_below(wb, lo, stop, h + 1) ==> {
                &&& lo <= #[trigger] st.phash_offs@[k] < stop
                &&& hash_at(wb, st.phash_offs@[k] as int) == h
                &&& pair_rank(wb, lo, stop, st.phash_offs@[k] as int) == k
            },
        forall|k1: int, k2: int|
            count_below(wb, lo, stop, h) <= k1 < k2 < count_below(wb, lo, stop, h + 1)
                ==> #[trigger] st.phash_offs@[k1] < #[trigger] st.phash_offs@[k2],
{
    let a = count_below(wb, lo, stop, h);
    let b = count_below(wb, lo, stop, h + 1);
    lemma_count_split(wb, lo, stop, h);
    lemma_count_bounds(wb, lo, stop, h + 1);
    assert forall|k: int| a <= k < b implies {
        &&& lo <= #[trigger] st.phash_offs@[k] < stop
        &&& hash_at(wb, st.phash_offs@[k] as int) == h
        &&& pair_rank(wb, lo, stop, st.phash_offs@[k] as int) == k
    } by {
        lemma_rank_onto(wb, lo, stop, h, k - a);
        let p = choose|p: int| lo <= p < stop && hash_at(wb, p) == h && #[trigger] count_eq(wb, lo, p, h) == k - a;
        assert(pair_rank(wb, lo, stop, p) == k);
        assert(st.phash_offs@[pair_rank(wb, lo, stop, p) as int] as int == p);
    }
    assert forall|k1: int, k2: int| a <= k1 < k2 < b implies #[trigger] st.phash_offs@[k1]
        < #[trigger] st.phash_offs@[k2] by {
        let p1 = st.phash_offs@[k1] as int;
        let p2 = st.phash_offs@[k2] as int;
        if p2 <= p1 {
            lemma_count_eq_mono(wb, lo, p2, p1, h);
        }
    }
}

/// Every place below the number of pairs is the place of one of them.
proof fn lemma_rank_fill(wb: Seq<u8>, lo: int, hi: int, k: int)
    requires
        lo <= hi,
        0 <= k < hi - lo,
    ensures
        exists|p: int| lo <= p < hi && #[trigger] pair_rank(wb, lo, hi, p) == k,
{
    lemma_count_all(wb, lo, hi);
    lemma_count_below_zero(wb, lo, hi);
    let h = lemma_find_block(wb, lo, hi, k, HASH_TABLE_SIZE as int);
    lemma_count_split(wb, lo, hi, h);
    lemma_rank_onto(wb, lo, hi, h, k - count_below(wb, lo, hi, h));
    let p = choose|p: int| lo <= p < hi && hash_at(wb, p) == h && #[trigger] count_eq(wb, lo, p, h) == k
        - count_below(wb, lo, hi, h);
    assert(pair_rank(wb, lo, hi, p) == k);
}

/// The hash below `top` whose block holds place `k`.
proof fn lemma_find_block(wb: Seq<u8>, lo: int, hi: int, k: int, top: int) -> (h: int)
    requires
        0 <= k < count_below(wb, lo, hi, top),
        count_below(wb, lo, hi, 0) == 0,
        top >= 0,
    ensures
        0 <= h < top,
        count_below(wb, lo, hi, h) <= k < count_below(wb, lo, hi, h + 1),
    decreases top,
{
    if top == 0 {
        assert(false);
        0
    } else if count_below(wb, lo, hi, top - 1) <= k {
        top - 1
    } else {
        lemma_find_block(wb, lo, hi, k, top - 1)
    }
}

/// Two tables built from the same pairs agree: on the first entries of
/// `phash_to_index`, and on the entries of `phash_offs` that hold pairs. So
/// sorting the same buffer a second time changes nothing.
pub proof fn lemma_built_tables_agree(
    s1: &ImplodeState,
    s2: &ImplodeState,
    wb: Seq<u8>,
    lo: int,
    stop: int,
)
    requires
        s1.sizes_ok(),
        s2.sizes_ok(),
        table_built(s1, wb, lo, stop),
        table_built(s2, wb, lo, stop),
        lo <= stop,
    ensures
        s1.phash_to_index@ == s2.phash_to_index@,
        forall|k: int| 0 <= k < stop - lo ==> #[trigger] s1.phash_offs@[k] == s2.phash_offs@[k],
{
    assert(s1.phash_to_index@ =~= s2.phash_to_index@) by {
        assert forall|h: int| 0 <= h < HASH_TABLE_SIZE implies s1.phash_to_index@[h]
            == s2.phash_to_index@[h] by {
            assert(s1.phash_to_index@[h] as int == count_below(wb, lo, stop, h));
            assert(s2.phash_to_index@[h] as int == count_below(wb, lo, stop, h));
        }
    }
    assert forall|k: int| 0 <= k < stop - lo implies #[trigger] s1.phash_offs@[k]
        == s2.phash_offs@[k] by {
        lemma_rank_fill(wb, lo, stop, k);
        let p = choose|p: int| lo <= p < stop && #[trigger] pair_rank(wb, lo, stop, p) == k;
        assert(s1.phash_offs@[pair_rank(wb, lo, stop, p) as int] as int == p);
        assert(s2.phash_offs@[pair_rank(wb, lo, stop, p) as int] as int == p);
    }
}

/// `validate_hash_table(start, end)` is false as soon as one entry of
/// `phash_offs`, at any index, holds a nonzero offset outside `start..end`,
/// or one entry of `phash_to_index` lies past the end of `phash_offs`.
pub proof fn lemma_validate_rejects(st: &ImplodeState, start: usize, end: usize, k: int, h: int)
    ensures
        0 <= k < st.phash_offs@.len() && st.phash_offs@[k] != 0 && !(start <= st.phash_offs@[k]
            < end) ==> !st.hash_table_valid(start, end),
        0 <= h < st.phash_to_index@.len() && st.phash_to_index@[h] >= st.phash_offs@.len()
            ==> !st.hash_table_valid(start, end),
{
}

/// `validate_hash_table(start, end)` is true when every nonzero offset of
/// `phash_offs` lies in `start..end` and every entry of `phash_to_index` lies
/// inside `phash_offs`.
pub proof fn lemma_validate_accepts(st: &ImplodeState, start: usize, end: usize)
    requires
        forall|k: int|
            0 <= k < st.phash_offs@.len() && #[trigger] st.phash_offs@[k] != 0 ==> start
                <= st.phash_offs@[k] < end,
        forall|h: int|
            0 <= h < st.phash_to_index@.len() ==> (#[trigger] st.phash_to_index@[h] as int)
                < st.phash_offs@.len(),
    ensures
        st.hash_table_valid(start, end),
{
}

/// A table that passes `validate_hash_table` for a range passes it for every
/// wider range.
pub proof fn lemma_validate_wider(st: &ImplodeState, s1: usize, e1: usize, s2: usize, e2: usize)
    requires
        st.hash_table_valid(s1, e1),
        s2 <= s1,
        e1 <= e2,
    ensures
        st.hash_table_valid(s2, e2),
{
}

/// A table built over `lo..stop` on a table whose other entries of
/// `phash_offs` are empty (as in a new state) passes `validate_hash_table`
/// for every range that holds `lo..stop`.
pub proof fn lemma_built_table_valid(
    st: &ImplodeState,
    wb: Seq<u8>,
    lo: int,
    stop: int,
    start: usize,
    end: usize,
)
    requires
        st.sizes_ok(),
        table_built(st, wb, lo, stop),
        0 <= lo <= stop,
        stop - lo < WORK_BUFF_SIZE,
        forall|k: int| stop - lo <= k < WORK_BUFF_SIZE ==> #[trigger] st.phash_offs@[k] == 0,
        start <= lo,
        stop <= end,
    ensures
        st.hash_table_valid(start, end),
{
    assert forall|h: int| 0 <= h < st.phash_to_index@.len() implies (
    #[trigger] st.phash_to_index@[h] as int) < st.phash_offs@.len() by {
        lemma_count_bounds(wb, lo, stop, h);
    }
    assert forall|k: int|
        0 <= k < st.phash_offs@.len() && #[trigger] st.phash_offs@[k] != 0 implies start
            <= st.phash_offs@[k] < end by {
        lemma_rank_fill(wb, lo, stop, k);
        let p = choose|p: int| lo <= p < stop && #[trigger] pair_rank(wb, lo, stop, p) == k;
        assert(st.phash_offs@[pair_rank(wb, lo, stop, p) as int] as int == p);
    }
}

proof fn lemma_count_eq_zero(wb: Seq<u8>, lo: int, p: int, h: int)
    requires
        lo <= p,
        forall|q: int| lo <= q < p ==> #[trigger] hash_at(wb, q) != h,
    ensures
        count_eq(wb, lo, p, h) == 0,
    decreases p - lo,
{
    if p > lo {
        lemma_count_eq_zero(wb, lo, p - 1, h);
    }
}

impl ImplodeState {
    /// Everything but the hash tables is as in `old`.
    pub open spec fn same_but_hash(&self, old: &ImplodeState) -> bool {
        &&& self.ctype == old.ctype
        &&& self.dsize_bits == old.dsize_bits
        &&& self.dsize_mask == old.dsize_mask
        &&& self.dsize_bytes == old.dsize_bytes
        &&& self.work_buff == old.work_buff
        &&& self.work_bytes == old.work_bytes
        &&& self.work_pos == old.work_pos
        &&& self.out_buff == old.out_buff
        &&& self.out_bytes == old.out_bytes
        &&& self.out_bits == old.out_bits
        &&& self.literal_bits == old.literal_bits
        &&& self.literal_codes == old.literal_codes
        &&& self.dist_bits == old.dist_bits
        &&& self.dist_codes == old.dist_codes
    }

    /// Builds the hash table of the byte pairs that start in
    /// `buffer_begin..buffer_end - 1`: afterwards `phash_to_index[h]` is the
    /// number of those pairs whose hash is below `h`, and `phash_offs` lists
    /// their positions (counted from the start of the work buffer), ordered
    /// by hash and then by position. Entries of `phash_offs` past the last pair keep their values.
    /// With fewer than two bytes nothing changes.
    pub fn sort_buffer(&mut self, buffer_begin: usize, buffer_end: usize)
        requires
            old(self).sizes_ok(),
            buffer_begin < usize::MAX,
        ensures
            final(self).sizes_ok(),
            final(self).same_but_hash(old(self)),
            buffer_end <= buffer_begin + 1 ==> *final(self) == *old(self),
            buffer_end > buffer_begin + 1 ==> {
                let wb = old(self).work_buff@;
                let stop = sort_stop(wb.len() as int, buffer_end as int);
                let n = if stop > buffer_begin {
                    stop - buffer_begin
                } else {
                    0
                };
                &&& table_built(final(self), wb, buffer_begin as int, stop)
                &&& forall|k: int|
                    n <= k < WORK_BUFF_SIZE ==> #[trigger] final(self).phash_offs@[k]
                        == old(self).phash_offs@[k]
            },
    {
        // Ensure we have at least 2 bytes for pair hash
        if buffer_end <= buffer_begin + 1 {
            return ;
        }
        let ghost wb = self.work_buff@;
        let ghost lo = buffer_begin as int;
        let ghost stop = sort_stop(wb.len() as int, buffer_end as int);
        let wlen = self.work_buff.len();

        // Step 1: Zero the hash-to-index table
        let mut counts = crate::state::zeroed_u16(HASH_TABLE_SIZE);

        // Step 2: Count occurrences of each PAIR_HASH in the input buffer
        let end1 = buffer_end - 1;
        for pos in buffer_begin..end1
            invariant
                wb == self.work_buff@,
                wlen == wb.len(),
                wlen == WORK_BUFF_SIZE,
                lo == buffer_begin,
                stop == sort_stop(wb.len() as int, buffer_end as int),
                end1 == buffer_end - 1,
                counts@.len() == HASH_TABLE_SIZE,
                forall|h: int|
                    0 <= h < HASH_TABLE_SIZE ==> #[trigger] counts@[h] as int == count_eq(
                        wb,
                        lo,
                        if pos < stop {
                            pos as int
                        } else {
                            stop
                        },
                        h,
                    ),
        {
            if pos + 1 < wlen {
                let hash = byte_pair_hash(
                    vstd::slice::slice_subrange(self.work_buff.as_slice(), pos, pos + 2),
                );
                proof {
                    lemma_count_bounds(wb, lo, pos as int, hash as int);
                }
                if hash < HASH_TABLE_SIZE {
                    let c = counts[hash];
                    counts.set(hash, c.saturating_add(1));
                }
            }
        }

        // Step 3: Convert the table to cumulative counts
        let ghost top = if stop > lo {
            stop
        } else {
            lo
        };
        let mut total_sum = 0u16;
        proof {
            lemma_count_below_zero(wb, lo, top);
            assert forall|k: int| 0 <= k < HASH_TABLE_SIZE implies #[trigger] counts@[k] as int
                == count_eq(wb, lo, top, k) by {
                if stop <= lo {
                    assert(count_eq(wb, lo, stop, k) == 0);
                }
            }
        }
        for h in 0..HASH_TABLE_SIZE
            invariant
                counts@.len() == HASH_TABLE_SIZE,
                top == (if stop > lo {
                    stop
                } else {
                    lo
                }),
                top - lo < WORK_BUFF_SIZE,
                total_sum as int == count_below(wb, lo, top, h as int),
                forall|k: int|
                    0 <= k < h ==> #[trigger] counts@[k] as int == count_below(wb, lo, top, k + 1),
                forall|k: int|
                    h <= k < HASH_TABLE_SIZE ==> #[trigger] counts@[k] as int == count_eq(
                        wb,
                        lo,
                        top,
                        k,
                    ),
        {
            proof {
                lemma_count_split(wb, lo, top, h as int);
                lemma_count_bounds(wb, lo, top, (h + 1) as int);
            }
            let c = counts[h];
            total_sum = total_sum.saturating_add(c);
            counts.set(h, total_sum);
        }

        // Step 4: Build the offset table by processing buffer in reverse
        let mut offs: Vec<u16> = Vec::new();
        std::mem::swap(&mut offs, &mut self.phash_offs);
        let ghost offs0 = offs@;
        let ghost n: int = top - lo;
        proof {
            lemma_count_all(wb, lo, top);
            assert forall|h: int| 0 <= h < HASH_TABLE_SIZE implies #[trigger] counts@[h] as int
                == count_below(wb, lo, top, h) + count_eq(wb, lo, top, h) by {
                lemma_count_split(wb, lo, top, h);
            }
        }
        let mut i: usize = end1;
        while i > buffer_begin
            invariant
                wb == self.work_buff@,
                wlen == wb.len(),
                wlen == WORK_BUFF_SIZE,
                lo == buffer_begin,
                stop == sort_stop(wb.len() as int, buffer_end as int),
                top == (if stop > lo {
                    stop
                } else {
                    lo
                }),
                n == top - lo,
                0 <= n < WORK_BUFF_SIZE,
                buffer_begin <= i <= end1,
                end1 == buffer_end - 1,
                counts@.len() == HASH_TABLE_SIZE,
                offs@.len() == WORK_BUFF_SIZE,
                offs0.len() == WORK_BUFF_SIZE,
                forall|h: int|
                    0 <= h < HASH_TABLE_SIZE ==> #[trigger] counts@[h] as int == count_below(
                        wb,
                        lo,
                        top,
                        h,
                    ) + count_eq(
                        wb,
                        lo,
                        if i < top {
                            i as int
                        } else {
                            top
                        },
                        h,
                    ),
                forall|q: int|
                    i <= q < top ==> offs@[#[trigger] pair_rank(wb, lo, top, q) as int] as int
                        == q,
                forall|k: int| n <= k < WORK_BUFF_SIZE ==> #[trigger] offs@[k] == offs0[k],
            decreases i,
        {
            i = i - 1;
            let pos = i;
            if pos + 1 < wlen {
                let hash = byte_pair_hash(
                    vstd::slice::slice_subrange(self.work_buff.as_slice(), pos, pos + 2),
                );
                if hash < HASH_TABLE_SIZE {
                    proof {
                        assert(pos < top);
                        assert(count_eq(wb, lo, pos + 1, hash as int) == count_eq(
                            wb,
                            lo,
                            pos as int,
                            hash as int,
                        ) + 1);
                        lemma_rank_below(wb, lo, top, pos as int);
                        lemma_count_split(wb, lo, top, hash as int);
                    }
                    // Decrement the count to get the index
                    let ghost offs_before = offs@;
                    let c = counts[hash];
                    counts.set(hash, c.saturating_sub(1));
                    let index = counts[hash] as usize;
                    if index < offs.len() {
                        // Store the relative offset from work_buff start
                        offs.set(index, pos as u16);
                    }
                    proof {
                        assert(index == pair_rank(wb, lo, top, pos as int));
                        assert forall|q: int| i <= q < top implies offs@[#[trigger] pair_rank(
                            wb,
                            lo,
                            top,
                            q,
                        ) as int] as int == q by {
                            lemma_rank_facts(wb, lo, top, pos as int, q);
                            if q != pos {
                                assert(offs_before[pair_rank(wb, lo, top, q) as int] as int == q);
                            }
                        }
                        assert forall|h: int|
                            0 <= h < HASH_TABLE_SIZE implies #[trigger] counts@[h] as int
                                == count_below(wb, lo, top, h) + count_eq(
                                wb,
                                lo,
                                if i < top {
                                    i as int
                                } else {
                                    top
                                },
                                h,
                            ) by {}
                    }
                }
            }
        }
        std::mem::swap(&mut offs, &mut self.phash_offs);
        self.phash_to_index = counts;
        proof {
            assert forall|h: int|
                0 <= h < HASH_TABLE_SIZE implies #[trigger] self.phash_to_index@[h] as int
                    == count_below(wb, lo, stop, h) by {
                if stop <= lo {
                    assert(count_below(wb, lo, stop, h) == 0);
                    assert(count_below(wb, lo, lo, h) == 0);
                }
            }
            if stop <= lo {
                assert forall|k: int| 0 <= k < WORK_BUFF_SIZE implies #[trigger] self.phash_offs@[k]
                    == old(self).phash_offs@[k] by {}
            }
        }
    }
}


impl ImplodeState {
    /// The entry of `phash_offs` where the block of a hash starts, if the
    /// block is not empty: `phash_to_index[hash]`, when it lies below
    /// `phash_to_index[hash + 1]` and inside `phash_offs`. No pair has the
    /// last hash of the table, whose block is always empty.
    pub open spec fn hash_index_spec(&self, hash: usize) -> Option<usize> {
        if hash + 1 < HASH_TABLE_SIZE {
            let index = self.phash_to_index@[hash as int];
            if index < self.phash_to_index@[hash + 1] && (index as int) < self.phash_offs@.len() {
                Some(index as usize)
            } else {
                None
            }
        } else {
            None
        }
    }

    /// Get the first occurrence index for a given hash value: the start of
    /// the hash's block of `phash_offs`, if the block is not empty.
    pub fn get_hash_index(&self, hash: usize) -> (r: Option<usize>)
        requires
            self.sizes_ok(),
        ensures
            r == self.hash_index_spec(hash),
    {
        if hash < HASH_TABLE_SIZE - 1 {
            let index = self.phash_to_index[hash];
            if index < self.phash_to_index[hash + 1] && (index as usize) < self.phash_offs.len() {
                Some(index as usize)
            } else {
                None
            }
        } else {
            None
        }
    }

    /// Get the offset for a given index in the hash offset table; offset 0
    /// (an empty entry) and indices out of range give `None`.
    pub fn get_hash_offset(&self, index: usize) -> (r: Option<usize>)
        ensures
            r == (if index < self.phash_offs@.len() && self.phash_offs@[index as int] > 0 {
                Some(self.phash_offs@[index as int] as usize)
            } else {
                None
            }),
    {
        if index < self.phash_offs.len() {
            let offset = self.phash_offs[index] as usize;
            if offset > 0 {
                Some(offset)
            } else {
                None
            }
        } else {
            None
        }
    }

    /// The least position a search from `current_pos` yields: one dictionary
    /// back, or 0.
    pub open spec fn min_offset_spec(&self, current_pos: usize) -> int {
        if current_pos >= self.dsize_bytes {
            current_pos - self.dsize_bytes
        } else {
            0
        }
    }

    /// The positions that `find_hash_positions(hash, current_pos)` yields, in
    /// order: those of the hash's block that lie from one dictionary back up
    /// to `current_pos`.
    pub open spec fn hash_positions_spec(&self, hash: usize, current_pos: usize) -> Seq<usize> {
        match self.hash_index_spec(hash) {
            Some(i) => positions_from(
                self.phash_offs@,
                i as int,
                self.phash_to_index@[hash + 1] as int,
                self.min_offset_spec(current_pos),
                current_pos as int,
            ),
            None => Seq::empty(),
        }
    }

    /// Find all positions where a specific byte pair hash occurs: those of
    /// the hash's block, from one dictionary back up to `current_pos`.
    pub fn find_hash_positions(&self, hash: usize, current_pos: usize) -> (r: HashPositionsIter<
        '_,
    >)
        requires
            self.sizes_ok(),
        ensures
            r.remaining() == self.hash_positions_spec(hash, current_pos),
            r.min_offset() == self.min_offset_spec(current_pos),
            r.current_pos() == current_pos,
    {
        let (start_index, end_index) = match self.get_hash_index(hash) {
            Some(i) => (i, self.phash_to_index[hash + 1] as usize),
            None => (self.phash_offs.len(), self.phash_offs.len()),
        };
        let min_offset = current_pos.saturating_sub(self.dsize_bytes as usize);
        HashPositionsIter {
            phash_offs: self.phash_offs.as_slice(),
            current_index: start_index,
            end_index,
            min_offset,
            current_pos,
        }
    }

    /// Records position `pos` in the first entry of `phash_offs` that holds 0,
    /// if the pair at `pos` lies inside the work buffer and there is such an
    /// entry.
    pub fn update_hash_incremental(&mut self, pos: usize)
        requires
            old(self).sizes_ok(),
            pos < usize::MAX,
        ensures
            final(self).sizes_ok(),
            final(self).same_but_hash(old(self)),
            final(self).phash_to_index == old(self).phash_to_index,
            pos + 1 >= WORK_BUFF_SIZE || (forall|i: int|
                0 <= i < WORK_BUFF_SIZE ==> #[trigger] old(self).phash_offs@[i] != 0)
                ==> final(self).phash_offs@ == old(self).phash_offs@,
            pos + 1 < WORK_BUFF_SIZE ==> forall|i: int|
                0 <= i < WORK_BUFF_SIZE && #[trigger] old(self).phash_offs@[i] == 0 && (forall|j: int|
                    0 <= j < i ==> old(self).phash_offs@[j] != 0) ==> final(self).phash_offs@
                    == old(self).phash_offs@.update(i, pos as u16),
    {
        if pos + 1 < self.work_buff.len() {
            let hash = byte_pair_hash(
                vstd::slice::slice_subrange(self.work_buff.as_slice(), pos, pos + 2),
            );
            if hash < HASH_TABLE_SIZE {
                let mut offs: Vec<u16> = Vec::new();
                std::mem::swap(&mut offs, &mut self.phash_offs);
                let ghost offs0 = offs@;
                let len = offs.len();
                let mut i: usize = 0;
                let mut done = false;
                let ghost mut found: int = 0;
                while i < len && !done
                    invariant
                        len == offs@.len(),
                        len == WORK_BUFF_SIZE,
                        offs0.len() == WORK_BUFF_SIZE,
                        0 <= i <= len,
                        !done ==> offs@ == offs0,
                        !done ==> forall|j: int| 0 <= j < i ==> #[trigger] offs0[j] != 0,
                        done ==> 0 <= found < len && offs0[found] == 0 && (forall|j: int|
                            0 <= j < found ==> #[trigger] offs0[j] != 0) && offs@ == offs0.update(
                            found,
                            pos as u16,
                        ),
                    decreases len - i,
                {
                    if offs[i] == 0 {
                        offs.set(i, pos as u16);
                        done = true;
                        proof {
                            found = i as int;
                        }
                    }
                    i = i + 1;
                }
                std::mem::swap(&mut offs, &mut self.phash_offs);
                proof {
                    if done {
                        assert forall|i2: int|
                            0 <= i2 < WORK_BUFF_SIZE && #[trigger] offs0[i2] == 0 && (forall|j: int|
                                0 <= j < i2 ==> offs0[j] != 0) implies self.phash_offs@
                                == offs0.update(i2, pos as u16) by {
                            if i2 < found {
                                assert(offs0[i2] != 0);
                            } else if i2 > found {
                                assert(0 <= found < i2);
                                assert(offs0[found] != 0);
                            }
                        }
                    }
                }
            }
        }
    }

    /// Every entry of `phash_to_index` lies inside `phash_offs`, and every
    /// nonzero offset lies in `buffer_start..buffer_end`.
    pub open spec fn hash_table_valid(&self, buffer_start: usize, buffer_end: usize) -> bool {
        &&& forall|h: int|
            0 <= h < self.phash_to_index@.len() ==> (#[trigger] self.phash_to_index@[h] as int)
                < self.phash_offs@.len()
        &&& forall|k: int|
            0 <= k < self.phash_offs@.len() && #[trigger] self.phash_offs@[k] != 0 ==> buffer_start
                <= self.phash_offs@[k] < buffer_end
    }

    /// Checks the hash table: every entry of `phash_to_index` lies inside
    /// `phash_offs`, and every nonzero offset lies in `buffer_start..buffer_end`.
    pub fn validate_hash_table(&self, buffer_start: usize, buffer_end: usize) -> (r: bool)
        ensures
            r == self.hash_table_valid(buffer_start, buffer_end),
    {
        // Check that hash indices are within bounds
        let n = self.phash_to_index.len();
        for h in 0..n
            invariant
                n == self.phash_to_index@.len(),
                forall|j: int|
                    0 <= j < h ==> (#[trigger] self.phash_to_index@[j] as int)
                        < self.phash_offs@.len(),
        {
            let index = self.phash_to_index[h];
            if index as usize >= self.phash_offs.len() {
                return false;
            }
        }
        // Check that offsets point to valid positions
        let m = self.phash_offs.len();
        for k in 0..m
            invariant
                m == self.phash_offs@.len(),
                forall|j: int|
                    0 <= j < k && #[trigger] self.phash_offs@[j] != 0 ==> buffer_start
                        <= self.phash_offs@[j] < buffer_end,
        {
            let offset = self.phash_offs[k];
            if offset != 0 {
                let pos = offset as usize;
                if pos < buffer_start || pos >= buffer_end {
                    return false;
                }
            }
        }
        true
    }
}

/// Lazy search of the positions recorded in the hash table.
pub struct HashPositionsIter<'a> {
    phash_offs: &'a [u16],
    current_index: usize,
    end_index: usize,
    min_offset: usize,
    current_pos: usize,
}

/// The offsets that a search of the entries `idx..end` yields, in order: it
/// skips offsets below `min` and ends at the first offset not below `cur`.
pub open spec fn positions_from(offs: Seq<u16>, idx: int, end: int, min: int, cur: int) -> Seq<
    usize,
>
    decreases end - idx,
{
    if idx < 0 || idx >= end || idx >= offs.len() {
        Seq::empty()
    } else if offs[idx] as int >= cur {
        Seq::empty()
    } else if offs[idx] as int >= min {
        seq![offs[idx] as usize] + positions_from(offs, idx + 1, end, min, cur)
    } else {
        positions_from(offs, idx + 1, end, min, cur)
    }
}

/// On entries in increasing order, a search yields increasing offsets, and
/// exactly the offsets of those entries that lie in `min..cur`.
proof fn lemma_positions_from(offs: Seq<u16>, idx: int, end: int, min: int, cur: int)
    requires
        0 <= idx <= end <= offs.len(),
        forall|k1: int, k2: int| idx <= k1 < k2 < end ==> #[trigger] offs[k1] < #[trigger] offs[k2],
    ensures
        ({
            let s = positions_from(offs, idx, end, min, cur);
            &&& forall|i: int, j: int| 0 <= i < j < s.len() ==> #[trigger] s[i] < #[trigger] s[j]
            &&& forall|i: int|
                0 <= i < s.len() ==> min <= #[trigger] s[i] < cur && (idx < end ==> offs[idx]
                    <= s[i])
            &&& forall|x: usize|
                #[trigger] s.contains(x) <==> (min <= x < cur && exists|k: int|
                    idx <= k < end && #[trigger] offs[k] as int == x as int)
        }),
    decreases end - idx,
{
    let s = positions_from(offs, idx, end, min, cur);
    if idx < end {
        lemma_positions_from(offs, idx + 1, end, min, cur);
        let t = positions_from(offs, idx + 1, end, min, cur);
        let o = offs[idx];
        if o as int >= cur {
            assert forall|x: usize| #[trigger] s.contains(x) <==> (min <= x < cur && exists|k: int|
                idx <= k < end && #[trigger] offs[k] as int == x as int) by {
                if min <= x < cur && exists|k: int| idx <= k < end && #[trigger] offs[k] as int == x as int {
                    let k = choose|k: int| idx <= k < end && #[trigger] offs[k] as int == x as int;
                    if k > idx {
                        assert(offs[idx] < offs[k]);
                    }
                }
            }
        } else if o as int >= min {
            assert(s == seq![o as usize] + t);
            assert forall|i: int| 0 <= i < t.len() implies o < #[trigger] t[i] by {
                if idx + 1 < end {
                    assert(offs[idx] < offs[idx + 1]);
                }
            }
            assert forall|x: usize| #[trigger] s.contains(x) <==> (min <= x < cur && exists|k: int|
                idx <= k < end && #[trigger] offs[k] as int == x as int) by {
                if s.contains(x) {
                    let i = choose|i: int| 0 <= i < s.len() && s[i] == x;
                    if i == 0 {
                        assert(offs[idx] as int == x as int);
                    } else {
                        assert(t[i - 1] == x);
                        assert(t.contains(x));
                    }
                }
                if min <= x < cur && exists|k: int| idx <= k < end && #[trigger] offs[k] as int == x as int {
                    let k = choose|k: int| idx <= k < end && #[trigger] offs[k] as int == x as int;
                    if k == idx {
                        assert(s[0] == x);
                    } else {
                        assert(t.contains(x));
                        let i = choose|i: int| 0 <= i < t.len() && t[i] == x;
                        assert(s[i + 1] == x);
                    }
                }
            }
        } else {
            assert forall|x: usize| #[trigger] s.contains(x) <==> (min <= x < cur && exists|k: int|
                idx <= k < end && #[trigger] offs[k] as int == x as int) by {
                if min <= x < cur && exists|k: int| idx <= k < end && #[trigger] offs[k] as int == x as int {
                    let k = choose|k: int| idx <= k < end && #[trigger] offs[k] as int == x as int;
                    assert(k != idx);
                    assert(t.contains(x));
                }
            }
            assert forall|i: int| 0 <= i < s.len() implies offs[idx] <= #[trigger] s[i] by {
                if idx + 1 < end {
                    assert(offs[idx] < offs[idx + 1]);
                }
            }
        }
    }
}

/// After `sort_buffer` has built the table over the pairs in `lo..stop`,
/// `find_hash_positions(h, cur)` yields, in increasing order and each once,
/// exactly the positions in `lo..stop` of the pairs with hash `h` that lie
/// from one dictionary back up to `cur`.
pub proof fn lemma_hash_positions_exact(
    st: &ImplodeState,
    wb: Seq<u8>,
    lo: int,
    stop: int,
    h: usize,
    cur: usize,
)
    requires
        st.sizes_ok(),
        table_built(st, wb, lo, stop),
        0 <= lo <= stop,
        stop - lo <= WORK_BUFF_SIZE,
        h < HASH_TABLE_SIZE,
    ensures
        ({
            let s = st.hash_positions_spec(h, cur);
            &&& forall|i: int, j: int| 0 <= i < j < s.len() ==> #[trigger] s[i] < #[trigger] s[j]
            &&& forall|x: usize|
                #[trigger] s.contains(x) <==> (lo <= x < stop && st.min_offset_spec(cur) <= x < cur
                    && hash_at(wb, x as int) == h)
        }),
{
    let s = st.hash_positions_spec(h, cur);
    let min = st.min_offset_spec(cur);
    if hash_occurs(wb, lo, stop, h as int) {
        let p = choose|p: int| lo <= p < stop && #[trigger] hash_at(wb, p) == h;
        lemma_hash_range(wb, p);
        lemma_count_eq_pos(wb, lo, stop, p);
        lemma_count_split(wb, lo, stop, h as int);
        lemma_bucket(st, wb, lo, stop, h as int);
        let a: int = count_below(wb, lo, stop, h as int) as int;
        let b: int = count_below(wb, lo, stop, h + 1) as int;
        assert(st.phash_to_index@[h as int] as int == a);
        assert(st.phash_to_index@[h + 1] as int == b);
        assert(s == positions_from(st.phash_offs@, a, b, min, cur as int));
        lemma_positions_from(st.phash_offs@, a, b, min, cur as int);
        assert forall|x: usize| #[trigger] s.contains(x) <==> (lo <= x < stop && min <= x < cur
            && hash_at(wb, x as int) == h) by {
            if lo <= x < stop && min <= x < cur && hash_at(wb, x as int) == h {
                lemma_rank_below(wb, lo, stop, x as int);
                let k = pair_rank(wb, lo, stop, x as int) as int;
                assert(st.phash_offs@[k] as int == x as int);
                assert(a <= k < b);
            }
            if s.contains(x) {
                let k = choose|k: int| a <= k < b && #[trigger] st.phash_offs@[k] as int == x as int;
                assert(lo <= st.phash_offs@[k] < stop);
            }
        }
    } else {
        lemma_index_absent(st, wb, lo, stop, h as int);
        assert forall|x: usize| #[trigger] s.contains(x) <==> (lo <= x < stop && min <= x < cur
            && hash_at(wb, x as int) == h) by {
            if lo <= x < stop && hash_at(wb, x as int) == h {
                assert(hash_occurs(wb, lo, stop, h as int));
            }
        }
    }
}

impl<'a> HashPositionsIter<'a> {
    /// The positions the search has still to yield, in order.
    pub closed spec fn remaining(&self) -> Seq<usize> {
        positions_from(
            self.phash_offs@,
            self.current_index as int,
            self.end_index as int,
            self.min_offset as int,
            self.current_pos as int,
        )
    }

    /// The least position yielded.
    pub closed spec fn min_offset(&self) -> int {
        self.min_offset as int
    }

    /// Positions from this one on end the search.
    pub closed spec fn current_pos(&self) -> usize {
        self.current_pos
    }

    /// The next position of the search, if any: the first of `remaining`.
    pub fn next(&mut self) -> (r: Option<usize>)
        ensures
            final(self).min_offset() == old(self).min_offset(),
            final(self).current_pos() == old(self).current_pos(),
            match r {
                Some(o) => {
                    &&& old(self).remaining() == seq![o] + final(self).remaining()
                    &&& old(self).min_offset() <= o < old(self).current_pos()
                },
                None => {
                    &&& old(self).remaining() == Seq::<usize>::empty()
                    &&& final(self).remaining() == Seq::<usize>::empty()
                },
            },
    {
        let ghost offs = self.phash_offs@;
        let ghost target = old(self).remaining();
        while self.current_index < self.end_index && self.current_index < self.phash_offs.len()
            invariant
                self.phash_offs@ == offs,
                self.min_offset == old(self).min_offset,
                self.current_pos == old(self).current_pos,
                self.end_index == old(self).end_index,
                self.phash_offs == old(self).phash_offs,
                target == old(self).remaining(),
                target == self.remaining(),
            decreases self.phash_offs@.len() - self.current_index,
        {
            let offset = self.phash_offs[self.current_index] as usize;
            self.current_index += 1;
            if offset >= self.current_pos {
                // Later entries of the block are further on: the search ends.
                self.current_index = self.end_index;
                return None;
            }
            if offset >= self.min_offset {
                return Some(offset);
            }
        }
        None
    }
}

} // verus!
