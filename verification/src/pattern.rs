//! Search for an earlier occurrence of the bytes at the current position.

use vstd::prelude::*;
use crate::common::{byte_pair_hash, MatchResult, MAX_REP_LENGTH, WORK_BUFF_SIZE};
use crate::hash::{hash_at, lemma_hash_positions_exact, table_built};
use crate::state::ImplodeState;

verus! {

/// `length` bytes from `pos` each equal the byte `distance` places before it,
/// inside the first `work_bytes` bytes, and the format can code the repetition
/// with a dictionary of `dsize_bytes` bytes.
pub open spec fn valid_repeat(
    wb: Seq<u8>,
    work_bytes: int,
    pos: int,
    length: int,
    distance: int,
    dsize_bytes: int,
) -> bool {
    &&& 2 <= length <= MAX_REP_LENGTH
    &&& pos + length <= work_bytes
    &&& 1 <= distance <= pos
    &&& distance <= dsize_bytes
    &&& length == 2 ==> distance <= 256
    &&& forall|k: int| 0 <= k < length ==> #[trigger] wb[pos + k] == wb[pos + k - distance]
}

/// Number of bytes from `a` on that agree with those from `b` on, counting
/// from `l` and stopping at `max`.
pub open spec fn common_len(wb: Seq<u8>, a: int, b: int, l: int, max: int) -> int
    decreases max - l,
{
    if l < max && wb[a + l] == wb[b + l] {
        common_len(wb, a, b, l + 1, max)
    } else {
        l
    }
}

/// The best repetition among the candidate positions `cands`, tried in
/// order: the first of the longest that reaches two bytes or more, where the
/// length counts the bytes that agree, up to `max`. Once one reaches `max`
/// no later candidate can be longer, and the rest are not tried.
pub open spec fn best_repeat(
    wb: Seq<u8>,
    cands: Seq<usize>,
    pos: int,
    max: int,
    best_len: int,
    best_dist: int,
) -> (int, int)
    decreases cands.len(),
{
    if cands.len() == 0 {
        (best_len, best_dist)
    } else {
        let c = cands[0] as int;
        let l = common_len(wb, c, pos, 0, max);
        let better = l >= 2 && l > best_len;
        let bl = if better {
            l
        } else {
            best_len
        };
        let bd = if better {
            pos - c
        } else {
            best_dist
        };
        if bl == max {
            (bl, bd)
        } else {
            best_repeat(wb, cands.drop_first(), pos, max, bl, bd)
        }
    }
}

impl ImplodeState {
    /// The repetition that `find_repetition(pos)` reports, as (length,
    /// distance): the best one (`best_repeat`) among the positions that
    /// `find_hash_positions` yields for the pair at `pos`, with at most 516
    /// bytes and no bytes past the data; (0, 0) when there is none of two
    /// bytes or more, or only one of two bytes more than 256 back.
    pub open spec fn repetition_at(&self, pos: int) -> (int, int) {
        if pos + 1 >= self.work_bytes {
            (0, 0)
        } else {
            let wb = self.work_buff@;
            let avail = self.work_bytes - pos;
            let max = if avail < MAX_REP_LENGTH {
                avail
            } else {
                MAX_REP_LENGTH as int
            };
            let cands = self.hash_positions_spec(hash_at(wb, pos) as usize, pos as usize);
            let (bl, bd) = best_repeat(wb, cands, pos, max, 0, 0);
            if bl < 2 || (bl == 2 && bd > 256) {
                (0, 0)
            } else {
                (bl, bd)
            }
        }
    }
}

impl ImplodeState {
    /// Finds a repetition of the bytes at `pos` among the positions that the
    /// hash table records for the pair at `pos`: the longest one found (the
    /// first of the longest), cut at 516 bytes and at the end of the data. A
    /// repetition of two bytes more than 256 bytes back is not used. No
    /// repetition gives length and distance 0.
    pub fn find_repetition(&self, pos: usize) -> (r: MatchResult)
        requires
            self.wf(),
            pos < self.work_bytes,
        ensures
            r.is_match() ==> valid_repeat(
                self.work_buff@,
                self.work_bytes as int,
                pos as int,
                r.length as int,
                r.distance as int,
                self.dsize_bytes as int,
            ),
            !r.is_match() ==> r.length == 0 && r.distance == 0,
            (r.length as int, r.distance as int) == self.repetition_at(pos as int),
    {
        let none = MatchResult { length: 0, distance: 0 };
        if pos + 1 >= self.work_bytes {
            return none;
        }
        let avail = self.work_bytes - pos;
        let max_len = if avail < MAX_REP_LENGTH {
            avail
        } else {
            MAX_REP_LENGTH
        };
        let hash = byte_pair_hash(
            vstd::slice::slice_subrange(self.work_buff.as_slice(), pos, pos + 2),
        );
        let mut iter = self.find_hash_positions(hash, pos);
        let ghost wb = self.work_buff@;
        let mut best_len: usize = 0;
        let mut best_dist: usize = 0;
        let ghost target = best_repeat(wb, iter.remaining(), pos as int, max_len as int, 0, 0);
        loop
            invariant_except_break
                target == best_repeat(
                    wb,
                    iter.remaining(),
                    pos as int,
                    max_len as int,
                    best_len as int,
                    best_dist as int,
                ),
            invariant
                self.wf(),
                wb == self.work_buff@,
                pos + 1 < self.work_bytes,
                max_len == if avail < MAX_REP_LENGTH {
                    avail
                } else {
                    MAX_REP_LENGTH
                },
                avail == self.work_bytes - pos,
                iter.current_pos() == pos,
                iter.min_offset() == self.min_offset_spec(pos),
                best_len == 0 ==> best_dist == 0,
                best_len != 0 ==> best_len >= 2 && valid_repeat(
                    wb,
                    self.work_bytes as int,
                    pos as int,
                    best_len as int,
                    best_dist as int,
                    self.dsize_bytes as int,
                ) || (best_len == 2 && 1 <= best_dist <= pos && best_dist <= self.dsize_bytes
                    && pos + 2 <= self.work_bytes && wb[pos as int] == wb[pos - best_dist]
                    && wb[pos + 1] == wb[pos + 1 - best_dist]),
                best_len <= max_len,
            ensures
                target == (best_len as int, best_dist as int),
            decreases iter.remaining().len(),
        {
            let ghost rest0 = iter.remaining();
            let cand = iter.next();
            match cand {
                None => {
                    break;
                },
                Some(c) => {
                    assert(rest0[0] == c && rest0.drop_first() =~= iter.remaining());
                    // Count the bytes that repeat.
                    let mut l: usize = 0;
                    while l < max_len && self.work_buff[c + l] == self.work_buff[pos + l]
                        invariant
                            self.wf(),
                            wb == self.work_buff@,
                            c < pos,
                            pos + max_len <= self.work_bytes,
                            l <= max_len,
                            forall|k: int| 0 <= k < l ==> #[trigger] wb[pos + k] == wb[c + k],
                            common_len(wb, c as int, pos as int, l as int, max_len as int)
                                == common_len(wb, c as int, pos as int, 0, max_len as int),
                        decreases max_len - l,
                    {
                        l = l + 1;
                    }
                    if l >= 2 && l > best_len {
                        best_len = l;
                        best_dist = pos - c;
                        assert forall|k: int| 0 <= k < best_len implies #[trigger] wb[pos + k]
                            == wb[pos + k - best_dist] by {
                            assert(wb[pos + k] == wb[c + k]);
                        }
                        assert(wb[pos + 0] == wb[c + 0]);
                        assert(wb[pos + 1] == wb[c + 1]);
                    }
                    if best_len == max_len {
                        break;
                    }
                },
            }
        }
        if best_len < 2 || (best_len == 2 && best_dist > 256) {
            return none;
        }
        MatchResult { length: best_len, distance: best_dist }
    }
}

/// The positions in `lo..hi`, in increasing order, of the pairs of `data`
/// whose hash is `h`.
pub open spec fn positions_with_hash(data: Seq<u8>, lo: int, hi: int, h: int) -> Seq<usize>
    decreases hi - lo,
{
    if hi <= lo {
        Seq::empty()
    } else {
        positions_with_hash(data, lo, hi - 1, h) + if hash_at(data, hi - 1) == h {
            seq![(hi - 1) as usize]
        } else {
            Seq::empty()
        }
    }
}

proof fn lemma_positions_with_hash(data: Seq<u8>, lo: int, hi: int, h: int)
    requires
        0 <= lo,
        hi <= WORK_BUFF_SIZE,
    ensures
        ({
            let s = positions_with_hash(data, lo, hi, h);
            &&& forall|i: int, j: int| 0 <= i < j < s.len() ==> #[trigger] s[i] < #[trigger] s[j]
            &&& forall|i: int| 0 <= i < s.len() ==> lo <= #[trigger] s[i] < hi
            &&& forall|x: usize|
                #[trigger] s.contains(x) <==> (lo <= x < hi && hash_at(data, x as int) == h)
        }),
    decreases hi - lo,
{
    if hi > lo {
        lemma_positions_with_hash(data, lo, hi - 1, h);
        let s = positions_with_hash(data, lo, hi, h);
        let t = positions_with_hash(data, lo, hi - 1, h);
        if hash_at(data, hi - 1) == h {
            assert(s =~= t.push((hi - 1) as usize));
            assert forall|x: usize| #[trigger] s.contains(x) <==> (lo <= x < hi && hash_at(
                data,
                x as int,
            ) == h) by {
                if s.contains(x) {
                    let i = choose|i: int| 0 <= i < s.len() && s[i] == x;
                    if i < t.len() {
                        assert(t[i] == x);
                        assert(t.contains(x));
                    }
                }
                if lo <= x < hi && hash_at(data, x as int) == h {
                    if x < hi - 1 {
                        assert(t.contains(x));
                        let i = choose|i: int| 0 <= i < t.len() && t[i] == x;
                        assert(s[i] == x);
                    } else {
                        assert(s[t.len() as int] == x);
                    }
                }
            }
        } else {
            assert(s =~= t);
        }
    }
}

/// Two increasing sequences with the same elements are equal.
proof fn lemma_increasing_unique(a: Seq<usize>, b: Seq<usize>)
    requires
        forall|i: int, j: int| 0 <= i < j < a.len() ==> #[trigger] a[i] < #[trigger] a[j],
        forall|i: int, j: int| 0 <= i < j < b.len() ==> #[trigger] b[i] < #[trigger] b[j],
        forall|x: usize|
            #![trigger a.contains(x)]
            #![trigger b.contains(x)]
            a.contains(x) <==> b.contains(x),
    ensures
        a == b,
    decreases a.len(),
{
    if a.len() == 0 {
        if b.len() > 0 {
            assert(b.contains(b[0]));
        }
        assert(a =~= b);
    } else {
        assert(a.contains(a[0]));
        assert(b.len() > 0);
        assert(b.contains(b[0]));
        let ka = choose|k: int| 0 <= k < b.len() && b[k] == a[0];
        let kb = choose|k: int| 0 <= k < a.len() && a[k] == b[0];
        if ka > 0 {
            assert(b[0] < b[ka]);
        }
        if kb > 0 {
            assert(a[0] < a[kb]);
        }
        assert(a[0] == b[0]);
        let a1 = a.drop_first();
        let b1 = b.drop_first();
        assert forall|x: usize| #[trigger] a1.contains(x) <==> b1.contains(x) by {
            if a1.contains(x) {
                let i = choose|i: int| 0 <= i < a1.len() && a1[i] == x;
                assert(a[i + 1] == x);
                assert(a[0] < a[i + 1]);
                assert(a.contains(x));
                let k = choose|k: int| 0 <= k < b.len() && b[k] == x;
                assert(k != 0);
                assert(b1[k - 1] == x);
            }
            if b1.contains(x) {
                let i = choose|i: int| 0 <= i < b1.len() && b1[i] == x;
                assert(b[i + 1] == x);
                assert(b[0] < b[i + 1]);
                assert(b.contains(x));
                let k = choose|k: int| 0 <= k < a.len() && a[k] == x;
                assert(k != 0);
                assert(a1[k - 1] == x);
            }
        }
        assert forall|i: int, j: int| 0 <= i < j < a1.len() implies #[trigger] a1[i]
            < #[trigger] a1[j] by {
            assert(a[i + 1] < a[j + 1]);
        }
        assert forall|i: int, j: int| 0 <= i < j < b1.len() implies #[trigger] b1[i]
            < #[trigger] b1[j] by {
            assert(b[i + 1] < b[j + 1]);
        }
        lemma_increasing_unique(a1, b1);
        assert(a =~= b) by {
            assert forall|i: int| 0 <= i < a.len() implies a[i] == b[i] by {
                if i > 0 {
                    assert(a1[i - 1] == b1[i - 1]);
                }
            }
        }
    }
}

/// The count of agreeing bytes reads only the first `n` bytes.
proof fn lemma_common_len_same(w1: Seq<u8>, w2: Seq<u8>, n: int, a: int, b: int, l: int, max: int)
    requires
        forall|k: int| 0 <= k < n ==> #[trigger] w1[k] == w2[k],
        0 <= a,
        0 <= b,
        0 <= l,
        a + max <= n,
        b + max <= n,
    ensures
        common_len(w1, a, b, l, max) == common_len(w2, a, b, l, max),
    decreases max - l,
{
    if l < max {
        lemma_common_len_same(w1, w2, n, a, b, l + 1, max);
    }
}

/// The best repetition reads only the first `n` bytes.
proof fn lemma_best_repeat_same(
    w1: Seq<u8>,
    w2: Seq<u8>,
    n: int,
    cands: Seq<usize>,
    pos: int,
    max: int,
    bl: int,
    bd: int,
)
    requires
        forall|k: int| 0 <= k < n ==> #[trigger] w1[k] == w2[k],
        forall|i: int| 0 <= i < cands.len() ==> #[trigger] cands[i] < pos,
        0 <= pos,
        pos + max <= n,
    ensures
        best_repeat(w1, cands, pos, max, bl, bd) == best_repeat(w2, cands, pos, max, bl, bd),
    decreases cands.len(),
{
    if cands.len() > 0 {
        let c = cands[0] as int;
        lemma_common_len_same(w1, w2, n, c, pos, 0, max);
        let l = common_len(w1, c, pos, 0, max);
        let better = l >= 2 && l > bl;
        let nbl = if better {
            l
        } else {
            bl
        };
        let nbd = if better {
            pos - c
        } else {
            bd
        };
        assert forall|i: int| 0 <= i < cands.drop_first().len() implies #[trigger] cands.drop_first()[i]
            < pos by {
            assert(cands[i + 1] < pos);
        }
        lemma_best_repeat_same(w1, w2, n, cands.drop_first(), pos, max, nbl, nbd);
    }
}

/// The candidates for a repetition at `pos` in `data`: the positions from
/// one dictionary (`dsize` bytes) back up to `pos` whose pair has the hash of
/// the pair at `pos`, in increasing order.
pub open spec fn model_candidates(data: Seq<u8>, dsize: int, pos: int) -> Seq<usize> {
    let min = if pos >= dsize {
        pos - dsize
    } else {
        0
    };
    positions_with_hash(data, min, pos, hash_at(data, pos))
}

/// The repetition at `pos` in `data`, as (length, distance), stated on the
/// data alone: the first of the longest among the candidates, at most 516
/// bytes and none past the data; (0, 0) when there is none of two bytes or
/// more, or only one of two bytes more than 256 back.
pub open spec fn model_repetition(data: Seq<u8>, dsize: int, pos: int) -> (int, int) {
    if pos + 1 >= data.len() {
        (0, 0)
    } else {
        let avail = data.len() - pos;
        let max = if avail < MAX_REP_LENGTH {
            avail
        } else {
            MAX_REP_LENGTH as int
        };
        let (bl, bd) = best_repeat(data, model_candidates(data, dsize, pos), pos, max, 0, 0);
        if bl < 2 || (bl == 2 && bd > 256) {
            (0, 0)
        } else {
            (bl, bd)
        }
    }
}

/// With the hash table built over a window that holds `data`, the
/// repetition that `find_repetition` reports is the one of the data alone.
pub proof fn lemma_repetition_model(st: &ImplodeState, data: Seq<u8>, pos: int)
    requires
        st.sizes_ok(),
        st.work_bytes == data.len(),
        st.work_bytes <= WORK_BUFF_SIZE,
        st.work_buff@.take(data.len() as int) == data,
        data.len() >= 2 ==> table_built(st, st.work_buff@, 0, data.len() - 1),
        0 <= pos,
    ensures
        st.repetition_at(pos) == model_repetition(data, st.dsize_bytes as int, pos),
{
    let n = data.len() as int;
    let wb = st.work_buff@;
    assert forall|k: int| 0 <= k < n implies #[trigger] wb[k] == data[k] by {
        assert(wb.take(n)[k] == wb[k]);
    }
    if pos + 1 < n {
        let h = hash_at(data, pos);
        assert(hash_at(wb, pos) == h);
        lemma_hash_positions_exact(st, wb, 0, n - 1, h as usize, pos as usize);
        let min = st.min_offset_spec(pos as usize);
        let s1 = st.hash_positions_spec(h as usize, pos as usize);
        let s2 = model_candidates(data, st.dsize_bytes as int, pos);
        assert(s2 == positions_with_hash(data, min, pos, h));
        lemma_positions_with_hash(data, min, pos, h);
        assert forall|x: usize| #[trigger] s1.contains(x) <==> s2.contains(x) by {
            if x < pos {
                assert(hash_at(wb, x as int) == hash_at(data, x as int));
            }
        }
        lemma_increasing_unique(s1, s2);
        let avail = n - pos;
        let max = if avail < MAX_REP_LENGTH {
            avail
        } else {
            MAX_REP_LENGTH as int
        };
        assert forall|i: int| 0 <= i < s1.len() implies #[trigger] s1[i] < pos by {
            assert(s1.contains(s1[i]));
        }
        lemma_best_repeat_same(wb, data, n, s1, pos, max, 0, 0);
    }
}

} // verus!
