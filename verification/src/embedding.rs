//! The deterministic fallback embedding: a fixed-point vector computed from
//! the text alone, used whenever the remote embedding provider is
//! unreachable or returns something unusable.  An embedding is always
//! [`EMBED_DIM`] entries long.

use vstd::prelude::*;
use vstd::pervasive::VecAdditionalExecFns;
use vstd::string::StrSliceExecFns;
use vstd::string::StringSliceAdditionalSpecFns;
use vstd::utf8::encode_utf8;
use crate::{COMP_MAX, EMBED_DIM, SCALE, valid_vector};
use crate::chars::words_spec;
use crate::chars::split_words;
use crate::mathx::{is_sqrt, sqrt_floor, isqrt_u128};

verus! {

/// Polynomial rolling hash with base 31 over a word's bytes, modulo `2^32`.
pub open spec fn hash31(bs: Seq<u8>) -> int
    decreases bs.len(),
{
    if bs.len() == 0 {
        0
    } else {
        (hash31(bs.drop_last()) * 31 + bs.last()) % 0x100000000
    }
}

/// Computes [`hash31`] of the given bytes.
pub fn word_hash(bytes: &[u8]) -> (h: u32)
    ensures
        h as int == hash31(bytes@),
{
    let n = bytes.len();
    let mut h: u32 = 0;
    let mut i: usize = 0;
    proof {
        assert(bytes@.take(0) =~= Seq::<u8>::empty());
    }
    while i < n
        invariant
            n == bytes@.len(),
            i <= n,
            h as int == hash31(bytes@.take(i as int)),
        decreases n - i,
    {
        let b = bytes[i];
        let next = (((h as u64) * 31 + (b as u64)) % 0x100000000) as u32;
        proof {
            let t = bytes@.take(i as int + 1);
            assert(t.drop_last() =~= bytes@.take(i as int));
            assert(t.last() == bytes@[i as int]);
            assert(hash31(t) == (hash31(t.drop_last()) * 31 + t.last()) % 0x100000000);
        }
        h = next;
        i = i + 1;
    }
    proof {
        assert(bytes@.take(n as int) =~= bytes@);
    }
    h
}

/// Number of occurrences of `c` in `s`.
pub open spec fn count_char_spec(s: Seq<char>, c: char) -> int
    decreases s.len(),
{
    if s.len() == 0 {
        0
    } else {
        count_char_spec(s.drop_last(), c) + if s.last() == c {
            1int
        } else {
            0int
        }
    }
}

proof fn lemma_count_char_range(s: Seq<char>, c: char)
    ensures
        0 <= count_char_spec(s, c) <= s.len(),
    decreases s.len(),
{
    if s.len() > 0 {
        lemma_count_char_range(s.drop_last(), c);
    }
}

/// Counts the occurrences of `c` in `s`.
pub fn count_char(s: &str, c: char) -> (r: usize)
    ensures
        r as int == count_char_spec(s@, c),
{
    let n = s.unicode_len();
    let mut r: usize = 0;
    let mut i: usize = 0;
    proof {
        assert(s@.take(0) =~= Seq::<char>::empty());
        lemma_count_char_range(s@, c);
    }
    while i < n
        invariant
            n == s@.len(),
            i <= n,
            r as int == count_char_spec(s@.take(i as int), c),
            r <= i,
        decreases n - i,
    {
        proof {
            let t = s@.take(i as int + 1);
            assert(t.drop_last() =~= s@.take(i as int));
            assert(t.last() == s@[i as int]);
        }
        if s.get_char(i) == c {
            r = r + 1;
        }
        i = i + 1;
    }
    proof {
        assert(s@.take(n as int) =~= s@);
    }
    r
}

/// The all-zero embedding.
pub open spec fn zero_embedding() -> Seq<int> {
    Seq::new(EMBED_DIM as nat, |i: int| 0)
}

/// The embedding after hashing the first `k` words: each word adds
/// `SCALE / word_count` at the slot its hash selects.
pub open spec fn accum_spec(wsb: Seq<Seq<u8>>, k: int, wc: int) -> Seq<int>
    decreases k,
{
    if k <= 0 {
        zero_embedding()
    } else {
        let prev = accum_spec(wsb, k - 1, wc);
        let idx = hash31(wsb[k - 1]) % (EMBED_DIM as int);
        prev.update(idx, prev[idx] + (SCALE as int) / wc)
    }
}

/// Clamps a non-negative statistic into `[0, COMP_MAX]`.
pub open spec fn clamp_comp(x: int) -> int {
    if x > COMP_MAX {
        COMP_MAX as int
    } else {
        x
    }
}

/// Stamps the three fixed statistic slots: scaled byte count, word count and
/// sentence-terminator count.
pub open spec fn stamps_spec(v: Seq<int>, byte_len: int, wc: int, dots: int) -> Seq<int> {
    v.update(0, clamp_comp(byte_len * SCALE / 1000)).update(1, clamp_comp(wc * SCALE / 100)).update(
        2,
        clamp_comp(dots * SCALE / 10),
    )
}

/// Sum of squares of the entries.
pub open spec fn sumsq_spec(v: Seq<int>) -> int
    decreases v.len(),
{
    if v.len() == 0 {
        0
    } else {
        sumsq_spec(v.drop_last()) + v.last() * v.last()
    }
}

/// Each square is at most the sum of all squares.
proof fn lemma_sumsq_bounds(v: Seq<int>)
    ensures
        sumsq_spec(v) >= 0,
        forall|j: int| 0 <= j < v.len() ==> (#[trigger] v[j]) * v[j] <= sumsq_spec(v),
    decreases v.len(),
{
    if v.len() > 0 {
        lemma_sumsq_bounds(v.drop_last());
        assert(v.last() * v.last() >= 0) by (nonlinear_arith);
        assert forall|j: int| 0 <= j < v.len() implies (#[trigger] v[j]) * v[j] <= sumsq_spec(
            v,
        ) by {
            if j < v.len() - 1 {
                assert(v.drop_last()[j] == v[j]);
            }
        }
    }
}

/// L2 normalization in fixed point: each entry becomes
/// `entry * SCALE / sqrt_floor(sum of squares)`; the zero vector stays as it
/// is.
pub open spec fn normalize_spec(v: Seq<int>) -> Seq<int> {
    let m = sqrt_floor(sumsq_spec(v));
    if m == 0 {
        v
    } else {
        v.map_values(|x: int| x * SCALE / m)
    }
}

/// The deterministic fallback embedding of a text whose UTF-8 length is
/// `byte_len`: hash the first 100 words into slots, stamp three statistic
/// slots, then L2-normalize.
pub open spec fn embed_fallback_spec(text: Seq<char>, byte_len: int) -> Seq<int> {
    let ws = words_spec(text);
    let wsb = ws.map_values(|w: Seq<char>| encode_utf8(w));
    let wc = ws.len() as int;
    let k = if wc < 100 {
        wc
    } else {
        100
    };
    let hashed = accum_spec(wsb, k, wc);
    let stamped = stamps_spec(hashed, byte_len, wc, count_char_spec(text, '.'));
    normalize_spec(stamped)
}

/// Computes [`embed_fallback_spec`]: a vector of exactly [`EMBED_DIM`]
/// fixed-point entries, each in `[0, SCALE]` after normalization (or zero),
/// for any input text.
pub fn fallback_embedding(text: &str) -> (r: Vec<i64>)
    ensures
        r@.len() == EMBED_DIM,
        valid_vector(r@),
        r@.map_values(|x: i64| x as int) == embed_fallback_spec(
            text@,
            text.spec_bytes().len() as usize as int,
        ),
        forall|j: int| 0 <= j < r@.len() ==> 0 <= #[trigger] r@[j] <= SCALE,
{
    let byte_len = text.len();
    let words = split_words(text);
    let wc = words.len();
    let ghost wsg = words_spec(text@);
    let ghost wsb = wsg.map_values(|w: Seq<char>| encode_utf8(w));
    let mut v: Vec<i64> = Vec::new();
    let mut z: usize = 0;
    while z < EMBED_DIM
        invariant
            z <= EMBED_DIM,
            v@.len() == z,
            forall|j: int| 0 <= j < z ==> #[trigger] v@[j] == 0i64,
        decreases EMBED_DIM - z,
    {
        v.push(0);
        z = z + 1;
    }
    proof {
        assert(v@.map_values(|x: i64| x as int) =~= accum_spec(wsb, 0, wc as int));
    }
    let limit = if wc < 100 {
        wc
    } else {
        100
    };
    let mut k: usize = 0;
    while k < limit
        invariant
            words@.map_values(|w: String| w@) == wsg,
            wsb == wsg.map_values(|w: Seq<char>| encode_utf8(w)),
            wc == words@.len(),
            limit == if wc < 100 {
                wc as int
            } else {
                100int
            },
            k <= limit,
            v@.len() == EMBED_DIM,
            v@.map_values(|x: i64| x as int) == accum_spec(wsb, k as int, wc as int),
            forall|j: int| 0 <= j < v@.len() ==> 0 <= #[trigger] v@[j] <= (k as int) * SCALE,
        decreases limit - k,
    {
        let w = &words[k];
        let bytes = w.as_str().as_bytes();
        let h = word_hash(bytes);
        let idx = (h as usize) % EMBED_DIM;
        let add = ((SCALE as u128) / (wc as u128)) as i64;
        proof {
            assert(wsg[k as int] == words@[k as int]@);
            assert(bytes@ == encode_utf8(words@[k as int]@));
            assert(wsb[k as int] == encode_utf8(wsg[k as int]));
            assert(h as int == hash31(wsb[k as int]));
            assert(idx as int == hash31(wsb[k as int]) % (EMBED_DIM as int));
            assert(0 <= add as int <= SCALE);
            assert(add as int == SCALE as int / (wc as int));
            assert(accum_spec(wsb, k as int + 1, wc as int) == accum_spec(
                wsb,
                k as int,
                wc as int,
            ).update(idx as int, accum_spec(wsb, k as int, wc as int)[idx as int] + (SCALE as int) / (
            wc as int)));
            assert((k as int + 1) * SCALE == (k as int) * SCALE + SCALE) by (nonlinear_arith);
            assert((k as int) * SCALE >= 0) by (nonlinear_arith)
                requires
                    k as int >= 0,
            ;
        }
        let cur = v[idx];
        proof {
            assert(cur as int <= (k as int) * SCALE);
            assert((k as int) * SCALE <= 100 * SCALE) by (nonlinear_arith)
                requires
                    0 <= k as int <= 100,
            ;
        }
        v.set(idx, cur + add);
        proof {
            assert(v@.map_values(|x: i64| x as int) =~= accum_spec(wsb, k as int + 1, wc as int));
        }
        k = k + 1;
    }
    proof {
        assert(forall|j: int| 0 <= j < v@.len() ==> 0 <= #[trigger] v@[j] <= 100 * SCALE) by {
            assert((limit as int) * SCALE <= 100 * SCALE) by (nonlinear_arith)
                requires
                    0 <= limit as int <= 100,
            ;
        }
    }
    // Stamp the three statistic slots.
    let dots = count_char(text, '.');
    let s0 = clamp_stat((byte_len as u128) * (SCALE as u128) / 1000);
    let s1 = clamp_stat((wc as u128) * (SCALE as u128) / 100);
    let s2 = clamp_stat((dots as u128) * (SCALE as u128) / 10);
    let ghost before_stamps = v@.map_values(|x: i64| x as int);
    v.set(0, s0);
    v.set(1, s1);
    v.set(2, s2);
    proof {
        assert(v@.map_values(|x: i64| x as int) =~= stamps_spec(
            before_stamps,
            byte_len as int,
            wc as int,
            dots as int,
        ));
        assert(forall|j: int| 0 <= j < v@.len() ==> 0 <= #[trigger] v@[j] <= COMP_MAX);
    }
    // L2-normalize.
    let ghost stamped = v@.map_values(|x: i64| x as int);
    let mut acc: u128 = 0;
    let mut i: usize = 0;
    proof {
        assert(stamped.take(0) =~= Seq::<int>::empty());
    }
    while i < EMBED_DIM
        invariant
            v@.len() == EMBED_DIM,
            stamped == v@.map_values(|x: i64| x as int),
            forall|j: int| 0 <= j < v@.len() ==> 0 <= #[trigger] v@[j] <= COMP_MAX,
            i <= EMBED_DIM,
            acc as int == sumsq_spec(stamped.take(i as int)),
            acc as int <= (i as int) * 1000000000000,
        decreases EMBED_DIM - i,
    {
        let x = v[i];
        proof {
            let t = stamped.take(i as int + 1);
            assert(t.drop_last() =~= stamped.take(i as int));
            assert(t.last() == stamped[i as int]);
            assert(stamped[i as int] == v@[i as int] as int);
            assert(0 <= (x as int) * (x as int) <= 1000000000000) by (nonlinear_arith)
                requires
                    0 <= x as int <= 1000000,
            ;
            assert((i as int + 1) * 1000000000000 == (i as int) * 1000000000000 + 1000000000000)
                by (nonlinear_arith);
            assert((i as int) * 1000000000000 <= 384 * 1000000000000) by (nonlinear_arith)
                requires
                    0 <= i as int <= 384,
            ;
        }
        acc = acc + (x as u128) * (x as u128);
        i = i + 1;
    }
    proof {
        assert(stamped.take(EMBED_DIM as int) =~= stamped);
        assert((EMBED_DIM as int) * 1000000000000 == 384000000000000) by (nonlinear_arith)
            requires
                EMBED_DIM as int == 384,
        ;
    }
    let m = isqrt_u128(acc);
    if m == 0 {
        proof {
            assert(sqrt_floor(sumsq_spec(stamped)) == 0);
            assert(normalize_spec(stamped) == stamped);
            assert(is_sqrt(sumsq_spec(stamped), 0));
            assert((0int + 1) * (0int + 1) == 1) by (nonlinear_arith);
            assert(sumsq_spec(stamped) < 1);
            lemma_sumsq_bounds(stamped);
            assert(sumsq_spec(stamped) == 0);
            lemma_sumsq_bounds(stamped);
            assert forall|j: int| 0 <= j < v@.len() implies 0 <= #[trigger] v@[j] <= SCALE by {
                assert(stamped[j] * stamped[j] <= 0);
                assert(stamped[j] == 0) by (nonlinear_arith)
                    requires
                        stamped[j] * stamped[j] <= 0,
                ;
                assert(v@[j] as int == stamped[j]);
            }
        }
        return v;
    }
    let mut r: Vec<i64> = Vec::new();
    let mut j: usize = 0;
    proof {
        lemma_sumsq_bounds(stamped);
    }
    while j < EMBED_DIM
        invariant
            v@.len() == EMBED_DIM,
            stamped == v@.map_values(|x: i64| x as int),
            forall|t: int| 0 <= t < v@.len() ==> 0 <= #[trigger] v@[t] <= COMP_MAX,
            forall|t: int| 0 <= t < stamped.len() ==> (#[trigger] stamped[t]) * stamped[t]
                <= sumsq_spec(stamped),
            is_sqrt(sumsq_spec(stamped), m as int),
            1 <= m,
            j <= EMBED_DIM,
            r@.len() == j,
            forall|t: int|
                0 <= t < j ==> #[trigger] r@[t] as int == stamped[t] * SCALE / (m as int),
            forall|t: int| 0 <= t < j ==> 0 <= #[trigger] r@[t] <= SCALE,
        decreases EMBED_DIM - j,
    {
        let x = v[j];
        proof {
            assert(stamped[j as int] == x as int);
            assert(x as int <= m as int) by {
                if x as int > m as int {
                    assert((m as int + 1) * (m as int + 1) <= (x as int) * (x as int))
                        by (nonlinear_arith)
                        requires
                            0 <= m as int + 1 <= x as int,
                    ;
                }
            }
            assert((x as int) * (SCALE as int) <= (m as int) * (SCALE as int)) by (nonlinear_arith)
                requires
                    0 <= x as int <= m as int,
                    SCALE as int > 0,
            ;
            assert((m as int) * (SCALE as int) / (m as int) == SCALE as int) by {
                vstd::arithmetic::div_mod::lemma_div_multiples_vanish(SCALE as int, m as int);
                assert((m as int) * (SCALE as int) == (SCALE as int) * (m as int))
                    by (nonlinear_arith);
            }
            assert((x as int) * (SCALE as int) / (m as int) <= SCALE as int) by {
                vstd::arithmetic::div_mod::lemma_div_is_ordered(
                    (x as int) * (SCALE as int),
                    (m as int) * (SCALE as int),
                    m as int,
                );
            }
            assert((x as int) * (SCALE as int) >= 0) by (nonlinear_arith)
                requires
                    x as int >= 0,
            ;
            assert((x as int) * (SCALE as int) / (m as int) >= 0) by {
                vstd::arithmetic::div_mod::lemma_div_pos_is_pos(
                    (x as int) * (SCALE as int),
                    m as int,
                );
            }
        }
        let val = (((x as u128) * (SCALE as u128)) / m) as i64;
        r.push(val);
        j = j + 1;
    }
    proof {
        assert(r@.map_values(|x: i64| x as int) =~= normalize_spec(stamped)) by {
            assert(sqrt_floor(sumsq_spec(stamped)) == m as int);
            assert(normalize_spec(stamped) == stamped.map_values(
                |x: int| x * SCALE / (m as int),
            ));
        }
    }
    r
}

/// Clamps a scaled statistic into `[0, COMP_MAX]` and narrows it.
fn clamp_stat(x: u128) -> (r: i64)
    ensures
        r as int == clamp_comp(x as int),
        0 <= r <= COMP_MAX,
{
    if x > COMP_MAX as u128 {
        COMP_MAX
    } else {
        x as i64
    }
}

/// The embedding `embedding_from_remote` settles on: a usable remote vector
/// (exactly [`EMBED_DIM`] entries, all in range) is taken as it is; anything
/// else falls back to the deterministic [`embed_fallback_spec`].
pub open spec fn chosen_embedding(
    text: Seq<char>,
    byte_len: int,
    remote: Option<Seq<i64>>,
) -> Seq<i64> {
    match remote {
        Some(v) => if v.len() == EMBED_DIM && valid_vector(v) {
            v
        } else {
            embed_fallback_spec(text, byte_len).map_values(|x: int| x as i64)
        },
        None => embed_fallback_spec(text, byte_len).map_values(|x: int| x as i64),
    }
}

/// The embedding of `text` given what the remote provider returned, if
/// anything, per [`chosen_embedding`].  The result always has exactly
/// [`EMBED_DIM`] valid entries, whatever the remote provider did.
pub fn embedding_from_remote(text: &str, remote: Option<Vec<i64>>) -> (r: Vec<i64>)
    ensures
        r@.len() == EMBED_DIM,
        valid_vector(r@),
        r@ == chosen_embedding(
            text@,
            text.spec_bytes().len() as usize as int,
            match remote {
                Some(v) => Some(v@),
                None => None,
            },
        ),
{
    match remote {
        Some(v) => {
            if v.len() == EMBED_DIM {
                let mut ok = true;
                let mut i: usize = 0;
                while i < v.len()
                    invariant
                        i <= v@.len(),
                        ok <==> forall|t: int|
                            0 <= t < i ==> -COMP_MAX <= #[trigger] v@[t] <= COMP_MAX,
                    decreases v@.len() - i,
                {
                    if v[i] > COMP_MAX || v[i] < -COMP_MAX {
                        proof {
                            assert(!(-COMP_MAX <= v@[i as int] <= COMP_MAX));
                        }
                        ok = false;
                    }
                    i = i + 1;
                }
                if ok {
                    proof {
                        assert(valid_vector(v@));
                    }
                    return v;
                }
                proof {
                    assert(!valid_vector(v@));
                }
            }
            let r = fallback_embedding(text);
            proof {
                lemma_fallback_is_chosen(r@, text@, text.spec_bytes().len() as usize as int);
            }
            r
        },
        None => {
            let r = fallback_embedding(text);
            proof {
                lemma_fallback_is_chosen(r@, text@, text.spec_bytes().len() as usize as int);
            }
            r
        },
    }
}

/// A vector whose entries match the fallback embedding pointwise is that
/// embedding, narrowed.
proof fn lemma_fallback_is_chosen(r: Seq<i64>, text: Seq<char>, byte_len: int)
    requires
        r.map_values(|x: i64| x as int) == embed_fallback_spec(text, byte_len),
    ensures
        r == embed_fallback_spec(text, byte_len).map_values(|x: int| x as i64),
{
    let f = embed_fallback_spec(text, byte_len);
    assert(r.map_values(|x: i64| x as int).len() == r.len());
    assert(r =~= f.map_values(|x: int| x as i64)) by {
        assert forall|i: int| 0 <= i < r.len() implies r[i] == f.map_values(|x: int| x as i64)[i]
            by {
            assert(r.map_values(|x: i64| x as int)[i] == r[i] as int);
            assert(f[i] == r[i] as int);
        }
    }
}

} // verus!
