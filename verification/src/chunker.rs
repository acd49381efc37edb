//! Splitting a document into overlapping word windows, the unit of embedding
//! and retrieval.

use vstd::prelude::*;
use crate::chars::{
    words_spec, join_spec, trim_spec, split_words, join_with_spaces, trim_str,
    lemma_words_wellformed, lemma_words_of_join,
};
use vstd::arithmetic::div_mod::{lemma_hoist_over_denominator, lemma_basic_div};

verus! {

/// `ceil(a / d)` for positive `a` and `d`.
pub open spec fn ceil_div(a: int, d: int) -> int {
    (a + d - 1) / d
}

/// The word windows the sliding chunker produces from word sequence `ws`,
/// starting at word index `start`: each window holds `cs` words (the last may
/// be shorter), and consecutive windows overlap by `ov` words.
pub open spec fn windows_from(ws: Seq<Seq<char>>, start: int, cs: int, ov: int) -> Seq<
    Seq<Seq<char>>,
>
    decreases ws.len() - start,
    when 0 <= start < ws.len() && 0 <= ov < cs
{
    if start + cs >= ws.len() {
        seq![ws.subrange(start, ws.len() as int)]
    } else {
        seq![ws.subrange(start, start + cs)] + windows_from(ws, start + cs - ov, cs, ov)
    }
}

/// What `split_into_chunks` returns, as a sequence of character sequences:
/// the trimmed content itself when it has at most `cs` words, and otherwise
/// each window of `cs` words joined with single spaces, windows advancing by
/// `cs - ov` words.
pub open spec fn chunks_spec(content: Seq<char>, cs: int, ov: int) -> Seq<Seq<char>> {
    let ws = words_spec(content);
    if ws.len() <= cs {
        seq![trim_spec(content)]
    } else {
        windows_from(ws, 0, cs, ov).map_values(|w: Seq<Seq<char>>| join_spec(w))
    }
}

/// Splits `content` into chunks of at most `chunk_size` words, consecutive
/// chunks overlapping by `overlap` words; content of at most `chunk_size`
/// words becomes a single chunk holding the trimmed content.
pub fn split_into_chunks(content: &str, chunk_size: usize, overlap: usize) -> (r: Vec<String>)
    requires
        0 < chunk_size,
        overlap < chunk_size,
    ensures
        r@.map_values(|c: String| c@) == chunks_spec(content@, chunk_size as int, overlap as int),
{
    let ghost cs = chunk_size as int;
    let ghost ov = overlap as int;
    let ghost wsg = words_spec(content@);
    let words = split_words(content);
    let n = words.len();
    let mut r: Vec<String> = Vec::new();
    if n <= chunk_size {
        let whole = trim_str(content);
        r.push(whole);
        proof {
            assert(r@.map_values(|c: String| c@) =~~= seq![trim_spec(content@)]);
        }
        return r;
    }
    let mut start: usize = 0;
    let ghost target = windows_from(wsg, 0, cs, ov).map_values(|w: Seq<Seq<char>>| join_spec(w));
    proof {
        assert(r@.map_values(|c: String| c@) + windows_from(wsg, 0, cs, ov).map_values(
            |w: Seq<Seq<char>>| join_spec(w),
        ) =~~= target);
    }
    loop
        invariant_except_break
            r@.map_values(|c: String| c@) + windows_from(wsg, start as int, cs, ov).map_values(
                |w: Seq<Seq<char>>| join_spec(w),
            ) =~~= target,
        invariant
            words@.map_values(|w: String| w@) == wsg,
            n == wsg.len(),
            chunk_size < n <= usize::MAX,
            cs == chunk_size as int,
            ov == overlap as int,
            0 < cs,
            0 <= ov < cs,
            0 <= start < n,
            target == windows_from(wsg, 0, cs, ov).map_values(|w: Seq<Seq<char>>| join_spec(w)),
        ensures
            r@.map_values(|c: String| c@) =~~= target,
        decreases n - start,
    {
        let end = if chunk_size < n - start {
            start + chunk_size
        } else {
            n
        };
        let mut window: Vec<String> = Vec::new();
        let mut k = start;
        while k < end
            invariant
                words@.map_values(|w: String| w@) == wsg,
                n == wsg.len(),
                start <= k <= end <= n,
                window@.map_values(|w: String| w@) =~~= wsg.subrange(start as int, k as int),
            decreases end - k,
        {
            let w = words[k].clone();
            proof {
                assert(words@.map_values(|x: String| x@)[k as int] == wsg[k as int]);
                assert(w@ == wsg[k as int]);
            }
            let ghost prev = window@;
            window.push(w);
            proof {
                assert(window@ == prev.push(w));
                assert(window@.map_values(|x: String| x@) =~~= prev.map_values(
                    |x: String| x@,
                ).push(wsg[k as int]));
                assert(window@.map_values(|x: String| x@) =~~= wsg.subrange(
                    start as int,
                    k as int + 1,
                ));
            }
            k = k + 1;
        }
        let chunk = join_with_spaces(&window);
        let ghost old_chunks = r@.map_values(|c: String| c@);
        r.push(chunk);
        proof {
            let win = wsg.subrange(start as int, end as int);
            assert(chunk@ == join_spec(win));
            assert(r@.map_values(|c: String| c@) =~~= old_chunks.push(join_spec(win)));
            if end < n {
                assert(windows_from(wsg, start as int, cs, ov) == seq![win] + windows_from(
                    wsg,
                    start as int + cs - ov,
                    cs,
                    ov,
                ));
                assert(old_chunks.push(join_spec(win)) + windows_from(
                    wsg,
                    start as int + cs - ov,
                    cs,
                    ov,
                ).map_values(|w: Seq<Seq<char>>| join_spec(w)) =~~= old_chunks + windows_from(
                    wsg,
                    start as int,
                    cs,
                    ov,
                ).map_values(|w: Seq<Seq<char>>| join_spec(w)));
            } else {
                assert(end == n);
                assert(windows_from(wsg, start as int, cs, ov) == seq![win]);
                assert(old_chunks.push(join_spec(win)) =~~= old_chunks + windows_from(
                    wsg,
                    start as int,
                    cs,
                    ov,
                ).map_values(|w: Seq<Seq<char>>| join_spec(w)));
            }
        }
        if end >= n {
            proof {
                assert(r@.map_values(|c: String| c@) =~~= target);
            }
            break ;
        }
        start = end - overlap;
    }
    r
}

/// Content of at most `cs` words becomes exactly one chunk, holding the
/// trimmed content.
pub proof fn lemma_short_content_single_chunk(content: Seq<char>, cs: int, ov: int)
    requires
        words_spec(content).len() <= cs,
    ensures
        chunks_spec(content, cs, ov) == seq![trim_spec(content)],
{
}

/// Number of windows produced from word index `start`.
proof fn lemma_window_count(ws: Seq<Seq<char>>, start: int, cs: int, ov: int)
    requires
        0 <= start < ws.len(),
        0 <= ov < cs,
    ensures
        windows_from(ws, start, cs, ov).len() == if start + cs >= ws.len() {
            1int
        } else {
            1 + ceil_div(ws.len() - cs - start, cs - ov)
        },
    decreases ws.len() - start,
{
    let n = ws.len() as int;
    let step = cs - ov;
    if start + cs >= n {
    } else {
        let d = n - cs - start;
        lemma_window_count(ws, start + step, cs, ov);
        if start + step + cs >= n {
            assert(0 < d <= step);
            assert(ceil_div(d, step) == 1) by {
                lemma_hoist_over_denominator(d - 1, 1, step as nat);
                lemma_basic_div(d - 1, step);
                assert((d - 1) / step == 0);
                assert((d - 1) / step + 1 == (d - 1 + 1 * step) / step);
                assert(d - 1 + 1 * step == d + step - 1);
            }
        } else {
            assert(d - step == n - cs - (start + step));
            assert(ceil_div(d, step) == 1 + ceil_div(d - step, step)) by {
                lemma_hoist_over_denominator(d - step + step - 1, 1, step as nat);
                assert(d - step + step - 1 + 1 * step == d + step - 1);
            }
        }
    }
}

/// Each window is the corresponding subrange of the word sequence.
proof fn lemma_window_index(ws: Seq<Seq<char>>, start: int, cs: int, ov: int, i: int)
    requires
        0 <= start < ws.len(),
        0 <= ov < cs,
        0 <= i < windows_from(ws, start, cs, ov).len(),
    ensures
        start + i * (cs - ov) < ws.len(),
        windows_from(ws, start, cs, ov)[i] == ws.subrange(
            start + i * (cs - ov),
            if start + i * (cs - ov) + cs >= ws.len() {
                ws.len() as int
            } else {
                start + i * (cs - ov) + cs
            },
        ),
        i < windows_from(ws, start, cs, ov).len() - 1 ==> start + i * (cs - ov) + cs < ws.len(),
    decreases ws.len() - start,
{
    let n = ws.len() as int;
    let step = cs - ov;
    if start + cs >= n {
        assert(i == 0);
        assert(i * step == 0) by (nonlinear_arith)
            requires
                i == 0,
        ;
    } else {
        if i == 0 {
            assert(i * step == 0) by (nonlinear_arith)
                requires
                    i == 0,
            ;
        } else {
            lemma_window_index(ws, start + step, cs, ov, i - 1);
            assert(windows_from(ws, start, cs, ov)[i] == windows_from(ws, start + step, cs, ov)[i
                - 1]);
            assert((i - 1) * step == i * step - step) by (nonlinear_arith);
            assert(start + step + (i - 1) * step == start + i * step);
        }
    }
}

/// When the content has more words than the chunk size, the number of chunks
/// is `ceil((word_count - overlap) / (chunk_size - overlap))`, and each pair
/// of consecutive chunks shares exactly `overlap` words at the boundary: the
/// last `overlap` words of one chunk are the first `overlap` words of the
/// next.
#[verifier::rlimit(60)]
#[verifier::spinoff_prover]
pub proof fn lemma_chunk_count_and_overlap(content: Seq<char>, cs: int, ov: int)
    requires
        0 < cs,
        0 <= ov < cs,
        words_spec(content).len() > cs,
    ensures
        chunks_spec(content, cs, ov).len() == ceil_div(words_spec(content).len() - ov, cs - ov),
        forall|k: int|
            0 <= k < chunks_spec(content, cs, ov).len() - 1 ==> {
                let a = words_spec(#[trigger] chunks_spec(content, cs, ov)[k]);
                let b = words_spec(chunks_spec(content, cs, ov)[k + 1]);
                a.len() == cs && b.len() > ov && a.subrange(cs - ov, cs) == b.subrange(0, ov)
            },
{
    let ws = words_spec(content);
    let n = ws.len() as int;
    let step = cs - ov;
    let wins = windows_from(ws, 0, cs, ov);
    let chunks = chunks_spec(content, cs, ov);
    lemma_window_count(ws, 0, cs, ov);
    assert(chunks.len() == wins.len());
    assert(chunks.len() == 1 + ceil_div(n - cs, step));
    assert(ceil_div(n - ov, step) == 1 + ceil_div(n - cs, step)) by {
        lemma_hoist_over_denominator(n - cs + step - 1, 1, step as nat);
        assert(n - cs + step - 1 + 1 * step == n - ov + step - 1);
    }
    lemma_words_wellformed(content);
    assert forall|k: int| 0 <= k < chunks.len() - 1 implies {
        let a = words_spec(#[trigger] chunks[k]);
        let b = words_spec(chunks[k + 1]);
        a.len() == cs && b.len() > ov && a.subrange(cs - ov, cs) == b.subrange(0, ov)
    } by {
        lemma_window_index(ws, 0, cs, ov, k);
        lemma_window_index(ws, 0, cs, ov, k + 1);
        let sk = k * step;
        let sk1 = (k + 1) * step;
        assert((k + 1) * step == k * step + step) by (nonlinear_arith);
        assert(k * step >= 0) by (nonlinear_arith)
            requires
                k >= 0 && step > 0,
        ;
        assert(sk1 == sk + step);
        assert(sk >= 0);
        assert(0 + sk + cs < n);
        let wk = ws.subrange(sk, sk + cs);
        let ek1 = if sk1 + cs >= n {
            n
        } else {
            sk1 + cs
        };
        let wk1 = ws.subrange(sk1, ek1);
        assert(wins[k] == wk);
        assert(wins[k + 1] == wk1);
        assert(chunks[k] == join_spec(wk));
        assert(chunks[k + 1] == join_spec(wk1));
        assert forall|t: int|
            0 <= t < wk.len() implies (#[trigger] wk[t]).len() > 0 && (forall|i: int|
            0 <= i < wk[t].len() ==> !crate::chars::is_space_spec(#[trigger] wk[t][i])) by {
            assert(wk[t] == ws[sk + t]);
        }
        assert forall|t: int|
            0 <= t < wk1.len() implies (#[trigger] wk1[t]).len() > 0 && (forall|i: int|
            0 <= i < wk1[t].len() ==> !crate::chars::is_space_spec(#[trigger] wk1[t][i])) by {
            assert(wk1[t] == ws[sk1 + t]);
        }
        lemma_words_of_join(wk);
        lemma_words_of_join(wk1);
        assert(words_spec(chunks[k]) == wk);
        assert(words_spec(chunks[k + 1]) == wk1);
        assert(wk.len() == cs);
        assert(ek1 > sk1 + ov) by {
            assert(sk1 + ov == sk + cs < n);
        }
        assert(wk1.len() > ov);
        assert(wk.subrange(cs - ov, cs) =~= ws.subrange(sk + cs - ov, sk + cs));
        assert(wk1.subrange(0, ov) =~= ws.subrange(sk1, sk1 + ov));
        assert(sk1 == sk + cs - ov && sk1 + ov == sk + cs);
    }
}

} // verus!
