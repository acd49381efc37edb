//! Character and string primitives: whitespace classification, splitting a
//! text into words, joining words with spaces, trimming, substring search and
//! decimal formatting.  Everything is specified over `Seq<char>` views.

use vstd::prelude::*;
use vstd::string::StrSliceExecFns;
use vstd::string::StringExecFns;

verus! {

/// The Unicode `White_Space` code points, the separator set used by word
/// splitting and trimming throughout this crate.
pub open spec fn is_space_spec(c: char) -> bool {
    let u = c as u32;
    (0x09 <= u && u <= 0x0D) || u == 0x20 || u == 0x85 || u == 0xA0 || u == 0x1680 || (0x2000
        <= u && u <= 0x200A) || u == 0x2028 || u == 0x2029 || u == 0x202F || u == 0x205F || u
        == 0x3000
}

/// Decides [`is_space_spec`].
pub fn is_space(c: char) -> (r: bool)
    ensures
        r == is_space_spec(c),
{
    let u = c as u32;
    (0x09 <= u && u <= 0x0D) || u == 0x20 || u == 0x85 || u == 0xA0 || u == 0x1680 || (0x2000
        <= u && u <= 0x200A) || u == 0x2028 || u == 0x2029 || u == 0x202F || u == 0x205F || u
        == 0x3000
}

/// The Unicode `Cc` control code points.
pub open spec fn is_control_spec(c: char) -> bool {
    let u = c as u32;
    u <= 0x1F || (0x7F <= u && u <= 0x9F)
}

/// Decides [`is_control_spec`].
pub fn is_control_char(c: char) -> (r: bool)
    ensures
        r == is_control_spec(c),
{
    let u = c as u32;
    u <= 0x1F || (0x7F <= u && u <= 0x9F)
}

/// Length of the maximal non-whitespace prefix of `s`.
pub open spec fn word_len(s: Seq<char>) -> nat
    decreases s.len(),
{
    if s.len() == 0 || is_space_spec(s[0]) {
        0
    } else {
        1 + word_len(s.drop_first())
    }
}

pub proof fn lemma_word_len_le(s: Seq<char>)
    ensures
        word_len(s) <= s.len(),
    decreases s.len(),
{
    if s.len() > 0 && !is_space_spec(s[0]) {
        lemma_word_len_le(s.drop_first());
    }
}

/// The words of `s`: maximal runs of non-whitespace characters, in order.
pub open spec fn words_spec(s: Seq<char>) -> Seq<Seq<char>>
    decreases s.len(),
    via words_spec_dec
{
    if s.len() == 0 {
        Seq::empty()
    } else if is_space_spec(s[0]) {
        words_spec(s.drop_first())
    } else {
        seq![s.take(word_len(s) as int)] + words_spec(s.skip(word_len(s) as int))
    }
}

#[via_fn]
proof fn words_spec_dec(s: Seq<char>) {
    if s.len() > 0 && !is_space_spec(s[0]) {
        lemma_word_len_le(s);
    }
}

/// The characters counted by `word_len` are not whitespace, and the first
/// character past them (if any) is.
pub proof fn lemma_word_len_chars(s: Seq<char>)
    ensures
        word_len(s) <= s.len(),
        forall|i: int| 0 <= i < word_len(s) ==> !is_space_spec(#[trigger] s[i]),
        word_len(s) < s.len() ==> is_space_spec(s[word_len(s) as int]),
    decreases s.len(),
{
    lemma_word_len_le(s);
    if s.len() > 0 && !is_space_spec(s[0]) {
        lemma_word_len_chars(s.drop_first());
        assert forall|i: int| 0 <= i < word_len(s) implies !is_space_spec(#[trigger] s[i]) by {
            if i > 0 {
                assert(s.drop_first()[i - 1] == s[i]);
            }
        }
        if word_len(s) < s.len() {
            assert(s.drop_first()[word_len(s) as int - 1] == s[word_len(s) as int]);
        }
    }
}

/// `word_len` is pinned down by any witness index `j` with only
/// non-whitespace before it and whitespace (or the end) at it.
pub proof fn lemma_word_len_determined(s: Seq<char>, j: int)
    requires
        0 <= j <= s.len(),
        forall|i: int| 0 <= i < j ==> !is_space_spec(#[trigger] s[i]),
        j == s.len() || is_space_spec(s[j]),
    ensures
        word_len(s) == j,
    decreases s.len(),
{
    if j == 0 {
    } else {
        assert(!is_space_spec(s[0]));
        lemma_word_len_determined(s.drop_first(), j - 1);
    }
}

/// Every word is non-empty and free of whitespace.
pub proof fn lemma_words_wellformed(s: Seq<char>)
    ensures
        forall|k: int|
            0 <= k < words_spec(s).len() ==> (#[trigger] words_spec(s)[k]).len() > 0 && (forall|
                i: int,
            | 0 <= i < words_spec(s)[k].len() ==> !is_space_spec(#[trigger] words_spec(s)[k][i])),
    decreases s.len(),
{
    if s.len() == 0 {
    } else if is_space_spec(s[0]) {
        lemma_words_wellformed(s.drop_first());
        assert(words_spec(s) == words_spec(s.drop_first()));
    } else {
        lemma_word_len_chars(s);
        lemma_words_wellformed(s.skip(word_len(s) as int));
        let w0 = s.take(word_len(s) as int);
        assert(words_spec(s) == seq![w0] + words_spec(s.skip(word_len(s) as int)));
        assert(words_spec(s)[0] == w0);
        assert(w0.len() == word_len(s) > 0);
        assert(forall|i: int| 0 <= i < w0.len() ==> !is_space_spec(#[trigger] w0[i]));
        assert(forall|k: int|
            1 <= k < words_spec(s).len() ==> words_spec(s)[k] == words_spec(
                s.skip(word_len(s) as int),
            )[k - 1]);
    }
}

/// The given words joined with single spaces.
pub open spec fn join_spec(ws: Seq<Seq<char>>) -> Seq<char>
    decreases ws.len(),
{
    if ws.len() == 0 {
        Seq::empty()
    } else if ws.len() == 1 {
        ws[0]
    } else {
        ws[0] + seq![' '] + join_spec(ws.drop_first())
    }
}

/// Unrolls `join_spec` from the back, the shape the joining loop produces.
pub proof fn lemma_join_push(ws: Seq<Seq<char>>, w: Seq<char>)
    ensures
        ws.len() == 0 ==> join_spec(ws.push(w)) == w,
        ws.len() > 0 ==> join_spec(ws.push(w)) == join_spec(ws) + seq![' '] + w,
    decreases ws.len(),
{
    let p = ws.push(w);
    if ws.len() == 0 {
        assert(p[0] == w);
    } else if ws.len() == 1 {
        assert(p.drop_first() =~= seq![w]);
        assert(join_spec(p.drop_first()) == w);
        assert(join_spec(ws) == ws[0]);
        assert(p[0] == ws[0]);
    } else {
        lemma_join_push(ws.drop_first(), w);
        assert(p.drop_first() =~= ws.drop_first().push(w));
        assert(p[0] == ws[0]);
        assert(join_spec(ws.drop_first()) + seq![' '] + w == (ws.drop_first()[0] + seq![' ']
            + join_spec(ws.drop_first().drop_first())) + seq![' '] + w || ws.drop_first().len()
            == 1);
        assert(join_spec(p) == p[0] + seq![' '] + join_spec(p.drop_first()));
        assert(ws[0] + seq![' '] + (join_spec(ws.drop_first()) + seq![' '] + w) =~= (ws[0]
            + seq![' '] + join_spec(ws.drop_first())) + seq![' '] + w);
    }
}

/// Splitting the join of well-formed words gives the words back.
pub proof fn lemma_words_of_join(ws: Seq<Seq<char>>)
    requires
        forall|k: int|
            0 <= k < ws.len() ==> (#[trigger] ws[k]).len() > 0 && (forall|i: int|
                0 <= i < ws[k].len() ==> !is_space_spec(#[trigger] ws[k][i])),
    ensures
        words_spec(join_spec(ws)) =~~= ws,
    decreases ws.len(),
{
    if ws.len() == 0 {
    } else if ws.len() == 1 {
        let j = join_spec(ws);
        assert(j == ws[0]);
        assert(ws[0].len() > 0 && forall|i: int| 0 <= i < ws[0].len() ==> !is_space_spec(
            #[trigger] ws[0][i],
        ));
        assert(!is_space_spec(j[0]));
        lemma_word_len_determined(j, j.len() as int);
        assert(j.take(j.len() as int) =~= j);
        assert(j.skip(j.len() as int) =~= Seq::<char>::empty());
        assert(words_spec(j) == seq![j.take(word_len(j) as int)] + words_spec(
            j.skip(word_len(j) as int),
        ));
        assert(words_spec(Seq::<char>::empty()) =~~= Seq::<Seq<char>>::empty());
        assert(words_spec(j) =~~= seq![ws[0]]);
    } else {
        let j = join_spec(ws);
        let w0 = ws[0];
        let rest = join_spec(ws.drop_first());
        assert(j == w0 + seq![' '] + rest);
        assert(w0.len() > 0 && forall|i: int| 0 <= i < w0.len() ==> !is_space_spec(
            #[trigger] w0[i],
        ));
        assert forall|i: int| 0 <= i < w0.len() implies !is_space_spec(#[trigger] j[i]) by {
            assert(j[i] == w0[i]);
        }
        assert(j[w0.len() as int] == ' ');
        assert(is_space_spec(' '));
        lemma_word_len_determined(j, w0.len() as int);
        assert(j.take(w0.len() as int) =~= w0);
        let tail = j.skip(w0.len() as int);
        assert(tail.len() > 0 && tail[0] == ' ');
        assert(tail.drop_first() =~= rest);
        assert(!is_space_spec(j[0]));
        assert(words_spec(j) == seq![w0] + words_spec(tail));
        assert(words_spec(tail) == words_spec(rest));
        lemma_words_of_join(ws.drop_first());
        assert(words_spec(j) =~~= seq![w0] + words_spec(rest));
        assert(seq![w0] + ws.drop_first() =~~= ws);
    }
}

/// Number of leading whitespace characters of `s`.
pub open spec fn leading_spaces(s: Seq<char>) -> nat
    decreases s.len(),
{
    if s.len() == 0 || !is_space_spec(s[0]) {
        0
    } else {
        1 + leading_spaces(s.drop_first())
    }
}

/// Number of trailing whitespace characters of `s`.
pub open spec fn trailing_spaces(s: Seq<char>) -> nat
    decreases s.len(),
{
    if s.len() == 0 || !is_space_spec(s.last()) {
        0
    } else {
        1 + trailing_spaces(s.drop_last())
    }
}

/// `s` without leading and trailing whitespace.
pub open spec fn trim_spec(s: Seq<char>) -> Seq<char> {
    if leading_spaces(s) == s.len() {
        Seq::empty()
    } else {
        s.subrange(leading_spaces(s) as int, s.len() - trailing_spaces(s))
    }
}

pub proof fn lemma_leading_determined(s: Seq<char>, j: int)
    requires
        0 <= j <= s.len(),
        forall|i: int| 0 <= i < j ==> is_space_spec(#[trigger] s[i]),
        j == s.len() || !is_space_spec(s[j]),
    ensures
        leading_spaces(s) == j,
    decreases s.len(),
{
    if j > 0 {
        lemma_leading_determined(s.drop_first(), j - 1);
    }
}

pub proof fn lemma_trailing_determined(s: Seq<char>, j: int)
    requires
        0 <= j <= s.len(),
        forall|i: int| s.len() - j <= i < s.len() ==> is_space_spec(#[trigger] s[i]),
        j == s.len() || !is_space_spec(s[s.len() - j - 1]),
    ensures
        trailing_spaces(s) == j,
    decreases s.len(),
{
    if j > 0 {
        assert(is_space_spec(s.last()));
        let d = s.drop_last();
        assert(forall|i: int| d.len() - (j - 1) <= i < d.len() ==> is_space_spec(#[trigger] d[i]));
        lemma_trailing_determined(d, j - 1);
    }
}

/// Splits `s` into its whitespace-separated words.
pub fn split_words(s: &str) -> (r: Vec<String>)
    ensures
        r@.map_values(|w: String| w@) == words_spec(s@),
{
    let n = s.unicode_len();
    let mut r: Vec<String> = Vec::new();
    let mut i: usize = 0;
    proof {
        assert(s@.skip(0) =~= s@);
        assert(r@.map_values(|w: String| w@) =~~= Seq::<Seq<char>>::empty());
        assert(Seq::<Seq<char>>::empty() + words_spec(s@) =~~= words_spec(s@));
    }
    while i < n
        invariant
            n == s@.len(),
            i <= n,
            r@.map_values(|w: String| w@) + words_spec(s@.skip(i as int)) =~~= words_spec(s@),
        decreases n - i,
    {
        let c = s.get_char(i);
        if is_space(c) {
            proof {
                assert(s@.skip(i as int).drop_first() =~= s@.skip(i as int + 1));
            }
            i = i + 1;
        } else {
            let start = i;
            let mut j = i + 1;
            while j < n && !is_space(s.get_char(j))
                invariant
                    n == s@.len(),
                    i <= start < j <= n,
                    forall|k: int| start <= k < j ==> !is_space_spec(#[trigger] s@[k]),
                decreases n - j,
            {
                j = j + 1;
            }
            proof {
                assert(j == n || is_space_spec(s@[j as int]));
                let t = s@.skip(start as int);
                assert(forall|k: int|
                    0 <= k < j - start ==> t[k] == s@[k + start] && !is_space_spec(
                        #[trigger] t[k],
                    ));
                if j < n {
                    assert(t[j - start] == s@[j as int]);
                }
                lemma_word_len_determined(t, j - start);
                assert(t.take(j - start) =~= s@.subrange(start as int, j as int));
                assert(t.skip(j - start) =~= s@.skip(j as int));
                assert(words_spec(t) == seq![s@.subrange(start as int, j as int)] + words_spec(
                    s@.skip(j as int),
                ));
            }
            let w = s.substring_char(start, j).to_owned();
            let ghost old_r = r@;
            r.push(w);
            proof {
                assert(r@.map_values(|w: String| w@) =~~= old_r.map_values(|w: String| w@).push(
                    s@.subrange(start as int, j as int),
                ));
                assert(old_r.map_values(|w: String| w@).push(s@.subrange(start as int, j as int))
                    + words_spec(s@.skip(j as int)) =~~= old_r.map_values(|w: String| w@) + (seq![
                    s@.subrange(start as int, j as int),
                ] + words_spec(s@.skip(j as int))));
            }
            i = j;
        }
    }
    proof {
        assert(s@.skip(n as int) =~= Seq::<char>::empty());
        assert(r@.map_values(|w: String| w@) + Seq::<Seq<char>>::empty() =~~= r@.map_values(
            |w: String| w@,
        ));
    }
    r
}

/// Joins `ws` with single spaces.
pub fn join_with_spaces(ws: &Vec<String>) -> (r: String)
    ensures
        r@ == join_spec(ws@.map_values(|w: String| w@)),
{
    let mut r = String::new();
    let mut i: usize = 0;
    while i < ws.len()
        invariant
            i <= ws@.len(),
            r@ == join_spec(ws@.map_values(|w: String| w@).take(i as int)),
        decreases ws@.len() - i,
    {
        let ghost vs = ws@.map_values(|w: String| w@);
        if i > 0 {
            r.append(" ");
            proof {
                reveal_strlit(" ");
            }
        }
        r.append(ws[i].as_str());
        proof {
            lemma_join_push(vs.take(i as int), vs[i as int]);
            assert(vs.take(i as int).push(vs[i as int]) =~~= vs.take(i as int + 1));
            if i > 0 {
                assert(r@ == join_spec(vs.take(i as int)) + seq![' '] + vs[i as int]);
            }
        }
        i = i + 1;
    }
    proof {
        assert(ws@.map_values(|w: String| w@).take(ws@.len() as int) =~~= ws@.map_values(
            |w: String| w@,
        ));
    }
    r
}

/// `s` without leading and trailing whitespace, as an owned string.
pub fn trim_str(s: &str) -> (r: String)
    ensures
        r@ == trim_spec(s@),
{
    let n = s.unicode_len();
    let mut a: usize = 0;
    while a < n && is_space(s.get_char(a))
        invariant
            n == s@.len(),
            a <= n,
            forall|i: int| 0 <= i < a ==> is_space_spec(#[trigger] s@[i]),
        decreases n - a,
    {
        a = a + 1;
    }
    proof {
        lemma_leading_determined(s@, a as int);
    }
    if a == n {
        proof {
            reveal_strlit("");
        }
        let r = "".to_owned();
        assert(r@ =~= trim_spec(s@));
        return r;
    }
    let mut b: usize = 0;
    while b < n && is_space(s.get_char(n - 1 - b))
        invariant
            n == s@.len(),
            b <= n,
            forall|i: int| n - b <= i < n ==> is_space_spec(#[trigger] s@[i]),
        decreases n - b,
    {
        b = b + 1;
    }
    proof {
        lemma_trailing_determined(s@, b as int);
        assert(!is_space_spec(s@[a as int]));
        assert(n - b > a) by {
            if n - b <= a {
                assert(is_space_spec(s@[a as int]));
            }
        }
    }
    s.substring_char(a, n - b).to_owned()
}

/// `p` occurs in `s` starting at position `i`.
pub open spec fn occurs_at(s: Seq<char>, p: Seq<char>, i: int) -> bool {
    0 <= i && i + p.len() <= s.len() && s.subrange(i, i + p.len()) == p
}

/// `p` occurs somewhere in `s`.
pub open spec fn contains_spec(s: Seq<char>, p: Seq<char>) -> bool {
    exists|i: int| occurs_at(s, p, i)
}

/// `s` starts with `p`.
pub open spec fn starts_with_spec(s: Seq<char>, p: Seq<char>) -> bool {
    p.len() <= s.len() && s.subrange(0, p.len() as int) == p
}

/// Whether `p` occurs in `s` at position `i`.
fn matches_at(s: &str, p: &str, i: usize) -> (r: bool)
    requires
        i + p@.len() <= s@.len(),
        s@.len() <= usize::MAX,
    ensures
        r == occurs_at(s@, p@, i as int),
{
    let m = p.unicode_len();
    let mut k: usize = 0;
    while k < m
        invariant
            m == p@.len(),
            i + m <= s@.len(),
            s@.len() <= usize::MAX,
            k <= m,
            forall|t: int| 0 <= t < k ==> s@[i + t] == #[trigger] p@[t],
        decreases m - k,
    {
        if s.get_char(i + k) != p.get_char(k) {
            assert(s@.subrange(i as int, i + p@.len()) != p@) by {
                assert(s@.subrange(i as int, i + p@.len())[k as int] != p@[k as int]);
            }
            return false;
        }
        k = k + 1;
    }
    assert(s@.subrange(i as int, i + p@.len()) =~= p@);
    true
}

/// Substring search: whether `p` occurs anywhere in `s`.
pub fn contains_str(s: &str, p: &str) -> (r: bool)
    ensures
        r == contains_spec(s@, p@),
{
    let n = s.unicode_len();
    let m = p.unicode_len();
    if m > n {
        assert(!contains_spec(s@, p@)) by {
            assert(forall|i: int| !occurs_at(s@, p@, i));
        }
        return false;
    }
    if m == 0 {
        assert(occurs_at(s@, p@, 0)) by {
            assert(s@.subrange(0, 0) =~= p@);
        }
        return true;
    }
    let mut i: usize = 0;
    while i <= n - m
        invariant
            n == s@.len(),
            m == p@.len(),
            0 < m <= n,
            i <= n - m + 1,
            forall|t: int| 0 <= t < i ==> !occurs_at(s@, p@, t),
        decreases n - i,
    {
        if matches_at(s, p, i) {
            return true;
        }
        i = i + 1;
    }
    assert forall|t: int| !occurs_at(s@, p@, t) by {
        if 0 <= t < i {
        } else {
        }
    }
    false
}

/// Whether `s` starts with `p`.
pub fn starts_with_str(s: &str, p: &str) -> (r: bool)
    ensures
        r == starts_with_spec(s@, p@),
{
    let n = s.unicode_len();
    let m = p.unicode_len();
    if m > n {
        return false;
    }
    matches_at(s, p, 0)
}

/// Whether two strings hold the same characters.
pub fn str_eq(a: &str, b: &str) -> (r: bool)
    ensures
        r == (a@ == b@),
{
    let n = a.unicode_len();
    let m = b.unicode_len();
    if n != m {
        return false;
    }
    let mut k: usize = 0;
    while k < n
        invariant
            n == a@.len(),
            n == b@.len(),
            k <= n,
            forall|t: int| 0 <= t < k ==> a@[t] == #[trigger] b@[t],
        decreases n - k,
    {
        if a.get_char(k) != b.get_char(k) {
            return false;
        }
        k = k + 1;
    }
    proof {
        assert(a@ =~= b@);
    }
    true
}

/// Relies on `String::push`: appends exactly one character to the string.
#[verifier::external_body]
pub fn push_char(s: &mut String, c: char)
    ensures
        final(s)@ == old(s)@.push(c),
{
    s.push(c);
}

/// The decimal digit character for `d`.
pub open spec fn digit_spec(d: nat) -> char {
    if d == 0 {
        '0'
    } else if d == 1 {
        '1'
    } else if d == 2 {
        '2'
    } else if d == 3 {
        '3'
    } else if d == 4 {
        '4'
    } else if d == 5 {
        '5'
    } else if d == 6 {
        '6'
    } else if d == 7 {
        '7'
    } else if d == 8 {
        '8'
    } else {
        '9'
    }
}

/// The usual decimal rendering of `n`, most significant digit first.
pub open spec fn decimal_spec(n: nat) -> Seq<char>
    decreases n,
{
    if n < 10 {
        seq![digit_spec(n)]
    } else {
        decimal_spec(n / 10).push(digit_spec(n % 10))
    }
}

fn digit_char(d: usize) -> (c: char)
    requires
        d < 10,
    ensures
        c == digit_spec(d as nat),
{
    match d {
        0 => '0',
        1 => '1',
        2 => '2',
        3 => '3',
        4 => '4',
        5 => '5',
        6 => '6',
        7 => '7',
        8 => '8',
        _ => '9',
    }
}

/// Renders `n` in decimal.
pub fn usize_to_string(n: usize) -> (r: String)
    ensures
        r@ == decimal_spec(n as nat),
    decreases n,
{
    if n < 10 {
        let mut s = String::new();
        push_char(&mut s, digit_char(n));
        s
    } else {
        let mut s = usize_to_string(n / 10);
        push_char(&mut s, digit_char(n % 10));
        s
    }
}

} // verus!
