//! Whitespace handling on character sequences: splitting into words,
//! collapsing runs of whitespace, trimming, and decimal rendering.
use vstd::prelude::*;

verus! {

/// The characters that have the Unicode `White_Space` property; these are the
/// characters that `char::is_whitespace` accepts.
pub open spec fn is_ws(c: char) -> bool {
    ||| ('\u{9}' <= c && c <= '\u{d}')
    ||| c == ' '
    ||| c == '\u{85}'
    ||| c == '\u{a0}'
    ||| c == '\u{1680}'
    ||| ('\u{2000}' <= c && c <= '\u{200a}')
    ||| c == '\u{2028}'
    ||| c == '\u{2029}'
    ||| c == '\u{202f}'
    ||| c == '\u{205f}'
    ||| c == '\u{3000}'
}

/// The maximal runs of non-whitespace characters of `s`, in order.
pub open spec fn words(s: Seq<char>) -> Seq<Seq<char>>
    decreases s.len(),
{
    if s.len() == 0 {
        seq![]
    } else {
        let w = words(s.drop_last());
        let c = s.last();
        if is_ws(c) {
            w
        } else if s.len() >= 2 && !is_ws(s[s.len() - 2]) {
            w.update(w.len() - 1, w.last().push(c))
        } else {
            w.push(seq![c])
        }
    }
}

/// The pieces of `ws` joined with `sep` between neighbours.
pub open spec fn join(ws: Seq<Seq<char>>, sep: Seq<char>) -> Seq<char>
    decreases ws.len(),
{
    if ws.len() == 0 {
        seq![]
    } else if ws.len() == 1 {
        ws[0]
    } else {
        join(ws.drop_last(), sep) + sep + ws.last()
    }
}

/// The words of `s` joined by single spaces.
pub open spec fn normalized(s: Seq<char>) -> Seq<char> {
    join(words(s), seq![' '])
}

/// The pieces of `s` between newline characters; one empty piece for the
/// empty sequence.
pub open spec fn split_lines(s: Seq<char>) -> Seq<Seq<char>>
    decreases s.len(),
{
    if s.len() == 0 {
        seq![seq![]]
    } else {
        let p = split_lines(s.drop_last());
        if s.last() == '\n' {
            p.push(seq![])
        } else {
            p.update(p.len() - 1, p.last().push(s.last()))
        }
    }
}

/// Each piece of `ls` normalized.
pub open spec fn normalized_all(ls: Seq<Seq<char>>) -> Seq<Seq<char>> {
    ls.map_values(|l: Seq<char>| normalized(l))
}

/// `s` without its trailing whitespace.
pub open spec fn trim_end(s: Seq<char>) -> Seq<char>
    decreases s.len(),
{
    if s.len() > 0 && is_ws(s.last()) {
        trim_end(s.drop_last())
    } else {
        s
    }
}

/// `s` without its leading whitespace.
pub open spec fn trim_start(s: Seq<char>) -> Seq<char>
    decreases s.len(),
{
    if s.len() > 0 && is_ws(s[0]) {
        trim_start(s.drop_first())
    } else {
        s
    }
}

/// `s` without leading and trailing whitespace.
pub open spec fn trim(s: Seq<char>) -> Seq<char> {
    trim_start(trim_end(s))
}

/// Every line of `s` normalized, the lines joined by newlines, and the whole trimmed.
pub open spec fn normalized_multiline(s: Seq<char>) -> Seq<char> {
    trim(join(normalized_all(split_lines(s)), seq!['\n']))
}

/// The decimal digit for `d < 10`.
pub open spec fn digit_char(d: nat) -> char {
    ((d + 48) as u8) as char
}

/// The decimal representation of `n`, without leading zeros.
pub open spec fn decimal(n: nat) -> Seq<char>
    decreases n,
{
    if n < 10 {
        seq![digit_char(n)]
    } else {
        decimal(n / 10).push(digit_char(n % 10))
    }
}

/// The number that the decimal digits `s` stand for.
pub open spec fn digits_value(s: Seq<char>) -> nat
    decreases s.len(),
{
    if s.len() == 0 {
        0
    } else {
        10 * digits_value(s.drop_last()) + ((s.last() as u32) - 48) as nat
    }
}

/// The decimal representation of a number is made of digits, has no leading
/// zero, and stands for the number.
pub proof fn lemma_decimal_value(n: nat)
    ensures
        digits_value(decimal(n)) == n,
        decimal(n).len() > 0,
        forall|j: int| 0 <= j < decimal(n).len() ==> '0' <= #[trigger] decimal(n)[j] <= '9',
        decimal(n).len() > 1 ==> decimal(n)[0] != '0',
        n >= 10 ==> decimal(n).len() > 1,
    decreases n,
{
    if n < 10 {
        let c = digit_char(n);
        assert((c as u32) == n + 48);
        assert(decimal(n).drop_last() =~= Seq::<char>::empty());
        assert(digits_value(decimal(n)) == 10 * digits_value(Seq::<char>::empty()) + ((c as u32) - 48) as nat);
    } else {
        lemma_decimal_value(n / 10);
        let p = decimal(n / 10);
        let c = digit_char(n % 10);
        assert((c as u32) == n % 10 + 48);
        assert(decimal(n).drop_last() == p);
        assert(decimal(n).last() == c);
        assert(10 * (n / 10) + n % 10 == n);
        assert(digits_value(decimal(n)) == 10 * digits_value(p) + ((c as u32) - 48) as nat);
        assert forall|j: int| 0 <= j < decimal(n).len() implies '0' <= #[trigger] decimal(n)[j] <= '9' by {
            if j < p.len() {
                assert(decimal(n)[j] == p[j]);
            }
        }
        assert(decimal(n)[0] == p[0]);
        if n / 10 < 10 {
            let d = digit_char(n / 10);
            assert(p == seq![d]);
            assert((d as u32) == n / 10 + 48);
            assert(p[0] != '0');
        }
    }
}

// ---------------------------------------------------------------------------
// Lemmas
// ---------------------------------------------------------------------------

pub proof fn lemma_join_push(ws: Seq<Seq<char>>, w: Seq<char>, sep: Seq<char>)
    ensures
        ws.len() == 0 ==> join(ws.push(w), sep) == w,
        ws.len() > 0 ==> join(ws.push(w), sep) == join(ws, sep) + sep + w,
{
    assert(ws.push(w).drop_last() == ws);
}

pub proof fn lemma_join_extend_last(ws: Seq<Seq<char>>, c: char, sep: Seq<char>)
    requires
        ws.len() > 0,
    ensures
        join(ws.update(ws.len() - 1, ws.last().push(c)), sep) == join(ws, sep).push(c),
{
    let ws2 = ws.update(ws.len() - 1, ws.last().push(c));
    if ws.len() > 1 {
        assert(ws2.drop_last() == ws.drop_last());
        assert(join(ws2, sep) == join(ws.drop_last(), sep) + sep + ws.last().push(c));
        assert(join(ws2, sep) =~= join(ws, sep).push(c));
    }
}

/// Each word is non-empty and holds no whitespace.
pub proof fn lemma_words_wf(s: Seq<char>)
    ensures
        forall|i: int|
            0 <= i < words(s).len() ==> #[trigger] words(s)[i].len() > 0 && forall|j: int|
                0 <= j < words(s)[i].len() ==> !is_ws(#[trigger] words(s)[i][j]),
        s.len() > 0 && !is_ws(s.last()) ==> words(s).len() > 0,
    decreases s.len(),
{
    if s.len() > 0 {
        lemma_words_wf(s.drop_last());
        let w = words(s.drop_last());
        let c = s.last();
        if !is_ws(c) && s.len() >= 2 && !is_ws(s[s.len() - 2]) {
            assert(s.drop_last().last() == s[s.len() - 2]);
            let w2 = w.update(w.len() - 1, w.last().push(c));
            assert forall|i: int| 0 <= i < w2.len() implies #[trigger] w2[i].len() > 0
                && forall|j: int| 0 <= j < w2[i].len() ==> !is_ws(#[trigger] w2[i][j]) by {
                if i == w.len() - 1 {
                    assert forall|j: int| 0 <= j < w2[i].len() implies !is_ws(#[trigger] w2[i][j]) by {
                        if j < w.last().len() {
                            assert(w2[i][j] == w[i][j]);
                        }
                    }
                } else {
                    assert(w2[i] == w[i]);
                }
            }
        } else if !is_ws(c) {
            let w2 = w.push(seq![c]);
            assert forall|i: int| 0 <= i < w2.len() implies #[trigger] w2[i].len() > 0
                && forall|j: int| 0 <= j < w2[i].len() ==> !is_ws(#[trigger] w2[i][j]) by {
                if i < w.len() {
                    assert(w2[i] == w[i]);
                }
            }
        }
    }
}


/// Appending a whitespace-free, non-empty piece after a word boundary adds it as one word.
proof fn lemma_words_append_word(p: Seq<char>, w: Seq<char>, k: int)
    requires
        p.len() == 0 || is_ws(p.last()),
        1 <= k <= w.len(),
        forall|j: int| 0 <= j < w.len() ==> !is_ws(#[trigger] w[j]),
    ensures
        words(p + w.take(k)) == words(p).push(w.take(k)),
    decreases k,
{
    let x = p + w.take(k);
    assert(x.last() == w[k - 1]);
    if k == 1 {
        assert(x.drop_last() == p);
        if x.len() >= 2 {
            assert(x[x.len() - 2] == p.last());
        }
        assert(w.take(1) =~= seq![w[0]]);
    } else {
        lemma_words_append_word(p, w, k - 1);
        assert(x.drop_last() == p + w.take(k - 1));
        assert(x[x.len() - 2] == w[k - 2]);
        assert(w.take(k - 1).push(w[k - 1]) =~= w.take(k));
        let a = words(p).push(w.take(k - 1));
        assert(a.update(a.len() - 1, a.last().push(w[k - 1])) =~= words(p).push(w.take(k)));
    }
}

/// Splitting well-formed words joined by single spaces gives the words back.
proof fn lemma_words_of_join(ws: Seq<Seq<char>>)
    requires
        forall|i: int|
            0 <= i < ws.len() ==> #[trigger] ws[i].len() > 0 && forall|j: int|
                0 <= j < ws[i].len() ==> !is_ws(#[trigger] ws[i][j]),
    ensures
        words(join(ws, seq![' '])) == ws,
    decreases ws.len(),
{
    if ws.len() == 0 {
    } else if ws.len() == 1 {
        let w = ws[0];
        lemma_words_append_word(seq![], w, w.len() as int);
        assert(seq![] + w.take(w.len() as int) =~= w);
        assert(seq![].push(w) =~= ws);
    } else {
        let ws2 = ws.drop_last();
        assert forall|i: int| 0 <= i < ws2.len() implies #[trigger] ws2[i].len() > 0 && forall|
            j: int,
        |
            0 <= j < ws2[i].len() ==> !is_ws(#[trigger] ws2[i][j]) by {
            assert(ws2[i] == ws[i]);
        }
        lemma_words_of_join(ws2);
        let a = join(ws2, seq![' ']);
        let p = a + seq![' '];
        let w = ws.last();
        assert(p.drop_last() == a);
        assert(words(p) == words(a));
        assert forall|j: int| 0 <= j < w.len() implies !is_ws(#[trigger] w[j]) by {
            assert(w[j] == ws[ws.len() - 1][j]);
        }
        lemma_words_append_word(p, w, w.len() as int);
        assert(w.take(w.len() as int) =~= w);
        assert(join(ws, seq![' ']) == p + w);
        assert(ws2.push(w) =~= ws);
    }
}

/// Normalizing whitespace twice gives the same text as normalizing it once.
pub proof fn lemma_normalize_idempotent(s: Seq<char>)
    ensures
        normalized(normalized(s)) == normalized(s),
{
    lemma_words_wf(s);
    lemma_words_of_join(words(s));
}

/// Normalized text holds the same words as the text it came from.
pub proof fn lemma_normalize_keeps_words(s: Seq<char>)
    ensures
        words(normalized(s)) == words(s),
{
    lemma_words_wf(s);
    lemma_words_of_join(words(s));
}

proof fn lemma_join_last(ls: Seq<Seq<char>>, sep: Seq<char>)
    requires
        ls.len() >= 1,
    ensures
        join(ls, sep) == (if ls.len() > 1 {
            join(ls.drop_last(), sep) + sep
        } else {
            Seq::<char>::empty()
        }) + ls.last(),
{
    if ls.len() == 1 {
        assert(Seq::<char>::empty() + ls.last() =~= ls[0]);
    }
}

proof fn lemma_normalized_all_drop_last(ls: Seq<Seq<char>>)
    requires
        ls.len() >= 1,
    ensures
        normalized_all(ls).drop_last() == normalized_all(ls.drop_last()),
        normalized_all(ls).last() == normalized(ls.last()),
        normalized_all(ls).len() == ls.len(),
{
    assert(normalized_all(ls).drop_last() =~= normalized_all(ls.drop_last()));
}

/// Every text has at least one line, the empty text included.
pub proof fn lemma_split_lines_nonempty(s: Seq<char>)
    ensures
        split_lines(s).len() >= 1,
    decreases s.len(),
{
    if s.len() > 0 {
        lemma_split_lines_nonempty(s.drop_last());
    }
}


/// Trimming never lengthens a text.
pub proof fn lemma_trim_len(s: Seq<char>)
    ensures
        trim(s).len() <= s.len(),
{
    lemma_trim_end_len(s);
    lemma_trim_start_len(trim_end(s));
}

proof fn lemma_trim_end_len(s: Seq<char>)
    ensures
        trim_end(s).len() <= s.len(),
    decreases s.len(),
{
    if s.len() > 0 && is_ws(s.last()) {
        lemma_trim_end_len(s.drop_last());
    }
}

proof fn lemma_trim_start_len(s: Seq<char>)
    ensures
        trim_start(s).len() <= s.len(),
    decreases s.len(),
{
    if s.len() > 0 && is_ws(s[0]) {
        lemma_trim_start_len(s.drop_first());
    }
}


proof fn lemma_trim_end_last(s: Seq<char>)
    ensures
        trim_end(s).len() > 0 ==> !is_ws(trim_end(s).last()),
    decreases s.len(),
{
    if s.len() > 0 && is_ws(s.last()) {
        lemma_trim_end_last(s.drop_last());
    }
}

proof fn lemma_trim_start_suffix(s: Seq<char>)
    ensures
        trim_start(s).len() > 0 ==> trim_start(s).last() == s.last(),
    decreases s.len(),
{
    if s.len() > 0 && is_ws(s[0]) {
        lemma_trim_start_suffix(s.drop_first());
    }
}

proof fn lemma_trim_end_empty(s: Seq<char>)
    requires
        trim_end(s).len() == 0,
    ensures
        forall|j: int| 0 <= j < s.len() ==> is_ws(#[trigger] s[j]),
    decreases s.len(),
{
    if s.len() > 0 {
        lemma_trim_end_empty(s.drop_last());
        assert forall|j: int| 0 <= j < s.len() implies is_ws(#[trigger] s[j]) by {
            if j < s.len() - 1 {
                assert(s[j] == s.drop_last()[j]);
            }
        }
    }
}

proof fn lemma_trim_start_empty(s: Seq<char>)
    requires
        trim_start(s).len() == 0,
    ensures
        forall|j: int| 0 <= j < s.len() ==> is_ws(#[trigger] s[j]),
    decreases s.len(),
{
    if s.len() > 0 {
        lemma_trim_start_empty(s.drop_first());
        assert forall|j: int| 0 <= j < s.len() implies is_ws(#[trigger] s[j]) by {
            if j > 0 {
                assert(s[j] == s.drop_first()[j - 1]);
            }
        }
    }
}

proof fn lemma_all_ws_no_words(s: Seq<char>)
    requires
        forall|j: int| 0 <= j < s.len() ==> is_ws(#[trigger] s[j]),
    ensures
        words(s).len() == 0,
    decreases s.len(),
{
    if s.len() > 0 {
        assert forall|j: int| 0 <= j < s.drop_last().len() implies is_ws(#[trigger] s.drop_last()[j]) by {
            assert(s.drop_last()[j] == s[j]);
        }
        lemma_all_ws_no_words(s.drop_last());
        assert(is_ws(s[s.len() - 1]));
    }
}

/// A text that trims to nothing has no words, and collapses to nothing.
pub proof fn lemma_blank_has_no_words(s: Seq<char>)
    requires
        trim(s).len() == 0,
    ensures
        words(s).len() == 0,
        normalized(s).len() == 0,
{
    let t = trim_end(s);
    lemma_trim_start_empty(t);
    lemma_trim_end_last(s);
    if t.len() > 0 {
        assert(is_ws(t[t.len() - 1]));
    }
    lemma_trim_end_empty(s);
    lemma_all_ws_no_words(s);
    assert(words(s) =~= Seq::<Seq<char>>::empty());
}

proof fn lemma_trim_end_cut(s: Seq<char>) -> (e: int)
    ensures
        0 <= e <= s.len(),
        trim_end(s) == s.subrange(0, e),
        forall|k: int| e <= k < s.len() ==> is_ws(#[trigger] s[k]),
        e > 0 ==> !is_ws(s[e - 1]),
    decreases s.len(),
{
    if s.len() > 0 && is_ws(s.last()) {
        let e = lemma_trim_end_cut(s.drop_last());
        assert(s.drop_last().subrange(0, e) =~= s.subrange(0, e));
        assert forall|k: int| e <= k < s.len() implies is_ws(#[trigger] s[k]) by {
            if k < s.len() - 1 {
                assert(s[k] == s.drop_last()[k]);
            }
        }
        if e > 0 {
            assert(s[e - 1] == s.drop_last()[e - 1]);
        }
        e
    } else {
        assert(s.subrange(0, s.len() as int) =~= s);
        s.len() as int
    }
}

proof fn lemma_trim_start_cut(s: Seq<char>) -> (b: int)
    ensures
        0 <= b <= s.len(),
        trim_start(s) == s.subrange(b, s.len() as int),
        forall|k: int| 0 <= k < b ==> is_ws(#[trigger] s[k]),
        b < s.len() ==> !is_ws(s[b]),
    decreases s.len(),
{
    if s.len() > 0 && is_ws(s[0]) {
        let t = s.drop_first();
        let b = lemma_trim_start_cut(t);
        assert(t.subrange(b, t.len() as int) =~= s.subrange(b + 1, s.len() as int));
        assert forall|k: int| 0 <= k < b + 1 implies is_ws(#[trigger] s[k]) by {
            if k > 0 {
                assert(s[k] == t[k - 1]);
            }
        }
        if b + 1 < s.len() {
            assert(s[b + 1] == t[b]);
        }
        b + 1
    } else {
        assert(s.subrange(0, s.len() as int) =~= s);
        0
    }
}

/// Trimming takes off exactly the whitespace at either end of a text: what is
/// left is a stretch of the text that neither starts nor ends with
/// whitespace, and all that was taken off is whitespace.
pub proof fn lemma_trim_exact(s: Seq<char>)
    ensures
        exists|i: int, j: int|
            0 <= i <= j <= s.len() && trim(s) == s.subrange(i, j) && (forall|k: int|
                0 <= k < i ==> is_ws(#[trigger] s[k])) && (forall|k: int| j <= k < s.len() ==> is_ws(
                #[trigger] s[k],
            )),
        trim(s).len() > 0 ==> !is_ws(trim(s)[0]) && !is_ws(trim(s).last()),
{
    let e = lemma_trim_end_cut(s);
    let x = s.subrange(0, e);
    let b = lemma_trim_start_cut(x);
    assert(x.subrange(b, e) =~= s.subrange(b, e));
    assert forall|k: int| 0 <= k < b implies is_ws(#[trigger] s[k]) by {
        assert(s[k] == x[k]);
    }
    if b < e {
        assert(trim(s)[0] == x[b]);
    }
    lemma_trim_last(s);
    assert(0 <= b <= e <= s.len() && trim(s) == s.subrange(b, e) && (forall|k: int|
        0 <= k < b ==> is_ws(#[trigger] s[k])) && (forall|k: int| e <= k < s.len() ==> is_ws(
        #[trigger] s[k],
    )));
}

/// Trimming keeps every word: a text and its trimmed form have the same
/// words, and so collapse alike.
pub proof fn lemma_trim_words(s: Seq<char>)
    ensures
        words(trim(s)) == words(s),
        normalized(trim(s)) == normalized(s),
{
    let e = lemma_trim_end_cut(s);
    let x = s.subrange(0, e);
    let b = lemma_trim_start_cut(x);
    assert(x.subrange(b, e) =~= s.subrange(b, e));
    let pre = s.subrange(0, b);
    let mid = s.subrange(b, e);
    let post = s.subrange(e, s.len() as int);
    assert(pre + mid + post =~= s);
    assert(x =~= pre + mid);
    if b > 0 {
        let p2 = pre.drop_last();
        assert(p2 + seq![pre.last()] + mid =~= pre + mid);
        assert(is_ws(pre.last())) by {
            assert(pre.last() == x[b - 1]);
        }
        lemma_words_concat(p2, pre.last(), mid);
        assert forall|k: int| 0 <= k < p2.len() implies is_ws(#[trigger] p2[k]) by {
            assert(p2[k] == x[k]);
        }
        lemma_all_ws_no_words(p2);
        assert(words(p2) =~= Seq::<Seq<char>>::empty());
        assert(words(p2) + words(mid) =~= words(mid));
    } else {
        assert(pre + mid =~= mid);
    }
    if e < s.len() {
        let q2 = post.drop_first();
        assert(pre + mid + seq![post[0]] + q2 =~= s);
        assert(is_ws(post[0])) by {
            assert(post[0] == s[e]);
        }
        lemma_words_concat(pre + mid, post[0], q2);
        assert forall|k: int| 0 <= k < q2.len() implies is_ws(#[trigger] q2[k]) by {
            assert(q2[k] == s[e + 1 + k]);
        }
        lemma_all_ws_no_words(q2);
        assert(words(q2) =~= Seq::<Seq<char>>::empty());
        assert(words(pre + mid) + words(q2) =~= words(pre + mid));
    } else {
        assert(pre + mid =~= s);
    }
}

/// A trimmed text that is not empty ends with a character that is not whitespace.
pub proof fn lemma_trim_last(s: Seq<char>)
    ensures
        trim(s).len() > 0 ==> !is_ws(trim(s).last()),
{
    lemma_trim_end_last(s);
    lemma_trim_start_suffix(trim_end(s));
}

proof fn lemma_join_len_last(ws: Seq<Seq<char>>, sep: Seq<char>)
    requires
        ws.len() > 0,
    ensures
        join(ws, sep).len() >= ws.last().len(),
{
}

/// A text that ends with a character that is not whitespace normalizes to a
/// text that is not empty.
pub proof fn lemma_normalized_nonempty(s: Seq<char>)
    requires
        s.len() > 0,
        !is_ws(s.last()),
    ensures
        normalized(s).len() > 0,
{
    lemma_words_wf(s);
    let ws = words(s);
    assert(ws[ws.len() - 1].len() > 0);
    lemma_join_len_last(ws, seq![' ']);
}


/// The words of each of `ls`, in order.
pub open spec fn words_of_all(ls: Seq<Seq<char>>) -> Seq<Seq<char>>
    decreases ls.len(),
{
    if ls.len() == 0 {
        seq![]
    } else {
        words_of_all(ls.drop_last()) + words(ls.last())
    }
}

/// Whitespace between two texts separates their words.
pub proof fn lemma_words_concat(a: Seq<char>, c: char, b: Seq<char>)
    requires
        is_ws(c),
    ensures
        words(a + seq![c] + b) == words(a) + words(b),
    decreases b.len(),
{
    let x = a + seq![c] + b;
    if b.len() == 0 {
        assert(x.drop_last() =~= a);
        assert(x.last() == c);
        assert(words(a) + Seq::<Seq<char>>::empty() =~= words(a));
    } else {
        let b2 = b.drop_last();
        let d = b.last();
        lemma_words_concat(a, c, b2);
        assert(x.drop_last() =~= a + seq![c] + b2);
        assert(x.last() == d);
        if b2.len() > 0 {
            assert(x[x.len() - 2] == b2.last());
            assert(b[b.len() - 2] == b2.last());
        } else {
            assert(x[x.len() - 2] == c);
        }
        if is_ws(d) {
        } else if b2.len() > 0 && !is_ws(b2.last()) {
            lemma_words_wf(b2);
            let wb = words(b2);
            let w = words(a) + wb;
            assert(w.update(w.len() - 1, w.last().push(d)) =~= words(a) + wb.update(
                wb.len() - 1,
                wb.last().push(d),
            ));
        } else {
            assert((words(a) + words(b2)).push(seq![d]) =~= words(a) + words(b2).push(seq![d]));
        }
    }
}

/// A non-empty text without whitespace is one word.
pub proof fn lemma_word_single(w: Seq<char>)
    requires
        w.len() > 0,
        forall|j: int| 0 <= j < w.len() ==> !is_ws(#[trigger] w[j]),
    ensures
        words(w) == seq![w],
{
    lemma_words_append_word(seq![], w, w.len() as int);
    assert(Seq::<char>::empty() + w.take(w.len() as int) =~= w);
    assert(Seq::<Seq<char>>::empty().push(w) =~= seq![w]);
}

/// Each word of a text is one word on its own.
pub proof fn lemma_words_are_single(s: Seq<char>, i: int)
    requires
        0 <= i < words(s).len(),
    ensures
        words(words(s)[i]) == seq![words(s)[i]],
{
    lemma_words_wf(s);
    let w = words(s)[i];
    assert forall|j: int| 0 <= j < w.len() implies !is_ws(#[trigger] w[j]) by {
        assert(w[j] == words(s)[i][j]);
    }
    lemma_word_single(w);
}

pub proof fn lemma_words_of_all_concat(a: Seq<Seq<char>>, b: Seq<Seq<char>>)
    ensures
        words_of_all(a + b) == words_of_all(a) + words_of_all(b),
    decreases b.len(),
{
    if b.len() == 0 {
        assert(a + b =~= a);
        assert(words_of_all(a) + Seq::<Seq<char>>::empty() =~= words_of_all(a));
    } else {
        lemma_words_of_all_concat(a, b.drop_last());
        assert((a + b).drop_last() =~= a + b.drop_last());
        assert((a + b).last() == b.last());
        assert(words_of_all(a) + words_of_all(b.drop_last()) + words(b.last()) =~= words_of_all(a)
            + (words_of_all(b.drop_last()) + words(b.last())));
    }
}

/// Joining the lines of a text with newlines gives the text back.
pub proof fn lemma_join_split_lines(s: Seq<char>)
    ensures
        join(split_lines(s), seq!['\n']) == s,
    decreases s.len(),
{
    if s.len() > 0 {
        let p = s.drop_last();
        lemma_join_split_lines(p);
        lemma_split_lines_nonempty(p);
        let ps = split_lines(p);
        if s.last() == '\n' {
            lemma_join_push(ps, seq![], seq!['\n']);
            assert(p + seq!['\n'] + Seq::<char>::empty() =~= s);
        } else {
            lemma_join_extend_last(ps, s.last(), seq!['\n']);
            assert(p.push(s.last()) =~= s);
        }
    }
}

/// The words of a text are the words of its lines.
pub proof fn lemma_words_of_lines(s: Seq<char>)
    ensures
        words_of_all(split_lines(s)) == words(s),
{
    lemma_join_split_lines(s);
    lemma_words_of_join_lines(split_lines(s));
}

proof fn lemma_words_of_join_lines(ls: Seq<Seq<char>>)
    ensures
        words(join(ls, seq!['\n'])) == words_of_all(ls),
    decreases ls.len(),
{
    if ls.len() == 0 {
        assert(words(Seq::<char>::empty()) == Seq::<Seq<char>>::empty());
    } else if ls.len() == 1 {
        assert(ls.drop_last() =~= Seq::<Seq<char>>::empty());
        assert(words_of_all(ls.drop_last()) == Seq::<Seq<char>>::empty());
        assert(Seq::<Seq<char>>::empty() + words(ls[0]) =~= words(ls[0]));
    } else {
        lemma_words_of_join_lines(ls.drop_last());
        lemma_words_concat(join(ls.drop_last(), seq!['\n']), '\n', ls.last());
        assert(is_ws('\n'));
        assert(join(ls, seq!['\n']) == join(ls.drop_last(), seq!['\n']) + seq!['\n'] + ls.last());
    }
}


/// Texts joined by single spaces have, in order, the words of each text.
pub proof fn lemma_words_of_join_spaced(ls: Seq<Seq<char>>)
    ensures
        words(join(ls, seq![' '])) == words_of_all(ls),
    decreases ls.len(),
{
    if ls.len() == 0 {
        assert(words(Seq::<char>::empty()) == Seq::<Seq<char>>::empty());
    } else if ls.len() == 1 {
        assert(ls.drop_last() =~= Seq::<Seq<char>>::empty());
        assert(words_of_all(ls.drop_last()) == Seq::<Seq<char>>::empty());
        assert(Seq::<Seq<char>>::empty() + words(ls[0]) =~= words(ls[0]));
    } else {
        lemma_words_of_join_spaced(ls.drop_last());
        lemma_words_concat(join(ls.drop_last(), seq![' ']), ' ', ls.last());
        assert(join(ls, seq![' ']) == join(ls.drop_last(), seq![' ']) + seq![' '] + ls.last());
    }
}

/// A line with no newline, and no whitespace at either end.
pub open spec fn is_clean_line(x: Seq<char>) -> bool {
    &&& forall|j: int| 0 <= j < x.len() ==> #[trigger] x[j] != '\n'
    &&& x.len() == 0 || (!is_ws(x[0]) && !is_ws(x.last()))
}

proof fn lemma_join_first(ws: Seq<Seq<char>>, sep: Seq<char>)
    requires
        ws.len() > 0,
    ensures
        join(ws, sep).len() >= ws[0].len(),
        ws[0].len() > 0 ==> join(ws, sep)[0] == ws[0][0],
    decreases ws.len(),
{
    if ws.len() > 1 {
        lemma_join_first(ws.drop_last(), sep);
        assert(ws.drop_last()[0] == ws[0]);
    }
}

/// A text joined from whitespace-free words with single spaces holds no
/// whitespace but those spaces.
proof fn lemma_join_words_chars(ws: Seq<Seq<char>>)
    requires
        forall|i: int|
            0 <= i < ws.len() ==> #[trigger] ws[i].len() > 0 && forall|j: int|
                0 <= j < ws[i].len() ==> !is_ws(#[trigger] ws[i][j]),
    ensures
        forall|j: int|
            0 <= j < join(ws, seq![' ']).len() ==> #[trigger] join(ws, seq![' '])[j] == ' ' || !is_ws(
                join(ws, seq![' '])[j],
            ),
    decreases ws.len(),
{
    if ws.len() == 1 {
        assert forall|j: int| 0 <= j < join(ws, seq![' ']).len() implies #[trigger] join(
            ws,
            seq![' '],
        )[j] == ' ' || !is_ws(join(ws, seq![' '])[j]) by {
            assert(join(ws, seq![' '])[j] == ws[0][j]);
        }
    } else if ws.len() > 1 {
        let p = ws.drop_last();
        assert forall|i: int| 0 <= i < p.len() implies #[trigger] p[i].len() > 0 && forall|j: int|
            0 <= j < p[i].len() ==> !is_ws(#[trigger] p[i][j]) by {
            assert(p[i] == ws[i]);
        }
        lemma_join_words_chars(p);
        let a = join(p, seq![' ']);
        let w = ws.last();
        let x = join(ws, seq![' ']);
        assert(x == a + seq![' '] + w);
        assert forall|j: int| 0 <= j < x.len() implies #[trigger] x[j] == ' ' || !is_ws(x[j]) by {
            if j < a.len() {
                assert(x[j] == a[j]);
            } else if j == a.len() {
                assert(x[j] == ' ');
            } else {
                assert(x[j] == w[j - a.len() - 1]);
                assert(w[j - a.len() - 1] == ws[ws.len() - 1][j - a.len() - 1]);
            }
        }
    }
}

/// Collapsed text is a clean line.
pub proof fn lemma_normalized_clean(s: Seq<char>)
    ensures
        is_clean_line(normalized(s)),
{
    lemma_words_wf(s);
    let ws = words(s);
    lemma_join_words_chars(ws);
    let x = normalized(s);
    assert forall|j: int| 0 <= j < x.len() implies #[trigger] x[j] != '\n' by {
        assert(x[j] == ' ' || !is_ws(x[j]));
        assert(is_ws('\n'));
    }
    if ws.len() > 0 {
        lemma_join_first(ws, seq![' ']);
        assert(ws[0].len() > 0);
        assert(!is_ws(ws[0][0]));
        let w = ws.last();
        assert(w == ws[ws.len() - 1]);
        assert(w.len() > 0);
        assert(!is_ws(w[w.len() - 1]));
        if ws.len() > 1 {
            assert(x == join(ws.drop_last(), seq![' ']) + seq![' '] + w);
        }
        assert(x.last() == w.last());
    }
}

/// Trimming a clean line changes nothing.
pub proof fn lemma_trim_clean(x: Seq<char>)
    requires
        x.len() == 0 || (!is_ws(x[0]) && !is_ws(x.last())),
    ensures
        trim(x) == x,
{
}

proof fn lemma_split_lines_single(s: Seq<char>)
    requires
        !s.contains('\n'),
    ensures
        split_lines(s) == seq![s],
    decreases s.len(),
{
    if s.len() > 0 {
        let p = s.drop_last();
        assert(!p.contains('\n')) by {
            if p.contains('\n') {
                let k = choose|k: int| 0 <= k < p.len() && p[k] == '\n';
                assert(s[k] == '\n');
            }
        }
        lemma_split_lines_single(p);
        assert(s[s.len() - 1] != '\n');
        assert(p.push(s.last()) =~= s);
        assert(seq![p].update(0, p.push(s.last())) =~= seq![s]);
        assert(split_lines(p).last() == p);
    } else {
        assert(s =~= Seq::<char>::empty());
    }
}

/// On text without newlines, collapsing line by line is collapsing the whole.
pub proof fn lemma_multiline_without_newline(s: Seq<char>)
    requires
        !s.contains('\n'),
    ensures
        normalized_multiline(s) == normalized(s),
{
    lemma_split_lines_single(s);
    assert(normalized_all(seq![s]) =~= seq![normalized(s)]);
    lemma_normalized_clean(s);
    lemma_trim_clean(normalized(s));
}


// ---------------------------------------------------------------------------
// Collapsing line by line twice
// ---------------------------------------------------------------------------

/// `ls` without its trailing empty lines.
pub open spec fn strip_end(ls: Seq<Seq<char>>) -> Seq<Seq<char>>
    decreases ls.len(),
{
    if ls.len() > 0 && ls.last().len() == 0 {
        strip_end(ls.drop_last())
    } else {
        ls
    }
}

/// `ls` without its leading empty lines.
pub open spec fn strip_start(ls: Seq<Seq<char>>) -> Seq<Seq<char>>
    decreases ls.len(),
{
    if ls.len() > 0 && ls[0].len() == 0 {
        strip_start(ls.drop_first())
    } else {
        ls
    }
}

/// Every line of `ls` is clean and already collapsed.
pub open spec fn collapsed_lines(ls: Seq<Seq<char>>) -> bool {
    forall|i: int|
        0 <= i < ls.len() ==> is_clean_line(#[trigger] ls[i]) && normalized(ls[i]) == ls[i]
}

proof fn lemma_collapsed_drop(ls: Seq<Seq<char>>)
    requires
        collapsed_lines(ls),
        ls.len() > 0,
    ensures
        collapsed_lines(ls.drop_last()),
        collapsed_lines(ls.drop_first()),
{
    assert forall|i: int| 0 <= i < ls.drop_last().len() implies is_clean_line(
        #[trigger] ls.drop_last()[i],
    ) && normalized(ls.drop_last()[i]) == ls.drop_last()[i] by {
        assert(ls.drop_last()[i] == ls[i]);
    }
    assert forall|i: int| 0 <= i < ls.drop_first().len() implies is_clean_line(
        #[trigger] ls.drop_first()[i],
    ) && normalized(ls.drop_first()[i]) == ls.drop_first()[i] by {
        assert(ls.drop_first()[i] == ls[i + 1]);
    }
}

proof fn lemma_join_front(ls: Seq<Seq<char>>, sep: Seq<char>)
    requires
        ls.len() >= 2,
    ensures
        join(ls, sep) == ls[0] + sep + join(ls.drop_first(), sep),
    decreases ls.len(),
{
    if ls.len() == 2 {
        assert(ls.drop_last() =~= seq![ls[0]]);
        assert(ls.drop_first() =~= seq![ls[1]]);
        assert(join(ls.drop_last(), sep) == ls[0]);
        assert(join(ls.drop_first(), sep) == ls[1]);
        assert(ls.last() == ls[1]);
    } else {
        lemma_join_front(ls.drop_last(), sep);
        assert(ls.drop_last().drop_first() =~= ls.drop_first().drop_last());
        assert(ls.drop_first().last() == ls.last());
        assert(ls.drop_last()[0] == ls[0]);
        assert(join(ls.drop_first(), sep) == join(ls.drop_first().drop_last(), sep) + sep
            + ls.drop_first().last());
        assert(ls[0] + sep + join(ls.drop_first().drop_last(), sep) + sep + ls.last() =~= ls[0] + sep
            + (join(ls.drop_first().drop_last(), sep) + sep + ls.last()));
    }
}

proof fn lemma_join_last_char(ls: Seq<Seq<char>>, sep: Seq<char>)
    requires
        ls.len() > 0,
        ls.last().len() > 0,
    ensures
        join(ls, sep).len() > 0,
        join(ls, sep).last() == ls.last().last(),
{
    if ls.len() > 1 {
        let a = join(ls.drop_last(), sep) + sep;
        assert(join(ls, sep) == a + ls.last());
        assert((a + ls.last()).last() == ls.last().last());
    }
}

proof fn lemma_trim_end_join(ls: Seq<Seq<char>>)
    requires
        collapsed_lines(ls),
    ensures
        trim_end(join(ls, seq!['\n'])) == join(strip_end(ls), seq!['\n']),
        collapsed_lines(strip_end(ls)),
        strip_end(ls).len() == 0 || strip_end(ls).last().len() > 0,
        strip_end(ls).len() > 0 ==> strip_end(ls)[0] == ls[0],
    decreases ls.len(),
{
    let nl = seq!['\n'];
    if ls.len() > 0 {
        if ls.last().len() == 0 {
            lemma_collapsed_drop(ls);
            lemma_trim_end_join(ls.drop_last());
            if ls.len() == 1 {
                assert(join(ls, nl) == ls[0]);
                assert(ls[0] =~= Seq::<char>::empty());
            } else {
                let x = join(ls.drop_last(), nl);
                assert(join(ls, nl) == x + nl + ls.last());
                assert(x + nl + ls.last() =~= x.push('\n'));
                assert(x.push('\n').drop_last() == x);
                assert(is_ws('\n'));
                assert(ls.drop_last()[0] == ls[0]);
            }
        } else {
            lemma_join_last_char(ls, nl);
            assert(is_clean_line(ls[ls.len() - 1]));
        }
    }
}

proof fn lemma_trim_start_join(ls: Seq<Seq<char>>)
    requires
        collapsed_lines(ls),
    ensures
        trim_start(join(ls, seq!['\n'])) == join(strip_start(ls), seq!['\n']),
        collapsed_lines(strip_start(ls)),
        strip_start(ls).len() == 0 || strip_start(ls)[0].len() > 0,
        strip_start(ls).len() > 0 ==> strip_start(ls).last() == ls.last(),
    decreases ls.len(),
{
    let nl = seq!['\n'];
    if ls.len() > 0 {
        if ls[0].len() == 0 {
            lemma_collapsed_drop(ls);
            lemma_trim_start_join(ls.drop_first());
            if ls.len() == 1 {
                assert(join(ls, nl) == ls[0]);
                assert(ls[0] =~= Seq::<char>::empty());
            } else {
                lemma_join_front(ls, nl);
                let y = join(ls.drop_first(), nl);
                assert(ls[0] + nl + y =~= seq!['\n'] + y);
                assert((seq!['\n'] + y).drop_first() =~= y);
                assert((seq!['\n'] + y)[0] == '\n');
                assert(is_ws('\n'));
                assert(ls.drop_first().last() == ls.last());
            }
        } else {
            lemma_join_first(ls, nl);
            assert(is_clean_line(ls[0]));
        }
    }
}

proof fn lemma_split_after_newline(a: Seq<char>, b: Seq<char>)
    requires
        !b.contains('\n'),
    ensures
        split_lines(a + seq!['\n'] + b) == split_lines(a).push(b),
    decreases b.len(),
{
    let x = a + seq!['\n'] + b;
    if b.len() == 0 {
        assert(x.drop_last() =~= a);
        assert(x.last() == '\n');
        assert(b =~= Seq::<char>::empty());
    } else {
        let b2 = b.drop_last();
        assert(!b2.contains('\n')) by {
            if b2.contains('\n') {
                let k = choose|k: int| 0 <= k < b2.len() && b2[k] == '\n';
                assert(b[k] == '\n');
            }
        }
        lemma_split_after_newline(a, b2);
        assert(x.drop_last() =~= a + seq!['\n'] + b2);
        assert(x.last() == b.last());
        assert(b[b.len() - 1] != '\n');
        let p = split_lines(a).push(b2);
        assert(b2.push(b.last()) =~= b);
        assert(p.update(p.len() - 1, p.last().push(b.last())) =~= split_lines(a).push(b));
    }
}

proof fn lemma_split_join(ls: Seq<Seq<char>>)
    requires
        ls.len() > 0,
        collapsed_lines(ls),
    ensures
        split_lines(join(ls, seq!['\n'])) == ls,
    decreases ls.len(),
{
    let nl = seq!['\n'];
    let l = ls.last();
    assert(is_clean_line(ls[ls.len() - 1]));
    assert(!l.contains('\n')) by {
        if l.contains('\n') {
            let k = choose|k: int| 0 <= k < l.len() && l[k] == '\n';
            assert(ls[ls.len() - 1][k] != '\n');
        }
    }
    if ls.len() == 1 {
        lemma_split_lines_single(l);
        assert(seq![l] =~= ls);
    } else {
        lemma_collapsed_drop(ls);
        lemma_split_join(ls.drop_last());
        lemma_split_after_newline(join(ls.drop_last(), nl), l);
        assert(ls.drop_last().push(l) =~= ls);
    }
}

/// Collapsing whitespace line by line a second time changes nothing.
pub proof fn lemma_multiline_idempotent(s: Seq<char>)
    ensures
        normalized_multiline(normalized_multiline(s)) == normalized_multiline(s),
{
    let nl = seq!['\n'];
    let k = normalized_all(split_lines(s));
    assert forall|i: int| 0 <= i < k.len() implies is_clean_line(#[trigger] k[i]) && normalized(k[i])
        == k[i] by {
        lemma_normalized_clean(split_lines(s)[i]);
        lemma_normalize_idempotent(split_lines(s)[i]);
    }
    lemma_trim_end_join(k);
    let e = strip_end(k);
    lemma_trim_start_join(e);
    let kk = strip_start(e);
    let m = normalized_multiline(s);
    assert(m == join(kk, nl));
    if kk.len() == 0 {
        assert(m =~= Seq::<char>::empty());
        lemma_split_lines_single(m);
        assert(words(m) == Seq::<Seq<char>>::empty());
        assert(normalized_all(seq![m]) =~= seq![Seq::<char>::empty()]);
    } else {
        lemma_split_join(kk);
        assert(normalized_all(kk) =~= kk) by {
            assert forall|i: int| 0 <= i < kk.len() implies normalized_all(kk)[i] == kk[i] by {
                assert(is_clean_line(kk[i]) && normalized(kk[i]) == kk[i]);
            }
        }
        lemma_trim_end_join(kk);
        lemma_trim_start_join(strip_end(kk));
        assert(kk.last().len() > 0);
        assert(strip_end(kk) == kk);
        assert(strip_start(kk) == kk);
    }
}

// ---------------------------------------------------------------------------
// Executable helpers
// ---------------------------------------------------------------------------

/// Appends one character to `s` (`String::push`).
#[verifier::external_body]
pub(crate) fn push_char(s: &mut String, c: char)
    ensures
        final(s)@ == old(s)@.push(c),
{
    s.push(c);
}

/// Whether `c` is a whitespace character.
pub fn is_whitespace(c: char) -> (r: bool)
    ensures
        r == is_ws(c),
{
    ('\u{9}' <= c && c <= '\u{d}') || c == ' ' || c == '\u{85}' || c == '\u{a0}' || c
        == '\u{1680}' || ('\u{2000}' <= c && c <= '\u{200a}') || c == '\u{2028}' || c
        == '\u{2029}' || c == '\u{202f}' || c == '\u{205f}' || c == '\u{3000}'
}

/// Collapses every run of whitespace in `s` to one space and removes leading
/// and trailing whitespace: the words of `s` joined by single spaces.
pub fn normalize_ws(s: &str) -> (r: String)
    ensures
        r@ == normalized(s@),
{
    let mut out = String::new();
    let mut in_word = false;
    let mut has_word = false;
    for c in it: s.chars()
        invariant
            it.seq() == s@,
            out@ == join(words(s@.take(it.index() as int)), seq![' ']),
            in_word == (it.index() > 0 && !is_ws(s@[it.index() - 1])),
            has_word == (words(s@.take(it.index() as int)).len() > 0),
            in_word ==> has_word,
    {
        let ghost p = s@.take(it.index() as int);
        let ghost p2 = s@.take(it.index() + 1);
        proof {
            assert(p2.drop_last() == p);
            assert(p2.last() == c);
            if it.index() > 0 {
                assert(p2[p2.len() - 2] == s@[it.index() - 1]);
            }
        }
        if is_whitespace(c) {
            in_word = false;
        } else if in_word {
            proof {
                lemma_join_extend_last(words(p), c, seq![' ']);
            }
            push_char(&mut out, c);
        } else {
            proof {
                lemma_join_push(words(p), seq![c], seq![' ']);
            }
            if has_word {
                push_char(&mut out, ' ');
            }
            push_char(&mut out, c);
            in_word = true;
            has_word = true;
            proof {
                assert(out@ =~= join(words(p2), seq![' ']));
            }
        }
    }
    proof {
        assert(s@.take(s@.len() as int) == s@);
    }
    out
}

/// The characters of `s`, in order.
pub fn chars_of(s: &str) -> (v: Vec<char>)
    ensures
        v@ == s@,
{
    let mut v: Vec<char> = Vec::new();
    for c in it: s.chars()
        invariant
            it.seq() == s@,
            v@ == s@.take(it.index() as int),
    {
        v.push(c);
        proof {
            assert(s@.take(it.index() + 1) =~= v@);
        }
    }
    proof {
        assert(s@.take(s@.len() as int) == s@);
    }
    v
}

/// The string made of `v[from..to]`.
pub fn string_of_range(v: &Vec<char>, from: usize, to: usize) -> (r: String)
    requires
        from <= to <= v.len(),
    ensures
        r@ == v@.subrange(from as int, to as int),
{
    let mut out = String::new();
    let mut k: usize = from;
    while k < to
        invariant
            from <= k <= to <= v.len(),
            out@ == v@.subrange(from as int, k as int),
        decreases to - k,
    {
        push_char(&mut out, v[k]);
        k += 1;
        proof {
            assert(out@ =~= v@.subrange(from as int, k as int));
        }
    }
    out
}

/// `s` without leading and trailing whitespace (`str::trim`).
pub fn trim_str(s: &str) -> (r: String)
    ensures
        r@ == trim(s@),
{
    let v = chars_of(s);
    let mut j: usize = v.len();
    proof {
        assert(s@.take(j as int) =~= s@);
    }
    while j > 0 && is_whitespace(v[j - 1])
        invariant
            j <= v.len(),
            v@ == s@,
            trim_end(s@) == trim_end(s@.take(j as int)),
        decreases j,
    {
        proof {
            assert(s@.take(j as int).drop_last() == s@.take(j - 1));
            assert(s@.take(j as int).last() == s@[j - 1]);
        }
        j -= 1;
    }
    proof {
        assert(s@.take(j as int).len() == j);
        if j > 0 {
            assert(s@.take(j as int).last() == s@[j - 1]);
        }
    }
    let ghost u = s@.take(j as int);
    let mut i: usize = 0;
    proof {
        assert(u.subrange(0, j as int) =~= u);
    }
    while i < j && is_whitespace(v[i])
        invariant
            i <= j <= v.len(),
            v@ == s@,
            u == s@.take(j as int),
            trim_start(u) == trim_start(u.subrange(i as int, j as int)),
        decreases j - i,
    {
        proof {
            assert(u.subrange(i as int, j as int).drop_first() == u.subrange(i + 1, j as int));
            assert(u.subrange(i as int, j as int)[0] == s@[i as int]);
        }
        i += 1;
    }
    proof {
        if i < j {
            assert(u.subrange(i as int, j as int)[0] == s@[i as int]);
        }
        assert(u.subrange(i as int, j as int) =~= s@.subrange(i as int, j as int));
    }
    string_of_range(&v, i, j)
}

/// Collapses whitespace in every line of `s` (lines end at `'\n'`), joins the
/// lines with `'\n'`, and trims the result.
pub fn normalize_ws_multiline(s: &str) -> (r: String)
    ensures
        r@ == normalized_multiline(s@),
{
    let mut joined = String::new();
    let mut cur = String::new();
    let ghost nl = seq!['\n'];
    for c in it: s.chars()
        invariant
            it.seq() == s@,
            nl == seq!['\n'],
            split_lines(s@.take(it.index() as int)).len() >= 1,
            cur@ == split_lines(s@.take(it.index() as int)).last(),
            joined@ == (if split_lines(s@.take(it.index() as int)).len() > 1 {
                join(normalized_all(split_lines(s@.take(it.index() as int)).drop_last()), nl) + nl
            } else {
                Seq::<char>::empty()
            }),
    {
        let ghost p = s@.take(it.index() as int);
        let ghost p2 = s@.take(it.index() + 1);
        let ghost l = split_lines(p);
        proof {
            assert(p2.drop_last() == p);
            assert(p2.last() == c);
            lemma_split_lines_nonempty(p2);
        }
        if c == '\n' {
            let n = normalize_ws(cur.as_str());
            proof {
                lemma_join_last(normalized_all(l), nl);
                lemma_normalized_all_drop_last(l);
                assert(split_lines(p2).drop_last() == l);
            }
            joined.append(n.as_str());
            push_char(&mut joined, '\n');
            cur = String::new();
            proof {
                assert(joined@ =~= join(normalized_all(l), nl) + nl);
            }
        } else {
            push_char(&mut cur, c);
            proof {
                assert(split_lines(p2).drop_last() =~= l.drop_last());
            }
        }
    }
    let ghost l = split_lines(s@);
    proof {
        assert(s@.take(s@.len() as int) == s@);
        lemma_join_last(normalized_all(l), nl);
        lemma_normalized_all_drop_last(l);
    }
    let n = normalize_ws(cur.as_str());
    joined.append(n.as_str());
    proof {
        assert(joined@ =~= join(normalized_all(l), nl));
    }
    trim_str(joined.as_str())
}

/// Collapses whitespace like [`normalize_ws`]; used for the document's plain text.
pub fn collapse_ws(s: &str) -> (r: String)
    ensures
        r@ == normalized(s@),
{
    normalize_ws(s)
}

/// The decimal representation of `n`.
pub fn decimal_string(n: u32) -> (r: String)
    ensures
        r@ == decimal(n as nat),
    decreases n,
{
    if n < 10 {
        let mut out = String::new();
        let b: u8 = n as u8 + 48u8;
        push_char(&mut out, b as char);
        proof {
            assert(out@ =~= decimal(n as nat));
        }
        out
    } else {
        let mut out = decimal_string(n / 10);
        let b: u8 = (n % 10) as u8 + 48u8;
        push_char(&mut out, b as char);
        out
    }
}

/// The words of `s` (`str::split_whitespace`).
pub fn split_words(s: &str) -> (r: Vec<String>)
    ensures
        r@.map_values(|w: String| w@) == words(s@),
{
    let mut out: Vec<String> = Vec::new();
    let mut cur = String::new();
    let mut in_word = false;
    for c in it: s.chars()
        invariant
            it.seq() == s@,
            in_word == (it.index() > 0 && !is_ws(s@[it.index() - 1])),
            in_word ==> words(s@.take(it.index() as int)) == out@.map_values(|w: String| w@).push(
                cur@,
            ),
            !in_word ==> words(s@.take(it.index() as int)) == out@.map_values(|w: String| w@),
    {
        let ghost p = s@.take(it.index() as int);
        let ghost p2 = s@.take(it.index() + 1);
        let ghost ov = out@.map_values(|w: String| w@);
        proof {
            assert(p2.drop_last() == p);
            assert(p2.last() == c);
            if it.index() > 0 {
                assert(p2[p2.len() - 2] == s@[it.index() - 1]);
            }
        }
        if is_whitespace(c) {
            if in_word {
                let mut w = String::new();
                std::mem::swap(&mut w, &mut cur);
                out.push(w);
                proof {
                    assert(out@.map_values(|w: String| w@) =~= ov.push(w@));
                }
            }
            in_word = false;
        } else if in_word {
            let ghost oc = cur@;
            push_char(&mut cur, c);
            proof {
                assert(ov.push(oc).update(ov.len() as int, oc.push(c)) =~= ov.push(cur@));
            }
        } else {
            cur = String::new();
            push_char(&mut cur, c);
            in_word = true;
            proof {
                assert(cur@ =~= seq![c]);
            }
        }
    }
    if in_word {
        let ghost ov = out@.map_values(|w: String| w@);
        out.push(cur);
        proof {
            assert(out@.map_values(|w: String| w@) =~= ov.push(cur@));
        }
    }
    proof {
        assert(s@.take(s@.len() as int) == s@);
    }
    out
}

/// The pieces of `s` between newline characters (`str::split('\n')`).
pub fn split_lines_of(s: &str) -> (r: Vec<String>)
    ensures
        r@.map_values(|l: String| l@) == split_lines(s@),
{
    let mut out: Vec<String> = Vec::new();
    let mut cur = String::new();
    for c in it: s.chars()
        invariant
            it.seq() == s@,
            split_lines(s@.take(it.index() as int)) == out@.map_values(|l: String| l@).push(cur@),
    {
        let ghost p = s@.take(it.index() as int);
        let ghost p2 = s@.take(it.index() + 1);
        let ghost ov = out@.map_values(|l: String| l@);
        proof {
            assert(p2.drop_last() == p);
            assert(p2.last() == c);
        }
        if c == '\n' {
            let mut line = String::new();
            std::mem::swap(&mut line, &mut cur);
            out.push(line);
            proof {
                assert(out@.map_values(|l: String| l@) =~= ov.push(line@));
                assert(cur@ =~= Seq::<char>::empty());
            }
        } else {
            let ghost oc = cur@;
            push_char(&mut cur, c);
            proof {
                assert(ov.push(oc).update(ov.len() as int, oc.push(c)) =~= ov.push(cur@));
            }
        }
    }
    proof {
        assert(s@.take(s@.len() as int) == s@);
    }
    let ghost ov = out@.map_values(|l: String| l@);
    out.push(cur);
    proof {
        assert(out@.map_values(|l: String| l@) =~= ov.push(cur@));
    }
    out
}

} // verus!
