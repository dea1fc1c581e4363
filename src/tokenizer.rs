//! Splitting a line of text into candidate words with their byte columns.
use vstd::prelude::*;
use vstd::utf8::{encode_scalar, encode_utf8};

verus! {

/// Whether a character has the Unicode `Alphabetic` property.
pub uninterp spec fn alphabetic(c: char) -> bool;

/// Whether a character belongs to one of Unicode's numeric categories.
pub uninterp spec fn numeric(c: char) -> bool;

/// Relies on `char::is_alphabetic`, which answers from the Unicode tables.
#[verifier::external_body]
fn is_alphabetic(c: char) -> (r: bool)
    ensures
        r == alphabetic(c),
{
    c.is_alphabetic()
}

/// Relies on `char::is_numeric`, which answers from the Unicode tables.
#[verifier::external_body]
fn is_numeric(c: char) -> (r: bool)
    ensures
        r == numeric(c),
{
    c.is_numeric()
}

/// Relies on `String::push`: the character is appended at the end.
#[verifier::external_body]
pub(crate) fn push_char(s: &mut String, c: char)
    ensures
        final(s)@ == old(s)@.push(c),
{
    s.push(c)
}

/// The class of each character of a line: whether it is a letter, and whether it is
/// numeric.
pub open spec fn classes_of(s: Seq<char>) -> Seq<(bool, bool)> {
    s.map_values(|c: char| (alphabetic(c), numeric(c)))
}

/// Whether position `i` may stand inside a token: a letter, a numeric character, or an
/// apostrophe.
pub open spec fn is_word_at(s: Seq<char>, cls: Seq<(bool, bool)>, i: int) -> bool {
    cls[i].0 || cls[i].1 || s[i] == '\''
}

/// The number of bytes that the first `i` characters of `s` take in UTF-8.
pub open spec fn byte_offset(s: Seq<char>, i: int) -> int {
    encode_utf8(s.take(i)).len() as int
}

/// Length of the run of token characters that starts at position `i`.
pub open spec fn run_len(s: Seq<char>, cls: Seq<(bool, bool)>, i: int) -> nat
    decreases s.len() - i,
{
    if 0 <= i < s.len() && is_word_at(s, cls, i) {
        1 + run_len(s, cls, i + 1)
    } else {
        0
    }
}

/// Number of apostrophes at the start of `s[i..j]`.
pub open spec fn lead_apos(s: Seq<char>, i: int, j: int) -> nat
    decreases j - i,
{
    if i < j && s[i] == '\'' {
        1 + lead_apos(s, i + 1, j)
    } else {
        0
    }
}

/// Number of apostrophes at the end of `s[i..j]`.
pub open spec fn trail_apos(s: Seq<char>, i: int, j: int) -> nat
    decreases j - i,
{
    if i < j && s[j - 1] == '\'' {
        1 + trail_apos(s, i, j - 1)
    } else {
        0
    }
}

/// The trimmed text `s[a..e]` is kept when it has more than one character and no
/// numeric one; its run held no numeric character either, since apostrophes are not.
pub open spec fn keeps(s: Seq<char>, cls: Seq<(bool, bool)>, a: int, e: int) -> bool {
    &&& 0 <= a <= e <= s.len()
    &&& e - a > 1
    &&& forall|k: int| a <= k < e ==> !(#[trigger] cls[k]).1
}

/// What the run `s[i..j]` contributes: its text with apostrophes trimmed from both
/// ends, at the 1-based byte column of the trimmed text, if that text is kept.
pub open spec fn candidate(s: Seq<char>, cls: Seq<(bool, bool)>, i: int, j: int) -> Seq<
    (int, Seq<char>),
> {
    let a = i + lead_apos(s, i, j);
    let e = j - trail_apos(s, a, j);
    if keeps(s, cls, a, e) {
        seq![(byte_offset(s, a) + 1, s.subrange(a, e))]
    } else {
        seq![]
    }
}

/// The words of `s` from position `i` on, in order, given the class of each character.
pub open spec fn words_from(s: Seq<char>, cls: Seq<(bool, bool)>, i: int) -> Seq<
    (int, Seq<char>),
>
    decreases s.len() - i,
    via words_from_decreases
{
    if i < 0 || i >= s.len() {
        seq![]
    } else if !is_word_at(s, cls, i) {
        words_from(s, cls, i + 1)
    } else {
        let j = i + 1 + run_len(s, cls, i + 1);
        candidate(s, cls, i, j) + words_from(s, cls, j)
    }
}

/// The words of a line, each with its 1-based byte column. A token is a maximal run
/// of letters, numeric characters and apostrophes; a token with a numeric character
/// (`utf8`) gives no word.
pub open spec fn words_of(s: Seq<char>) -> Seq<(int, Seq<char>)> {
    words_from(s, classes_of(s), 0)
}

/// A word as the tokenizer gives it: two characters or more, none of them numeric.
pub open spec fn plain_word(w: Seq<char>) -> bool {
    w.len() > 1 && forall|k: int| 0 <= k < w.len() ==> !numeric(#[trigger] w[k])
}

/// The abstract value of a list of (column, word) pairs.
pub open spec fn tokens_view(v: Seq<(usize, String)>) -> Seq<(int, Seq<char>)> {
    v.map_values(|t: (usize, String)| (t.0 as int, t.1@))
}

proof fn lemma_run_len_bound(s: Seq<char>, cls: Seq<(bool, bool)>, i: int)
    requires
        0 <= i,
    ensures
        i + run_len(s, cls, i) <= s.len() || run_len(s, cls, i) == 0,
    decreases s.len() - i,
{
    if 0 <= i < s.len() && is_word_at(s, cls, i) {
        lemma_run_len_bound(s, cls, i + 1);
    }
}

#[via_fn]
proof fn words_from_decreases(s: Seq<char>, cls: Seq<(bool, bool)>, i: int) {
    if 0 <= i < s.len() && is_word_at(s, cls, i) {
        lemma_run_len_bound(s, cls, i + 1);
    }
}

/// Every word of a line is a plain word.
proof fn lemma_words_plain(s: Seq<char>, i: int)
    requires
        0 <= i,
    ensures
        forall|k: int|
            0 <= k < words_from(s, classes_of(s), i).len() ==> plain_word(
                (#[trigger] words_from(s, classes_of(s), i)[k]).1,
            ),
    decreases s.len() - i,
{
    let cls = classes_of(s);
    if 0 <= i < s.len() {
        if !is_word_at(s, cls, i) {
            lemma_words_plain(s, i + 1);
            assert(words_from(s, cls, i) == words_from(s, cls, i + 1));
        } else {
            let j = i + 1 + run_len(s, cls, i + 1);
            lemma_run_len_bound(s, cls, i + 1);
            lemma_words_plain(s, j);
            let c = candidate(s, cls, i, j);
            let rest = words_from(s, cls, j);
            let all = words_from(s, cls, i);
            assert(all == c + rest);
            let a = i + lead_apos(s, i, j);
            let e = j - trail_apos(s, a, j);
            if keeps(s, cls, a, e) {
                let w = s.subrange(a, e);
                assert forall|m: int| 0 <= m < w.len() implies !numeric(#[trigger] w[m]) by {
                    assert(w[m] == s[a + m]);
                    assert(cls[a + m] == (alphabetic(s[a + m]), numeric(s[a + m])));
                    assert(!cls[a + m].1);
                }
                assert(c[0].1 == w);
                assert(plain_word(c[0].1));
            }
            assert forall|k: int| 0 <= k < all.len() implies plain_word((#[trigger] all[k]).1) by {
                if k >= c.len() {
                    assert(all[k] == rest[k - c.len()]);
                } else {
                    assert(all[k] == c[k]);
                }
            }
        }
    } else {
        assert(words_from(s, cls, i) =~= Seq::<(int, Seq<char>)>::empty());
    }
}

pub proof fn lemma_encode_concat(a: Seq<char>, b: Seq<char>)
    ensures
        encode_utf8(a + b) == encode_utf8(a) + encode_utf8(b),
    decreases a.len(),
{
    if a.len() == 0 {
        assert(a + b =~= b);
        assert(encode_utf8(a) =~= Seq::<u8>::empty());
        assert(encode_utf8(a) + encode_utf8(b) =~= encode_utf8(b));
    } else {
        assert((a + b).drop_first() =~= a.drop_first() + b);
        lemma_encode_concat(a.drop_first(), b);
        assert(encode_utf8(a + b) =~= encode_scalar(a[0] as u32) + (encode_utf8(a.drop_first())
            + encode_utf8(b)));
    }
}

/// The byte offset grows by the width of each character, and stays within the whole.
proof fn lemma_offset_step(s: Seq<char>, i: int)
    requires
        0 <= i < s.len(),
    ensures
        byte_offset(s, i + 1) == byte_offset(s, i) + encode_scalar(s[i] as u32).len(),
        byte_offset(s, i + 1) <= encode_utf8(s).len(),
{
    assert(s.take(i + 1) =~= s.take(i) + seq![s[i]]);
    lemma_encode_concat(s.take(i), seq![s[i]]);
    assert(seq![s[i]].drop_first() =~= Seq::<char>::empty());
    assert(encode_utf8(Seq::<char>::empty()) =~= Seq::<u8>::empty());
    assert(encode_utf8(seq![s[i]]) == encode_scalar(s[i] as u32) + encode_utf8(
        seq![s[i]].drop_first(),
    ));
    assert(encode_utf8(seq![s[i]]) =~= encode_scalar(s[i] as u32));
    assert(s =~= s.take(i + 1) + s.skip(i + 1));
    lemma_encode_concat(s.take(i + 1), s.skip(i + 1));
}

proof fn lemma_run_len(s: Seq<char>, cls: Seq<(bool, bool)>, i: int, j: int)
    requires
        0 <= i <= j <= s.len(),
        forall|k: int| i <= k < j ==> #[trigger] is_word_at(s, cls, k),
        j == s.len() || !is_word_at(s, cls, j),
    ensures
        run_len(s, cls, i) == j - i,
    decreases j - i,
{
    if i < j {
        lemma_run_len(s, cls, i + 1, j);
    }
}

proof fn lemma_lead_apos(s: Seq<char>, i: int, a: int, j: int)
    requires
        i <= a <= j,
        forall|k: int| i <= k < a ==> #[trigger] s[k] == '\'',
        a == j || s[a] != '\'',
    ensures
        lead_apos(s, i, j) == a - i,
    decreases a - i,
{
    if i < a {
        lemma_lead_apos(s, i + 1, a, j);
    }
}

proof fn lemma_trail_apos(s: Seq<char>, a: int, e: int, j: int)
    requires
        a <= e <= j,
        forall|k: int| e <= k < j ==> #[trigger] s[k] == '\'',
        e == a || s[e - 1] != '\'',
    ensures
        trail_apos(s, a, j) == j - e,
    decreases j - e,
{
    if e < j {
        lemma_trail_apos(s, a, e, j - 1);
    }
}

/// The UTF-8 width of one character.
fn char_width(c: char) -> (r: usize)
    ensures
        r == encode_scalar(c as u32).len(),
        1 <= r <= 4,
        c == '\'' ==> r == 1,
{
    proof {
        vstd::utf8::char_is_scalar(c);
    }
    let u = c as u32;
    if u < 0x80 {
        1
    } else if u < 0x800 {
        2
    } else if u < 0x10000 {
        3
    } else {
        4
    }
}

fn word_at(chars: &Vec<char>, classes: &Vec<(bool, bool)>, i: usize) -> (r: bool)
    requires
        i < chars.len(),
        classes.len() == chars.len(),
    ensures
        r == is_word_at(chars@, classes@, i as int),
{
    classes[i].0 || classes[i].1 || chars[i] == '\''
}

/// The characters of `s`, in order.
pub fn chars_of(s: &str) -> (r: Vec<char>)
    ensures
        r@ == s@,
{
    let mut v: Vec<char> = Vec::new();
    for c in it: s.chars()
        invariant
            v@ == it.seq().take(it.index() as int),
    {
        v.push(c);
    }
    assert(v@ =~= s@);
    v
}

/// The index of the first line feed at or after `i`, or the length of `s` if none.
pub open spec fn line_end(s: Seq<char>, i: int) -> int
    decreases s.len() - i,
{
    if i < 0 || i >= s.len() {
        s.len() as int
    } else if s[i] == '\n' {
        i
    } else {
        line_end(s, i + 1)
    }
}

/// The lines of `s` from position `i` on. A line ends at a line feed, which is not
/// part of it, and loses a carriage return just before that line feed; after a final
/// line feed there is no further, empty line.
pub open spec fn lines_from(s: Seq<char>, i: int) -> Seq<Seq<char>>
    decreases s.len() - i,
    via lines_from_decreases
{
    if i < 0 || i >= s.len() {
        seq![]
    } else {
        let e = line_end(s, i);
        let piece = s.subrange(i, e);
        let line = if e < s.len() && piece.len() > 0 && piece.last() == '\r' {
            piece.drop_last()
        } else {
            piece
        };
        if e < s.len() {
            seq![line] + lines_from(s, e + 1)
        } else {
            seq![line]
        }
    }
}

/// The lines of a text.
pub open spec fn lines_of(s: Seq<char>) -> Seq<Seq<char>> {
    lines_from(s, 0)
}

proof fn lemma_line_end_bound(s: Seq<char>, i: int)
    requires
        0 <= i <= s.len(),
    ensures
        i <= line_end(s, i) <= s.len(),
    decreases s.len() - i,
{
    if i < s.len() && s[i] != '\n' {
        lemma_line_end_bound(s, i + 1);
    }
}

#[via_fn]
proof fn lines_from_decreases(s: Seq<char>, i: int) {
    if 0 <= i < s.len() {
        lemma_line_end_bound(s, i);
    }
}

proof fn lemma_line_end(s: Seq<char>, i: int, j: int)
    requires
        0 <= i <= j <= s.len(),
        forall|k: int| i <= k < j ==> #[trigger] s[k] != '\n',
        j == s.len() || s[j] == '\n',
    ensures
        line_end(s, i) == j,
    decreases j - i,
{
    if i < j {
        lemma_line_end(s, i + 1, j);
    }
}

/// Splits a text into its lines, as `lines_of` describes.
pub fn split_lines(text: &str) -> (r: Vec<String>)
    ensures
        r@.map_values(|l: String| l@) == lines_of(text@),
{
    let ghost s = text@;
    let cs = chars_of(text);
    let n = cs.len();
    let mut out: Vec<String> = Vec::new();
    let mut i: usize = 0;
    assert(out@.map_values(|l: String| l@) =~= Seq::<Seq<char>>::empty());
    while i < n
        invariant
            cs@ == s,
            n == s.len(),
            i <= n,
            out@.map_values(|l: String| l@) + lines_from(s, i as int) == lines_of(s),
        decreases n - i,
    {
        let mut e: usize = i;
        while e < n && cs[e] != '\n'
            invariant
                cs@ == s,
                n == s.len(),
                i <= e <= n,
                forall|k: int| i <= k < e ==> #[trigger] s[k] != '\n',
            decreases n - e,
        {
            e = e + 1;
        }
        proof {
            lemma_line_end(s, i as int, e as int);
        }
        let mut stop: usize = e;
        if e < n && e > i && cs[e - 1] == '\r' {
            stop = e - 1;
        }
        let mut line = String::new();
        let mut k: usize = i;
        while k < stop
            invariant
                cs@ == s,
                n == s.len(),
                i <= k <= stop <= e <= n,
                line@ == s.subrange(i as int, k as int),
            decreases stop - k,
        {
            push_char(&mut line, cs[k]);
            k = k + 1;
            assert(line@ =~= s.subrange(i as int, k as int));
        }
        let ghost before = out@.map_values(|l: String| l@);
        let ghost piece = s.subrange(i as int, e as int);
        proof {
            if stop < e {
                assert(line@ =~= piece.drop_last());
            } else {
                assert(line@ =~= piece);
            }
        }
        out.push(line);
        let ghost start = i as int;
        assert(out@.map_values(|l: String| l@) =~= before.push(lines_from(s, start)[0]));
        if e < n {
            i = e + 1;
            assert(lines_from(s, start) =~= seq![lines_from(s, start)[0]] + lines_from(
                s,
                i as int,
            ));
        } else {
            i = n;
            assert(lines_from(s, start) =~= seq![lines_from(s, start)[0]]);
        }
        assert(out@.map_values(|l: String| l@) + lines_from(s, i as int) =~= before + lines_from(
            s,
            start,
        ));
    }
    assert(out@.map_values(|l: String| l@) =~= lines_of(s));
    out
}

/// Splits a line into words, given whether each character is a letter and whether it
/// is numeric. A token is a maximal run of letters, numeric characters and
/// apostrophes; its word is the token with the apostrophes at both ends removed, at the
/// 1-based byte column where that word starts. A word of fewer than two characters, or
/// with a numeric character, is left out.
pub fn split_words(content: &str, classes: &Vec<(bool, bool)>) -> (r: Vec<(usize, String)>)
    requires
        classes@.len() == content@.len(),
    ensures
        tokens_view(r@) == words_from(content@, classes@, 0),
        forall|k: int| 0 <= k < r@.len() ==> (#[trigger] r@[k]).1@.len() > 1,
{
    let ghost s = content@;
    let ghost cls = classes@;
    let chars = chars_of(content);
    let total = content.as_bytes().len();
    let n = chars.len();
    let mut out: Vec<(usize, String)> = Vec::new();
    let mut i: usize = 0;
    let mut off: usize = 0;
    assert(s.take(0) =~= Seq::<char>::empty());
    assert(tokens_view(out@) =~= Seq::<(int, Seq<char>)>::empty());
    while i < n
        invariant
            chars@ == s,
            n == s.len(),
            total == encode_utf8(s).len(),
            i <= n,
            off == byte_offset(s, i as int),
            cls == classes@,
            cls.len() == n,
            tokens_view(out@) + words_from(s, cls, i as int) == words_from(s, cls, 0),
            forall|k: int| 0 <= k < out@.len() ==> (#[trigger] out@[k]).1@.len() > 1,
        decreases n - i,
    {
        let c = chars[i];
        proof {
            lemma_offset_step(s, i as int);
        }
        if !word_at(&chars, classes, i) {
            off = off + char_width(c);
            i = i + 1;
        } else {
            // The run of word characters: s[i..j].
            let mut j: usize = i + 1;
            let mut off_j: usize = off + char_width(c);
            while j < n && word_at(&chars, classes, j)
                invariant
                    chars@ == s,
                    n == s.len(),
                    cls == classes@,
                    cls.len() == n,
                    total == encode_utf8(s).len(),
                    i < j <= n,
                    off_j == byte_offset(s, j as int),
                    forall|k: int| i <= k < j ==> #[trigger] is_word_at(s, cls, k),
                decreases n - j,
            {
                proof {
                    lemma_offset_step(s, j as int);
                }
                off_j = off_j + char_width(chars[j]);
                j = j + 1;
            }
            proof {
                lemma_run_len(s, cls, i + 1, j as int);
            }
            // Apostrophes at the start: s[i..a].
            let mut a: usize = i;
            let mut off_a: usize = off;
            while a < j && chars[a] == '\''
                invariant
                    chars@ == s,
                    n == s.len(),
                    total == encode_utf8(s).len(),
                    i <= a <= j <= n,
                    off_a == byte_offset(s, a as int),
                    forall|k: int| i <= k < a ==> #[trigger] s[k] == '\'',
                decreases j - a,
            {
                proof {
                    lemma_offset_step(s, a as int);
                }
                off_a = off_a + char_width(chars[a]);
                a = a + 1;
            }
            proof {
                lemma_lead_apos(s, i as int, a as int, j as int);
            }
            // Apostrophes at the end: s[e..j].
            let mut e: usize = j;
            while e > a && chars[e - 1] == '\''
                invariant
                    chars@ == s,
                    n == s.len(),
                    a <= e <= j <= n,
                    forall|k: int| e <= k < j ==> #[trigger] s[k] == '\'',
                decreases e - a,
            {
                e = e - 1;
            }
            proof {
                lemma_trail_apos(s, a as int, e as int, j as int);
            }
            // The trimmed word s[a..e], and whether it holds a numeric character.
            let mut word = String::new();
            let mut k: usize = a;
            let mut has_numeric = false;
            while k < e
                invariant
                    chars@ == s,
                    n == s.len(),
                    cls == classes@,
                    cls.len() == n,
                    a <= k <= e <= n,
                    word@ == s.subrange(a as int, k as int),
                    has_numeric == exists|m: int| a <= m < k && (#[trigger] cls[m]).1,
                decreases e - k,
            {
                push_char(&mut word, chars[k]);
                has_numeric = has_numeric || classes[k].1;
                k = k + 1;
                assert(word@ =~= s.subrange(a as int, k as int));
            }
            let ghost before = tokens_view(out@);
            if e - a > 1 && !has_numeric {
                proof {
                    lemma_offset_step(s, a as int);
                }
                out.push((off_a + 1, word));
                assert(tokens_view(out@) =~= before + candidate(s, cls, i as int, j as int));
            } else {
                assert(candidate(s, cls, i as int, j as int) =~= Seq::<(int, Seq<char>)>::empty());
                assert(before + candidate(s, cls, i as int, j as int) =~= before);
            }
            assert(words_from(s, cls, i as int) == candidate(s, cls, i as int, j as int) + words_from(s, cls, j as int));
            assert(tokens_view(out@) + words_from(s, cls, j as int) =~= before + words_from(s, cls, i as int));
            i = j;
            off = off_j;
        }
    }
    out
}

/// Splits a line into words, as `split_words` does with the Unicode classes of its
/// characters.
pub fn extract_words(content: &str) -> (r: Vec<(usize, String)>)
    ensures
        tokens_view(r@) == words_of(content@),
        forall|k: int| 0 <= k < r@.len() ==> plain_word(#[trigger] r@[k].1@),
{
    let ghost s = content@;
    let chars = chars_of(content);
    let mut classes: Vec<(bool, bool)> = Vec::new();
    let mut i: usize = 0;
    while i < chars.len()
        invariant
            chars@ == s,
            i <= chars.len(),
            classes@ == classes_of(s).take(i as int),
        decreases chars.len() - i,
    {
        classes.push((is_alphabetic(chars[i]), is_numeric(chars[i])));
        i = i + 1;
        assert(classes@ =~= classes_of(s).take(i as int));
    }
    assert(classes@ =~= classes_of(s));
    let r = split_words(content, &classes);
    proof {
        lemma_words_plain(s, 0);
        assert forall|k: int| 0 <= k < r@.len() implies plain_word(#[trigger] r@[k].1@) by {
            assert(tokens_view(r@)[k] == (r@[k].0 as int, r@[k].1@));
        }
    }
    r
}

} // verus!
