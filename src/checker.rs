//! Checking the lines of one file against a dictionary, honouring the inline
//! markers that switch checking off and on.
use vstd::prelude::*;
use crate::dictionary::{lower_of, Dictionary};
use crate::tokenizer::{chars_of, extract_words, tokens_view, words_of};

verus! {

/// A line holding this text, and the lines after it up to the next line with the
/// enable marker, are not checked.
pub const DISABLE_MARKER: &'static str = "spellcheck-disable";

/// A line holding this text turns checking back on.
pub const ENABLE_MARKER: &'static str = "spellcheck-enable";

/// A line holding this text is not checked; the lines round it are unaffected.
pub const DISABLE_LINE_MARKER: &'static str = "spellcheck-disable-line";

/// One unknown word: where it stands, and the line it stands in.
#[derive(Debug, Clone)]
pub struct SpellError {
    pub file: String,
    pub line: usize,
    pub col: usize,
    pub word: String,
    pub context: String,
}

/// The abstract value of a finding: file, line, column, word, context.
pub type FindingView = (Seq<char>, int, int, Seq<char>, Seq<char>);

impl SpellError {
    pub open spec fn view(&self) -> FindingView {
        (self.file@, self.line as int, self.col as int, self.word@, self.context@)
    }
}

pub open spec fn findings_view(v: Seq<SpellError>) -> Seq<FindingView> {
    v.map_values(|f: SpellError| f.view())
}

/// Whether `needle` occurs in `hay` as a contiguous piece.
pub open spec fn has_substring(hay: Seq<char>, needle: Seq<char>) -> bool {
    exists|i: int|
        0 <= i && i + needle.len() <= hay.len() && #[trigger] hay.subrange(i, i + needle.len())
            == needle
}

/// A character's code, with ASCII capitals mapped to small letters.
pub open spec fn fold_ascii(c: char) -> u32 {
    let u = c as u32;
    if 65 <= u <= 90 {
        (u + 32) as u32
    } else {
        u
    }
}

/// Equality of two strings up to the case of ASCII letters.
pub open spec fn eq_ignore_ascii_case(a: Seq<char>, b: Seq<char>) -> bool {
    a.len() == b.len() && forall|k: int| 0 <= k < a.len() ==> fold_ascii(#[trigger] a[k]) == fold_ascii(b[k])
}

/// Whether `w` is one of the ignored words, up to ASCII case.
pub open spec fn is_ignored(w: Seq<char>, ignore: Seq<Seq<char>>) -> bool {
    exists|k: int| 0 <= k < ignore.len() && eq_ignore_ascii_case(#[trigger] ignore[k], w)
}

/// The checking flag after a line, given the flag before it.
pub open spec fn disabled_after(disabled: bool, line: Seq<char>) -> bool {
    if has_substring(line, DISABLE_LINE_MARKER@) {
        disabled
    } else if has_substring(line, DISABLE_MARKER@) {
        true
    } else if has_substring(line, ENABLE_MARKER@) {
        false
    } else {
        disabled
    }
}

/// Whether a line is tokenized and checked, given the flag before it.
pub open spec fn line_checked(disabled: bool, line: Seq<char>) -> bool {
    !disabled && !has_substring(line, DISABLE_LINE_MARKER@) && !has_substring(
        line,
        DISABLE_MARKER@,
    ) && !has_substring(line, ENABLE_MARKER@)
}

/// The flag before line `i` (0-based); every file starts with checking on.
pub open spec fn disabled_before(lines: Seq<Seq<char>>, i: int) -> bool
    decreases i,
{
    if i <= 0 {
        false
    } else {
        disabled_after(disabled_before(lines, i - 1), lines[i - 1])
    }
}

/// Whether a word of a checked line is reported.
pub open spec fn reported(w: Seq<char>, dict: Set<Seq<char>>, ignore: Seq<Seq<char>>) -> bool {
    !is_ignored(w, ignore) && !dict.contains(lower_of(w))
}

/// The findings for the words `ws` of line number `n` (1-based).
pub open spec fn word_findings(
    file: Seq<char>,
    n: int,
    line: Seq<char>,
    ws: Seq<(int, Seq<char>)>,
    dict: Set<Seq<char>>,
    ignore: Seq<Seq<char>>,
) -> Seq<FindingView>
    decreases ws.len(),
{
    if ws.len() == 0 {
        seq![]
    } else {
        let rest = word_findings(file, n, line, ws.drop_last(), dict, ignore);
        let (col, w) = ws.last();
        if reported(w, dict, ignore) {
            rest.push((file, n, col, w, line))
        } else {
            rest
        }
    }
}

/// The findings for line `i` (0-based) of a file.
pub open spec fn line_findings(
    file: Seq<char>,
    lines: Seq<Seq<char>>,
    i: int,
    dict: Set<Seq<char>>,
    ignore: Seq<Seq<char>>,
) -> Seq<FindingView> {
    if line_checked(disabled_before(lines, i), lines[i]) {
        word_findings(file, i + 1, lines[i], words_of(lines[i]), dict, ignore)
    } else {
        seq![]
    }
}

/// The findings for the first `i` lines of a file, in order.
pub open spec fn findings_upto(
    file: Seq<char>,
    lines: Seq<Seq<char>>,
    i: int,
    dict: Set<Seq<char>>,
    ignore: Seq<Seq<char>>,
) -> Seq<FindingView>
    decreases i,
{
    if i <= 0 {
        seq![]
    } else {
        findings_upto(file, lines, i - 1, dict, ignore) + line_findings(
            file,
            lines,
            i - 1,
            dict,
            ignore,
        )
    }
}

/// The findings for a whole file, in line order.
pub open spec fn findings_of(
    file: Seq<char>,
    lines: Seq<Seq<char>>,
    dict: Set<Seq<char>>,
    ignore: Seq<Seq<char>>,
) -> Seq<FindingView> {
    findings_upto(file, lines, lines.len() as int, dict, ignore)
}

/// After a line with the disable marker (and not the one-line marker), no line gives
/// a finding up to the first line with the enable marker.
pub proof fn lemma_disabled_region_silent(
    file: Seq<char>,
    lines: Seq<Seq<char>>,
    d: int,
    i: int,
    dict: Set<Seq<char>>,
    ignore: Seq<Seq<char>>,
)
    requires
        0 <= d <= i < lines.len(),
        has_substring(lines[d], DISABLE_MARKER@),
        !has_substring(lines[d], DISABLE_LINE_MARKER@),
        forall|m: int| d < m <= i ==> !has_substring(#[trigger] lines[m], ENABLE_MARKER@),
    ensures
        line_findings(file, lines, i, dict, ignore) == Seq::<FindingView>::empty(),
{
    if i > d {
        lemma_disabled_through(lines, d, i);
    }
}

proof fn lemma_disabled_through(lines: Seq<Seq<char>>, d: int, i: int)
    requires
        0 <= d < i <= lines.len(),
        has_substring(lines[d], DISABLE_MARKER@),
        !has_substring(lines[d], DISABLE_LINE_MARKER@),
        forall|m: int| d < m < i ==> !has_substring(#[trigger] lines[m], ENABLE_MARKER@),
    ensures
        disabled_before(lines, i),
    decreases i - d,
{
    if i - 1 > d {
        lemma_disabled_through(lines, d, i - 1);
        assert(!has_substring(lines[i - 1], ENABLE_MARKER@));
    }
}

/// A line with the one-line marker gives no finding and leaves the flag as it was,
/// so the lines after it are checked as if it were not there.
pub proof fn lemma_disable_line_only_itself(
    file: Seq<char>,
    lines: Seq<Seq<char>>,
    i: int,
    dict: Set<Seq<char>>,
    ignore: Seq<Seq<char>>,
)
    requires
        0 <= i < lines.len(),
        has_substring(lines[i], DISABLE_LINE_MARKER@),
    ensures
        line_findings(file, lines, i, dict, ignore) == Seq::<FindingView>::empty(),
        disabled_before(lines, i + 1) == disabled_before(lines, i),
{
}

/// A line with the enable marker alone turns checking back on for the next line.
pub proof fn lemma_enable_resumes(lines: Seq<Seq<char>>, e: int)
    requires
        0 <= e < lines.len(),
        has_substring(lines[e], ENABLE_MARKER@),
        !has_substring(lines[e], DISABLE_MARKER@),
        !has_substring(lines[e], DISABLE_LINE_MARKER@),
    ensures
        !disabled_before(lines, e + 1),
{
}

/// Whether a line holds none of the three markers.
pub open spec fn no_marker(line: Seq<char>) -> bool {
    !has_substring(line, DISABLE_LINE_MARKER@) && !has_substring(line, DISABLE_MARKER@)
        && !has_substring(line, ENABLE_MARKER@)
}

proof fn lemma_word_findings_line(
    file: Seq<char>,
    n: int,
    line: Seq<char>,
    ws: Seq<(int, Seq<char>)>,
    dict: Set<Seq<char>>,
    ignore: Seq<Seq<char>>,
)
    ensures
        forall|k: int|
            0 <= k < word_findings(file, n, line, ws, dict, ignore).len() ==> (#[trigger] word_findings(
                file,
                n,
                line,
                ws,
                dict,
                ignore,
            )[k]).1 == n,
    decreases ws.len(),
{
    if ws.len() > 0 {
        lemma_word_findings_line(file, n, line, ws.drop_last(), dict, ignore);
        let rest = word_findings(file, n, line, ws.drop_last(), dict, ignore);
        let all = word_findings(file, n, line, ws, dict, ignore);
        assert forall|k: int| 0 <= k < all.len() implies (#[trigger] all[k]).1 == n by {
            if k < rest.len() {
                assert(all[k] == rest[k]);
            }
        }
    }
}

proof fn lemma_word_findings_has(
    file: Seq<char>,
    n: int,
    line: Seq<char>,
    ws: Seq<(int, Seq<char>)>,
    dict: Set<Seq<char>>,
    ignore: Seq<Seq<char>>,
    k: int,
)
    requires
        0 <= k < ws.len(),
        reported(ws[k].1, dict, ignore),
    ensures
        word_findings(file, n, line, ws, dict, ignore).contains((file, n, ws[k].0, ws[k].1, line)),
    decreases ws.len(),
{
    let rest = word_findings(file, n, line, ws.drop_last(), dict, ignore);
    let all = word_findings(file, n, line, ws, dict, ignore);
    if k == ws.len() - 1 {
        assert(all == rest.push((file, n, ws[k].0, ws[k].1, line)));
        assert(all[rest.len() as int] == (file, n, ws[k].0, ws[k].1, line));
    } else {
        assert(ws.drop_last()[k] == ws[k]);
        lemma_word_findings_has(file, n, line, ws.drop_last(), dict, ignore, k);
        let j = choose|j: int| 0 <= j < rest.len() && rest[j] == (file, n, ws[k].0, ws[k].1, line);
        if reported(ws.last().1, dict, ignore) {
            assert(all[j] == rest[j]);
        } else {
            assert(all == rest);
        }
    }
}

/// A finding of the first `i` lines comes from the line that its line number names.
proof fn lemma_findings_upto_line(
    file: Seq<char>,
    lines: Seq<Seq<char>>,
    i: int,
    dict: Set<Seq<char>>,
    ignore: Seq<Seq<char>>,
    f: FindingView,
)
    requires
        0 <= i <= lines.len(),
    ensures
        findings_upto(file, lines, i, dict, ignore).contains(f) <==> (1 <= f.1 <= i
            && line_findings(file, lines, f.1 - 1, dict, ignore).contains(f)),
    decreases i,
{
    if i > 0 {
        lemma_findings_upto_line(file, lines, i - 1, dict, ignore, f);
        let a = findings_upto(file, lines, i - 1, dict, ignore);
        let lf = line_findings(file, lines, i - 1, dict, ignore);
        let all = findings_upto(file, lines, i, dict, ignore);
        assert(all == a + lf);
        if line_checked(disabled_before(lines, i - 1), lines[i - 1]) {
            lemma_word_findings_line(file, i, lines[i - 1], words_of(lines[i - 1]), dict, ignore);
        }
        if all.contains(f) {
            let k = choose|k: int| 0 <= k < all.len() && all[k] == f;
            if k < a.len() {
                assert(a[k] == f);
            } else {
                assert(lf[k - a.len()] == f);
            }
        }
        if a.contains(f) {
            let k = choose|k: int| 0 <= k < a.len() && a[k] == f;
            assert(all[k] == f);
        }
        if f.1 == i && lf.contains(f) {
            let k = choose|k: int| 0 <= k < lf.len() && lf[k] == f;
            assert(all[a.len() + k] == f);
        }
        if lf.contains(f) {
            let k = choose|k: int| 0 <= k < lf.len() && lf[k] == f;
            assert(lf[k].1 == i);
        }
    }
}

/// A checked line without markers reports each of its words that is neither ignored
/// nor known, at its line number and column.
proof fn lemma_checked_line_reports(
    file: Seq<char>,
    lines: Seq<Seq<char>>,
    i: int,
    k: int,
    dict: Set<Seq<char>>,
    ignore: Seq<Seq<char>>,
)
    requires
        0 <= i < lines.len(),
        !disabled_before(lines, i),
        no_marker(lines[i]),
        0 <= k < words_of(lines[i]).len(),
        reported(words_of(lines[i])[k].1, dict, ignore),
    ensures
        findings_of(file, lines, dict, ignore).contains(
            (file, i + 1, words_of(lines[i])[k].0, words_of(lines[i])[k].1, lines[i]),
        ),
{
    let ws = words_of(lines[i]);
    lemma_word_findings_has(file, i + 1, lines[i], ws, dict, ignore, k);
    lemma_findings_upto_line(
        file,
        lines,
        lines.len() as int,
        dict,
        ignore,
        (file, i + 1, ws[k].0, ws[k].1, lines[i]),
    );
}

/// No finding of a file lies in a disable region: from a line with the disable marker
/// (not the one-line marker) through the next line with the enable marker, or through
/// the end of the file if none follows.
pub proof fn lemma_region_has_no_findings(
    file: Seq<char>,
    lines: Seq<Seq<char>>,
    d: int,
    b: int,
    dict: Set<Seq<char>>,
    ignore: Seq<Seq<char>>,
    f: FindingView,
)
    requires
        0 <= d < b <= lines.len(),
        has_substring(lines[d], DISABLE_MARKER@),
        !has_substring(lines[d], DISABLE_LINE_MARKER@),
        forall|m: int| d < m < b ==> !has_substring(#[trigger] lines[m], ENABLE_MARKER@),
        b < lines.len() ==> has_substring(lines[b], ENABLE_MARKER@),
        findings_of(file, lines, dict, ignore).contains(f),
    ensures
        f.1 <= d || f.1 > b + 1,
{
    lemma_findings_upto_line(file, lines, lines.len() as int, dict, ignore, f);
    let j = f.1 - 1;
    if d <= j && j < b {
        lemma_disabled_region_silent(file, lines, d, j, dict, ignore);
    }
}

/// After a line with the enable marker alone, a line without markers is checked
/// again: each of its words that is neither ignored nor known is reported.
pub proof fn lemma_reported_after_enable(
    file: Seq<char>,
    lines: Seq<Seq<char>>,
    b: int,
    k: int,
    dict: Set<Seq<char>>,
    ignore: Seq<Seq<char>>,
)
    requires
        0 <= b && b + 1 < lines.len(),
        has_substring(lines[b], ENABLE_MARKER@),
        !has_substring(lines[b], DISABLE_MARKER@),
        !has_substring(lines[b], DISABLE_LINE_MARKER@),
        no_marker(lines[b + 1]),
        0 <= k < words_of(lines[b + 1]).len(),
        reported(words_of(lines[b + 1])[k].1, dict, ignore),
    ensures
        findings_of(file, lines, dict, ignore).contains(
            (
                file,
                b + 2,
                words_of(lines[b + 1])[k].0,
                words_of(lines[b + 1])[k].1,
                lines[b + 1],
            ),
        ),
{
    lemma_enable_resumes(lines, b);
    lemma_checked_line_reports(file, lines, b + 1, k, dict, ignore);
}

/// A line with the one-line marker gives no finding of the file, while the next line,
/// outside a disable region and without markers, has its unknown words reported.
pub proof fn lemma_disable_line_findings(
    file: Seq<char>,
    lines: Seq<Seq<char>>,
    a: int,
    k: int,
    dict: Set<Seq<char>>,
    ignore: Seq<Seq<char>>,
    f: FindingView,
)
    requires
        0 <= a && a + 1 < lines.len(),
        !disabled_before(lines, a),
        has_substring(lines[a], DISABLE_LINE_MARKER@),
        no_marker(lines[a + 1]),
        0 <= k < words_of(lines[a + 1]).len(),
        reported(words_of(lines[a + 1])[k].1, dict, ignore),
        findings_of(file, lines, dict, ignore).contains(f),
    ensures
        f.1 != a + 1,
        findings_of(file, lines, dict, ignore).contains(
            (
                file,
                a + 2,
                words_of(lines[a + 1])[k].0,
                words_of(lines[a + 1])[k].1,
                lines[a + 1],
            ),
        ),
{
    lemma_findings_upto_line(file, lines, lines.len() as int, dict, ignore, f);
    lemma_disable_line_only_itself(file, lines, a, dict, ignore);
    lemma_checked_line_reports(file, lines, a + 1, k, dict, ignore);
}

pub open spec fn strings_view(v: Seq<String>) -> Seq<Seq<char>> {
    v.map_values(|s: String| s@)
}

/// Whether `needle` occurs in `hay`.
pub fn contains_text(hay: &str, needle: &str) -> (r: bool)
    ensures
        r == has_substring(hay@, needle@),
{
    let h = chars_of(hay);
    let p = chars_of(needle);
    if p.len() > h.len() {
        return false;
    }
    if p.len() == 0 {
        assert(hay@.subrange(0, 0 + needle@.len() as int) =~= needle@);
        return true;
    }
    let mut i: usize = 0;
    while i <= h.len() - p.len()
        invariant
            h@ == hay@,
            p@ == needle@,
            p.len() <= h.len(),
            i <= h.len() - p.len() + 1,
            forall|m: int| 0 <= m < i ==> #[trigger] h@.subrange(m, m + p.len()) != p@,
        decreases h.len() - p.len() + 1 - i,
    {
        let mut k: usize = 0;
        while k < p.len() && h[i + k] == p[k]
            invariant
                h@ == hay@,
                p@ == needle@,
                i + p.len() <= h.len(),
                k <= p.len(),
                forall|m: int| 0 <= m < k ==> h@[i + m] == p@[m],
            decreases p.len() - k,
        {
            k = k + 1;
        }
        if k == p.len() {
            assert(h@.subrange(i as int, i + p.len()) =~= p@);
            return true;
        }
        assert(h@.subrange(i as int, i + p.len())[k as int] != p@[k as int]);
        i = i + 1;
    }
    proof {
        assert forall|m: int| 0 <= m && m + needle@.len() <= hay@.len() implies #[trigger] hay@.subrange(
            m,
            m + needle@.len(),
        ) != needle@ by {
            assert(m < i);
        }
    }
    false
}

fn fold_char(c: char) -> (r: u32)
    ensures
        r == fold_ascii(c),
{
    let u = c as u32;
    if 65 <= u && u <= 90 {
        u + 32
    } else {
        u
    }
}

/// Equality up to the case of ASCII letters.
pub fn eq_ignore_case(a: &str, b: &str) -> (r: bool)
    ensures
        r == eq_ignore_ascii_case(a@, b@),
{
    let x = chars_of(a);
    let y = chars_of(b);
    if x.len() != y.len() {
        return false;
    }
    let mut i: usize = 0;
    while i < x.len()
        invariant
            x@ == a@,
            y@ == b@,
            x.len() == y.len(),
            i <= x.len(),
            forall|k: int| 0 <= k < i ==> fold_ascii(#[trigger] x@[k]) == fold_ascii(y@[k]),
        decreases x.len() - i,
    {
        if fold_char(x[i]) != fold_char(y[i]) {
            return false;
        }
        i = i + 1;
    }
    true
}

/// Whether `word` matches one of `ignore`, up to ASCII case.
pub fn ignored(word: &str, ignore: &Vec<String>) -> (r: bool)
    ensures
        r == is_ignored(word@, strings_view(ignore@)),
{
    let ghost iv = strings_view(ignore@);
    let mut k: usize = 0;
    while k < ignore.len()
        invariant
            k <= ignore.len(),
            iv == strings_view(ignore@),
            forall|m: int| 0 <= m < k ==> !eq_ignore_ascii_case(#[trigger] iv[m], word@),
        decreases ignore.len() - k,
    {
        if eq_ignore_case(ignore[k].as_str(), word) {
            assert(eq_ignore_ascii_case(iv[k as int], word@));
            return true;
        }
        k = k + 1;
    }
    false
}

/// Checks the lines of one file. Every word of a checked line that is neither an
/// ignored word nor in the dictionary gives one finding, in order of lines and
/// columns; the flag set by the disable marker starts off for each file.
pub fn check_lines(file: &str, lines: &Vec<String>, dictionary: &Dictionary, ignore: &Vec<String>) -> (r: Vec<SpellError>)
    ensures
        findings_view(r@) == findings_of(file@, strings_view(lines@), dictionary.view(), strings_view(ignore@)),
{
    let ghost ls = strings_view(lines@);
    let ghost iv = strings_view(ignore@);
    let ghost dv = dictionary.view();
    let mut out: Vec<SpellError> = Vec::new();
    let mut disabled = false;
    let mut i: usize = 0;
    assert(findings_view(out@) =~= Seq::<FindingView>::empty());
    while i < lines.len()
        invariant
            i <= lines.len(),
            ls == strings_view(lines@),
            iv == strings_view(ignore@),
            dv == dictionary.view(),
            disabled == disabled_before(ls, i as int),
            findings_view(out@) == findings_upto(file@, ls, i as int, dv, iv),
        decreases lines.len() - i,
    {
        let line = lines[i].as_str();
        assert(line@ == ls[i as int]);
        let ghost before = findings_view(out@);
        if contains_text(line, DISABLE_LINE_MARKER) {
        } else if contains_text(line, DISABLE_MARKER) {
            disabled = true;
        } else if contains_text(line, ENABLE_MARKER) {
            disabled = false;
        } else if !disabled {
            let words = extract_words(line);
            let ghost ws = words_of(line@);
            let mut k: usize = 0;
            while k < words.len()
                invariant
                    ls == strings_view(lines@),
                    iv == strings_view(ignore@),
                    dv == dictionary.view(),
                    i < lines.len(),
                    line@ == ls[i as int],
                    tokens_view(words@) == ws,
                    k <= words.len(),
                    findings_view(out@) == before + word_findings(
                        file@,
                        i + 1,
                        line@,
                        ws.take(k as int),
                        dv,
                        iv,
                    ),
                decreases words.len() - k,
            {
                let ghost prev = findings_view(out@);
                assert(ws.take(k + 1).drop_last() =~= ws.take(k as int));
                assert(ws[k as int] == (words[k as int].0 as int, words[k as int].1@));
                let word = words[k].1.as_str();
                if !ignored(word, ignore) && !dictionary.contains(word) {
                    out.push(
                        SpellError {
                            file: file.to_owned(),
                            line: i + 1,
                            col: words[k].0,
                            word: words[k].1.clone(),
                            context: line.to_owned(),
                        },
                    );
                    assert(findings_view(out@) =~= prev.push(
                        (file@, i + 1, words[k as int].0 as int, word@, line@),
                    ));
                }
                k = k + 1;
            }
            assert(ws.take(words.len() as int) =~= ws);
        }
        proof {
            assert(findings_upto(file@, ls, i + 1, dv, iv) == before + line_findings(
                file@,
                ls,
                i as int,
                dv,
                iv,
            ));
            if !line_checked(disabled_before(ls, i as int), ls[i as int]) {
                assert(findings_view(out@) =~= before + line_findings(file@, ls, i as int, dv, iv));
            }
        }
        i = i + 1;
    }
    out
}

} // verus!
