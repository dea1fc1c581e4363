//! A case-insensitive set of known words.
use vstd::prelude::*;
use crate::tokenizer::{lines_of, split_lines};

verus! {

/// The lowercase form of a string, as Unicode defines it.
pub uninterp spec fn lower_of(s: Seq<char>) -> Seq<char>;

/// Relies on `str::to_lowercase`: the result depends on the characters alone.
#[verifier::external_body]
pub(crate) fn lowercase(s: &str) -> (r: String)
    ensures
        r@ == lower_of(s@),
{
    s.to_lowercase()
}

/// Whether a character has the Unicode `White_Space` property (25 code points).
pub open spec fn is_white_space(c: char) -> bool {
    let u = c as u32;
    ||| 0x9 <= u <= 0xD
    ||| u == 0x20
    ||| u == 0x85
    ||| u == 0xA0
    ||| u == 0x1680
    ||| 0x2000 <= u <= 0x200A
    ||| u == 0x2028
    ||| u == 0x2029
    ||| u == 0x202F
    ||| u == 0x205F
    ||| u == 0x3000
}

/// A string without its leading white space.
pub open spec fn trim_front(s: Seq<char>) -> Seq<char>
    decreases s.len(),
{
    if s.len() > 0 && is_white_space(s[0]) {
        trim_front(s.drop_first())
    } else {
        s
    }
}

/// A string without its trailing white space.
pub open spec fn trim_back(s: Seq<char>) -> Seq<char>
    decreases s.len(),
{
    if s.len() > 0 && is_white_space(s.last()) {
        trim_back(s.drop_last())
    } else {
        s
    }
}

/// A string without its leading and trailing white space.
pub open spec fn trim_of(s: Seq<char>) -> Seq<char> {
    trim_back(trim_front(s))
}

proof fn lemma_trim_front(s: Seq<char>, a: int)
    requires
        0 <= a <= s.len(),
        forall|k: int| 0 <= k < a ==> is_white_space(#[trigger] s[k]),
        a == s.len() || !is_white_space(s[a]),
    ensures
        trim_front(s) == s.skip(a),
    decreases a,
{
    if a > 0 {
        assert forall|k: int| 0 <= k < a - 1 implies is_white_space(
            #[trigger] s.drop_first()[k],
        ) by {
            assert(s.drop_first()[k] == s[k + 1]);
        }
        lemma_trim_front(s.drop_first(), a - 1);
        assert(s.drop_first().skip(a - 1) =~= s.skip(a));
    } else {
        assert(s.skip(0) =~= s);
    }
}

proof fn lemma_trim_back(t: Seq<char>, e: int)
    requires
        0 <= e <= t.len(),
        forall|k: int| e <= k < t.len() ==> is_white_space(#[trigger] t[k]),
        e == 0 || !is_white_space(t[e - 1]),
    ensures
        trim_back(t) == t.take(e),
    decreases t.len() - e,
{
    if e < t.len() {
        assert forall|k: int| e <= k < t.len() - 1 implies is_white_space(
            #[trigger] t.drop_last()[k],
        ) by {
            assert(t.drop_last()[k] == t[k]);
        }
        lemma_trim_back(t.drop_last(), e);
        assert(t.drop_last().take(e) =~= t.take(e));
    } else {
        assert(t.take(e) =~= t);
    }
}

fn white_space(c: char) -> (r: bool)
    ensures
        r == is_white_space(c),
{
    let u = c as u32;
    (0x9 <= u && u <= 0xD) || u == 0x20 || u == 0x85 || u == 0xA0 || u == 0x1680 || (0x2000 <= u
        && u <= 0x200A) || u == 0x2028 || u == 0x2029 || u == 0x202F || u == 0x205F || u == 0x3000
}

/// The text without its leading and trailing white space.
pub fn trim_text(text: &str) -> (r: String)
    ensures
        r@ == trim_of(text@),
{
    let ghost s = text@;
    let cs = crate::tokenizer::chars_of(text);
    let n = cs.len();
    let mut a: usize = 0;
    while a < n && white_space(cs[a])
        invariant
            cs@ == s,
            n == s.len(),
            a <= n,
            forall|k: int| 0 <= k < a ==> is_white_space(#[trigger] s[k]),
        decreases n - a,
    {
        a = a + 1;
    }
    proof {
        lemma_trim_front(s, a as int);
    }
    let mut e: usize = n;
    while e > a && white_space(cs[e - 1])
        invariant
            cs@ == s,
            n == s.len(),
            a <= e <= n,
            forall|k: int| e <= k < n ==> is_white_space(#[trigger] s[k]),
        decreases e - a,
    {
        e = e - 1;
    }
    proof {
        let t = s.skip(a as int);
        assert forall|k: int| e - a <= k < t.len() implies is_white_space(#[trigger] t[k]) by {
            assert(t[k] == s[a + k]);
        }
        if e > a {
            assert(t[e - a - 1] == s[e - 1]);
        }
        lemma_trim_back(t, e - a);
        assert(t.take(e - a) =~= s.subrange(a as int, e as int));
    }
    let mut r = String::new();
    let mut k: usize = a;
    while k < e
        invariant
            cs@ == s,
            n == s.len(),
            a <= k <= e <= n,
            r@ == s.subrange(a as int, k as int),
        decreases e - k,
    {
        crate::tokenizer::push_char(&mut r, cs[k]);
        k = k + 1;
        assert(r@ =~= s.subrange(a as int, k as int));
    }
    r
}

/// The words that a word list holds: each line, trimmed, lowered, unless it is blank.
pub open spec fn list_words(lines: Seq<Seq<char>>) -> Set<Seq<char>> {
    Set::new(
        |w: Seq<char>|
            exists|i: int|
                0 <= i < lines.len() && trim_of(#[trigger] lines[i]).len() > 0 && w == lower_of(
                    trim_of(lines[i]),
                ),
    )
}

/// Membership ignores case: once a word is added, a query with the same lowercase
/// form is found in the resulting set, and an empty dictionary finds nothing.
pub proof fn lemma_membership_ignores_case(known: Set<Seq<char>>, added: Seq<char>, query: Seq<char>)
    requires
        lower_of(query) == lower_of(added),
    ensures
        known.insert(lower_of(added)).contains(lower_of(query)),
        !Set::<Seq<char>>::empty().contains(lower_of(query)),
{
}

/// A dictionary knows finitely many words, so adding a word it does not know yet
/// raises its count by one, and adding one it knows leaves the count as it was.
pub proof fn lemma_known_words_finite(d: &Dictionary, w: Seq<char>)
    ensures
        d.view().finite(),
        d.view().insert(w).len() == if d.view().contains(w) {
            d.view().len()
        } else {
            d.view().len() + 1
        },
{
    vstd::seq_lib::seq_to_set_is_finite(d.entries());
    if d.view().contains(w) {
        assert(d.view().insert(w) =~= d.view());
    }
}

/// Strict lexicographic order on strings, by character code.
pub open spec fn lex_lt(a: Seq<char>, b: Seq<char>) -> bool
    decreases a.len(),
{
    if a.len() == 0 {
        b.len() > 0
    } else if b.len() == 0 {
        false
    } else if a[0] != b[0] {
        (a[0] as u32) < (b[0] as u32)
    } else {
        lex_lt(a.drop_first(), b.drop_first())
    }
}

/// Each entry comes strictly before the next one.
pub open spec fn strictly_sorted(e: Seq<Seq<char>>) -> bool {
    forall|i: int, j: int| 0 <= i < j < e.len() ==> lex_lt(#[trigger] e[i], #[trigger] e[j])
}

proof fn lemma_lex_irreflexive(a: Seq<char>)
    ensures
        !lex_lt(a, a),
    decreases a.len(),
{
    if a.len() > 0 {
        lemma_lex_irreflexive(a.drop_first());
    }
}

proof fn lemma_lex_trans(a: Seq<char>, b: Seq<char>, c: Seq<char>)
    requires
        lex_lt(a, b),
        lex_lt(b, c),
    ensures
        lex_lt(a, c),
    decreases a.len(),
{
    if a.len() > 0 && b.len() > 0 && c.len() > 0 && a[0] == b[0] && b[0] == c[0] {
        lemma_lex_trans(a.drop_first(), b.drop_first(), c.drop_first());
    }
}

/// Past a common prefix, the order is decided by what follows it.
proof fn lemma_lex_skip(a: Seq<char>, b: Seq<char>, i: int)
    requires
        0 <= i <= a.len(),
        i <= b.len(),
        a.take(i) == b.take(i),
    ensures
        lex_lt(a, b) == lex_lt(a.skip(i), b.skip(i)),
    decreases i,
{
    if i > 0 {
        assert(a[0] == a.take(i)[0]);
        assert(b[0] == b.take(i)[0]);
        assert(a.drop_first().take(i - 1) =~= a.take(i).drop_first());
        assert(b.drop_first().take(i - 1) =~= b.take(i).drop_first());
        lemma_lex_skip(a.drop_first(), b.drop_first(), i - 1);
        assert(a.drop_first().skip(i - 1) =~= a.skip(i));
        assert(b.drop_first().skip(i - 1) =~= b.skip(i));
    } else {
        assert(a.skip(0) =~= a);
        assert(b.skip(0) =~= b);
    }
}

/// Compares two strings: negative, zero or positive as `a` comes before, equals, or
/// comes after `b`.
fn compare(a: &Vec<char>, b: &Vec<char>) -> (r: i8)
    ensures
        r < 0 <==> lex_lt(a@, b@),
        r == 0 <==> a@ == b@,
        r > 0 <==> lex_lt(b@, a@),
{
    let mut i: usize = 0;
    while i < a.len() && i < b.len()
        invariant
            i <= a.len(),
            i <= b.len(),
            a@.take(i as int) == b@.take(i as int),
        decreases a.len() - i,
    {
        if a[i] != b[i] {
            proof {
                lemma_lex_skip(a@, b@, i as int);
                lemma_lex_skip(b@, a@, i as int);
                assert(a@.skip(i as int)[0] == a@[i as int]);
                assert(b@.skip(i as int)[0] == b@[i as int]);
                vstd::utf8::char_u32_cast(a@[i as int], a@[i as int] as u32);
                vstd::utf8::char_u32_cast(b@[i as int], b@[i as int] as u32);
            }
            if (a[i] as u32) < (b[i] as u32) {
                return -1;
            } else {
                return 1;
            }
        }
        assert(a@.take(i + 1) =~= a@.take(i as int).push(a@[i as int]));
        assert(b@.take(i + 1) =~= b@.take(i as int).push(b@[i as int]));
        i = i + 1;
    }
    proof {
        lemma_lex_skip(a@, b@, i as int);
        lemma_lex_skip(b@, a@, i as int);
        lemma_lex_irreflexive(a@);
        if a.len() == b.len() {
            assert(a@ =~= a@.take(i as int));
            assert(b@ =~= b@.take(i as int));
        } else {
            assert(a@.len() != b@.len());
        }
    }
    if a.len() < b.len() {
        -1
    } else if a.len() == b.len() {
        0
    } else {
        1
    }
}

/// A set of words, stored in lowercase and in order, queried without regard to case.
pub struct Dictionary {
    words: Vec<Vec<char>>,
}

impl Dictionary {
    /// The stored entries, in order.
    pub closed spec fn entries(&self) -> Seq<Seq<char>> {
        self.words@.map_values(|w: Vec<char>| w@)
    }

    /// The set of lowercase words that the dictionary knows.
    pub closed spec fn view(&self) -> Set<Seq<char>> {
        self.entries().to_set()
    }

    /// The entries are in strict order, so none is stored twice.
    #[verifier::type_invariant]
    spec fn inv(&self) -> bool {
        strictly_sorted(self.entries())
    }

    /// Creates an empty dictionary.
    pub fn new() -> (r: Self)
        ensures
            r.view() == Set::<Seq<char>>::empty(),
    {
        let r = Dictionary { words: Vec::new() };
        assert(r.entries() =~= Seq::<Seq<char>>::empty());
        r
    }

    /// Where `w` stands among the entries: `Ok` with its position if it is stored,
    /// else `Err` with the position at which it would be inserted.
    fn search(&self, w: &Vec<char>) -> (r: Result<usize, usize>)
        ensures
            match r {
                Ok(i) => i < self.entries().len() && self.entries()[i as int] == w@,
                Err(i) => i <= self.entries().len() && (forall|k: int|
                    0 <= k < i ==> lex_lt(#[trigger] self.entries()[k], w@)) && (forall|k: int|
                    i <= k < self.entries().len() ==> lex_lt(w@, #[trigger] self.entries()[k])),
            },
    {
        proof {
            use_type_invariant(self);
        }
        let ghost e = self.entries();
        let mut lo: usize = 0;
        let mut hi: usize = self.words.len();
        while lo < hi
            invariant
                e == self.entries(),
                strictly_sorted(e),
                lo <= hi <= e.len(),
                e.len() == self.words.len(),
                forall|k: int| 0 <= k < lo ==> lex_lt(#[trigger] e[k], w@),
                forall|k: int| hi <= k < e.len() ==> lex_lt(w@, #[trigger] e[k]),
            decreases hi - lo,
        {
            let mid = lo + (hi - lo) / 2;
            assert(self.words[mid as int]@ == e[mid as int]);
            let c = compare(&self.words[mid], w);
            if c == 0 {
                return Ok(mid);
            } else if c < 0 {
                proof {
                    assert forall|k: int| 0 <= k <= mid implies lex_lt(#[trigger] e[k], w@) by {
                        if k < mid {
                            lemma_lex_trans(e[k], e[mid as int], w@);
                        }
                    }
                }
                lo = mid + 1;
            } else {
                proof {
                    assert forall|k: int| mid <= k < e.len() implies lex_lt(w@, #[trigger] e[k]) by {
                        if k > mid {
                            lemma_lex_trans(w@, e[mid as int], e[k]);
                        }
                    }
                }
                hi = mid;
            }
        }
        Err(lo)
    }

    /// Adds a word; it is stored in lowercase.
    pub fn add_word(&mut self, word: &str)
        ensures
            final(self).view() == old(self).view().insert(lower_of(word@)),
    {
        let lowered = lowercase(word);
        self.add_lowered(lowered.as_str());
    }

    /// Adds a word that is already in lowercase, as it is.
    pub fn add_lowered(&mut self, lowered: &str)
        ensures
            final(self).view() == old(self).view().insert(lowered@),
    {
        proof {
            use_type_invariant(&*self);
        }
        let w = crate::tokenizer::chars_of(lowered);
        let ghost before = self.entries();
        match self.search(&w) {
            Ok(_) => {
                assert(before.to_set().insert(w@) =~= before.to_set());
            },
            Err(pos) => {
                let mut words: Vec<Vec<char>> = Vec::new();
                std::mem::swap(&mut words, &mut self.words);
                words.insert(pos, w);
                let ghost after = words@.map_values(|x: Vec<char>| x@);
                assert(after =~= before.insert(pos as int, lowered@));
                assert(after.to_set() =~= before.to_set().insert(lowered@)) by {
                    assert forall|x: Seq<char>|
                        after.contains(x) <==> before.contains(x) || x == lowered@ by {
                        if after.contains(x) {
                            let k = choose|k: int| 0 <= k < after.len() && after[k] == x;
                            if k < pos {
                                assert(before[k] == x);
                            } else if k > pos {
                                assert(before[k - 1] == x);
                            }
                        }
                        if before.contains(x) {
                            let k = choose|k: int| 0 <= k < before.len() && before[k] == x;
                            if k < pos {
                                assert(after[k] == x);
                            } else {
                                assert(after[k + 1] == x);
                            }
                        }
                        if x == lowered@ {
                            assert(after[pos as int] == x);
                        }
                    }
                }
                assert forall|a: int, b: int| 0 <= a < b < after.len() implies lex_lt(
                    #[trigger] after[a],
                    #[trigger] after[b],
                ) by {
                    if b < pos {
                        assert(lex_lt(before[a], before[b]));
                    } else if b == pos {
                        assert(lex_lt(before[a], w@));
                    } else if a < pos {
                        assert(lex_lt(before[a], before[b - 1]));
                    } else if a == pos {
                        assert(lex_lt(w@, before[b - 1]));
                    } else {
                        assert(lex_lt(before[a - 1], before[b - 1]));
                    }
                }
                self.words = words;
            },
        }
    }

    /// Adds each of the given words.
    pub fn add_words(&mut self, words: Vec<&str>)
        ensures
            final(self).view() == old(self).view().union(
                words@.map_values(|w: &str| lower_of(w@)).to_set(),
            ),
    {
        let ghost start = self.view();
        let ghost lowered = words@.map_values(|w: &str| lower_of(w@));
        let mut i: usize = 0;
        while i < words.len()
            invariant
                i <= words.len(),
                lowered == words@.map_values(|w: &str| lower_of(w@)),
                self.view() == start.union(lowered.take(i as int).to_set()),
            decreases words.len() - i,
        {
            self.add_word(words[i]);
            assert(lowered.take(i + 1) =~= lowered.take(i as int).push(lowered[i as int]));
            assert(lowered.take(i + 1).to_set() =~= lowered.take(i as int).to_set().insert(
                lowered[i as int],
            )) by {
                lowered.take(i as int).lemma_push_to_set_commute(lowered[i as int]);
            }
            i = i + 1;
            assert(self.view() =~= start.union(lowered.take(i as int).to_set()));
        }
        assert(lowered.take(i as int) =~= lowered);
    }

    /// Adds the words of a word list with one word per line; blank lines are passed over.
    pub fn add_word_list(&mut self, content: &str)
        ensures
            final(self).view() == old(self).view().union(list_words(lines_of(content@))),
    {
        let lines = split_lines(content);
        let ghost ls = lines_of(content@);
        let ghost start = self.view();
        let mut i: usize = 0;
        assert(list_words(ls.take(0)) =~= Set::<Seq<char>>::empty());
        assert(start.union(Set::<Seq<char>>::empty()) =~= start);
        while i < lines.len()
            invariant
                i <= lines.len(),
                lines@.map_values(|l: String| l@) == ls,
                self.view() == start.union(list_words(ls.take(i as int))),
            decreases lines.len() - i,
        {
            let word = trim_text(lines[i].as_str());
            assert(lines[i as int]@ == ls[i as int]);
            let ghost prev = ls.take(i as int);
            let ghost next = ls.take(i + 1);
            assert(next =~= prev.push(ls[i as int]));
            if word.as_str().is_empty() {
                assert(list_words(next) =~= list_words(prev)) by {
                    assert forall|w: Seq<char>| list_words(next).contains(w) implies list_words(
                        prev,
                    ).contains(w) by {
                        let k = choose|k: int|
                            0 <= k < next.len() && trim_of(#[trigger] next[k]).len() > 0 && w
                                == lower_of(trim_of(next[k]));
                        assert(k < prev.len());
                        assert(prev[k] == next[k]);
                    }
                    assert forall|w: Seq<char>| list_words(prev).contains(w) implies list_words(
                        next,
                    ).contains(w) by {
                        let k = choose|k: int|
                            0 <= k < prev.len() && trim_of(#[trigger] prev[k]).len() > 0 && w
                                == lower_of(trim_of(prev[k]));
                        assert(prev[k] == next[k]);
                    }
                }
            } else {
                self.add_word(word.as_str());
                assert(list_words(next) =~= list_words(prev).insert(lower_of(trim_of(ls[i as int]))))
                    by {
                    assert forall|w: Seq<char>| list_words(next).contains(w) implies list_words(
                        prev,
                    ).insert(lower_of(trim_of(ls[i as int]))).contains(w) by {
                        let k = choose|k: int|
                            0 <= k < next.len() && trim_of(#[trigger] next[k]).len() > 0 && w
                                == lower_of(trim_of(next[k]));
                        if k < prev.len() {
                            assert(prev[k] == next[k]);
                        }
                    }
                    assert forall|w: Seq<char>| list_words(prev).contains(w) implies list_words(
                        next,
                    ).contains(w) by {
                        let k = choose|k: int|
                            0 <= k < prev.len() && trim_of(#[trigger] prev[k]).len() > 0 && w
                                == lower_of(trim_of(prev[k]));
                        assert(prev[k] == next[k]);
                    }
                    assert(next[i as int] == ls[i as int]);
                    assert(list_words(next).contains(lower_of(trim_of(ls[i as int]))));
                }
            }
            i = i + 1;
            assert(self.view() =~= start.union(list_words(ls.take(i as int))));
        }
        assert(ls.take(i as int) =~= ls);
    }

    /// Whether the lowercase form of `word` is known.
    pub fn contains(&self, word: &str) -> (r: bool)
        ensures
            r == self.view().contains(lower_of(word@)),
    {
        let lowered = lowercase(word);
        self.contains_lowered(lowered.as_str())
    }

    /// Whether a word that is already in lowercase is known, as it is.
    pub fn contains_lowered(&self, lowered: &str) -> (r: bool)
        ensures
            r == self.view().contains(lowered@),
    {
        let w = crate::tokenizer::chars_of(lowered);
        let r = self.search(&w);
        proof {
            if r is Err {
                assert forall|k: int| 0 <= k < self.entries().len() implies self.entries()[k]
                    != w@ by {
                    lemma_lex_irreflexive(w@);
                }
            }
        }
        match r {
            Ok(_) => true,
            Err(_) => false,
        }
    }

    /// The number of distinct words known.
    pub fn count(&self) -> (r: usize)
        ensures
            self.view().finite(),
            r == self.view().len(),
    {
        proof {
            use_type_invariant(self);
            let e = self.entries();
            assert(e.no_duplicates()) by {
                assert forall|i: int, j: int| 0 <= i < e.len() && 0 <= j < e.len() && i != j implies e[i]
                    != e[j] by {
                    lemma_lex_irreflexive(e[i]);
                }
            }
            e.unique_seq_to_set();
            vstd::seq_lib::seq_to_set_is_finite(e);
        }
        self.words.len()
    }
}

impl Default for Dictionary {
    fn default() -> (r: Self)
        ensures
            r.view() == Set::<Seq<char>>::empty(),
    {
        Self::new()
    }
}

} // verus!
