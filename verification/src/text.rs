//! Character-level text handling shared by the marketplace: character
//! classes, trimming, whitespace splitting and the word sets that discovery
//! and goal decomposition compare.

use vstd::prelude::*;

verus! {

// ------------------------------------------------------------------------
// Character classes
// ------------------------------------------------------------------------

/// Whether `c` has the Unicode `White_Space` property, which is what
/// `char::is_whitespace` answers: tab to carriage return, space, next line,
/// no-break space, ogham space mark, the spaces U+2000 to U+200A, the line and
/// paragraph separators, narrow no-break space, medium mathematical space and
/// ideographic space.
pub open spec fn char_is_whitespace(c: char) -> bool {
    let u = c as u32;
    ||| 0x09 <= u && u <= 0x0D
    ||| u == 0x20
    ||| u == 0x85
    ||| u == 0xA0
    ||| u == 0x1680
    ||| 0x2000 <= u && u <= 0x200A
    ||| u == 0x2028
    ||| u == 0x2029
    ||| u == 0x202F
    ||| u == 0x205F
    ||| u == 0x3000
}

/// Whether `c` is an ASCII letter or digit.
pub open spec fn is_ascii_alnum(c: char) -> bool {
    ('0' <= c && c <= '9') || ('a' <= c && c <= 'z') || ('A' <= c && c <= 'Z')
}

/// What `char::is_alphanumeric` answers for a character outside ASCII
/// (the Unicode `Alphabetic` or `Numeric` properties).
pub uninterp spec fn non_ascii_alphanumeric(c: char) -> bool;

/// What `char::is_alphanumeric` answers for `c`: among ASCII characters the
/// letters and digits; beyond ASCII, the Unicode tables, which are only named.
pub open spec fn char_is_alphanumeric(c: char) -> bool {
    if (c as u32) < 0x80 {
        is_ascii_alnum(c)
    } else {
        non_ascii_alphanumeric(c)
    }
}

/// Whether `c` is whitespace, as `char::is_whitespace` answers.
pub fn is_whitespace(c: char) -> (b: bool)
    ensures
        b == char_is_whitespace(c),
{
    let u: u32 = c as u32;
    (0x09 <= u && u <= 0x0D) || u == 0x20 || u == 0x85 || u == 0xA0 || u == 0x1680 || (0x2000 <= u
        && u <= 0x200A) || u == 0x2028 || u == 0x2029 || u == 0x202F || u == 0x205F || u == 0x3000
}

/// Calls `char::is_alphanumeric`: for ASCII, letters and digits; beyond
/// ASCII the contract only names the answer.
#[verifier::external_body]
pub(crate) fn is_alphanumeric(c: char) -> (b: bool)
    ensures
        b == char_is_alphanumeric(c),
        (c as u32) >= 0x80 ==> b == non_ascii_alphanumeric(c),
{
    c.is_alphanumeric()
}

/// ASCII lower-casing: `'A'..='Z'` become `'a'..='z'`, everything else is kept.
pub open spec fn ascii_lower(c: char) -> char {
    if 'A' <= c && c <= 'Z' {
        ((c as u32) + 32) as char
    } else {
        c
    }
}

/// Lower-cases an ASCII letter and leaves every other character alone.
pub fn to_ascii_lowercase(c: char) -> (r: char)
    ensures
        r == ascii_lower(c),
{
    if 'A' <= c && c <= 'Z' {
        let b: u8 = c as u8;
        assert(b as u32 == c as u32);
        let lower: u8 = b + 32;
        lower as char
    } else {
        c
    }
}

/// Number of bytes of `c` in UTF-8.
pub open spec fn utf8_width(c: char) -> nat {
    let u = c as u32;
    if u < 0x80 {
        1
    } else if u < 0x800 {
        2
    } else if u < 0x10000 {
        3
    } else {
        4
    }
}

/// Number of bytes of `s` in UTF-8, which is what `str::len` reports.
pub open spec fn utf8_len(s: Seq<char>) -> nat
    decreases s.len(),
{
    if s.len() == 0 {
        0
    } else {
        utf8_len(s.drop_last()) + utf8_width(s.last())
    }
}

/// Number of bytes of `c` in UTF-8.
pub fn char_width(c: char) -> (w: usize)
    ensures
        w == utf8_width(c),
{
    let u: u32 = c as u32;
    if u < 0x80 {
        1
    } else if u < 0x800 {
        2
    } else if u < 0x10000 {
        3
    } else {
        4
    }
}

/// True when `s` holds more than `k` bytes of UTF-8.
pub fn utf8_len_exceeds(s: &Vec<char>, k: usize) -> (b: bool)
    ensures
        b == (utf8_len(s@) > k),
{
    let mut total: usize = 0;
    let mut i: usize = 0;
    while i < s.len()
        invariant
            i <= s.len(),
            total == utf8_len(s@.take(i as int)),
            total <= k,
        decreases s.len() - i,
    {
        proof {
            assert(s@.take(i + 1).drop_last() =~= s@.take(i as int));
        }
        let w = char_width(s[i]);
        if w > k - total {
            proof {
                lemma_utf8_len_prefix_monotone(s@, i + 1, s.len() as int);
                assert(s@.take(s.len() as int) =~= s@);
            }
            return true;
        }
        total = total + w;
        i = i + 1;
    }
    proof {
        assert(s@.take(s.len() as int) =~= s@);
    }
    false
}

/// A longer prefix never holds fewer bytes.
pub proof fn lemma_utf8_len_prefix_monotone(s: Seq<char>, i: int, j: int)
    requires
        0 <= i <= j <= s.len(),
    ensures
        utf8_len(s.take(i)) <= utf8_len(s.take(j)),
    decreases j - i,
{
    if i < j {
        lemma_utf8_len_prefix_monotone(s, i, j - 1);
        assert(s.take(j).drop_last() =~= s.take(j - 1));
    }
}

// ------------------------------------------------------------------------
// Strings as character sequences
// ------------------------------------------------------------------------

/// Calls `String::push`, which appends one character.
#[verifier::external_body]
pub(crate) fn push_char(s: &mut String, c: char)
    ensures
        final(s)@ == old(s)@.push(c),
{
    s.push(c);
}

/// The characters of `s`, in order.
pub fn chars_of(s: &str) -> (v: Vec<char>)
    ensures
        v@ == s@,
{
    let mut v: Vec<char> = Vec::new();
    for c in it: s.chars()
        invariant
            v@ == it.seq().take(it.index() as int),
            it.seq() == s@,
    {
        v.push(c);
    }
    v
}

/// The string made of `v[lo..hi]`.
pub fn string_from_chars(v: &Vec<char>, lo: usize, hi: usize) -> (r: String)
    requires
        lo <= hi <= v.len(),
    ensures
        r@ == v@.subrange(lo as int, hi as int),
{
    let mut r = String::new();
    let mut i: usize = lo;
    while i < hi
        invariant
            lo <= i <= hi <= v.len(),
            r@ == v@.subrange(lo as int, i as int),
        decreases hi - i,
    {
        push_char(&mut r, v[i]);
        proof {
            assert(v@.subrange(lo as int, i + 1) =~= v@.subrange(lo as int, i as int).push(v@[i as int]));
        }
        i = i + 1;
    }
    r
}

/// Whether two strings hold the same characters.
pub fn str_eq(a: &str, b: &str) -> (r: bool)
    ensures
        r == (a@ == b@),
{
    let x = chars_of(a);
    let y = chars_of(b);
    if x.len() != y.len() {
        return false;
    }
    let mut i: usize = 0;
    while i < x.len()
        invariant
            x@ == a@,
            y@ == b@,
            x.len() == y.len(),
            i <= x.len(),
            forall|j: int| 0 <= j < i ==> x@[j] == y@[j],
        decreases x.len() - i,
    {
        if x[i] != y[i] {
            return false;
        }
        i = i + 1;
    }
    assert(x@ =~= y@);
    true
}

// ------------------------------------------------------------------------
// Trimming
// ------------------------------------------------------------------------

/// `s` without its leading whitespace.
pub open spec fn trim_start_seq(s: Seq<char>) -> Seq<char>
    decreases s.len(),
{
    if s.len() > 0 && char_is_whitespace(s[0]) {
        trim_start_seq(s.drop_first())
    } else {
        s
    }
}

/// `s` without its trailing whitespace.
pub open spec fn trim_end_seq(s: Seq<char>) -> Seq<char>
    decreases s.len(),
{
    if s.len() > 0 && char_is_whitespace(s.last()) {
        trim_end_seq(s.drop_last())
    } else {
        s
    }
}

/// `s` without leading and trailing whitespace, as `str::trim` defines it.
pub open spec fn trim_seq(s: Seq<char>) -> Seq<char> {
    trim_end_seq(trim_start_seq(s))
}

proof fn lemma_trim_start_at(s: Seq<char>, a: int)
    requires
        0 <= a <= s.len(),
        forall|i: int| 0 <= i < a ==> char_is_whitespace(#[trigger] s[i]),
        a < s.len() ==> !char_is_whitespace(s[a]),
    ensures
        trim_start_seq(s) == s.subrange(a, s.len() as int),
    decreases a,
{
    if a == 0 {
        assert(s.subrange(0, s.len() as int) =~= s);
    } else {
        let t = s.drop_first();
        assert forall|i: int| 0 <= i < a - 1 implies char_is_whitespace(#[trigger] t[i]) by {
            assert(t[i] == s[i + 1]);
        }
        lemma_trim_start_at(t, a - 1);
        assert(t.subrange(a - 1, t.len() as int) =~= s.subrange(a, s.len() as int));
    }
}

proof fn lemma_trim_end_at(s: Seq<char>, b: int)
    requires
        0 <= b <= s.len(),
        forall|i: int| b <= i < s.len() ==> char_is_whitespace(#[trigger] s[i]),
        b > 0 ==> !char_is_whitespace(s[b - 1]),
    ensures
        trim_end_seq(s) == s.subrange(0, b),
    decreases s.len() - b,
{
    if b == s.len() {
        assert(s.subrange(0, b) =~= s);
    } else {
        let t = s.drop_last();
        lemma_trim_end_at(t, b);
        assert(t.subrange(0, b) =~= s.subrange(0, b));
    }
}

/// Bounds `(lo, hi)` such that `v[lo..hi]` is `v` trimmed.
pub fn trim_bounds(v: &Vec<char>) -> (r: (usize, usize))
    ensures
        r.0 <= r.1 <= v.len(),
        v@.subrange(r.0 as int, r.1 as int) == trim_seq(v@),
{
    let n = v.len();
    let mut a: usize = 0;
    while a < n && is_whitespace(v[a])
        invariant
            a <= n == v.len(),
            forall|i: int| 0 <= i < a ==> char_is_whitespace(#[trigger] v@[i]),
        decreases n - a,
    {
        a = a + 1;
    }
    let mut b: usize = n;
    while b > a && is_whitespace(v[b - 1])
        invariant
            a <= b <= n == v.len(),
            forall|i: int| b <= i < n ==> char_is_whitespace(#[trigger] v@[i]),
        decreases b - a,
    {
        b = b - 1;
    }
    proof {
        lemma_trim_start_at(v@, a as int);
        let t = v@.subrange(a as int, n as int);
        assert forall|i: int| b - a <= i < t.len() implies char_is_whitespace(#[trigger] t[i]) by {
            assert(t[i] == v@[a + i]);
        }
        if b > a {
            assert(t[b - a - 1] == v@[b - 1]);
        }
        lemma_trim_end_at(t, b - a);
        assert(t.subrange(0, b - a) =~= v@.subrange(a as int, b as int));
    }
    (a, b)
}

/// `s` without leading and trailing whitespace.
pub fn trim(s: &str) -> (r: String)
    ensures
        r@ == trim_seq(s@),
{
    let v = chars_of(s);
    let (lo, hi) = trim_bounds(&v);
    string_from_chars(&v, lo, hi)
}

// ------------------------------------------------------------------------
// Whitespace splitting and word sets
// ------------------------------------------------------------------------

/// One step of `str::split_whitespace` over the characters read so far:
/// the finished words and the word being read.
pub open spec fn split_step(acc: (Seq<Seq<char>>, Seq<char>), c: char) -> (Seq<Seq<char>>, Seq<char>) {
    if char_is_whitespace(c) {
        if acc.1.len() > 0 {
            (acc.0.push(acc.1), Seq::empty())
        } else {
            (acc.0, Seq::empty())
        }
    } else {
        (acc.0, acc.1.push(c))
    }
}

/// The state of splitting `s` at whitespace after reading all of it.
pub open spec fn split_state(s: Seq<char>) -> (Seq<Seq<char>>, Seq<char>)
    decreases s.len(),
{
    if s.len() == 0 {
        (Seq::empty(), Seq::empty())
    } else {
        split_step(split_state(s.drop_last()), s.last())
    }
}

/// The maximal non-empty runs of non-whitespace characters of `s`, in
/// order: what `str::split_whitespace` yields.
pub open spec fn split_whitespace_seq(s: Seq<char>) -> Seq<Seq<char>> {
    let st = split_state(s);
    if st.1.len() > 0 {
        st.0.push(st.1)
    } else {
        st.0
    }
}

/// Letters and digits are lower-cased (ASCII only); everything else becomes a space.
pub open spec fn fold_char(c: char) -> char {
    if char_is_alphanumeric(c) {
        ascii_lower(c)
    } else {
        ' '
    }
}

/// `text` with every character folded by `fold_char`.
pub open spec fn folded(text: Seq<char>) -> Seq<char> {
    text.map_values(|c: char| fold_char(c))
}

/// The set of words of `text` longer than `min_bytes` bytes, where words are
/// the whitespace-separated pieces of the folded text.
pub open spec fn token_set(text: Seq<char>, min_bytes: nat) -> Set<Seq<char>> {
    Set::new(
        |w: Seq<char>| split_whitespace_seq(folded(text)).contains(w) && utf8_len(w) > min_bytes,
    )
}

/// The characters of each string of `v`.
pub open spec fn string_views(v: Seq<String>) -> Seq<Seq<char>> {
    v.map_values(|s: String| s@)
}

/// Whether `v` holds a string with the characters of `s`.
pub fn contains_string(v: &Vec<String>, s: &String) -> (b: bool)
    ensures
        b == string_views(v@).contains(s@),
{
    let mut i: usize = 0;
    while i < v.len()
        invariant
            i <= v.len(),
            forall|j: int| 0 <= j < i ==> v@[j]@ != s@,
        decreases v.len() - i,
    {
        if v[i] == *s {
            assert(string_views(v@)[i as int] == s@);
            return true;
        }
        i = i + 1;
    }
    proof {
        if string_views(v@).contains(s@) {
            let j = choose|j: int| 0 <= j < v@.len() && string_views(v@)[j] == s@;
            assert(v@[j]@ == s@);
        }
    }
    false
}

/// Membership in a sequence after one more element is pushed, and whether
/// it still holds each element once.
pub proof fn lemma_push_contains<T>(s: Seq<T>, x: T)
    ensures
        forall|w: T| #[trigger] s.push(x).contains(w) <==> (s.contains(w) || w == x),
        (s.no_duplicates() && !s.contains(x)) ==> s.push(x).no_duplicates(),
{
    assert forall|w: T| #[trigger] s.push(x).contains(w) <==> (s.contains(w) || w == x) by {
        if s.contains(w) {
            let j = choose|j: int| 0 <= j < s.len() && s[j] == w;
            assert(s.push(x)[j] == w);
        }
        if w == x {
            assert(s.push(x)[s.len() as int] == w);
        }
        if s.push(x).contains(w) {
            let j = choose|j: int| 0 <= j < s.push(x).len() && s.push(x)[j] == w;
            if j < s.len() {
                assert(s[j] == w);
            }
        }
    }
    if s.no_duplicates() && !s.contains(x) {
        assert forall|i: int, j: int|
            0 <= i < s.push(x).len() && 0 <= j < s.push(x).len() && i != j implies s.push(x)[i]
            != s.push(x)[j] by {
            if i == s.len() {
                assert(s[j] == s.push(x)[j]);
            } else if j == s.len() {
                assert(s[i] == s.push(x)[i]);
            }
        }
    }
}

/// Adds `word` to the set `set` when it is longer than `min_bytes` bytes.
fn add_word(set: &mut Vec<String>, word: &Vec<char>, min_bytes: usize)
    requires
        string_views(old(set)@).no_duplicates(),
    ensures
        string_views(final(set)@).no_duplicates(),
        forall|w: Seq<char>|
            string_views(final(set)@).contains(w) <==> (string_views(old(set)@).contains(w) || (w
                == word@ && utf8_len(word@) > min_bytes)),
{
    if utf8_len_exceeds(word, min_bytes) {
        let s = string_from_chars(word, 0, word.len());
        assert(word@.subrange(0, word@.len() as int) =~= word@);
        if !contains_string(set, &s) {
            let ghost before = string_views(set@);
            set.push(s);
            assert(string_views(set@) =~= before.push(word@));
            proof {
                lemma_push_contains(before, word@);
            }
        }
    }
}

/// `found` holds exactly the words of `done` longer than `min_bytes` bytes.
spec fn words_match(found: Seq<Seq<char>>, done: Seq<Seq<char>>, min_bytes: nat) -> bool {
    forall|w: Seq<char>| #[trigger] found.contains(w) <==> (done.contains(w) && utf8_len(w) > min_bytes)
}

/// The words of `text` longer than `min_bytes` bytes, each once.
pub(crate) fn word_set(text: &str, min_bytes: usize) -> (r: Vec<String>)
    ensures
        string_views(r@).no_duplicates(),
        string_views(r@).to_set() == token_set(text@, min_bytes as nat),
{
    let mut set: Vec<String> = Vec::new();
    let mut cur: Vec<char> = Vec::new();
    let ghost mut done: Seq<Seq<char>> = Seq::empty();
    let ghost f = folded(text@);
    for c in it: text.chars()
        invariant
            it.seq() == text@,
            f == folded(text@),
            (done, cur@) == split_state(f.take(it.index() as int)),
            string_views(set@).no_duplicates(),
            words_match(string_views(set@), done, min_bytes as nat),
    {
        let ghost i = it.index();
        let g = if is_alphanumeric(c) {
            to_ascii_lowercase(c)
        } else {
            ' '
        };
        proof {
            assert(0 <= i < text@.len());
            assert(c == text@[i]);
            assert(f.take(i + 1).drop_last() =~= f.take(i));
            assert(f.take(i + 1).last() == g);
            lemma_push_contains(done, cur@);
        }
        if is_whitespace(g) {
            if cur.len() > 0 {
                add_word(&mut set, &cur, min_bytes);
                proof {
                    let d2 = done.push(cur@);
                    assert forall|w: Seq<char>|
                        string_views(set@).contains(w) <==> (#[trigger] d2.contains(w)
                            && utf8_len(w) > min_bytes) by {}
                    assert(words_match(string_views(set@), d2, min_bytes as nat));
                    done = d2;
                }
            }
            cur = Vec::new();
        } else {
            cur.push(g);
        }
    }
    proof {
        assert(f.take(f.len() as int) =~= f);
    }
    if cur.len() > 0 {
        add_word(&mut set, &cur, min_bytes);
        proof {
            lemma_push_contains(done, cur@);
            let d2 = done.push(cur@);
            assert forall|w: Seq<char>|
                string_views(set@).contains(w) <==> (#[trigger] d2.contains(w) && utf8_len(w)
                    > min_bytes) by {}
            assert(words_match(string_views(set@), d2, min_bytes as nat));
            done = d2;
        }
    }
    proof {
        assert(done == split_whitespace_seq(f));
        assert forall|w: Seq<char>|
            #[trigger] string_views(set@).to_set().contains(w) <==> token_set(
                text@,
                min_bytes as nat,
            ).contains(w) by {
            assert(string_views(set@).to_set().contains(w) == string_views(set@).contains(w));
        }
        assert(string_views(set@).to_set() =~= token_set(text@, min_bytes as nat));
    }
    set
}

// ------------------------------------------------------------------------
// Laws of the word sets
// ------------------------------------------------------------------------

/// Characters that differ only in ASCII letter case fold alike.
pub proof fn lemma_fold_ignores_case(c: char, d: char)
    requires
        ascii_lower(c) == ascii_lower(d),
    ensures
        fold_char(c) == fold_char(d),
{
    if 'A' <= c && c <= 'Z' {
        assert((ascii_lower(c) as u32) == (c as u32) + 32);
    }
    if 'A' <= d && d <= 'Z' {
        assert((ascii_lower(d) as u32) == (d as u32) + 32);
    }
}

/// Texts that differ only in ASCII letter case fold to the same text.
pub proof fn lemma_folded_ignores_case(a: Seq<char>, b: Seq<char>)
    requires
        a.len() == b.len(),
        forall|i: int| 0 <= i < a.len() ==> ascii_lower(#[trigger] a[i]) == ascii_lower(b[i]),
    ensures
        folded(a) == folded(b),
{
    assert forall|i: int| 0 <= i < a.len() implies #[trigger] folded(a)[i] == folded(b)[i] by {
        lemma_fold_ignores_case(a[i], b[i]);
    }
    assert(folded(a) =~= folded(b));
}

/// Folding text joined by a space folds each side.
pub proof fn lemma_folded_joined(a: Seq<char>, b: Seq<char>)
    ensures
        folded(a + seq![' '] + b) == folded(a) + seq![' '] + folded(b),
{
    assert(fold_char(' ') == ' ');
    assert(folded(a + seq![' '] + b) =~= folded(a) + seq![' '] + folded(b));
}

/// Splitting text read after finished words and no word in progress.
proof fn lemma_split_state_after(p: Seq<char>, y: Seq<char>)
    requires
        split_state(p).1.len() == 0,
    ensures
        split_state(p + y) == (split_state(p).0 + split_state(y).0, split_state(y).1),
    decreases y.len(),
{
    if y.len() == 0 {
        assert(p + y =~= p);
        assert(split_state(p).0 + Seq::<Seq<char>>::empty() =~= split_state(p).0);
        assert(split_state(p).1 =~= Seq::<char>::empty());
    } else {
        lemma_split_state_after(p, y.drop_last());
        assert((p + y).drop_last() =~= p + y.drop_last());
        assert((p + y).last() == y.last());
        let d = split_state(p).0;
        let st = split_state(y.drop_last());
        assert((d + st.0).push(st.1) =~= d + st.0.push(st.1));
    }
}

/// The words of text joined by a space are the words of each side, in order.
pub proof fn lemma_split_joined(x: Seq<char>, y: Seq<char>)
    ensures
        split_whitespace_seq(x + seq![' '] + y) == split_whitespace_seq(x) + split_whitespace_seq(y),
{
    let p = x + seq![' '];
    assert(p.drop_last() =~= x);
    assert(char_is_whitespace(' '));
    assert(split_state(p).0 == split_whitespace_seq(x));
    lemma_split_state_after(p, y);
    let sy = split_state(y);
    let sw = split_whitespace_seq(x);
    if sy.1.len() > 0 {
        assert((sw + sy.0).push(sy.1) =~= sw + sy.0.push(sy.1));
    }
}

/// A text has finitely many words.
pub proof fn lemma_token_set_finite(text: Seq<char>, min_bytes: nat)
    ensures
        token_set(text, min_bytes).finite(),
{
    let s = split_whitespace_seq(folded(text));
    vstd::seq_lib::seq_to_set_is_finite(s);
    assert(token_set(text, min_bytes).subset_of(s.to_set()));
    vstd::set_lib::lemma_set_subset_finite(s.to_set(), token_set(text, min_bytes));
}

/// The word set of two texts joined by a space is the union of their word sets.
pub proof fn lemma_token_set_joined(a: Seq<char>, b: Seq<char>, min_bytes: nat)
    ensures
        token_set(a + seq![' '] + b, min_bytes) == token_set(a, min_bytes).union(token_set(b, min_bytes)),
{
    lemma_folded_joined(a, b);
    lemma_split_joined(folded(a), folded(b));
    let sa = split_whitespace_seq(folded(a));
    let sb = split_whitespace_seq(folded(b));
    assert forall|w: Seq<char>| #[trigger] (sa + sb).contains(w) <==> (sa.contains(w) || sb.contains(w)) by {
        if sa.contains(w) {
            let i = choose|i: int| 0 <= i < sa.len() && sa[i] == w;
            assert((sa + sb)[i] == w);
        }
        if sb.contains(w) {
            let i = choose|i: int| 0 <= i < sb.len() && sb[i] == w;
            assert((sa + sb)[sa.len() + i] == w);
        }
        if (sa + sb).contains(w) {
            let i = choose|i: int| 0 <= i < (sa + sb).len() && (sa + sb)[i] == w;
            if i < sa.len() {
                assert(sa[i] == w);
            } else {
                assert(sb[i - sa.len()] == w);
            }
        }
    }
    assert(token_set(a + seq![' '] + b, min_bytes) =~= token_set(a, min_bytes).union(token_set(b, min_bytes)));
}

// ------------------------------------------------------------------------
// Lower-casing, splitting at a separator, joining
// ------------------------------------------------------------------------

/// Whether every character of `s` is ASCII.
pub open spec fn all_ascii(s: Seq<char>) -> bool {
    forall|i: int| 0 <= i < s.len() ==> (#[trigger] s[i] as u32) < 0x80
}

/// What `str::to_lowercase` returns for text that is not all ASCII (Unicode
/// lower-casing, which may change the length); only named.
pub uninterp spec fn unicode_lowercase(s: Seq<char>) -> Seq<char>;

/// What `str::to_lowercase` returns for `s`: ASCII text has each letter
/// lower-cased; other text goes through the Unicode case tables, only named.
pub open spec fn lowercase(s: Seq<char>) -> Seq<char> {
    if all_ascii(s) {
        s.map_values(|c: char| ascii_lower(c))
    } else {
        unicode_lowercase(s)
    }
}

/// Calls `str::to_lowercase`: ASCII text has its letters lower-cased, other
/// text is only named.
#[verifier::external_body]
pub(crate) fn to_lowercase(s: &str) -> (r: String)
    ensures
        r@ == lowercase(s@),
        !all_ascii(s@) ==> r@ == unicode_lowercase(s@),
{
    s.to_lowercase()
}

// ------------------------------------------------------------------------
// ASCII text under trimming and lower-casing
// ------------------------------------------------------------------------

/// ASCII lower-casing keeps a character ASCII, keeps whether it is
/// whitespace, and does nothing the second time.
pub proof fn lemma_ascii_lower_char(c: char)
    ensures
        (c as u32) < 0x80 ==> (ascii_lower(c) as u32) < 0x80,
        char_is_whitespace(ascii_lower(c)) == char_is_whitespace(c),
        ascii_lower(ascii_lower(c)) == ascii_lower(c),
{
    if 'A' <= c && c <= 'Z' {
        assert((ascii_lower(c) as u32) == (c as u32) + 32);
    }
}

/// Trimming keeps text ASCII.
pub proof fn lemma_trim_keeps_ascii(s: Seq<char>)
    requires
        all_ascii(s),
    ensures
        all_ascii(trim_start_seq(s)),
        all_ascii(trim_seq(s)),
    decreases s.len(),
{
    if s.len() > 0 {
        assert(all_ascii(s.drop_first())) by {
            assert forall|i: int| 0 <= i < s.drop_first().len() implies (#[trigger] s.drop_first()[i] as u32) < 0x80 by {
                assert(s.drop_first()[i] == s[i + 1]);
            }
        }
        lemma_trim_keeps_ascii(s.drop_first());
    }
    lemma_trim_end_keeps_ascii(trim_start_seq(s));
}

proof fn lemma_trim_end_keeps_ascii(s: Seq<char>)
    requires
        all_ascii(s),
    ensures
        all_ascii(trim_end_seq(s)),
    decreases s.len(),
{
    if s.len() > 0 {
        assert(all_ascii(s.drop_last())) by {
            assert forall|i: int| 0 <= i < s.drop_last().len() implies (#[trigger] s.drop_last()[i] as u32) < 0x80 by {
                assert(s.drop_last()[i] == s[i]);
            }
        }
        lemma_trim_end_keeps_ascii(s.drop_last());
    }
}

/// What `trim_end_seq` keeps is a prefix; what `trim_start_seq` keeps does
/// not start with whitespace.
proof fn lemma_trim_shapes(s: Seq<char>)
    ensures
        trim_end_seq(s) == s.take(trim_end_seq(s).len() as int),
        trim_end_seq(s).len() <= s.len(),
        trim_end_seq(s).len() > 0 ==> !char_is_whitespace(trim_end_seq(s).last()),
        trim_start_seq(s).len() > 0 ==> !char_is_whitespace(trim_start_seq(s)[0]),
    decreases s.len(),
{
    if s.len() > 0 {
        lemma_trim_shapes(s.drop_last());
        lemma_trim_shapes(s.drop_first());
        if char_is_whitespace(s.last()) {
            let u = trim_end_seq(s.drop_last());
            assert(s.drop_last().take(u.len() as int) =~= s.take(u.len() as int));
        } else {
            assert(s.take(s.len() as int) =~= s);
        }
    } else {
        assert(s.take(0) =~= s);
    }
}

/// Trimmed text has no whitespace at either end.
pub proof fn lemma_trimmed_ends(s: Seq<char>)
    ensures
        trim_seq(s).len() > 0 ==> !char_is_whitespace(trim_seq(s)[0]) && !char_is_whitespace(
            trim_seq(s).last(),
        ),
{
    let t = trim_start_seq(s);
    lemma_trim_shapes(s);
    lemma_trim_shapes(t);
    let u = trim_end_seq(t);
    if u.len() > 0 {
        assert(u[0] == t.take(u.len() as int)[0]);
    }
}

/// Text without whitespace at either end is its own trimming.
pub proof fn lemma_trim_fixed(x: Seq<char>)
    requires
        x.len() == 0 || (!char_is_whitespace(x[0]) && !char_is_whitespace(x.last())),
    ensures
        trim_seq(x) == x,
{
}

/// Trimmed ASCII text, lower-cased, is trimmed and lower-cased: trimming
/// or lower-casing it again gives it back.
pub proof fn lemma_ascii_lowered_trimmed(p: Seq<char>)
    requires
        all_ascii(p),
    ensures
        all_ascii(lowercase(trim_seq(p))),
        trim_seq(lowercase(trim_seq(p))) == lowercase(trim_seq(p)),
        lowercase(lowercase(trim_seq(p))) == lowercase(trim_seq(p)),
{
    let t = trim_seq(p);
    lemma_trim_keeps_ascii(p);
    lemma_trimmed_ends(p);
    let x = t.map_values(|c: char| ascii_lower(c));
    assert(lowercase(t) == x);
    assert forall|i: int| 0 <= i < x.len() implies (#[trigger] x[i] as u32) < 0x80 by {
        lemma_ascii_lower_char(t[i]);
    }
    if x.len() > 0 {
        lemma_ascii_lower_char(t[0]);
        lemma_ascii_lower_char(t.last());
        assert(x.last() == ascii_lower(t.last()));
    }
    lemma_trim_fixed(x);
    let y = x.map_values(|c: char| ascii_lower(c));
    assert forall|i: int| 0 <= i < x.len() implies #[trigger] y[i] == x[i] by {
        lemma_ascii_lower_char(t[i]);
    }
    assert(y =~= x);
}

/// Appends the characters of `t` to `s`.
pub fn append_str(s: &mut String, t: &str)
    ensures
        final(s)@ == old(s)@ + t@,
{
    let v = chars_of(t);
    let mut i: usize = 0;
    while i < v.len()
        invariant
            v@ == t@,
            i <= v.len(),
            s@ == old(s)@ + t@.take(i as int),
        decreases v.len() - i,
    {
        push_char(s, v[i]);
        assert(old(s)@ + t@.take(i + 1) =~= (old(s)@ + t@.take(i as int)).push(t@[i as int]));
        i = i + 1;
    }
    assert(t@.take(t@.len() as int) =~= t@);
}

/// The state of splitting `s` at `sep` after reading all of it: the
/// finished pieces and the piece being read.
pub open spec fn split_on_state(s: Seq<char>, sep: char) -> (Seq<Seq<char>>, Seq<char>)
    decreases s.len(),
{
    if s.len() == 0 {
        (Seq::empty(), Seq::empty())
    } else {
        let st = split_on_state(s.drop_last(), sep);
        if s.last() == sep {
            (st.0.push(st.1), Seq::empty())
        } else {
            (st.0, st.1.push(s.last()))
        }
    }
}

/// The pieces of `s` between occurrences of `sep`, empty ones included:
/// what `str::split` with a character yields.
pub open spec fn split_on(s: Seq<char>, sep: char) -> Seq<Seq<char>> {
    let st = split_on_state(s, sep);
    st.0.push(st.1)
}

/// The pieces of `s` between occurrences of `sep`.
pub fn split_char(s: &str, sep: char) -> (r: Vec<String>)
    ensures
        string_views(r@) == split_on(s@, sep),
{
    let v = chars_of(s);
    let mut pieces: Vec<String> = Vec::new();
    let mut start: usize = 0;
    let mut i: usize = 0;
    while i < v.len()
        invariant
            v@ == s@,
            start <= i <= v.len(),
            (string_views(pieces@), v@.subrange(start as int, i as int)) == split_on_state(
                v@.take(i as int),
                sep,
            ),
        decreases v.len() - i,
    {
        assert(v@.take(i + 1).drop_last() =~= v@.take(i as int));
        if v[i] == sep {
            let piece = string_from_chars(&v, start, i);
            let ghost before = pieces@;
            pieces.push(piece);
            assert(string_views(pieces@) =~= string_views(before).push(piece@));
            start = i + 1;
            assert(v@.subrange(start as int, i + 1) =~= Seq::<char>::empty());
        } else {
            assert(v@.subrange(start as int, i + 1) =~= v@.subrange(start as int, i as int).push(
                v@[i as int],
            ));
        }
        i = i + 1;
    }
    let last = string_from_chars(&v, start, v.len());
    let ghost before = pieces@;
    pieces.push(last);
    assert(string_views(pieces@) =~= string_views(before).push(last@));
    assert(v@.take(v.len() as int) =~= v@);
    pieces
}

/// `parts` joined with `sep` between consecutive parts.
pub open spec fn join(parts: Seq<Seq<char>>, sep: Seq<char>) -> Seq<char>
    decreases parts.len(),
{
    if parts.len() == 0 {
        Seq::empty()
    } else if parts.len() == 1 {
        parts[0]
    } else {
        join(parts.drop_last(), sep) + sep + parts.last()
    }
}

/// `parts` joined with `sep` between consecutive parts.
pub fn join_strings(parts: &Vec<String>, sep: &str) -> (r: String)
    ensures
        r@ == join(string_views(parts@), sep@),
{
    let mut r = String::new();
    let mut i: usize = 0;
    while i < parts.len()
        invariant
            i <= parts.len(),
            r@ == join(string_views(parts@).take(i as int), sep@),
        decreases parts.len() - i,
    {
        assert(string_views(parts@).take(i + 1).drop_last() =~= string_views(parts@).take(
            i as int,
        ));
        if i > 0 {
            append_str(&mut r, sep);
        } else {
            assert(r@ =~= Seq::<char>::empty());
        }
        append_str(&mut r, parts[i].as_str());
        i = i + 1;
    }
    assert(string_views(parts@).take(parts.len() as int) =~= string_views(parts@));
    r
}

/// How many words of `words` are also in `other`, counting each word once.
pub fn count_shared(words: &Vec<String>, other: &Vec<String>) -> (n: usize)
    requires
        string_views(words@).no_duplicates(),
    ensures
        n == string_views(words@).to_set().intersect(string_views(other@).to_set()).len(),
{
    broadcast use {vstd::set::group_set_axioms, vstd::seq_lib::seq_to_set_is_finite};

    let ghost w = string_views(words@);
    let ghost h = string_views(other@).to_set();
    let mut n: usize = 0;
    let mut i: usize = 0;
    assert(w.take(0).to_set() =~= Set::<Seq<char>>::empty());
    assert(Set::<Seq<char>>::empty().intersect(h) =~= Set::<Seq<char>>::empty());
    while i < words.len()
        invariant
            w == string_views(words@),
            h == string_views(other@).to_set(),
            w.no_duplicates(),
            i <= words.len(),
            n <= i,
            n == w.take(i as int).to_set().intersect(h).len(),
        decreases words.len() - i,
    {
        let ghost before = w.take(i as int).to_set();
        assert(w.take(i + 1).to_set() =~= before.insert(w[i as int])) by {
            assert(w.take(i + 1) =~= w.take(i as int).push(w[i as int]));
            lemma_push_contains(w.take(i as int), w[i as int]);
        }
        assert(!before.contains(w[i as int])) by {
            if before.contains(w[i as int]) {
                let j = choose|j: int| 0 <= j < i && w.take(i as int)[j] == w[i as int];
                assert(w[j] == w[i as int]);
            }
        }
        assert(w[i as int] == words@[i as int]@);
        if contains_string(other, &words[i]) {
            assert(before.insert(w[i as int]).intersect(h) =~= before.intersect(h).insert(
                w[i as int],
            ));
            n = n + 1;
        } else {
            assert(before.insert(w[i as int]).intersect(h) =~= before.intersect(h));
        }
        i = i + 1;
    }
    assert(w.take(words.len() as int) =~= w);
    n
}

// ------------------------------------------------------------------------
// Lexicographic order
// ------------------------------------------------------------------------

/// `a` comes before `b` in lexicographic order of code points, the order
/// `String`'s `Ord` uses.
pub open spec fn char_seq_less(a: Seq<char>, b: Seq<char>) -> bool
    decreases a.len(),
{
    if a.len() == 0 {
        b.len() > 0
    } else if b.len() == 0 {
        false
    } else if a[0] != b[0] {
        (a[0] as u32) < (b[0] as u32)
    } else {
        char_seq_less(a.drop_first(), b.drop_first())
    }
}

/// Each element comes strictly before the next.
pub open spec fn strictly_sorted(s: Seq<Seq<char>>) -> bool {
    forall|i: int, j: int| 0 <= i < j < s.len() ==> char_seq_less(#[trigger] s[i], #[trigger] s[j])
}

/// No sequence comes before itself.
pub proof fn lemma_less_irreflexive(a: Seq<char>)
    ensures
        !char_seq_less(a, a),
    decreases a.len(),
{
    if a.len() > 0 {
        lemma_less_irreflexive(a.drop_first());
    }
}

/// Of two different sequences, one comes before the other.
pub proof fn lemma_less_total(a: Seq<char>, b: Seq<char>)
    requires
        a != b,
    ensures
        char_seq_less(a, b) || char_seq_less(b, a),
    decreases a.len(),
{
    if a.len() == 0 {
        assert(b.len() > 0) by {
            if b.len() == 0 {
                assert(a =~= b);
            }
        }
    } else if b.len() == 0 {
    } else if a[0] != b[0] {
        vstd::utf8::char_u32_cast(a[0], a[0] as u32);
        vstd::utf8::char_u32_cast(b[0], b[0] as u32);
        assert((a[0] as u32) != (b[0] as u32));
    } else {
        if a.drop_first() == b.drop_first() {
            assert(a =~= seq![a[0]] + a.drop_first());
            assert(b =~= seq![b[0]] + b.drop_first());
        }
        lemma_less_total(a.drop_first(), b.drop_first());
    }
}

/// The order is transitive.
pub proof fn lemma_less_transitive(a: Seq<char>, b: Seq<char>, c: Seq<char>)
    requires
        char_seq_less(a, b),
        char_seq_less(b, c),
    ensures
        char_seq_less(a, c),
    decreases a.len(),
{
    if a.len() > 0 && b.len() > 0 && c.len() > 0 && a[0] == b[0] && b[0] == c[0] {
        lemma_less_transitive(a.drop_first(), b.drop_first(), c.drop_first());
    }
}

/// Whether `a` comes before `b` in lexicographic order.
pub fn str_less(a: &str, b: &str) -> (r: bool)
    ensures
        r == char_seq_less(a@, b@),
{
    let x = chars_of(a);
    let y = chars_of(b);
    let mut i: usize = 0;
    assert(x@.skip(0) =~= x@);
    assert(y@.skip(0) =~= y@);
    while i < x.len() && i < y.len()
        invariant
            x@ == a@,
            y@ == b@,
            i <= x.len(),
            i <= y.len(),
            char_seq_less(a@, b@) == char_seq_less(x@.skip(i as int), y@.skip(i as int)),
        decreases x.len() - i,
    {
        assert(x@.skip(i as int)[0] == x@[i as int]);
        assert(y@.skip(i as int)[0] == y@[i as int]);
        if x[i] != y[i] {
            return (x[i] as u32) < (y[i] as u32);
        }
        assert(x@.skip(i as int).drop_first() =~= x@.skip(i + 1));
        assert(y@.skip(i as int).drop_first() =~= y@.skip(i + 1));
        i = i + 1;
    }
    i < y.len()
}

/// Adds `s` to the strictly sorted list `v` unless it is already there.
pub fn insert_sorted_unique(v: &mut Vec<String>, s: String)
    requires
        strictly_sorted(string_views(old(v)@)),
    ensures
        strictly_sorted(string_views(final(v)@)),
        string_views(final(v)@).to_set() == string_views(old(v)@).to_set().insert(s@),
{
    let ghost w = string_views(v@);
    let mut p: usize = 0;
    while p < v.len() && str_less(v[p].as_str(), s.as_str())
        invariant
            p <= v.len(),
            w == string_views(v@),
            forall|k: int| 0 <= k < p ==> char_seq_less(#[trigger] w[k], s@),
        decreases v.len() - p,
    {
        p = p + 1;
    }
    if p < v.len() && v[p] == s {
        assert(w[p as int] == s@);
        assert(w.to_set().insert(s@) =~= w.to_set());
        return;
    }
    proof {
        if p < w.len() {
            assert(!char_seq_less(w[p as int], s@));
            assert(w[p as int] != s@);
            lemma_less_total(w[p as int], s@);
        }
    }
    let ghost sv = s@;
    v.insert(p, s);
    proof {
        let u = string_views(v@);
        assert(u =~= w.insert(p as int, sv));
        assert forall|i: int, j: int| 0 <= i < j < u.len() implies char_seq_less(
            #[trigger] u[i],
            #[trigger] u[j],
        ) by {
            if j < p {
                assert(u[i] == w[i] && u[j] == w[j]);
            } else if j == p {
                assert(u[i] == w[i]);
            } else if i == p {
                assert(u[j] == w[j - 1]);
                if j - 1 > p {
                    assert(char_seq_less(w[p as int], w[j - 1]));
                    lemma_less_transitive(sv, w[p as int], w[j - 1]);
                }
            } else if i < p {
                assert(u[i] == w[i] && u[j] == w[j - 1]);
            } else {
                assert(u[i] == w[i - 1] && u[j] == w[j - 1]);
            }
        }
        assert forall|x: Seq<char>| #[trigger] u.to_set().contains(x) <==> w.to_set().insert(
            sv,
        ).contains(x) by {
            if u.contains(x) {
                let k = choose|k: int| 0 <= k < u.len() && u[k] == x;
                if k < p {
                    assert(w[k] == x);
                } else if k > p {
                    assert(w[k - 1] == x);
                }
            }
            if w.contains(x) {
                let k = choose|k: int| 0 <= k < w.len() && w[k] == x;
                if k < p {
                    assert(u[k] == x);
                } else {
                    assert(u[k + 1] == x);
                }
            }
            if x == sv {
                assert(u[p as int] == x);
            }
        }
        assert(u.to_set() =~= w.to_set().insert(sv));
    }
}

/// The whitespace-separated pieces of `s`, in order.
pub fn split_whitespace(s: &str) -> (r: Vec<String>)
    ensures
        string_views(r@) == split_whitespace_seq(s@),
{
    let mut done: Vec<String> = Vec::new();
    let mut cur: Vec<char> = Vec::new();
    for c in it: s.chars()
        invariant
            it.seq() == s@,
            (string_views(done@), cur@) == split_state(s@.take(it.index() as int)),
    {
        let ghost i = it.index();
        proof {
            assert(s@.take(i + 1).drop_last() =~= s@.take(i));
            assert(s@.take(i + 1).last() == c);
        }
        if is_whitespace(c) {
            if cur.len() > 0 {
                let w = string_from_chars(&cur, 0, cur.len());
                assert(cur@.subrange(0, cur@.len() as int) =~= cur@);
                let ghost before = done@;
                done.push(w);
                assert(string_views(done@) =~= string_views(before).push(cur@));
            }
            cur = Vec::new();
        } else {
            cur.push(c);
        }
    }
    assert(s@.take(s@.len() as int) =~= s@);
    if cur.len() > 0 {
        let w = string_from_chars(&cur, 0, cur.len());
        assert(cur@.subrange(0, cur@.len() as int) =~= cur@);
        let ghost before = done@;
        done.push(w);
        assert(string_views(done@) =~= string_views(before).push(cur@));
    }
    done
}

/// `s` without leading occurrences of `c`.
pub open spec fn strip_start_char(s: Seq<char>, c: char) -> Seq<char>
    decreases s.len(),
{
    if s.len() > 0 && s[0] == c {
        strip_start_char(s.drop_first(), c)
    } else {
        s
    }
}

/// `s` without trailing occurrences of `c`.
pub open spec fn strip_end_char(s: Seq<char>, c: char) -> Seq<char>
    decreases s.len(),
{
    if s.len() > 0 && s.last() == c {
        strip_end_char(s.drop_last(), c)
    } else {
        s
    }
}

/// `s` without leading and trailing occurrences of `c`, as `str::trim_matches` with a character.
pub open spec fn trim_matches_seq(s: Seq<char>, c: char) -> Seq<char> {
    strip_end_char(strip_start_char(s, c), c)
}

proof fn lemma_strip_start_at(s: Seq<char>, c: char, a: int)
    requires
        0 <= a <= s.len(),
        forall|i: int| 0 <= i < a ==> #[trigger] s[i] == c,
        a < s.len() ==> s[a] != c,
    ensures
        strip_start_char(s, c) == s.subrange(a, s.len() as int),
    decreases a,
{
    if a == 0 {
        assert(s.subrange(0, s.len() as int) =~= s);
    } else {
        let t = s.drop_first();
        assert forall|i: int| 0 <= i < a - 1 implies #[trigger] t[i] == c by {
            assert(t[i] == s[i + 1]);
        }
        lemma_strip_start_at(t, c, a - 1);
        assert(t.subrange(a - 1, t.len() as int) =~= s.subrange(a, s.len() as int));
    }
}

proof fn lemma_strip_end_at(s: Seq<char>, c: char, b: int)
    requires
        0 <= b <= s.len(),
        forall|i: int| b <= i < s.len() ==> #[trigger] s[i] == c,
        b > 0 ==> s[b - 1] != c,
    ensures
        strip_end_char(s, c) == s.subrange(0, b),
    decreases s.len() - b,
{
    if b == s.len() {
        assert(s.subrange(0, b) =~= s);
    } else {
        let t = s.drop_last();
        lemma_strip_end_at(t, c, b);
        assert(t.subrange(0, b) =~= s.subrange(0, b));
    }
}

/// `s` without leading and trailing occurrences of `c`.
pub fn trim_char(s: &str, c: char) -> (r: String)
    ensures
        r@ == trim_matches_seq(s@, c),
{
    let v = chars_of(s);
    let n = v.len();
    let mut a: usize = 0;
    while a < n && v[a] == c
        invariant
            a <= n == v.len(),
            forall|i: int| 0 <= i < a ==> #[trigger] v@[i] == c,
        decreases n - a,
    {
        a = a + 1;
    }
    let mut b: usize = n;
    while b > a && v[b - 1] == c
        invariant
            a <= b <= n == v.len(),
            forall|i: int| b <= i < n ==> #[trigger] v@[i] == c,
        decreases b - a,
    {
        b = b - 1;
    }
    proof {
        lemma_strip_start_at(v@, c, a as int);
        let t = v@.subrange(a as int, n as int);
        assert forall|i: int| b - a <= i < t.len() implies #[trigger] t[i] == c by {
            assert(t[i] == v@[a + i]);
        }
        if b > a {
            assert(t[b - a - 1] == v@[b - 1]);
        }
        lemma_strip_end_at(t, c, b - a);
        assert(t.subrange(0, b - a) =~= v@.subrange(a as int, b as int));
    }
    string_from_chars(&v, a, b)
}

} // verus!
