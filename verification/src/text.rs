//! Strings as sequences of characters: searching, splitting, trimming, joining
//! and number rendering, each with a specification over `Seq<char>`.

use vstd::prelude::*;
use vstd::slice::slice_subrange;
use vstd::string::StringExecFns;

use crate::models::opt_text;

verus! {

/// `String::push` appends the given character to the end of the string.
pub assume_specification[ String::push ](s: &mut String, c: char)
    ensures
        final(s)@ == old(s)@.push(c),
;

/// The Unicode lower-case form of a text, as `str::to_lowercase` computes it.
pub uninterp spec fn lowercase(s: Seq<char>) -> Seq<char>;

/// `str::to_lowercase`: the lower-case form depends on the characters alone.
pub assume_specification[ str::to_lowercase ](s: &str) -> (r: String)
    ensures
        r@ == lowercase(s@),
;

/// Whether a character is alphabetic or numeric in Unicode, as
/// `char::is_alphanumeric` answers it.
pub uninterp spec fn alphanumeric_char(c: char) -> bool;

/// `char::is_alphanumeric`: the answer depends on the character alone.
pub assume_specification[ char::is_alphanumeric ](c: char) -> (b: bool)
    ensures
        b == alphanumeric_char(c),
;

/// Whether a character is alphabetic in Unicode, as `char::is_alphabetic`
/// answers it.
pub uninterp spec fn alphabetic_char(c: char) -> bool;

/// `char::is_alphabetic`: the answer depends on the character alone.
pub assume_specification[ char::is_alphabetic ](c: char) -> (b: bool)
    ensures
        b == alphabetic_char(c),
;

/// Whether a character is numeric in Unicode, as `char::is_numeric` answers it.
pub uninterp spec fn numeric_char(c: char) -> bool;

/// `char::is_numeric`: the answer depends on the character alone.
pub assume_specification[ char::is_numeric ](c: char) -> (b: bool)
    ensures
        b == numeric_char(c),
;

/// Whether a character is upper case in Unicode, as `char::is_uppercase`
/// answers it.
pub uninterp spec fn uppercase_char(c: char) -> bool;

/// `char::is_uppercase`: the answer depends on the character alone.
pub assume_specification[ char::is_uppercase ](c: char) -> (b: bool)
    ensures
        b == uppercase_char(c),
;

/// The characters with the Unicode property `White_Space`.
pub open spec fn is_whitespace(c: char) -> bool {
    ||| '\u{9}' <= c <= '\u{d}'
    ||| c == ' '
    ||| c == '\u{85}'
    ||| c == '\u{a0}'
    ||| c == '\u{1680}'
    ||| '\u{2000}' <= c <= '\u{200a}'
    ||| c == '\u{2028}'
    ||| c == '\u{2029}'
    ||| c == '\u{202f}'
    ||| c == '\u{205f}'
    ||| c == '\u{3000}'
}

/// A set of characters by which texts are trimmed and split.
#[derive(Clone, Copy)]
pub enum CharClass {
    /// Exactly one character.
    One(char),
    /// Any of three characters.
    Three(char, char, char),
    /// White space.
    White,
    /// Everything that is not alphanumeric.
    NonAlphanumeric,
    /// Everything that is neither alphanumeric nor the given character.
    NonAlphanumericBut(char),
}

impl CharClass {
    pub open spec fn has(self, c: char) -> bool {
        match self {
            CharClass::One(d) => c == d,
            CharClass::Three(d, e, f) => c == d || c == e || c == f,
            CharClass::White => is_whitespace(c),
            CharClass::NonAlphanumeric => !alphanumeric_char(c),
            CharClass::NonAlphanumericBut(d) => !alphanumeric_char(c) && c != d,
        }
    }

    pub fn holds(self, c: char) -> (b: bool)
        ensures
            b == self.has(c),
    {
        match self {
            CharClass::One(d) => c == d,
            CharClass::Three(d, e, f) => c == d || c == e || c == f,
            CharClass::White => {
                ('\u{9}' <= c && c <= '\u{d}') || c == ' ' || c == '\u{85}' || c == '\u{a0}'
                    || c == '\u{1680}' || ('\u{2000}' <= c && c <= '\u{200a}') || c == '\u{2028}'
                    || c == '\u{2029}' || c == '\u{202f}' || c == '\u{205f}' || c == '\u{3000}'
            },
            CharClass::NonAlphanumeric => !c.is_alphanumeric(),
            CharClass::NonAlphanumericBut(d) => !c.is_alphanumeric() && c != d,
        }
    }
}

/// The characters of a string.
pub fn chars(s: &str) -> (r: Vec<char>)
    ensures
        r@ == s@,
{
    let mut r: Vec<char> = Vec::new();
    for c in it: s.chars()
        invariant
            it.seq() == s@,
            r@ == s@.take(it.index() as int),
    {
        r.push(c);
    }
    r
}

/// The string with the given characters.
pub fn string(v: &[char]) -> (r: String)
    ensures
        r@ == v@,
{
    let mut r = String::new();
    let mut i: usize = 0;
    while i < v.len()
        invariant
            i <= v.len(),
            r@ == v@.take(i as int),
        decreases v.len() - i,
    {
        r.push(v[i]);
        i += 1;
    }
    r
}

/// The texts of a sequence of strings.
pub open spec fn views(v: Seq<String>) -> Seq<Seq<char>> {
    v.map_values(|s: String| s@)
}

/// The texts of a sequence of string slices.
pub open spec fn str_views(v: Seq<&str>) -> Seq<Seq<char>> {
    v.map_values(|s: &str| s@)
}

// ---------------------------------------------------------------- equality

/// Whether two strings hold the same characters.
pub fn same(a: &str, b: &str) -> (r: bool)
    ensures
        r == (a@ == b@),
{
    let x = a.to_owned();
    let y = b.to_owned();
    x == y
}

/// Whether a text is one of the texts of a list.
pub fn is_one_of(s: &str, list: &[&str]) -> (r: bool)
    ensures
        r == str_views(list@).contains(s@),
{
    let mut i: usize = 0;
    while i < list.len()
        invariant
            i <= list.len(),
            forall|j: int| 0 <= j < i ==> str_views(list@)[j] != s@,
        decreases list.len() - i,
    {
        if same(s, list[i]) {
            assert(str_views(list@)[i as int] == s@);
            return true;
        }
        i += 1;
    }
    false
}

/// Whether a text is among the strings of a list.
pub fn is_among(s: &str, list: &[String]) -> (r: bool)
    ensures
        r == views(list@).contains(s@),
{
    let mut i: usize = 0;
    while i < list.len()
        invariant
            i <= list.len(),
            forall|j: int| 0 <= j < i ==> views(list@)[j] != s@,
        decreases list.len() - i,
    {
        if same(s, list[i].as_str()) {
            assert(views(list@)[i as int] == s@);
            return true;
        }
        i += 1;
    }
    false
}

// --------------------------------------------------------------- searching

/// `p` stands in `s` at index `i`.
pub open spec fn occurs_at(s: Seq<char>, p: Seq<char>, i: int) -> bool {
    0 <= i && i + p.len() <= s.len() && s.subrange(i, i + p.len()) == p
}

/// `p` stands somewhere in `s`.
pub open spec fn contains(s: Seq<char>, p: Seq<char>) -> bool {
    exists|i: int| occurs_at(s, p, i)
}

/// Some text of the list stands in `s`.
pub open spec fn contains_any(s: Seq<char>, list: Seq<Seq<char>>) -> bool {
    exists|k: int| 0 <= k < list.len() && contains(s, #[trigger] list[k])
}

/// The first index at which `p` stands in `s`.
pub open spec fn is_first(s: Seq<char>, p: Seq<char>, i: int) -> bool {
    occurs_at(s, p, i) && forall|j: int| 0 <= j < i ==> !occurs_at(s, p, j)
}

/// The first index at which `p` stands in `s`, if it stands there at all.
pub open spec fn find(s: Seq<char>, p: Seq<char>) -> Option<int> {
    if contains(s, p) {
        Some(choose|i: int| is_first(s, p, i))
    } else {
        None
    }
}

/// There is a first occurrence of every text that occurs, and only one.
pub proof fn lemma_find(s: Seq<char>, p: Seq<char>)
    ensures
        find(s, p) is Some <==> contains(s, p),
        find(s, p) matches Some(i) ==> is_first(s, p, i),
        forall|i: int| is_first(s, p, i) ==> find(s, p) == Some(i),
{
    if contains(s, p) {
        let i = choose|i: int| occurs_at(s, p, i);
        lemma_first_up_to(s, p, i);
        let f = choose|i: int| is_first(s, p, i);
        assert(is_first(s, p, f));
        assert forall|i: int| is_first(s, p, i) implies find(s, p) == Some(i) by {
            if i < f {
                assert(!occurs_at(s, p, i));
            } else if f < i {
                assert(!occurs_at(s, p, f));
            }
        }
    } else {
        assert forall|i: int| is_first(s, p, i) implies find(s, p) == Some(i) by {
            assert(occurs_at(s, p, i));
        }
    }
}

proof fn lemma_first_up_to(s: Seq<char>, p: Seq<char>, i: int)
    requires
        occurs_at(s, p, i),
    ensures
        exists|f: int| is_first(s, p, f),
    decreases i,
{
    if forall|j: int| 0 <= j < i ==> !occurs_at(s, p, j) {
        assert(is_first(s, p, i));
    } else {
        let j = choose|j: int| 0 <= j < i && occurs_at(s, p, j);
        lemma_first_up_to(s, p, j);
    }
}

/// Whether `p` stands in `s` at index `i`.
pub fn matches_at(s: &[char], p: &[char], i: usize) -> (r: bool)
    ensures
        r == occurs_at(s@, p@, i as int),
{
    if p.len() > s.len() || i > s.len() - p.len() {
        return false;
    }
    let mut k: usize = 0;
    while k < p.len()
        invariant
            i + p.len() <= s.len(),
            k <= p.len(),
            forall|j: int| 0 <= j < k ==> s@[i + j] == p@[j],
        decreases p.len() - k,
    {
        if s[i + k] != p[k] {
            assert(s@.subrange(i as int, i + p.len())[k as int] != p@[k as int]);
            return false;
        }
        k += 1;
    }
    assert(s@.subrange(i as int, i + p.len()) =~= p@);
    true
}

/// The first index at which `p` stands in `s`.
pub fn find_chars(s: &[char], p: &[char]) -> (r: Option<usize>)
    ensures
        match r {
            Some(i) => find(s@, p@) == Some(i as int) && i + p.len() <= s.len(),
            None => find(s@, p@) is None,
        },
{
    proof {
        lemma_find(s@, p@);
    }
    if p.len() > s.len() {
        return None;
    }
    let last: usize = s.len() - p.len();
    let mut i: usize = 0;
    while i < last
        invariant
            i <= last == s.len() - p.len(),
            forall|j: int| 0 <= j < i ==> !occurs_at(s@, p@, j),
            forall|j: int| is_first(s@, p@, j) ==> find(s@, p@) == Some(j),
        decreases last - i,
    {
        if matches_at(s, p, i) {
            assert(is_first(s@, p@, i as int));
            return Some(i);
        }
        i += 1;
    }
    if matches_at(s, p, last) {
        assert(is_first(s@, p@, last as int));
        Some(last)
    } else {
        None
    }
}

/// Whether `p` stands in `s`.
pub fn has(s: &str, p: &str) -> (r: bool)
    ensures
        r == contains(s@, p@),
{
    proof {
        lemma_find(s@, p@);
    }
    let sc = chars(s);
    let pc = chars(p);
    match find_chars(&sc, &pc) {
        Some(_) => true,
        None => false,
    }
}

/// Whether some text of the list stands in `s`.
pub fn has_any(s: &str, list: &[&str]) -> (r: bool)
    ensures
        r == contains_any(s@, str_views(list@)),
{
    let mut i: usize = 0;
    while i < list.len()
        invariant
            i <= list.len(),
            forall|k: int| 0 <= k < i ==> !contains(s@, #[trigger] str_views(list@)[k]),
        decreases list.len() - i,
    {
        if has(s, list[i]) {
            assert(contains(s@, str_views(list@)[i as int]));
            return true;
        }
        i += 1;
    }
    false
}

/// Whether `s` begins with `p`.
pub fn starts_with(s: &str, p: &str) -> (r: bool)
    ensures
        r == p@.is_prefix_of(s@),
{
    let sc = chars(s);
    let pc = chars(p);
    matches_at(&sc, &pc, 0)
}

/// Whether `s` ends with `p`.
pub fn ends_with(s: &str, p: &str) -> (r: bool)
    ensures
        r == p@.is_suffix_of(s@),
{
    let sc = chars(s);
    let pc = chars(p);
    if pc.len() > sc.len() {
        return false;
    }
    assert(sc@.len() - pc@.len() + pc@.len() == sc@.len());
    matches_at(&sc, &pc, sc.len() - pc.len())
}

/// A text begins with a single character exactly if that is its first.
pub proof fn lemma_one_char_prefix(s: Seq<char>, p: Seq<char>)
    requires
        p.len() == 1,
    ensures
        p.is_prefix_of(s) <==> s.len() > 0 && s[0] == p[0],
{
    if s.len() > 0 {
        assert(s.subrange(0, 1)[0] == s[0]);
        if s[0] == p[0] {
            assert(p =~= s.subrange(0, 1));
        }
    }
}

/// What follows `p` in a text that begins with it.
pub fn strip_prefix(s: &str, p: &str) -> (r: Option<String>)
    ensures
        match r {
            Some(t) => p@.is_prefix_of(s@) && t@ == s@.skip(p@.len() as int),
            None => !p@.is_prefix_of(s@),
        },
{
    let sc = chars(s);
    let pc = chars(p);
    if matches_at(&sc, &pc, 0) {
        Some(string(slice_subrange(&sc, pc.len(), sc.len())))
    } else {
        None
    }
}

/// How often `p` stands in `s`, occurrences taken from the left without overlap.
pub open spec fn occurrences(s: Seq<char>, p: Seq<char>) -> nat
    decreases s.len(),
{
    if p.len() == 0 || s.len() < p.len() {
        0
    } else if p.is_prefix_of(s) {
        1 + occurrences(s.skip(p.len() as int), p)
    } else {
        occurrences(s.skip(1), p)
    }
}

/// How often a non-empty `p` stands in `s`.
pub fn count_matches(s: &str, p: &str) -> (r: usize)
    requires
        p@.len() > 0,
    ensures
        r == occurrences(s@, p@),
{
    let sc = chars(s);
    let pc = chars(p);
    let mut i: usize = 0;
    let mut n: usize = 0;
    assert(s@.skip(0) =~= s@);
    while i < sc.len() && pc.len() <= sc.len() - i
        invariant
            sc@ == s@,
            pc@ == p@,
            pc.len() > 0,
            n <= i <= sc.len(),
            n + occurrences(s@.skip(i as int), p@) == occurrences(s@, p@),
        decreases sc.len() - i,
    {
        let ghost rest = s@.skip(i as int);
        assert(p@.is_prefix_of(rest) <==> occurs_at(s@, p@, i as int)) by {
            assert(rest.subrange(0, p@.len() as int) =~= s@.subrange(i as int, i + p@.len()));
        }
        if matches_at(&sc, &pc, i) {
            assert(rest.skip(p@.len() as int) =~= s@.skip(i + p@.len()));
            n += 1;
            i += pc.len();
        } else {
            assert(rest.skip(1) =~= s@.skip(i + 1));
            i += 1;
        }
    }
    n
}

// ---------------------------------------------------------------- trimming

/// The text without its leading characters of a class.
pub open spec fn trim_start(s: Seq<char>, k: CharClass) -> Seq<char>
    decreases s.len(),
{
    if s.len() > 0 && k.has(s[0]) {
        trim_start(s.skip(1), k)
    } else {
        s
    }
}

/// The text without its trailing characters of a class.
pub open spec fn trim_end(s: Seq<char>, k: CharClass) -> Seq<char>
    decreases s.len(),
{
    if s.len() > 0 && k.has(s.last()) {
        trim_end(s.drop_last(), k)
    } else {
        s
    }
}

/// The text without leading and trailing characters of a class.
pub open spec fn trim_class(s: Seq<char>, k: CharClass) -> Seq<char> {
    trim_end(trim_start(s, k), k)
}

/// The text without leading and trailing white space.
pub open spec fn trim(s: Seq<char>) -> Seq<char> {
    trim_class(s, CharClass::White)
}

/// The text is nothing but white space.
pub open spec fn is_blank(s: Seq<char>) -> bool {
    trim(s).len() == 0
}

proof fn lemma_trim_start_first(s: Seq<char>, k: CharClass)
    ensures
        trim_start(s, k).len() > 0 ==> !k.has(trim_start(s, k)[0]),
    decreases s.len(),
{
    if s.len() > 0 && k.has(s[0]) {
        lemma_trim_start_first(s.skip(1), k);
    }
}

proof fn lemma_trim_end_last(s: Seq<char>, k: CharClass)
    ensures
        trim_end(s, k).len() > 0 ==> !k.has(trim_end(s, k).last()),
        trim_end(s, k).len() > 0 ==> s.len() > 0 && trim_end(s, k)[0] == s[0],
    decreases s.len(),
{
    if s.len() > 0 && k.has(s.last()) {
        lemma_trim_end_last(s.drop_last(), k);
    }
}

/// A trimmed text neither begins nor ends with white space, and trimming it once
/// more changes nothing.
pub proof fn law_trim(s: Seq<char>)
    ensures
        trim(s).len() > 0 ==> !is_whitespace(trim(s)[0]) && !is_whitespace(trim(s).last()),
        trim(trim(s)) == trim(s),
{
    let k = CharClass::White;
    let a = trim_start(s, k);
    lemma_trim_start_first(s, k);
    lemma_trim_end_last(a, k);
    let r = trim(s);
    assert(trim_start(r, k) == r);
    assert(trim_end(r, k) == r);
}

proof fn lemma_trim_start_cuts(s: Seq<char>, k: CharClass) -> (a: int)
    ensures
        0 <= a <= s.len(),
        trim_start(s, k) == s.skip(a),
        forall|i: int| 0 <= i < a ==> k.has(#[trigger] s[i]),
    decreases s.len(),
{
    if s.len() > 0 && k.has(s[0]) {
        let b = lemma_trim_start_cuts(s.skip(1), k);
        assert(s.skip(1).skip(b) =~= s.skip(b + 1));
        assert forall|i: int| 0 <= i < b + 1 implies k.has(#[trigger] s[i]) by {
            if i > 0 {
                assert(s.skip(1)[i - 1] == s[i]);
            }
        }
        b + 1
    } else {
        assert(s.skip(0) =~= s);
        0
    }
}

proof fn lemma_trim_end_cuts(s: Seq<char>, k: CharClass) -> (b: int)
    ensures
        0 <= b <= s.len(),
        trim_end(s, k) == s.take(b),
        forall|i: int| b <= i < s.len() ==> k.has(#[trigger] s[i]),
    decreases s.len(),
{
    if s.len() > 0 && k.has(s.last()) {
        let b = lemma_trim_end_cuts(s.drop_last(), k);
        assert(s.drop_last().take(b) =~= s.take(b));
        assert forall|i: int| b <= i < s.len() implies k.has(#[trigger] s[i]) by {
            if i < s.len() - 1 {
                assert(s.drop_last()[i] == s[i]);
            }
        }
        b
    } else {
        assert(s.take(s.len() as int) =~= s);
        s.len() as int
    }
}

/// Trimming cuts nothing but white space from both ends, and leaves none there.
pub proof fn law_trim_cuts_white_space(s: Seq<char>)
    ensures
        exists|a: int, b: int|
            #![trigger s.subrange(a, b)]
            {
                &&& 0 <= a <= b <= s.len()
                &&& trim(s) == s.subrange(a, b)
                &&& forall|i: int|
                    (0 <= i < a || b <= i < s.len()) ==> is_whitespace(#[trigger] s[i])
                &&& a < b ==> !is_whitespace(s[a]) && !is_whitespace(s[b - 1])
            },
        is_blank(s) <==> forall|i: int| 0 <= i < s.len() ==> is_whitespace(#[trigger] s[i]),
{
    let k = CharClass::White;
    let a = lemma_trim_start_cuts(s, k);
    let t = s.skip(a);
    let n = lemma_trim_end_cuts(t, k);
    let b = a + n;
    law_trim(s);
    assert(t.take(n) =~= s.subrange(a, b));
    assert forall|i: int| (0 <= i < a || b <= i < s.len()) implies is_whitespace(#[trigger] s[i]) by {
        if i < a {
            assert(k.has(s[i]));
        } else {
            assert(k.has(t[i - a]));
        }
    }
    if a < b {
        assert(trim(s)[0] == s[a]);
        assert(trim(s).last() == s[b - 1]);
    }
}

/// The characters without leading ones of a class.
pub fn trim_start_chars<'a>(s: &'a [char], k: CharClass) -> (r: &'a [char])
    ensures
        r@ == trim_start(s@, k),
{
    let mut i: usize = 0;
    assert(s@.skip(0) =~= s@);
    while i < s.len() && k.holds(s[i])
        invariant
            i <= s.len(),
            trim_start(s@, k) == trim_start(s@.skip(i as int), k),
        decreases s.len() - i,
    {
        assert(s@.skip(i as int).skip(1) =~= s@.skip(i + 1));
        i += 1;
    }
    slice_subrange(s, i, s.len())
}

/// The characters without trailing ones of a class.
pub fn trim_end_chars<'a>(s: &'a [char], k: CharClass) -> (r: &'a [char])
    ensures
        r@ == trim_end(s@, k),
{
    let mut n: usize = s.len();
    assert(s@.take(n as int) =~= s@);
    while n > 0 && k.holds(s[n - 1])
        invariant
            n <= s.len(),
            trim_end(s@, k) == trim_end(s@.take(n as int), k),
        decreases n,
    {
        assert(s@.take(n as int).drop_last() =~= s@.take(n - 1));
        n -= 1;
    }
    slice_subrange(s, 0, n)
}

/// The text without leading characters of a class.
pub fn trimmed_start(s: &str, k: CharClass) -> (r: String)
    ensures
        r@ == trim_start(s@, k),
{
    let c = chars(s);
    string(trim_start_chars(&c, k))
}

/// The text without trailing white space.
pub fn trimmed_end(s: &str) -> (r: String)
    ensures
        r@ == trim_end(s@, CharClass::White),
{
    let c = chars(s);
    string(trim_end_chars(&c, CharClass::White))
}

/// The text without leading and trailing characters of a class.
pub fn trimmed_class(s: &str, k: CharClass) -> (r: String)
    ensures
        r@ == trim_class(s@, k),
{
    let c = chars(s);
    string(trim_end_chars(trim_start_chars(&c, k), k))
}

/// The text without leading and trailing white space.
pub fn trimmed(s: &str) -> (r: String)
    ensures
        r@ == trim(s@),
{
    trimmed_class(s, CharClass::White)
}

/// Whether the text is nothing but white space.
pub fn blank(s: &str) -> (r: bool)
    ensures
        r == is_blank(s@),
{
    let c = chars(s);
    trim_end_chars(trim_start_chars(&c, CharClass::White), CharClass::White).len() == 0
}

// --------------------------------------------------------------- replacing

/// Every occurrence of `p`, taken from the left without overlap, becomes `t`.
pub open spec fn replace(s: Seq<char>, p: Seq<char>, t: Seq<char>) -> Seq<char>
    decreases s.len(),
{
    if p.len() == 0 || s.len() < p.len() {
        s
    } else if p.is_prefix_of(s) {
        t + replace(s.skip(p.len() as int), p, t)
    } else {
        seq![s[0]] + replace(s.skip(1), p, t)
    }
}

/// The text with every occurrence of a non-empty `p` replaced by `t`.
pub fn replaced(s: &str, p: &str, t: &str) -> (r: String)
    requires
        p@.len() > 0,
    ensures
        r@ == replace(s@, p@, t@),
{
    let sc = chars(s);
    let pc = chars(p);
    let mut r = String::new();
    let mut i: usize = 0;
    assert(s@.skip(0) =~= s@);
    assert(r@ + replace(s@, p@, t@) =~= replace(s@, p@, t@));
    while i < sc.len()
        invariant
            sc@ == s@,
            pc@ == p@,
            pc.len() > 0,
            i <= sc.len(),
            r@ + replace(s@.skip(i as int), p@, t@) == replace(s@, p@, t@),
        decreases sc.len() - i,
    {
        let ghost rest = s@.skip(i as int);
        let ghost before = r@;
        assert(rest.len() >= p@.len() ==> (p@.is_prefix_of(rest) <==> occurs_at(s@, p@, i as int)))
            by {
            if rest.len() >= p@.len() {
                assert(rest.subrange(0, p@.len() as int) =~= s@.subrange(i as int, i + p@.len()));
            }
        }
        if matches_at(&sc, &pc, i) {
            r.append(t);
            i += pc.len();
            proof {
                assert(rest.skip(p@.len() as int) =~= s@.skip(i as int));
                assert(r@ + replace(s@.skip(i as int), p@, t@) =~= before + (t@ + replace(
                    s@.skip(i as int),
                    p@,
                    t@,
                )));
            }
        } else {
            r.push(sc[i]);
            i += 1;
            proof {
                assert(rest.skip(1) =~= s@.skip(i as int));
                if rest.len() < p@.len() {
                    assert(replace(rest, p@, t@) == rest);
                    assert(replace(rest.skip(1), p@, t@) == rest.skip(1));
                    assert(rest =~= seq![rest[0]] + rest.skip(1));
                }
                assert(r@ + replace(s@.skip(i as int), p@, t@) =~= before + (seq![rest[0]]
                    + replace(s@.skip(i as int), p@, t@)));
            }
        }
    }
    assert(r@ + replace(s@.skip(i as int), p@, t@) =~= r@);
    r
}

// --------------------------------------------------------------- splitting

/// The length of the longest prefix without a character of the class.
pub open spec fn span(s: Seq<char>, k: CharClass) -> nat
    decreases s.len(),
{
    if s.len() == 0 || k.has(s[0]) {
        0
    } else {
        1 + span(s.skip(1), k)
    }
}

/// The pieces between the characters of a class; one piece where there is none.
pub open spec fn split(s: Seq<char>, k: CharClass) -> Seq<Seq<char>>
    decreases s.len(),
{
    let n = span(s, k) as int;
    if n >= s.len() {
        seq![s]
    } else {
        seq![s.take(n)] + split(s.skip(n + 1), k)
    }
}

/// The non-empty pieces between the characters of a class.
pub open spec fn words(s: Seq<char>, k: CharClass) -> Seq<Seq<char>> {
    split(s, k).filter(|w: Seq<char>| w.len() > 0)
}

/// The prefix measured by `span` ends at the first character of the class.
pub proof fn lemma_span(s: Seq<char>, k: CharClass)
    ensures
        span(s, k) <= s.len(),
        forall|j: int| 0 <= j < span(s, k) ==> !k.has(s[j]),
        span(s, k) < s.len() ==> k.has(s[span(s, k) as int]),
    decreases s.len(),
{
    if s.len() > 0 && !k.has(s[0]) {
        lemma_span(s.skip(1), k);
        assert forall|j: int| 0 <= j < span(s, k) implies !k.has(s[j]) by {
            if j > 0 {
                assert(s.skip(1)[j - 1] == s[j]);
            }
        }
    }
}

/// Only one prefix ends at the first character of the class.
proof fn lemma_span_is(s: Seq<char>, k: CharClass, n: int)
    requires
        0 <= n <= s.len(),
        forall|j: int| 0 <= j < n ==> !k.has(s[j]),
        n < s.len() ==> k.has(s[n]),
    ensures
        span(s, k) == n,
{
    lemma_span(s, k);
    let m = span(s, k) as int;
    if m < n {
        assert(!k.has(s[m]));
    } else if n < m {
        assert(!k.has(s[n]));
    }
}

/// The length of the longest prefix without a character of the class.
pub fn span_len(s: &[char], k: CharClass) -> (r: usize)
    ensures
        r == span(s@, k),
        r <= s.len(),
{
    let mut i: usize = 0;
    while i < s.len() && !k.holds(s[i])
        invariant
            i <= s.len(),
            forall|j: int| 0 <= j < i ==> !k.has(s@[j]),
        decreases s.len() - i,
    {
        i += 1;
    }
    proof {
        lemma_span_is(s@, k, i as int);
    }
    i
}

/// The pieces between the characters of a class.
pub fn pieces(s: &str, k: CharClass) -> (r: Vec<String>)
    ensures
        views(r@) == split(s@, k),
{
    let c = chars(s);
    let mut r: Vec<String> = Vec::new();
    let mut start: usize = 0;
    let mut i: usize = 0;
    assert(s@.skip(0) =~= s@);
    assert(views(r@) + split(s@, k) =~= split(s@, k));
    while i < c.len()
        invariant
            c@ == s@,
            start <= i <= c.len(),
            forall|j: int| start <= j < i ==> !k.has(c@[j]),
            views(r@) + split(s@.skip(start as int), k) == split(s@, k),
        decreases c.len() - i,
    {
        if k.holds(c[i]) {
            let ghost rest = s@.skip(start as int);
            let ghost before = views(r@);
            let piece = string(slice_subrange(&c, start, i));
            r.push(piece);
            proof {
                lemma_span_is(rest, k, i - start);
                assert(rest.take(i - start) =~= piece@);
                assert(rest.skip(i - start + 1) =~= s@.skip(i + 1));
                assert(views(r@) =~= before.push(piece@));
                assert(views(r@) + split(s@.skip(i + 1), k) =~= before + (seq![piece@] + split(
                    s@.skip(i + 1),
                    k,
                )));
            }
            start = i + 1;
        }
        i += 1;
    }
    let ghost rest = s@.skip(start as int);
    let ghost before = views(r@);
    let piece = string(slice_subrange(&c, start, c.len()));
    r.push(piece);
    proof {
        lemma_span_is(rest, k, rest.len() as int);
        assert(rest =~= piece@);
        assert(views(r@) =~= before.push(piece@));
        assert(views(r@) =~= before + seq![piece@]);
    }
    r
}

/// The pieces that are not empty.
fn non_empty(v: Vec<String>) -> (r: Vec<String>)
    ensures
        views(r@) == views(v@).filter(|w: Seq<char>| w.len() > 0),
{
    let mut r: Vec<String> = Vec::new();
    let mut i: usize = 0;
    let ghost keep = |w: Seq<char>| w.len() > 0;
    while i < v.len()
        invariant
            i <= v.len(),
            keep == (|w: Seq<char>| w.len() > 0),
            views(r@) == views(v@).take(i as int).filter(keep),
        decreases v.len() - i,
    {
        proof {
            assert(views(v@).take(i + 1).drop_last() =~= views(v@).take(i as int));
            assert(views(v@).take(i + 1).last() == v@[i as int]@);
            reveal_with_fuel(Seq::filter, 2);
        }
        if !v[i].as_str().is_empty() {
            let ghost before = views(r@);
            let w = v[i].clone();
            r.push(w);
            assert(views(r@) =~= before.push(v@[i as int]@));
        }
        i += 1;
    }
    assert(views(v@).take(i as int) =~= views(v@));
    r
}

/// The non-empty pieces between the characters of a class.
pub fn pieces_of_words(s: &str, k: CharClass) -> (r: Vec<String>)
    ensures
        views(r@) == words(s@, k),
{
    non_empty(pieces(s, k))
}

/// What stands before and after the first `c`.
pub open spec fn split_once(s: Seq<char>, c: char) -> Option<(Seq<char>, Seq<char>)> {
    let n = span(s, CharClass::One(c)) as int;
    if n < s.len() {
        Some((s.take(n), s.skip(n + 1)))
    } else {
        None
    }
}

/// What stands before and after the first `c`.
pub fn halves(s: &str, c: char) -> (r: Option<(String, String)>)
    ensures
        match r {
            Some((a, b)) => split_once(s@, c) == Some((a@, b@)),
            None => split_once(s@, c) is None,
        },
{
    let v = chars(s);
    let mut i: usize = 0;
    while i < v.len()
        invariant
            v@ == s@,
            i <= v.len(),
            forall|j: int| 0 <= j < i ==> v@[j] != c,
        decreases v.len() - i,
    {
        if v[i] == c {
            proof {
                lemma_span_is(s@, CharClass::One(c), i as int);
            }
            let a = string(slice_subrange(&v, 0, i));
            let b = string(slice_subrange(&v, i + 1, v.len()));
            assert(a@ =~= s@.take(i as int));
            assert(b@ =~= s@.skip(i + 1));
            return Some((a, b));
        }
        i += 1;
    }
    proof {
        lemma_span_is(s@, CharClass::One(c), i as int);
    }
    None
}

/// A line without the carriage return that ends it.
pub open spec fn strip_carriage(s: Seq<char>) -> Seq<char> {
    if s.len() > 0 && s.last() == '\r' {
        s.drop_last()
    } else {
        s
    }
}

/// The lines of a text: each ends at a line feed, with or without a carriage
/// return before it, and a line feed at the very end opens no further line.
pub open spec fn lines(s: Seq<char>) -> Seq<Seq<char>> {
    let p = split(s, CharClass::One('\n'));
    let ended = p.drop_last().map_values(|l: Seq<char>| strip_carriage(l));
    if p.last().len() == 0 {
        ended
    } else {
        ended.push(p.last())
    }
}

proof fn lemma_split_not_empty(s: Seq<char>, k: CharClass)
    ensures
        split(s, k).len() > 0,
    decreases s.len(),
{
}

/// The lines of a text.
pub fn text_lines(s: &str) -> (r: Vec<String>)
    ensures
        views(r@) == lines(s@),
{
    let v = pieces(s, CharClass::One('\n'));
    let ghost p = split(s@, CharClass::One('\n'));
    proof {
        lemma_split_not_empty(s@, CharClass::One('\n'));
        assert(views(v@).len() == v@.len());
    }
    let last: usize = v.len() - 1;
    let mut r: Vec<String> = Vec::new();
    let mut i: usize = 0;
    while i < last
        invariant
            views(v@) == p,
            i <= last < v.len(),
            r.len() == i,
            forall|j: int| 0 <= j < i ==> (#[trigger] r@[j])@ == strip_carriage(p[j]),
        decreases last - i,
    {
        let c = chars(v[i].as_str());
        assert(p[i as int] == c@);
        let line = if c.len() > 0 && c[c.len() - 1] == '\r' {
            string(slice_subrange(&c, 0, c.len() - 1))
        } else {
            v[i].clone()
        };
        assert(line@ =~= strip_carriage(p[i as int]));
        r.push(line);
        i += 1;
    }
    let ghost ended = p.drop_last().map_values(|l: Seq<char>| strip_carriage(l));
    assert(p.last() == v@[last as int]@);
    assert(views(r@) =~= ended);
    if !v[last].as_str().is_empty() {
        r.push(v[last].clone());
        assert(views(r@) =~= ended.push(p.last()));
    }
    r
}

// ----------------------------------------------------------------- joining

/// The texts one after the other, with the separator between them.
pub open spec fn join(v: Seq<Seq<char>>, sep: Seq<char>) -> Seq<char>
    decreases v.len(),
{
    if v.len() == 0 {
        seq![]
    } else if v.len() == 1 {
        v[0]
    } else {
        join(v.drop_last(), sep) + sep + v.last()
    }
}

/// The strings one after the other, with the separator between them.
pub fn joined(v: &[String], sep: &str) -> (r: String)
    ensures
        r@ == join(views(v@), sep@),
{
    let mut r = String::new();
    let mut i: usize = 0;
    while i < v.len()
        invariant
            i <= v.len(),
            r@ == join(views(v@).take(i as int), sep@),
        decreases v.len() - i,
    {
        assert(views(v@).take(i + 1).drop_last() =~= views(v@).take(i as int));
        if i > 0 {
            r.append(sep);
            r.append(v[i].as_str());
        } else {
            r = v[0].clone();
        }
        i += 1;
    }
    assert(views(v@).take(i as int) =~= views(v@));
    r
}

// -------------------------------------------------- ASCII, digits, numbers

/// An ASCII capital becomes the small letter; every other character stays.
pub open spec fn ascii_lower_char(c: char) -> char {
    if 'A' <= c <= 'Z' {
        ((c as u32 + 32) as u8) as char
    } else {
        c
    }
}

/// The text with its ASCII capitals made small.
pub open spec fn ascii_lower(s: Seq<char>) -> Seq<char> {
    s.map_values(|c: char| ascii_lower_char(c))
}

/// An ASCII capital made small.
pub fn to_ascii_lower_char(c: char) -> (r: char)
    ensures
        r == ascii_lower_char(c),
{
    if 'A' <= c && c <= 'Z' {
        ((c as u32 + 32) as u8) as char
    } else {
        c
    }
}

/// The text with its ASCII capitals made small.
pub fn to_ascii_lower(s: &str) -> (r: String)
    ensures
        r@ == ascii_lower(s@),
{
    let c = chars(s);
    let mut r = String::new();
    let mut i: usize = 0;
    while i < c.len()
        invariant
            c@ == s@,
            i <= c.len(),
            r@ == ascii_lower(s@).take(i as int),
        decreases c.len() - i,
    {
        r.push(to_ascii_lower_char(c[i]));
        i += 1;
    }
    r
}

/// A small ASCII letter becomes the capital; every other character stays.
pub open spec fn ascii_upper_char(c: char) -> char {
    if 'a' <= c <= 'z' {
        ((c as u32 - 32) as u8) as char
    } else {
        c
    }
}

/// The text with its small ASCII letters made capitals.
pub open spec fn ascii_upper(s: Seq<char>) -> Seq<char> {
    s.map_values(|c: char| ascii_upper_char(c))
}

/// The text with its small ASCII letters made capitals.
pub fn to_ascii_upper(s: &str) -> (r: String)
    ensures
        r@ == ascii_upper(s@),
{
    let c = chars(s);
    let mut r = String::new();
    let mut i: usize = 0;
    while i < c.len()
        invariant
            c@ == s@,
            i <= c.len(),
            r@ == ascii_upper(s@).take(i as int),
        decreases c.len() - i,
    {
        let u: char = if 'a' <= c[i] && c[i] <= 'z' {
            ((c[i] as u32 - 32) as u8) as char
        } else {
            c[i]
        };
        r.push(u);
        i += 1;
    }
    r
}

/// Whether two texts are equal when ASCII capitals count as small letters.
pub fn same_ignoring_ascii_case(a: &str, b: &str) -> (r: bool)
    ensures
        r == (ascii_lower(a@) == ascii_lower(b@)),
{
    let x = to_ascii_lower(a);
    let y = to_ascii_lower(b);
    x == y
}

/// `0` to `9`.
pub open spec fn is_digit(c: char) -> bool {
    '0' <= c <= '9'
}

/// Some character is an ASCII digit.
pub open spec fn has_digit(s: Seq<char>) -> bool {
    exists|i: int| 0 <= i < s.len() && is_digit(#[trigger] s[i])
}

/// Every character is an ASCII digit.
pub open spec fn all_digits(s: Seq<char>) -> bool {
    forall|i: int| 0 <= i < s.len() ==> is_digit(#[trigger] s[i])
}

/// Whether some character is an ASCII digit.
pub fn any_digit(s: &str) -> (r: bool)
    ensures
        r == has_digit(s@),
{
    let c = chars(s);
    let mut i: usize = 0;
    while i < c.len()
        invariant
            c@ == s@,
            i <= c.len(),
            forall|j: int| 0 <= j < i ==> !is_digit(#[trigger] s@[j]),
        decreases c.len() - i,
    {
        if '0' <= c[i] && c[i] <= '9' {
            assert(is_digit(s@[i as int]));
            return true;
        }
        i += 1;
    }
    false
}

/// Whether every character is an ASCII digit.
pub fn only_digits(s: &str) -> (r: bool)
    ensures
        r == all_digits(s@),
{
    let c = chars(s);
    let mut i: usize = 0;
    while i < c.len()
        invariant
            c@ == s@,
            i <= c.len(),
            forall|j: int| 0 <= j < i ==> is_digit(#[trigger] s@[j]),
        decreases c.len() - i,
    {
        if !('0' <= c[i] && c[i] <= '9') {
            assert(!is_digit(s@[i as int]));
            return false;
        }
        i += 1;
    }
    true
}

/// The number that a text of ASCII digits writes in base ten.
pub open spec fn number(s: Seq<char>) -> nat
    decreases s.len(),
{
    if s.len() == 0 {
        0
    } else {
        number(s.drop_last()) * 10 + (s.last() as u32 - '0' as u32) as nat
    }
}

proof fn lemma_number_grows(s: Seq<char>, n: int)
    requires
        0 <= n <= s.len(),
    ensures
        number(s.take(n)) <= number(s),
    decreases s.len(),
{
    if n < s.len() {
        assert(s.take(n) =~= s.drop_last().take(n));
        lemma_number_grows(s.drop_last(), n);
        assert(number(s) >= number(s.drop_last()) * 10);
    } else {
        assert(s.take(n) =~= s);
    }
}

/// The number that a text of digits writes, where it fits.
pub fn parse_number(s: &str) -> (r: Option<usize>)
    requires
        all_digits(s@),
        s@.len() > 0,
    ensures
        match r {
            Some(n) => n == number(s@),
            None => number(s@) > usize::MAX,
        },
{
    let c = chars(s);
    let mut n: usize = 0;
    let mut i: usize = 0;
    while i < c.len()
        invariant
            c@ == s@,
            all_digits(s@),
            i <= c.len(),
            n == number(s@.take(i as int)),
        decreases c.len() - i,
    {
        assert(is_digit(s@[i as int]));
        let d: usize = (c[i] as u32 - '0' as u32) as usize;
        proof {
            assert(s@.take(i + 1).drop_last() =~= s@.take(i as int));
            lemma_number_grows(s@, i + 1);
            assert(number(s@.take(i + 1)) == n * 10 + d);
        }
        let tens = match n.checked_mul(10) {
            Some(t) => t,
            None => {
                return None;
            },
        };
        match tens.checked_add(d) {
            Some(m) => {
                n = m;
            },
            None => {
                return None;
            },
        }
        i += 1;
    }
    assert(s@.take(i as int) =~= s@);
    Some(n)
}

/// The digit character of a number below ten.
pub open spec fn digit_char(d: nat) -> char {
    ((d + 48) as u8) as char
}

/// A number written in base ten, without leading zeros.
pub open spec fn decimal(n: nat) -> Seq<char>
    decreases n,
{
    if n < 10 {
        seq![digit_char(n)]
    } else {
        decimal(n / 10).push(digit_char(n % 10))
    }
}

/// An integer written in base ten.
pub open spec fn integer(n: int) -> Seq<char> {
    if n < 0 {
        seq!['-'] + decimal((-n) as nat)
    } else {
        decimal(n as nat)
    }
}

/// A number written in base ten.
pub fn decimal_string(n: u128) -> (r: String)
    ensures
        r@ == decimal(n as nat),
    decreases n,
{
    let d: char = ((n % 10 + 48) as u8) as char;
    if n < 10 {
        let mut r = String::new();
        r.push(d);
        assert(r@ =~= seq![digit_char(n as nat)]);
        r
    } else {
        let mut r = decimal_string(n / 10);
        r.push(d);
        r
    }
}

/// An integer written in base ten.
pub fn integer_string(n: i64) -> (r: String)
    ensures
        r@ == integer(n as int),
{
    if n == i64::MIN {
        let mut r = String::new();
        r.push('-');
        let digits = decimal_string(9223372036854775808u128);
        r.append(digits.as_str());
        assert(r@ =~= seq!['-'] + decimal(9223372036854775808nat));
        r
    } else if n < 0 {
        let mut r = String::new();
        r.push('-');
        let digits = decimal_string((-n) as u128);
        r.append(digits.as_str());
        assert(r@ =~= seq!['-'] + decimal((-n) as nat));
        r
    } else {
        decimal_string(n as u128)
    }
}

// ------------------------------------------------------------- other helpers

/// The first `n` characters, or all of them where there are fewer.
pub open spec fn prefix(s: Seq<char>, n: nat) -> Seq<char> {
    if s.len() <= n {
        s
    } else {
        s.take(n as int)
    }
}

/// The first `n` characters of a text.
pub fn take_chars(s: &str, n: usize) -> (r: String)
    ensures
        r@ == prefix(s@, n as nat),
{
    let c = chars(s);
    if c.len() <= n {
        s.to_owned()
    } else {
        string(slice_subrange(&c, 0, n))
    }
}

/// The number of bytes of a text in UTF-8.
pub open spec fn byte_len(s: Seq<char>) -> nat {
    vstd::utf8::encode_utf8(s).len()
}

/// The number of bytes of a text in UTF-8.
pub fn bytes_of(s: &str) -> (r: usize)
    ensures
        r == byte_len(s@),
{
    s.as_bytes().len()
}

/// The number of characters of a text.
pub fn char_count(s: &str) -> (r: usize)
    ensures
        r == s@.len(),
{
    let c = chars(s);
    c.len()
}

/// The alphanumeric characters of a text.
pub open spec fn alphanumerics(s: Seq<char>) -> Seq<char> {
    s.filter(|c: char| alphanumeric_char(c))
}

/// The alphanumeric characters of a text.
pub fn only_alphanumerics(s: &str) -> (r: String)
    ensures
        r@ == alphanumerics(s@),
{
    let c = chars(s);
    let mut r = String::new();
    let mut i: usize = 0;
    let ghost keep = |c: char| alphanumeric_char(c);
    while i < c.len()
        invariant
            c@ == s@,
            i <= c.len(),
            keep == (|c: char| alphanumeric_char(c)),
            r@ == s@.take(i as int).filter(keep),
        decreases c.len() - i,
    {
        proof {
            assert(s@.take(i + 1).drop_last() =~= s@.take(i as int));
            reveal_with_fuel(Seq::filter, 2);
        }
        if c[i].is_alphanumeric() {
            r.push(c[i]);
        }
        i += 1;
    }
    assert(s@.take(i as int) =~= s@);
    r
}

/// The elements of a sequence, each where it comes first.
pub open spec fn distinct<A>(s: Seq<A>) -> Seq<A>
    decreases s.len(),
{
    if s.len() == 0 {
        s
    } else {
        let d = distinct(s.drop_last());
        if d.contains(s.last()) {
            d
        } else {
            d.push(s.last())
        }
    }
}

/// `distinct` keeps every element, adds none and repeats none.
pub proof fn lemma_distinct<A>(s: Seq<A>)
    ensures
        distinct(s).no_duplicates(),
        distinct(s).len() <= s.len(),
        forall|x: A| distinct(s).contains(x) <==> s.contains(x),
    decreases s.len(),
{
    if s.len() > 0 {
        let p = s.drop_last();
        lemma_distinct(p);
        assert(s =~= p.push(s.last()));
        assert forall|x: A| distinct(s).contains(x) <==> s.contains(x) by {
            assert(p.push(s.last()).contains(x) <==> p.contains(x) || x == s.last()) by {
                if p.contains(x) {
                    let i = choose|i: int| 0 <= i < p.len() && p[i] == x;
                    assert(p.push(s.last())[i] == x);
                }
                assert(p.push(s.last())[p.len() as int] == s.last());
            }
            let d = distinct(p);
            assert(d.push(s.last()).contains(x) <==> d.contains(x) || x == s.last()) by {
                if d.contains(x) {
                    let i = choose|i: int| 0 <= i < d.len() && d[i] == x;
                    assert(d.push(s.last())[i] == x);
                }
                assert(d.push(s.last())[d.len() as int] == s.last());
            }
        }
    }
}

/// The strings of a list, each where its text comes first.
pub fn without_repeats(v: Vec<String>) -> (r: Vec<String>)
    ensures
        views(r@) == distinct(views(v@)),
{
    let mut r: Vec<String> = Vec::new();
    let mut i: usize = 0;
    assert(views(r@) =~= distinct(views(v@).take(0)));
    while i < v.len()
        invariant
            i <= v.len(),
            views(r@) == distinct(views(v@).take(i as int)),
        decreases v.len() - i,
    {
        assert(views(v@).take(i + 1).drop_last() =~= views(v@).take(i as int));
        if !is_among(v[i].as_str(), &r) {
            let ghost before = views(r@);
            r.push(v[i].clone());
            assert(views(r@) =~= before.push(v@[i as int]@));
        }
        i += 1;
    }
    assert(views(v@).take(i as int) =~= views(v@));
    r
}

/// What stands before the last `c`, where there is one.
pub open spec fn before_last(s: Seq<char>, c: char) -> Option<Seq<char>>
    decreases s.len(),
{
    if s.len() == 0 {
        None
    } else if s.last() == c {
        Some(s.drop_last())
    } else {
        before_last(s.drop_last(), c)
    }
}

/// What stands before the last `c`.
pub fn head_before_last(s: &str, c: char) -> (r: Option<String>)
    ensures
        opt_text(r) == before_last(s@, c),
{
    let v = chars(s);
    let mut n: usize = v.len();
    assert(s@.take(n as int) =~= s@);
    while n > 0
        invariant
            v@ == s@,
            n <= v.len(),
            before_last(s@, c) == before_last(s@.take(n as int), c),
        decreases n,
    {
        assert(s@.take(n as int).drop_last() =~= s@.take(n - 1));
        if v[n - 1] == c {
            let h = string(slice_subrange(&v, 0, n - 1));
            assert(h@ =~= s@.take(n - 1));
            return Some(h);
        }
        n -= 1;
    }
    None
}

/// The number that a text writes in base ten, if it is nothing but digits.
pub open spec fn as_number(s: Seq<char>) -> Option<nat> {
    if s.len() > 0 && all_digits(s) {
        Some(number(s))
    } else {
        None
    }
}

/// The texts of a list in lower case.
pub open spec fn all_lowercase(v: Seq<Seq<char>>) -> Seq<Seq<char>> {
    v.map_values(|s: Seq<char>| lowercase(s))
}

/// The strings of a list in lower case.
pub fn to_all_lowercase(v: &Vec<String>) -> (r: Vec<String>)
    ensures
        views(r@) == all_lowercase(views(v@)),
{
    let mut r: Vec<String> = Vec::new();
    let mut i: usize = 0;
    while i < v.len()
        invariant
            i <= v.len(),
            views(r@) == all_lowercase(views(v@)).take(i as int),
        decreases v.len() - i,
    {
        let ghost before = views(r@);
        let s = v[i].as_str().to_lowercase();
        r.push(s);
        assert(views(r@) =~= before.push(s@));
        assert(views(r@) =~= all_lowercase(views(v@)).take(i + 1));
        i += 1;
    }
    assert(all_lowercase(views(v@)).take(i as int) =~= all_lowercase(views(v@)));
    r
}

/// A number written in base ten has only digits, at least one, and reading them
/// gives the number.
pub proof fn law_decimal_round_trip(n: nat)
    ensures
        decimal(n).len() > 0,
        all_digits(decimal(n)),
        number(decimal(n)) == n,
        as_number(decimal(n)) == Some(n),
    decreases n,
{
    let d = decimal(n);
    reveal_with_fuel(number, 2);
    if n < 10 {
        assert(d.drop_last() =~= seq![]);
        assert(d[0] == digit_char(n));
    } else {
        law_decimal_round_trip(n / 10);
        let p = decimal(n / 10);
        assert(d.drop_last() =~= p);
        assert forall|i: int| 0 <= i < d.len() implies is_digit(#[trigger] d[i]) by {
            if i < p.len() {
                assert(d[i] == p[i]);
            }
        }
    }
}

/// The integer that a text writes in base ten, with or without a sign, where it
/// fits in 64 bits.
pub open spec fn as_integer(s: Seq<char>) -> Option<int> {
    let signed = s.len() > 0 && (s[0] == '-' || s[0] == '+');
    let digits = if signed {
        s.skip(1)
    } else {
        s
    };
    match as_number(digits) {
        Some(n) => {
            let value = if signed && s[0] == '-' {
                -(n as int)
            } else {
                n as int
            };
            if i64::MIN <= value <= i64::MAX {
                Some(value)
            } else {
                None
            }
        },
        None => None,
    }
}

/// The integer that a text writes in base ten.
pub fn parse_integer(s: &str) -> (r: Option<i64>)
    ensures
        match r {
            Some(n) => as_integer(s@) == Some(n as int),
            None => as_integer(s@) is None,
        },
{
    let c = chars(s);
    let signed = c.len() > 0 && (c[0] == '-' || c[0] == '+');
    let negative = c.len() > 0 && c[0] == '-';
    let start: usize = if signed {
        1
    } else {
        0
    };
    let ghost digits = s@.skip(start as int);
    assert(!signed ==> digits =~= s@);
    if start >= c.len() {
        return None;
    }
    let mut n: u64 = 0;
    let mut i: usize = start;
    while i < c.len()
        invariant
            c@ == s@,
            start <= i <= c.len(),
            digits == s@.skip(start as int),
            all_digits(digits.take(i - start)),
            n == number(digits.take(i - start)),
            as_integer(s@) is Some ==> all_digits(digits) && number(digits) <= 0x8000_0000_0000_0000,
        decreases c.len() - i,
    {
        assert(digits[i - start] == c@[i as int]);
        if c[i] < '0' || c[i] > '9' {
            return None;
        }
        let d: u64 = (c[i] as u32 - '0' as u32) as u64;
        proof {
            assert(digits.take(i - start + 1).drop_last() =~= digits.take(i - start));
            lemma_number_grows(digits, i - start + 1);
            assert(number(digits.take(i - start + 1)) == n * 10 + d);
        }
        if n > 0x0fff_ffff_ffff_ffff {
            return None;
        }
        n = n * 10 + d;
        i += 1;
    }
    assert(digits.take(i - start) =~= digits);
    if negative {
        if n > 0x8000_0000_0000_0000 {
            None
        } else if n == 0x8000_0000_0000_0000 {
            Some(i64::MIN)
        } else {
            Some(-(n as i64))
        }
    } else if n > 0x7fff_ffff_ffff_ffff {
        None
    } else {
        Some(n as i64)
    }
}

/// Reading an integer that was written in base ten gives the integer.
pub proof fn law_integer_round_trip(n: i64)
    ensures
        as_integer(integer(n as int)) == Some(n as int),
{
    if n < 0 {
        law_decimal_round_trip((-n) as nat);
        assert(integer(n as int).skip(1) =~= decimal((-n) as nat));
    } else {
        law_decimal_round_trip(n as nat);
        assert(is_digit(decimal(n as nat)[0]));
    }
}

// ---------------------------------------------------- facts about the functions

/// A joined text holds each of its parts.
pub proof fn lemma_join_contains(v: Seq<Seq<char>>, sep: Seq<char>, i: int)
    requires
        0 <= i < v.len(),
    ensures
        contains(join(v, sep), v[i]),
    decreases v.len(),
{
    let s = join(v, sep);
    if v.len() == 1 {
        assert(s.subrange(0, s.len() as int) =~= v[0]);
        assert(occurs_at(s, v[0], 0));
    } else if i == v.len() - 1 {
        let at = s.len() - v[i].len();
        assert(s.subrange(at, at + v[i].len()) =~= v[i]);
        assert(occurs_at(s, v[i], at));
    } else {
        let p = join(v.drop_last(), sep);
        lemma_join_contains(v.drop_last(), sep, i);
        let at = choose|at: int| occurs_at(p, v[i], at);
        assert(s.subrange(at, at + v[i].len()) =~= p.subrange(at, at + v[i].len()));
        assert(occurs_at(s, v[i], at));
    }
}

proof fn lemma_trim_end_keeps(s: Seq<char>, k: CharClass, i: int)
    requires
        0 <= i < s.len(),
        !k.has(s[i]),
    ensures
        trim_end(s, k).len() > i,
    decreases s.len(),
{
    if k.has(s.last()) {
        lemma_trim_end_keeps(s.drop_last(), k, i);
    }
}

proof fn lemma_trim_start_keeps(s: Seq<char>, k: CharClass, i: int)
    requires
        0 <= i < s.len(),
        !k.has(s[i]),
    ensures
        trim_start(s, k).len() > 0,
    decreases s.len(),
{
    if k.has(s[0]) {
        assert(s.skip(1)[i - 1] == s[i]);
        lemma_trim_start_keeps(s.skip(1), k, i - 1);
    }
}

/// A text with a character that is no white space is not blank.
pub proof fn lemma_not_blank(s: Seq<char>, i: int)
    requires
        0 <= i < s.len(),
        !is_whitespace(s[i]),
    ensures
        !is_blank(s),
{
    let k = CharClass::White;
    lemma_trim_start_keeps(s, k, i);
    lemma_trim_start_first(s, k);
    lemma_trim_end_keeps(trim_start(s, k), k, 0);
}

/// No character of the text is of the class.
pub open spec fn is_free_of(s: Seq<char>, k: CharClass) -> bool {
    forall|i: int| 0 <= i < s.len() ==> !k.has(#[trigger] s[i])
}

/// No piece of a text has a character of the class by which it was split.
pub proof fn lemma_split_free(s: Seq<char>, k: CharClass)
    ensures
        forall|i: int| 0 <= i < split(s, k).len() ==> is_free_of(#[trigger] split(s, k)[i], k),
    decreases s.len(),
{
    lemma_span(s, k);
    let n = span(s, k) as int;
    let p = split(s, k);
    if n < s.len() {
        let rest = split(s.skip(n + 1), k);
        lemma_split_free(s.skip(n + 1), k);
        assert forall|i: int| 0 <= i < p.len() implies is_free_of(#[trigger] p[i], k) by {
            if i == 0 {
                assert(p[0] == s.take(n));
            } else {
                assert(p[i] == rest[i - 1]);
            }
        }
    } else {
        assert(p[0] == s);
    }
}

/// The text is a word between characters of the class: not empty, and without any.
pub open spec fn is_word(w: Seq<char>, k: CharClass) -> bool {
    w.len() > 0 && is_free_of(w, k)
}

/// The words of a text are not empty and without characters of the class.
pub proof fn lemma_words(s: Seq<char>, k: CharClass)
    ensures
        forall|i: int| 0 <= i < words(s, k).len() ==> is_word(#[trigger] words(s, k)[i], k),
{
    let keep = |w: Seq<char>| w.len() > 0;
    let p = split(s, k);
    let w = words(s, k);
    lemma_split_free(s, k);
    assert forall|i: int| 0 <= i < w.len() implies is_word(#[trigger] w[i], k) by {
        p.lemma_filter_pred(keep, i);
        assert(w.contains(w[i]));
        p.lemma_filter_contains_rev(keep, w[i]);
        let j = choose|j: int| 0 <= j < p.len() && p[j] == w[i];
        assert(is_free_of(p[j], k));
    }
}

proof fn lemma_split_behind(a: Seq<char>, c: char, w: Seq<char>, k: CharClass)
    requires
        k.has(c),
        is_free_of(w, k),
    ensures
        split(a + seq![c] + w, k) == split(a, k).push(w),
    decreases a.len(),
{
    let s = a + seq![c] + w;
    lemma_span(a, k);
    let n = span(a, k) as int;
    assert forall|j: int| 0 <= j < n implies !k.has(s[j]) by {
        assert(s[j] == a[j]);
    }
    if n >= a.len() {
        lemma_span_is(s, k, n);
        assert(s.take(n) =~= a);
        assert(s.skip(n + 1) =~= w);
        lemma_span_is(w, k, w.len() as int);
        assert(split(w, k) == seq![w]);
        assert(split(a, k) == seq![a]);
        assert(split(s, k) == seq![s.take(n)] + split(s.skip(n + 1), k));
        assert(split(s, k) =~= split(a, k).push(w));
    } else {
        assert(s[n] == a[n]);
        lemma_span_is(s, k, n);
        lemma_split_behind(a.skip(n + 1), c, w, k);
        assert(s.take(n) =~= a.take(n));
        assert(s.skip(n + 1) =~= a.skip(n + 1) + seq![c] + w);
        assert(split(s, k) =~= split(a, k).push(w));
    }
}

/// Words that are joined are the words of the joined text.
pub proof fn law_words_of_joined(v: Seq<Seq<char>>, c: char, k: CharClass)
    requires
        k.has(c),
        forall|i: int| 0 <= i < v.len() ==> is_word(#[trigger] v[i], k),
    ensures
        words(join(v, seq![c]), k) == v,
    decreases v.len(),
{
    let keep = |w: Seq<char>| w.len() > 0;
    let s = join(v, seq![c]);
    reveal_with_fuel(Seq::filter, 2);
    let none = Seq::<Seq<char>>::empty();
    if v.len() == 0 {
        assert(split(s, k) =~= seq![s]);
        assert(seq![s].drop_last() =~= none);
        assert(words(s, k) =~= v);
    } else if v.len() == 1 {
        assert(is_word(v[0], k));
        lemma_span_is(s, k, s.len() as int);
        assert(split(s, k) =~= seq![s]);
        assert(seq![s].drop_last() =~= none);
        assert(words(s, k) =~= v);
    } else {
        let p = v.drop_last();
        assert forall|i: int| 0 <= i < p.len() implies is_word(#[trigger] p[i], k) by {
            assert(p[i] == v[i]);
        }
        law_words_of_joined(p, c, k);
        assert(is_word(v[v.len() - 1], k));
        lemma_split_behind(join(p, seq![c]), c, v.last(), k);
        let one = seq![v.last()];
        assert(one.drop_last() =~= none);
        assert(one.filter(keep) =~= one);
        Seq::filter_distributes_over_add(split(join(p, seq![c]), k), one, keep);
        assert(split(s, k) =~= split(join(p, seq![c]), k) + one);
        assert(words(s, k) =~= v);
    }
}

/// What stands in one of two texts stands in both, one behind the other.
pub proof fn lemma_contains_add(a: Seq<char>, b: Seq<char>, p: Seq<char>)
    ensures
        contains(a, p) ==> contains(a + b, p),
        contains(b, p) ==> contains(a + b, p),
{
    let s = a + b;
    if contains(a, p) {
        let i = choose|i: int| occurs_at(a, p, i);
        assert(s.subrange(i, i + p.len()) =~= a.subrange(i, i + p.len()));
        assert(occurs_at(s, p, i));
    }
    if contains(b, p) {
        let i = choose|i: int| occurs_at(b, p, i);
        assert(s.subrange(a.len() + i, a.len() + i + p.len()) =~= b.subrange(i, i + p.len()));
        assert(occurs_at(s, p, a.len() + i));
    }
}

/// A text stands between any two.
pub proof fn lemma_contains_between(a: Seq<char>, p: Seq<char>, b: Seq<char>)
    ensures
        contains(a + p + b, p),
{
    let s = a + p + b;
    assert(s.subrange(a.len() as int, (a.len() + p.len()) as int) =~= p);
    assert(occurs_at(s, p, a.len() as int));
}

/// Pieces that are joined by a character are what the joined text is split into at it.
pub proof fn law_split_of_joined(v: Seq<Seq<char>>, c: char, k: CharClass)
    requires
        k.has(c),
        v.len() > 0,
        forall|i: int| 0 <= i < v.len() ==> is_free_of(#[trigger] v[i], k),
    ensures
        split(join(v, seq![c]), k) == v,
    decreases v.len(),
{
    let s = join(v, seq![c]);
    assert(is_free_of(v[v.len() - 1], k));
    if v.len() == 1 {
        lemma_span_is(s, k, s.len() as int);
        assert(split(s, k) =~= v);
    } else {
        let p = v.drop_last();
        assert forall|i: int| 0 <= i < p.len() implies is_free_of(#[trigger] p[i], k) by {
            assert(p[i] == v[i]);
        }
        law_split_of_joined(p, c, k);
        lemma_split_behind(join(p, seq![c]), c, v.last(), k);
        assert(p.push(v.last()) =~= v);
    }
}

/// A text before others that are joined.
pub proof fn lemma_join_front(a: Seq<char>, v: Seq<Seq<char>>, sep: Seq<char>)
    requires
        v.len() > 0,
    ensures
        join(seq![a] + v, sep) == a + sep + join(v, sep),
    decreases v.len(),
{
    let w = seq![a] + v;
    assert(w.last() == v.last());
    if v.len() == 1 {
        assert(w.drop_last() =~= seq![a]);
        assert(join(seq![a], sep) == a);
        assert(join(w, sep) == join(w.drop_last(), sep) + sep + w.last());
        assert(join(w, sep) =~= a + sep + join(v, sep));
    } else {
        lemma_join_front(a, v.drop_last(), sep);
        assert(w.drop_last() =~= seq![a] + v.drop_last());
        assert(join(w, sep) == join(w.drop_last(), sep) + sep + w.last());
        assert(join(v, sep) == join(v.drop_last(), sep) + sep + v.last());
        assert(join(w, sep) =~= a + sep + join(v, sep));
    }
}

/// Joining two lists is joining the one and the other, with the separator between.
pub proof fn lemma_join_add(v: Seq<Seq<char>>, w: Seq<Seq<char>>, sep: Seq<char>)
    requires
        v.len() > 0,
        w.len() > 0,
    ensures
        join(v + w, sep) == join(v, sep) + sep + join(w, sep),
    decreases w.len(),
{
    let all = v + w;
    assert(all.last() == w.last());
    assert(join(all, sep) == join(all.drop_last(), sep) + sep + all.last());
    if w.len() == 1 {
        assert(all.drop_last() =~= v);
        assert(join(all, sep) =~= join(v, sep) + sep + join(w, sep));
    } else {
        lemma_join_add(v, w.drop_last(), sep);
        assert(all.drop_last() =~= v + w.drop_last());
        assert(join(w, sep) == join(w.drop_last(), sep) + sep + w.last());
        assert(join(all, sep) =~= join(v, sep) + sep + join(w, sep));
    }
}

/// A text that is split at a character is what its pieces joined by it give, and no
/// piece holds it.
pub proof fn law_split_rebuilds(s: Seq<char>, c: char)
    ensures
        join(split(s, CharClass::One(c)), seq![c]) == s,
        forall|i: int|
            0 <= i < split(s, CharClass::One(c)).len() ==> !(#[trigger] split(
                s,
                CharClass::One(c),
            )[i]).contains(c),
    decreases s.len(),
{
    let k = CharClass::One(c);
    lemma_span(s, k);
    lemma_split_free(s, k);
    let n = span(s, k) as int;
    if n < s.len() {
        let rest = s.skip(n + 1);
        law_split_rebuilds(rest, c);
        lemma_split_not_empty(rest, k);
        lemma_join_front(s.take(n), split(rest, k), seq![c]);
        assert(s.take(n) + seq![c] + rest =~= s);
    }
    assert forall|i: int| 0 <= i < split(s, k).len() implies !(#[trigger] split(s, k)[i]).contains(
        c,
    ) by {
        let p = split(s, k)[i];
        assert(is_free_of(p, k));
        assert forall|j: int| 0 <= j < p.len() implies p[j] != c by {
            assert(!k.has(p[j]));
        }
    }
}

/// A piece of a text stands in it.
pub proof fn lemma_split_contains(s: Seq<char>, k: CharClass, i: int)
    requires
        0 <= i < split(s, k).len(),
    ensures
        contains(s, split(s, k)[i]),
    decreases s.len(),
{
    let n = span(s, k) as int;
    lemma_span(s, k);
    if n >= s.len() {
        assert(s.subrange(0, s.len() as int) =~= s);
        assert(occurs_at(s, s, 0));
    } else if i == 0 {
        assert(s.subrange(0, n) =~= s.take(n));
        assert(occurs_at(s, s.take(n), 0));
    } else {
        let rest = s.skip(n + 1);
        lemma_split_contains(rest, k, i - 1);
        lemma_contains_add(s.take(n + 1), rest, split(s, k)[i]);
        assert(s.take(n + 1) + rest =~= s);
    }
}

/// A trimmed text stands in the text.
pub proof fn lemma_trim_stands(s: Seq<char>)
    ensures
        contains(s, trim(s)),
{
    law_trim_cuts_white_space(s);
    let (a, b) = choose|a: int, b: int|
        #![trigger s.subrange(a, b)]
        0 <= a <= b <= s.len() && trim(s) == s.subrange(a, b);
    assert(occurs_at(s, trim(s), a));
}

/// What stands in a text stands in any that it stands in.
pub proof fn lemma_contains_chain(a: Seq<char>, b: Seq<char>, c: Seq<char>)
    requires
        contains(a, b),
        contains(b, c),
    ensures
        contains(a, c),
{
    let i = choose|i: int| occurs_at(a, b, i);
    let j = choose|j: int| occurs_at(b, c, j);
    let found = a.subrange(i + j, i + j + c.len());
    assert(found =~= c) by {
        assert forall|x: int| 0 <= x < c.len() implies #[trigger] found[x] == c[x] by {
            assert(a.subrange(i, i + b.len())[j + x] == b[j + x]);
            assert(b.subrange(j, j + c.len())[x] == b[j + x]);
        }
    }
    assert(occurs_at(a, c, i + j));
}

/// Texts one behind the other.
pub open spec fn run_together(v: Seq<Seq<char>>) -> Seq<char>
    decreases v.len(),
{
    if v.len() == 0 {
        seq![]
    } else {
        run_together(v.drop_last()) + v.last()
    }
}

/// What stands in one of several texts stands in all of them, one behind the other.
pub proof fn lemma_contains_run(v: Seq<Seq<char>>, i: int, p: Seq<char>)
    requires
        0 <= i < v.len(),
        contains(v[i], p),
    ensures
        contains(run_together(v), p),
    decreases v.len(),
{
    if i < v.len() - 1 {
        assert(v.drop_last()[i] == v[i]);
        lemma_contains_run(v.drop_last(), i, p);
    }
    lemma_contains_add(run_together(v.drop_last()), v.last(), p);
}

/// One more text behind others.
pub proof fn lemma_run_push(v: Seq<Seq<char>>, x: Seq<char>)
    ensures
        run_together(v.push(x)) == run_together(v) + x,
{
    assert(v.push(x).drop_last() =~= v);
}

/// The entry gives all facts and then, from a new line on, the content.
pub open spec fn quotes(entry: Seq<char>, facts: Seq<Seq<char>>, content: Seq<char>) -> bool {
    exists|parts: Seq<Seq<char>>|
        entry == #[trigger] run_together(parts) + "\n"@ + content + "\n"@ && forall|i: int|
            0 <= i < facts.len() ==> parts.contains(#[trigger] facts[i])
}

/// What an entry quotes stands in it.
pub proof fn lemma_quoted(entry: Seq<char>, facts: Seq<Seq<char>>, content: Seq<char>)
    requires
        quotes(entry, facts, content),
    ensures
        contains(entry, content),
{
    let parts = choose|parts: Seq<Seq<char>>|
        entry == #[trigger] run_together(parts) + "\n"@ + content + "\n"@ && forall|i: int|
            0 <= i < facts.len() ==> parts.contains(#[trigger] facts[i]);
    lemma_contains_between(run_together(parts) + "\n"@, content, "\n"@);
}

/// A text without the characters of a class is what its pieces, one behind the other,
/// give.
pub proof fn law_split_drops_only_separators(s: Seq<char>, k: CharClass)
    ensures
        run_together(split(s, k)) == s.filter(|c: char| !k.has(c)),
    decreases s.len(),
{
    let keep = |c: char| !k.has(c);
    lemma_span(s, k);
    let n = span(s, k) as int;
    reveal_with_fuel(Seq::filter, 2);
    if n >= s.len() {
        lemma_filter_all(s, keep);
        assert(split(s, k) =~= seq![s]);
        assert(seq![s].drop_last() =~= Seq::<Seq<char>>::empty());
        assert(run_together(seq![s].drop_last()) + s =~= s);
    } else {
        let first = s.take(n);
        let rest = s.skip(n + 1);
        law_split_drops_only_separators(rest, k);
        lemma_run_front(first, split(rest, k));
        lemma_filter_all(first, keep);
        assert(first + (seq![s[n]] + rest) =~= s);
        Seq::filter_distributes_over_add(first, seq![s[n]] + rest, keep);
        Seq::filter_distributes_over_add(seq![s[n]], rest, keep);
        assert(seq![s[n]].drop_last() =~= Seq::<char>::empty());
        assert(seq![s[n]].filter(keep) =~= Seq::<char>::empty());
        assert(seq![s[n]].filter(keep) + rest.filter(keep) =~= rest.filter(keep));
    }
}

proof fn lemma_filter_all(s: Seq<char>, keep: spec_fn(char) -> bool)
    requires
        forall|i: int| 0 <= i < s.len() ==> keep(#[trigger] s[i]),
    ensures
        s.filter(keep) == s,
    decreases s.len(),
{
    reveal_with_fuel(Seq::filter, 2);
    if s.len() > 0 {
        let p = s.drop_last();
        assert forall|i: int| 0 <= i < p.len() implies keep(#[trigger] p[i]) by {
            assert(p[i] == s[i]);
        }
        lemma_filter_all(p, keep);
        assert(keep(s[s.len() - 1]));
        assert(p.push(s.last()) =~= s);
    }
}

proof fn lemma_run_front(a: Seq<char>, v: Seq<Seq<char>>)
    ensures
        run_together(seq![a] + v) == a + run_together(v),
    decreases v.len(),
{
    let w = seq![a] + v;
    assert(run_together(w) == run_together(w.drop_last()) + w.last());
    if v.len() == 0 {
        assert(w.drop_last() =~= Seq::<Seq<char>>::empty());
        assert(run_together(w.drop_last()) == Seq::<char>::empty());
        assert(run_together(w) =~= a + run_together(v));
    } else {
        assert(w.drop_last() =~= seq![a] + v.drop_last());
        assert(w.last() == v.last());
        lemma_run_front(a, v.drop_last());
        assert(run_together(v) == run_together(v.drop_last()) + v.last());
        assert(run_together(w) =~= a + run_together(v));
    }
}

/// A text has at most one word for every two characters.
pub proof fn lemma_word_count(s: Seq<char>, k: CharClass)
    ensures
        words(s, k).len() * 2 <= s.len() + 1,
    decreases s.len(),
{
    let keep = |w: Seq<char>| w.len() > 0;
    lemma_span(s, k);
    let n = span(s, k) as int;
    reveal_with_fuel(Seq::filter, 2);
    if n >= s.len() {
        assert(split(s, k) =~= seq![s]);
        assert(seq![s].drop_last() =~= Seq::<Seq<char>>::empty());
    } else {
        let first = seq![s.take(n)];
        let rest = split(s.skip(n + 1), k);
        lemma_word_count(s.skip(n + 1), k);
        Seq::filter_distributes_over_add(first, rest, keep);
        assert(first.drop_last() =~= Seq::<Seq<char>>::empty());
    }
}

/// The number of line breaks of a text.
pub open spec fn line_breaks(text: Seq<char>) -> nat
    decreases text.len(),
{
    if text.len() == 0 {
        0
    } else {
        line_breaks(text.drop_last()) + if text.last() == '\n' {
            1nat
        } else {
            0nat
        }
    }
}

/// Texts one behind the other have the line breaks of both.
pub proof fn lemma_line_breaks_add(a: Seq<char>, b: Seq<char>)
    ensures
        line_breaks(a + b) == line_breaks(a) + line_breaks(b),
    decreases b.len(),
{
    if b.len() == 0 {
        assert(a + b =~= a);
    } else {
        lemma_line_breaks_add(a, b.drop_last());
        assert((a + b).drop_last() =~= a + b.drop_last());
        assert((a + b).last() == b.last());
    }
}

/// The class of the line feed.
pub open spec fn line_feed() -> CharClass {
    CharClass::One('\n')
}

/// The text stands on one line.
pub open spec fn on_one_line(s: Seq<char>) -> bool {
    is_free_of(s, line_feed())
}

/// A text on one line has no line breaks.
pub proof fn lemma_no_line_breaks(s: Seq<char>)
    requires
        on_one_line(s),
    ensures
        line_breaks(s) == 0,
    decreases s.len(),
{
    if s.len() > 0 {
        assert(!line_feed().has(s[s.len() - 1]));
        assert forall|j: int| 0 <= j < s.drop_last().len() implies !line_feed().has(
            #[trigger] s.drop_last()[j],
        ) by {
            assert(!line_feed().has(s[j]));
        }
        lemma_no_line_breaks(s.drop_last());
    }
}

/// The lines of a text stand on one line each.
pub proof fn lemma_lines(s: Seq<char>)
    ensures
        forall|i: int| 0 <= i < lines(s).len() ==> on_one_line(#[trigger] lines(s)[i]),
{
    let p = split(s, line_feed());
    lemma_split_free(s, line_feed());
    lemma_split_not_empty(s, line_feed());
    assert forall|i: int| 0 <= i < lines(s).len() implies on_one_line(#[trigger] lines(s)[i]) by {
        assert(is_free_of(p[i], line_feed()));
        if i < p.len() - 1 {
            assert(p.drop_last()[i] == p[i]);
            let l = strip_carriage(p[i]);
            assert(lines(s)[i] == l);
            assert forall|j: int| 0 <= j < l.len() implies !line_feed().has(#[trigger] l[j]) by {
                assert(l[j] == p[i][j]);
            }
        }
    }
}

/// What is left of a text on one line stands on one line.
pub proof fn lemma_trim_on_one_line(s: Seq<char>)
    requires
        on_one_line(s),
    ensures
        on_one_line(trim(s)),
{
    lemma_trim_start_on_one_line(s, CharClass::White);
    lemma_trim_end_on_one_line(trim_start(s, CharClass::White), CharClass::White);
}

proof fn lemma_trim_start_on_one_line(s: Seq<char>, k: CharClass)
    requires
        on_one_line(s),
    ensures
        on_one_line(trim_start(s, k)),
    decreases s.len(),
{
    if s.len() > 0 && k.has(s[0]) {
        assert forall|j: int| 0 <= j < s.skip(1).len() implies !line_feed().has(
            #[trigger] s.skip(1)[j],
        ) by {
            assert(!line_feed().has(s[j + 1]));
        }
        lemma_trim_start_on_one_line(s.skip(1), k);
    }
}

/// What is left of a text on one line stands on one line.
pub proof fn lemma_trim_end_on_one_line(s: Seq<char>, k: CharClass)
    requires
        on_one_line(s),
    ensures
        on_one_line(trim_end(s, k)),
    decreases s.len(),
{
    if s.len() > 0 && k.has(s.last()) {
        assert forall|j: int| 0 <= j < s.drop_last().len() implies !line_feed().has(
            #[trigger] s.drop_last()[j],
        ) by {
            assert(!line_feed().has(s[j]));
        }
        lemma_trim_end_on_one_line(s.drop_last(), k);
    }
}

/// Replacing on one line stays on one line.
pub proof fn lemma_replace_on_one_line(s: Seq<char>, p: Seq<char>, t: Seq<char>)
    requires
        on_one_line(s),
        on_one_line(t),
    ensures
        on_one_line(replace(s, p, t)),
    decreases s.len(),
{
    if p.len() > 0 && s.len() >= p.len() {
        let n: int = if p.is_prefix_of(s) {
            p.len() as int
        } else {
            1
        };
        let rest = s.skip(n);
        assert forall|j: int| 0 <= j < rest.len() implies !line_feed().has(#[trigger] rest[j]) by {
            assert(!line_feed().has(s[j + n]));
        }
        lemma_replace_on_one_line(rest, p, t);
        let r = replace(s, p, t);
        let tail = replace(rest, p, t);
        assert forall|j: int| 0 <= j < r.len() implies !line_feed().has(#[trigger] r[j]) by {
            let front = r.len() - tail.len();
            if j >= front {
                assert(r[j] == tail[j - front]);
            } else if p.is_prefix_of(s) {
                assert(r[j] == t[j]);
            } else {
                assert(r[j] == s[0]);
            }
        }
    }
}

/// Texts that stand on one line each are joined on one line.
pub proof fn lemma_join_on_one_line(v: Seq<Seq<char>>, sep: Seq<char>)
    requires
        forall|i: int| 0 <= i < v.len() ==> on_one_line(#[trigger] v[i]),
        on_one_line(sep),
    ensures
        on_one_line(join(v, sep)),
    decreases v.len(),
{
    reveal_with_fuel(join, 2);
    if v.len() > 1 {
        let head = v.drop_last();
        assert forall|i: int| 0 <= i < head.len() implies on_one_line(#[trigger] head[i]) by {
            assert(on_one_line(v[i]));
        }
        lemma_join_on_one_line(head, sep);
        lemma_add_on_one_line(join(head, sep), sep);
        assert(on_one_line(v[v.len() - 1]));
        lemma_add_on_one_line(join(head, sep) + sep, v.last());
    } else if v.len() == 1 {
        assert(on_one_line(v[0]));
        assert(join(v, sep) =~= v[0]);
    }
}

/// Two texts on one line, one behind the other, are on one line.
pub proof fn lemma_add_on_one_line(a: Seq<char>, b: Seq<char>)
    requires
        on_one_line(a),
        on_one_line(b),
    ensures
        on_one_line(a + b),
{
    assert forall|j: int| 0 <= j < (a + b).len() implies !line_feed().has(#[trigger] (a + b)[j]) by {
        if j < a.len() {
            assert(!line_feed().has(a[j]));
        } else {
            assert(!line_feed().has(b[j - a.len()]));
        }
    }
}

} // verus!
