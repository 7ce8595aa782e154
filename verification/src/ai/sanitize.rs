//! Answers about documents carry no web addresses: the sources are shown apart.

use vstd::prelude::*;

use crate::text::{
    chars, contains, is_whitespace, matches_at, occurs_at, replace, replaced, trim, trimmed,
    CharClass,
};

verus! {

/// A web address ends before this character.
pub open spec fn ends_address(c: char) -> bool {
    is_whitespace(c) || c == ')' || c == ']' || c == '>' || c == ','
}

/// The text from the first character on that ends an address.
pub open spec fn after_address(s: Seq<char>) -> Seq<char>
    decreases s.len(),
{
    if s.len() == 0 || ends_address(s[0]) {
        s
    } else {
        after_address(s.skip(1))
    }
}

proof fn lemma_after_address(s: Seq<char>)
    ensures
        after_address(s).len() <= s.len(),
        after_address(s).len() > 0 ==> ends_address(after_address(s)[0]),
    decreases s.len(),
{
    if s.len() > 0 && !ends_address(s[0]) {
        lemma_after_address(s.skip(1));
    }
}

/// The length of the scheme with which an address begins, zero where the text
/// does not begin with one.
pub open spec fn scheme_len(s: Seq<char>) -> nat {
    if "https://"@.is_prefix_of(s) {
        "https://"@.len()
    } else if "http://"@.is_prefix_of(s) {
        "http://"@.len()
    } else {
        0
    }
}

/// The text without its web addresses.
pub open spec fn without_addresses(s: Seq<char>) -> Seq<char>
    decreases s.len(),
    via without_addresses_shrinks
{
    if s.len() == 0 {
        s
    } else if scheme_len(s) > 0 {
        without_addresses(after_address(s.skip(scheme_len(s) as int)))
    } else {
        seq![s[0]] + without_addresses(s.skip(1))
    }
}

#[via_fn]
proof fn without_addresses_shrinks(s: Seq<char>) {
    if s.len() > 0 && scheme_len(s) > 0 {
        lemma_after_address(s.skip(scheme_len(s) as int));
    }
}

/// The text without web addresses and what is left of their markup, before the
/// empty brackets go.
pub open spec fn without_links(s: Seq<char>) -> Seq<char> {
    replace(without_addresses(s), "]()"@, "]"@)
}

/// An answer as it is shown.
pub open spec fn sanitized(s: Seq<char>) -> Seq<char> {
    trim(replace(without_links(s), "[]"@, ""@))
}

/// The text without its web addresses.
pub fn strip_addresses(answer: &str) -> (r: String)
    ensures
        r@ == without_addresses(answer@),
{
    let s = chars(answer);
    let secure = chars("https://");
    let open = chars("http://");
    let mut r = String::new();
    let mut i: usize = 0;
    proof {
        reveal_strlit("https://");
        reveal_strlit("http://");
    }
    assert(s@.skip(0) =~= s@);
    assert(r@ + without_addresses(s@) =~= without_addresses(s@));
    while i < s.len()
        invariant
            s@ == answer@,
            secure@ == "https://"@,
            open@ == "http://"@,
            secure.len() == 8,
            open.len() == 7,
            i <= s.len(),
            r@ + without_addresses(s@.skip(i as int)) == without_addresses(s@),
        decreases s.len() - i,
    {
        let ghost rest = s@.skip(i as int);
        proof {
            lemma_prefix_at(s@, "https://"@, i as int);
            lemma_prefix_at(s@, "http://"@, i as int);
        }
        let scheme: usize = if matches_at(&s, &secure, i) {
            8
        } else if matches_at(&s, &open, i) {
            7
        } else {
            0
        };
        assert(scheme == scheme_len(rest));
        if scheme > 0 {
            let start = i + scheme;
            i = start;
            assert(rest.skip(scheme as int) =~= s@.skip(i as int));
            while i < s.len() && !(CharClass::White.holds(s[i]) || s[i] == ')' || s[i] == ']' || s[i]
                == '>' || s[i] == ',')
                invariant
                    start <= i <= s.len(),
                    after_address(s@.skip(start as int)) == after_address(s@.skip(i as int)),
                decreases s.len() - i,
            {
                assert(s@.skip(i as int).skip(1) =~= s@.skip(i + 1));
                i += 1;
            }
            assert(after_address(s@.skip(start as int)) == s@.skip(i as int));
        } else {
            let ghost before = r@;
            r.push(s[i]);
            i += 1;
            proof {
                assert(rest.skip(1) =~= s@.skip(i as int));
                assert(r@ + without_addresses(s@.skip(i as int)) =~= before + (seq![rest[0]]
                    + without_addresses(s@.skip(i as int))));
            }
        }
    }
    assert(r@ + without_addresses(s@.skip(i as int)) =~= r@);
    r
}

proof fn lemma_prefix_at(s: Seq<char>, p: Seq<char>, i: int)
    requires
        0 <= i <= s.len(),
    ensures
        p.is_prefix_of(s.skip(i)) <==> occurs_at(s, p, i),
{
    if i + p.len() <= s.len() {
        assert(s.skip(i).subrange(0, p.len() as int) =~= s.subrange(i, i + p.len()));
    }
}

/// An answer as it is shown: without web addresses, without the markup that they
/// leave behind, and without white space at its ends.
pub fn sanitize_document_output(answer: &str) -> (r: String)
    ensures
        r@ == sanitized(answer@),
{
    proof {
        reveal_strlit("]()");
        reveal_strlit("[]");
    }
    let clean = strip_addresses(answer);
    let bare = replaced(clean.as_str(), "]()", "]");
    let plain = replaced(bare.as_str(), "[]", "");
    trimmed(plain.as_str())
}

// ----------------------------------------------------------------------- laws

/// The text holds a web address.
pub open spec fn has_address(s: Seq<char>) -> bool {
    contains(s, "http://"@) || contains(s, "https://"@)
}

/// The characters that schemes of web addresses are made of.
pub open spec fn is_scheme_char(c: char) -> bool {
    c == 'h' || c == 't' || c == 'p' || c == 's' || c == ':' || c == '/'
}

/// The length of the run of empty brackets with which the text begins.
pub open spec fn empty_brackets(s: Seq<char>) -> nat
    decreases s.len(),
{
    if s.len() >= 2 && s[0] == '[' && s[1] == ']' {
        2 + empty_brackets(s.skip(2))
    } else {
        0
    }
}

/// Empty brackets stand between two characters of a scheme, at `i`.
pub open spec fn splits_at(s: Seq<char>, i: int) -> bool {
    let n = empty_brackets(s.skip(i)) as int;
    0 < i && n > 0 && i + n < s.len() && is_scheme_char(s[i - 1]) && is_scheme_char(s[i + n])
}

/// Empty brackets stand between two characters of a scheme.
pub open spec fn splits_scheme(s: Seq<char>) -> bool {
    exists|i: int| splits_at(s, i)
}

/// The text is one of the two schemes.
pub open spec fn is_scheme(p: Seq<char>) -> bool {
    p == "http://"@ || p == "https://"@
}

proof fn lemma_scheme(p: Seq<char>)
    requires
        is_scheme(p),
    ensures
        p.len() > 0,
        forall|i: int| 0 <= i < p.len() ==> is_scheme_char(#[trigger] p[i]),
{
    reveal_strlit("http://");
    reveal_strlit("https://");
}

proof fn lemma_not_scheme(s: Seq<char>)
    requires
        s.len() > 0,
        ends_address(s[0]),
    ensures
        scheme_len(s) == 0,
{
    reveal_strlit("http://");
    reveal_strlit("https://");
    if "https://"@.is_prefix_of(s) {
        assert(s.subrange(0, "https://"@.len() as int)[0] == s[0]);
    }
    if "http://"@.is_prefix_of(s) {
        assert(s.subrange(0, "http://"@.len() as int)[0] == s[0]);
    }
}

proof fn lemma_prefix_step(q: Seq<char>, c: char, w: Seq<char>)
    requires
        q.len() > 0,
        q.is_prefix_of(seq![c] + w),
    ensures
        q[0] == c,
        q.skip(1).is_prefix_of(w),
{
    let s = seq![c] + w;
    assert(s.subrange(0, q.len() as int)[0] == c);
    assert(q.skip(1) =~= w.subrange(0, q.len() - 1)) by {
        assert forall|i: int| 0 <= i < q.len() - 1 implies q.skip(1)[i] == w[i] by {
            assert(q[i + 1] == s.subrange(0, q.len() as int)[i + 1]);
        }
    }
}

proof fn lemma_prefix_join(q: Seq<char>, x: Seq<char>)
    requires
        q.len() > 0,
        x.len() > 0,
        q[0] == x[0],
        q.skip(1).is_prefix_of(x.skip(1)),
    ensures
        q.is_prefix_of(x),
{
    assert(q =~= x.subrange(0, q.len() as int)) by {
        assert forall|i: int| 0 <= i < q.len() implies q[i] == x[i] by {
            if i > 0 {
                assert(q.skip(1)[i - 1] == x.skip(1).subrange(0, q.len() - 1)[i - 1]);
            }
        }
    }
}

/// What begins the stripped text, if it can stand in an address, begins the text.
proof fn lemma_addresses_prefix(x: Seq<char>, q: Seq<char>)
    requires
        q.len() > 0,
        forall|i: int| 0 <= i < q.len() ==> is_scheme_char(#[trigger] q[i]),
        q.is_prefix_of(without_addresses(x)),
    ensures
        q.is_prefix_of(x),
        scheme_len(x) == 0,
    decreases q.len(),
{
    assert(x.len() > 0);
    if scheme_len(x) > 0 {
        let rest = after_address(x.skip(scheme_len(x) as int));
        lemma_after_address(x.skip(scheme_len(x) as int));
        assert(without_addresses(rest).len() > 0);
        assert(rest.len() > 0);
        lemma_not_scheme(rest);
        lemma_prefix_step(q, rest[0], without_addresses(rest.skip(1)));
        assert(is_scheme_char(q[0]));
        assert(false);
    }
    lemma_prefix_step(q, x[0], without_addresses(x.skip(1)));
    if q.len() > 1 {
        assert forall|i: int| 0 <= i < q.skip(1).len() implies is_scheme_char(
            #[trigger] q.skip(1)[i],
        ) by {
            assert(q.skip(1)[i] == q[i + 1]);
        }
        lemma_addresses_prefix(x.skip(1), q.skip(1));
    } else {
        assert(q.skip(1) =~= x.skip(1).subrange(0, 0));
    }
    lemma_prefix_join(q, x);
}

proof fn lemma_occurs_behind(c: char, w: Seq<char>, p: Seq<char>, i: int)
    requires
        occurs_at(seq![c] + w, p, i),
        i > 0,
    ensures
        occurs_at(w, p, i - 1),
{
    assert((seq![c] + w).subrange(i, i + p.len()) =~= w.subrange(i - 1, i - 1 + p.len()));
}

proof fn lemma_occurs_first(s: Seq<char>, p: Seq<char>)
    ensures
        occurs_at(s, p, 0) <==> p.is_prefix_of(s),
{
}

proof fn lemma_contains_skip(s: Seq<char>, p: Seq<char>, k: int)
    requires
        0 <= k <= s.len(),
        contains(s.skip(k), p),
    ensures
        contains(s, p),
{
    let i = choose|i: int| occurs_at(s.skip(k), p, i);
    assert(s.skip(k).subrange(i, i + p.len()) =~= s.subrange(k + i, k + i + p.len()));
    assert(occurs_at(s, p, k + i));
}

proof fn lemma_addresses_gone(s: Seq<char>, p: Seq<char>)
    requires
        is_scheme(p),
    ensures
        !contains(without_addresses(s), p),
    decreases s.len(),
{
    let w = without_addresses(s);
    lemma_scheme(p);
    lemma_scheme("https://"@);
    if s.len() > 0 {
        if scheme_len(s) > 0 {
            lemma_after_address(s.skip(scheme_len(s) as int));
            lemma_addresses_gone(after_address(s.skip(scheme_len(s) as int)), p);
        } else {
            lemma_addresses_gone(s.skip(1), p);
            if contains(w, p) {
                let i = choose|i: int| occurs_at(w, p, i);
                if i == 0 {
                    lemma_occurs_first(w, p);
                    lemma_addresses_prefix(s, p);
                    assert(false);
                } else {
                    lemma_occurs_behind(s[0], without_addresses(s.skip(1)), p, i);
                    assert(false);
                }
            }
        }
    }
}

/// Replacing by one character that is no scheme character makes no scheme begin
/// where none began.
proof fn lemma_replace_prefix(x: Seq<char>, pat: Seq<char>, t: Seq<char>, q: Seq<char>)
    requires
        pat.len() > 0,
        t.len() == 1,
        q.len() > 0,
        forall|i: int| 0 <= i < q.len() ==> #[trigger] q[i] != t[0],
        q.is_prefix_of(replace(x, pat, t)),
    ensures
        q.is_prefix_of(x),
    decreases q.len(),
{
    if x.len() >= pat.len() {
        if pat.is_prefix_of(x) {
            let rest = replace(x.skip(pat.len() as int), pat, t);
            assert(t + rest =~= seq![t[0]] + rest);
            lemma_prefix_step(q, t[0], rest);
            assert(false);
        } else {
            lemma_prefix_step(q, x[0], replace(x.skip(1), pat, t));
            if q.len() > 1 {
                assert forall|i: int| 0 <= i < q.skip(1).len() implies #[trigger] q.skip(1)[i]
                    != t[0] by {
                    assert(q.skip(1)[i] == q[i + 1]);
                }
                lemma_replace_prefix(x.skip(1), pat, t, q.skip(1));
            } else {
                assert(q.skip(1) =~= x.skip(1).subrange(0, 0));
            }
            lemma_prefix_join(q, x);
        }
    }
}

proof fn lemma_replace_adds_none(x: Seq<char>, pat: Seq<char>, t: Seq<char>, p: Seq<char>)
    requires
        pat.len() > 0,
        t.len() == 1,
        p.len() > 0,
        forall|i: int| 0 <= i < p.len() ==> #[trigger] p[i] != t[0],
        !contains(x, p),
    ensures
        !contains(replace(x, pat, t), p),
    decreases x.len(),
{
    let r = replace(x, pat, t);
    if x.len() >= pat.len() {
        if pat.is_prefix_of(x) {
            let tail = x.skip(pat.len() as int);
            let rest = replace(tail, pat, t);
            if contains(tail, p) {
                lemma_contains_skip(x, p, pat.len() as int);
            }
            lemma_replace_adds_none(tail, pat, t, p);
            if contains(r, p) {
                let i = choose|i: int| occurs_at(r, p, i);
                assert(r =~= seq![t[0]] + rest);
                if i == 0 {
                    assert(r.subrange(0, p.len() as int)[0] == p[0]);
                    assert(false);
                } else {
                    lemma_occurs_behind(t[0], rest, p, i);
                    assert(false);
                }
            }
        } else {
            let rest = replace(x.skip(1), pat, t);
            if contains(x.skip(1), p) {
                lemma_contains_skip(x, p, 1);
            }
            lemma_replace_adds_none(x.skip(1), pat, t, p);
            if contains(r, p) {
                let i = choose|i: int| occurs_at(r, p, i);
                if i == 0 {
                    lemma_occurs_first(r, p);
                    lemma_replace_prefix(x, pat, t, p);
                    lemma_occurs_first(x, p);
                    assert(false);
                } else {
                    lemma_occurs_behind(x[0], rest, p, i);
                    assert(false);
                }
            }
        }
    }
}

/// Until the empty brackets go, no web address is left of any answer.
pub proof fn law_no_address_in_text(s: Seq<char>)
    ensures
        !has_address(without_links(s)),
{
    reveal_strlit("]()");
    reveal_strlit("]");
    let w = without_addresses(s);
    lemma_scheme("http://"@);
    lemma_scheme("https://"@);
    lemma_addresses_gone(s, "http://"@);
    lemma_addresses_gone(s, "https://"@);
    assert forall|i: int| 0 <= i < "http://"@.len() implies #[trigger] "http://"@[i] != "]"@[0] by {
        assert(is_scheme_char("http://"@[i]));
    }
    assert forall|i: int| 0 <= i < "https://"@.len() implies #[trigger] "https://"@[i]
        != "]"@[0] by {
        assert(is_scheme_char("https://"@[i]));
    }
    lemma_replace_adds_none(w, "]()"@, "]"@, "http://"@);
    lemma_replace_adds_none(w, "]()"@, "]"@, "https://"@);
}

proof fn lemma_begins_with_brackets(s: Seq<char>)
    ensures
        "[]"@.is_prefix_of(s) <==> empty_brackets(s) > 0,
{
    reveal_strlit("[]");
    if s.len() >= 2 {
        let h = s.subrange(0, 2);
        assert(h[0] == s[0] && h[1] == s[1]);
        if s[0] == '[' && s[1] == ']' {
            assert("[]"@ =~= h);
        }
    }
}

proof fn lemma_brackets_removed(s: Seq<char>)
    ensures
        empty_brackets(s) <= s.len(),
        empty_brackets(s.skip(empty_brackets(s) as int)) == 0,
        replace(s, "[]"@, ""@) == replace(s.skip(empty_brackets(s) as int), "[]"@, ""@),
    decreases s.len(),
{
    reveal_strlit("[]");
    reveal_strlit("");
    lemma_begins_with_brackets(s);
    if empty_brackets(s) > 0 {
        lemma_brackets_removed(s.skip(2));
        assert(s.skip(2).skip(empty_brackets(s.skip(2)) as int) =~= s.skip(
            empty_brackets(s) as int,
        ));
        assert(""@ + replace(s.skip(2), "[]"@, ""@) =~= replace(s.skip(2), "[]"@, ""@));
    } else {
        assert(s.skip(0) =~= s);
    }
}

proof fn lemma_splits_skip(s: Seq<char>, k: int)
    requires
        0 <= k <= s.len(),
        splits_scheme(s.skip(k)),
    ensures
        splits_scheme(s),
{
    let i = choose|i: int| splits_at(s.skip(k), i);
    assert(s.skip(k).skip(i) =~= s.skip(k + i));
    assert(splits_at(s, k + i));
}

proof fn lemma_no_brackets_step(x: Seq<char>)
    requires
        empty_brackets(x) == 0,
        x.len() > 0,
    ensures
        replace(x, "[]"@, ""@) == seq![x[0]] + replace(x.skip(1), "[]"@, ""@),
{
    reveal_strlit("[]");
    lemma_begins_with_brackets(x);
    if x.len() < 2 {
        assert(x =~= seq![x[0]] + x.skip(1));
    }
}

/// Removing empty brackets makes no scheme begin where none began, unless they
/// stood inside it.
proof fn lemma_brackets_prefix(x: Seq<char>, q: Seq<char>)
    requires
        q.len() > 0,
        forall|i: int| 0 <= i < q.len() ==> is_scheme_char(#[trigger] q[i]),
        empty_brackets(x) == 0,
        !splits_scheme(x),
        q.is_prefix_of(replace(x, "[]"@, ""@)),
    ensures
        q.is_prefix_of(x),
    decreases q.len(),
{
    reveal_strlit("[]");
    assert(x.len() > 0);
    lemma_no_brackets_step(x);
    let z = x.skip(1);
    let rz = replace(z, "[]"@, ""@);
    lemma_prefix_step(q, x[0], rz);
    if q.len() > 1 {
        let q1 = q.skip(1);
        assert forall|i: int| 0 <= i < q1.len() implies is_scheme_char(#[trigger] q1[i]) by {
            assert(q1[i] == q[i + 1]);
        }
        let b = empty_brackets(z) as int;
        lemma_brackets_removed(z);
        if b > 0 {
            let y = z.skip(b);
            assert(rz.len() > 0);
            assert(y.len() > 0);
            lemma_no_brackets_step(y);
            lemma_prefix_step(q1, y[0], replace(y.skip(1), "[]"@, ""@));
            assert(is_scheme_char(q1[0]));
            assert(is_scheme_char(q[0]));
            assert(x[1 + b] == y[0]);
            assert(splits_at(x, 1));
            assert(false);
        }
        if splits_scheme(z) {
            lemma_splits_skip(x, 1);
        }
        lemma_brackets_prefix(z, q1);
    } else {
        assert(q.skip(1) =~= z.subrange(0, 0));
    }
    lemma_prefix_join(q, x);
}

proof fn lemma_brackets_add_none(x: Seq<char>, p: Seq<char>)
    requires
        is_scheme(p),
        !contains(x, p),
        !splits_scheme(x),
    ensures
        !contains(replace(x, "[]"@, ""@), p),
    decreases x.len(),
{
    reveal_strlit("[]");
    reveal_strlit("");
    lemma_scheme(p);
    lemma_begins_with_brackets(x);
    let r = replace(x, "[]"@, ""@);
    if empty_brackets(x) > 0 {
        assert(""@ + replace(x.skip(2), "[]"@, ""@) =~= replace(x.skip(2), "[]"@, ""@));
        if contains(x.skip(2), p) {
            lemma_contains_skip(x, p, 2);
        }
        if splits_scheme(x.skip(2)) {
            lemma_splits_skip(x, 2);
        }
        lemma_brackets_add_none(x.skip(2), p);
    } else if x.len() > 0 {
        lemma_no_brackets_step(x);
        if contains(x.skip(1), p) {
            lemma_contains_skip(x, p, 1);
        }
        if splits_scheme(x.skip(1)) {
            lemma_splits_skip(x, 1);
        }
        lemma_brackets_add_none(x.skip(1), p);
        if contains(r, p) {
            let i = choose|i: int| occurs_at(r, p, i);
            if i == 0 {
                lemma_occurs_first(r, p);
                lemma_brackets_prefix(x, p);
                lemma_occurs_first(x, p);
                assert(false);
            } else {
                lemma_occurs_behind(x[0], replace(x.skip(1), "[]"@, ""@), p, i);
                assert(false);
            }
        }
    }
}

proof fn lemma_trim_start_part(s: Seq<char>, k: CharClass)
    ensures
        exists|i: int| 0 <= i <= s.len() && crate::text::trim_start(s, k) == #[trigger] s.skip(i),
    decreases s.len(),
{
    if s.len() > 0 && k.has(s[0]) {
        lemma_trim_start_part(s.skip(1), k);
        let i = choose|i: int|
            0 <= i <= s.skip(1).len() && crate::text::trim_start(s.skip(1), k) == #[trigger] s.skip(
                1,
            ).skip(i);
        assert(s.skip(1).skip(i) =~= s.skip(i + 1));
    } else {
        assert(s.skip(0) =~= s);
    }
}

proof fn lemma_trim_end_part(s: Seq<char>, k: CharClass)
    ensures
        exists|i: int| 0 <= i <= s.len() && crate::text::trim_end(s, k) == #[trigger] s.take(i),
    decreases s.len(),
{
    if s.len() > 0 && k.has(s.last()) {
        lemma_trim_end_part(s.drop_last(), k);
        let i = choose|i: int|
            0 <= i <= s.drop_last().len() && crate::text::trim_end(s.drop_last(), k)
                == #[trigger] s.drop_last().take(i);
        assert(s.drop_last().take(i) =~= s.take(i));
    } else {
        assert(s.take(s.len() as int) =~= s);
    }
}

proof fn lemma_trim_contains(s: Seq<char>, p: Seq<char>)
    requires
        contains(trim(s), p),
    ensures
        contains(s, p),
{
    lemma_trim_start_part(s, CharClass::White);
    let a = crate::text::trim_start(s, CharClass::White);
    let i = choose|i: int| 0 <= i <= s.len() && a == #[trigger] s.skip(i);
    lemma_trim_end_part(a, CharClass::White);
    let n = choose|n: int| 0 <= n <= a.len() && trim(s) == #[trigger] a.take(n);
    let j = choose|j: int| occurs_at(trim(s), p, j);
    assert(a.take(n).subrange(j, j + p.len()) =~= a.subrange(j, j + p.len()));
    assert(occurs_at(a, p, j));
    lemma_contains_skip(s, p, i);
}

/// No answer is shown with a web address, unless its author wrote one around
/// empty brackets.
pub proof fn law_sanitized_has_no_address(s: Seq<char>)
    requires
        !splits_scheme(without_links(s)),
    ensures
        !has_address(sanitized(s)),
{
    law_no_address_in_text(s);
    let x = without_links(s);
    lemma_brackets_add_none(x, "http://"@);
    lemma_brackets_add_none(x, "https://"@);
    let r = replace(x, "[]"@, ""@);
    if contains(trim(r), "http://"@) {
        lemma_trim_contains(r, "http://"@);
    }
    if contains(trim(r), "https://"@) {
        lemma_trim_contains(r, "https://"@);
    }
}

proof fn lemma_replace_keeps(s: Seq<char>, pat: Seq<char>, t: Seq<char>)
    requires
        !contains(s, pat),
    ensures
        replace(s, pat, t) == s,
    decreases s.len(),
{
    if pat.len() > 0 && s.len() >= pat.len() {
        if pat.is_prefix_of(s) {
            assert(occurs_at(s, pat, 0));
        }
        if contains(s.skip(1), pat) {
            lemma_contains_skip(s, pat, 1);
        }
        lemma_replace_keeps(s.skip(1), pat, t);
        assert(s =~= seq![s[0]] + s.skip(1));
    }
}

proof fn lemma_addresses_keep(s: Seq<char>)
    requires
        !has_address(s),
    ensures
        without_addresses(s) == s,
    decreases s.len(),
{
    if s.len() > 0 {
        if "https://"@.is_prefix_of(s) {
            assert(occurs_at(s, "https://"@, 0));
        }
        if "http://"@.is_prefix_of(s) {
            assert(occurs_at(s, "http://"@, 0));
        }
        if contains(s.skip(1), "http://"@) {
            lemma_contains_skip(s, "http://"@, 1);
        }
        if contains(s.skip(1), "https://"@) {
            lemma_contains_skip(s, "https://"@, 1);
        }
        lemma_addresses_keep(s.skip(1));
        assert(s =~= seq![s[0]] + s.skip(1));
    }
}

/// An answer without web addresses and empty markup is shown as it is, but for
/// the white space at its ends.
pub proof fn law_sanitized_keeps_text(s: Seq<char>)
    requires
        !has_address(s),
        !contains(s, "]()"@),
        !contains(s, "[]"@),
    ensures
        sanitized(s) == trim(s),
{
    lemma_addresses_keep(s);
    lemma_replace_keeps(s, "]()"@, "]"@);
    lemma_replace_keeps(s, "[]"@, ""@);
}

/// An address begins at this place of a text.
pub open spec fn address_at(s: Seq<char>, i: int) -> bool {
    "https://"@.is_prefix_of(s.skip(i)) || "http://"@.is_prefix_of(s.skip(i))
}

/// What stands before the first address of a text is kept as it is.
pub proof fn law_text_before_an_address_stays(s: Seq<char>, n: int)
    requires
        0 <= n <= s.len(),
        forall|i: int| 0 <= i < n ==> !#[trigger] address_at(s, i),
    ensures
        without_addresses(s) == s.take(n) + without_addresses(s.skip(n)),
    decreases n,
{
    if n == 0 {
        assert(s.skip(0) =~= s);
        assert(s.take(0) + without_addresses(s) =~= without_addresses(s));
    } else {
        assert(!address_at(s, 0));
        assert(s.skip(0) =~= s);
        let t = s.skip(1);
        assert forall|i: int| 0 <= i < n - 1 implies !#[trigger] address_at(t, i) by {
            assert(!address_at(s, i + 1));
            assert(t.skip(i) =~= s.skip(i + 1));
        }
        law_text_before_an_address_stays(t, n - 1);
        assert(t.skip(n - 1) =~= s.skip(n));
        assert(seq![s[0]] + t.take(n - 1) =~= s.take(n));
        assert(seq![s[0]] + (t.take(n - 1) + without_addresses(s.skip(n))) =~= s.take(n)
            + without_addresses(s.skip(n)));
    }
}

proof fn lemma_address_end(body: Seq<char>, tail: Seq<char>)
    requires
        forall|i: int| 0 <= i < body.len() ==> !ends_address(#[trigger] body[i]),
        tail.len() > 0 ==> ends_address(tail[0]),
    ensures
        after_address(body + tail) == tail,
    decreases body.len(),
{
    let s = body + tail;
    if body.len() == 0 {
        assert(s =~= tail);
    } else {
        assert(!ends_address(body[0]));
        let rest = body.skip(1);
        assert forall|i: int| 0 <= i < rest.len() implies !ends_address(#[trigger] rest[i]) by {
            assert(rest[i] == body[i + 1]);
        }
        lemma_address_end(rest, tail);
        assert(s.skip(1) =~= rest + tail);
    }
}

/// An address is taken out whole, and nothing behind it: it reaches up to the next white
/// space, closing bracket or comma, and the text goes on there.
pub proof fn law_address_is_taken_out(scheme: Seq<char>, body: Seq<char>, tail: Seq<char>)
    requires
        scheme == "https://"@ || scheme == "http://"@,
        forall|i: int|
            0 <= i < body.len() ==> !(is_whitespace(#[trigger] body[i]) || body[i] == ')' || body[i]
                == ']' || body[i] == '>' || body[i] == ','),
        tail.len() > 0 ==> is_whitespace(tail[0]) || tail[0] == ')' || tail[0] == ']' || tail[0]
            == '>' || tail[0] == ',',
    ensures
        without_addresses(scheme + body + tail) == without_addresses(tail),
{
    let s = scheme + body + tail;
    reveal_strlit("https://");
    reveal_strlit("http://");
    assert(scheme =~= s.subrange(0, scheme.len() as int));
    assert(scheme_len(s) == scheme.len()) by {
        if scheme == "http://"@ {
            assert(s[4] == ':');
            assert("https://"@[4] == 's');
            if "https://"@.is_prefix_of(s) {
                assert("https://"@ =~= s.subrange(0, 8));
                assert(s.subrange(0, 8)[4] == s[4]);
            }
        }
    }
    assert(s.skip(scheme.len() as int) =~= body + tail);
    assert forall|i: int| 0 <= i < body.len() implies !ends_address(#[trigger] body[i]) by {}
    lemma_address_end(body, tail);
}

} // verus!
