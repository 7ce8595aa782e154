//! Addresses of this machine in text: `127.0.0.0/8` and `::1`.

use vstd::prelude::*;

use crate::text::{
    all_digits, ascii_lower, find, find_chars, number, only_digits, parse_number, pieces, split, string, views, CharClass,
};

verus! {

// ------------------------------------------------------------------------- IPv4

/// The number that an octet writes: one to three digits, no leading zero, 255 at
/// most.
pub open spec fn octet(s: Seq<char>) -> Option<nat> {
    if 1 <= s.len() <= 3 && all_digits(s) && (s.len() == 1 || s[0] != '0') && number(s) <= 255 {
        Some(number(s))
    } else {
        None
    }
}

/// The octet at a place of a dotted address.
pub open spec fn octet_at(s: Seq<char>, i: int) -> Option<nat> {
    octet(split(s, CharClass::One('.'))[i])
}

/// The text is a dotted address of four octets.
pub open spec fn is_ipv4(s: Seq<char>) -> bool {
    split(s, CharClass::One('.')).len() == 4 && forall|i: int|
        0 <= i < 4 ==> #[trigger] octet_at(s, i) is Some
}

/// The text is a dotted address of this machine: its first octet is 127.
pub open spec fn is_ipv4_loopback(s: Seq<char>) -> bool {
    is_ipv4(s) && octet_at(s, 0) == Some(127nat)
}

fn read_octet(s: &str) -> (r: Option<usize>)
    ensures
        match r {
            Some(n) => octet(s@) == Some(n as nat),
            None => octet(s@) is None,
        },
{
    let n = crate::text::char_count(s);
    if n < 1 || n > 3 || !only_digits(s) {
        return None;
    }
    if n > 1 {
        let c = crate::text::chars(s);
        if c[0] == '0' {
            return None;
        }
    }
    match parse_number(s) {
        Some(v) => if v <= 255 {
            Some(v)
        } else {
            None
        },
        None => None,
    }
}

/// The four octets of a dotted address.
fn read_ipv4(s: &str) -> (r: Option<(usize, usize, usize, usize)>)
    ensures
        match r {
            Some(o) => is_ipv4(s@) && octet_at(s@, 0) == Some(o.0 as nat) && octet_at(s@, 1)
                == Some(o.1 as nat) && octet_at(s@, 2) == Some(o.2 as nat) && octet_at(s@, 3)
                == Some(o.3 as nat),
            None => !is_ipv4(s@),
        },
{
    let p = pieces(s, CharClass::One('.'));
    assert(views(p@).len() == p@.len());
    if p.len() != 4 {
        return None;
    }
    assert(forall|i: int| 0 <= i < 4 ==> #[trigger] octet_at(s@, i) == octet(p@[i]@));
    let a = match read_octet(p[0].as_str()) {
        Some(v) => v,
        None => {
            assert(octet_at(s@, 0) is None);
            return None;
        },
    };
    let b = match read_octet(p[1].as_str()) {
        Some(v) => v,
        None => {
            assert(octet_at(s@, 1) is None);
            return None;
        },
    };
    let c = match read_octet(p[2].as_str()) {
        Some(v) => v,
        None => {
            assert(octet_at(s@, 2) is None);
            return None;
        },
    };
    let d = match read_octet(p[3].as_str()) {
        Some(v) => v,
        None => {
            assert(octet_at(s@, 3) is None);
            return None;
        },
    };
    assert(is_ipv4(s@)) by {
        assert forall|i: int| 0 <= i < 4 implies #[trigger] octet_at(s@, i) is Some by {
            assert(i == 0 || i == 1 || i == 2 || i == 3);
        }
    }
    Some((a, b, c, d))
}

// ------------------------------------------------------------------------- IPv6

/// The text is a group with the value zero.
pub open spec fn is_zero_group(s: Seq<char>) -> bool {
    1 <= s.len() <= 4 && forall|i: int| 0 <= i < s.len() ==> #[trigger] s[i] == '0'
}

/// The text is a group with the value one.
pub open spec fn is_one_group(s: Seq<char>) -> bool {
    1 <= s.len() <= 4 && s.last() == '1' && forall|i: int|
        0 <= i < s.len() - 1 ==> #[trigger] s[i] == '0'
}

/// The text is the dotted address that stands for two groups, zero and one.
pub open spec fn is_dotted_one(s: Seq<char>) -> bool {
    is_ipv4(s) && octet_at(s, 0) == Some(0nat) && octet_at(s, 1) == Some(0nat) && octet_at(s, 2)
        == Some(0nat) && octet_at(s, 3) == Some(1nat)
}

/// The first `n` texts are groups with the value zero.
pub open spec fn are_zero(g: Seq<Seq<char>>, n: int) -> bool {
    forall|i: int| 0 <= i < n ==> is_zero_group(#[trigger] g[i])
}

/// How many groups the texts stand for, where the last may be a dotted address.
pub open spec fn group_count(g: Seq<Seq<char>>) -> int {
    if g.len() > 0 && is_dotted_one(g.last()) {
        g.len() as int + 1
    } else {
        g.len() as int
    }
}

/// The groups are zeros with a one at the end.
pub open spec fn ends_in_one(g: Seq<Seq<char>>) -> bool {
    &&& g.len() > 0
    &&& are_zero(g, g.len() - 1)
    &&& is_one_group(g.last()) || is_dotted_one(g.last())
}

/// The groups of a part of an address; none where it is empty.
pub open spec fn groups_of(s: Seq<char>) -> Seq<Seq<char>> {
    if s.len() == 0 {
        seq![]
    } else {
        split(s, CharClass::One(':'))
    }
}

/// The text writes the address `::1`: eight groups, or fewer with a gap of zeros,
/// all of them zero but the last, which is one.
pub open spec fn is_ipv6_loopback(s: Seq<char>) -> bool {
    match find(s, "::"@) {
        Some(i) => {
            let head = groups_of(s.take(i));
            let tail = groups_of(s.skip(i + 2));
            are_zero(head, head.len() as int) && ends_in_one(tail) && head.len() + group_count(tail)
                <= 7
        },
        None => ends_in_one(groups_of(s)) && group_count(groups_of(s)) == 8,
    }
}

fn zeros_only(c: &[char], n: usize) -> (r: bool)
    requires
        n <= c@.len(),
    ensures
        r == forall|i: int| 0 <= i < n ==> #[trigger] c@[i] == '0',
{
    let mut i: usize = 0;
    while i < n
        invariant
            i <= n <= c@.len(),
            forall|j: int| 0 <= j < i ==> #[trigger] c@[j] == '0',
        decreases n - i,
    {
        if c[i] != '0' {
            return false;
        }
        i += 1;
    }
    true
}

fn zero_group(s: &str) -> (r: bool)
    ensures
        r == is_zero_group(s@),
{
    let c = crate::text::chars(s);
    if c.len() < 1 || c.len() > 4 {
        return false;
    }
    zeros_only(&c, c.len())
}

fn one_group(s: &str) -> (r: bool)
    ensures
        r == is_one_group(s@),
{
    let c = crate::text::chars(s);
    if c.len() < 1 || c.len() > 4 {
        return false;
    }
    c[c.len() - 1] == '1' && zeros_only(&c, c.len() - 1)
}

fn dotted_one(s: &str) -> (r: bool)
    ensures
        r == is_dotted_one(s@),
{
    match read_ipv4(s) {
        Some((a, b, c, d)) => a == 0 && b == 0 && c == 0 && d == 1,
        None => false,
    }
}

fn all_zero_groups(g: &Vec<String>, n: usize) -> (r: bool)
    requires
        n <= g@.len(),
    ensures
        r == are_zero(views(g@), n as int),
{
    let ghost all = views(g@);
    let mut i: usize = 0;
    while i < n
        invariant
            i <= n <= g@.len(),
            all == views(g@),
            forall|j: int| 0 <= j < i ==> is_zero_group(#[trigger] all[j]),
        decreases n - i,
    {
        assert(all[i as int] == g@[i as int]@);
        if !zero_group(g[i].as_str()) {
            return false;
        }
        i += 1;
    }
    true
}

/// How many groups zeros with a one at the end stand for.
fn count_to_one(g: &Vec<String>) -> (r: Option<u128>)
    ensures
        match r {
            Some(n) => ends_in_one(views(g@)) && n == group_count(views(g@)),
            None => !ends_in_one(views(g@)),
        },
{
    let ghost all = views(g@);
    assert(all.len() == g@.len());
    if g.len() == 0 || !all_zero_groups(g, g.len() - 1) {
        return None;
    }
    assert(all.last() == g@[g.len() - 1]@);
    let last = g[g.len() - 1].as_str();
    if dotted_one(last) {
        Some(g.len() as u128 + 1)
    } else if one_group(last) {
        Some(g.len() as u128)
    } else {
        None
    }
}

fn group_texts(s: &str) -> (r: Vec<String>)
    ensures
        views(r@) == groups_of(s@),
{
    if s.is_empty() {
        let r: Vec<String> = Vec::new();
        assert(views(r@) =~= seq![]);
        r
    } else {
        pieces(s, CharClass::One(':'))
    }
}

fn ipv6_loopback(s: &str) -> (r: bool)
    ensures
        r == is_ipv6_loopback(s@),
{
    let c = crate::text::chars(s);
    let gap = crate::text::chars("::");
    proof {
        reveal_strlit("::");
    }
    match find_chars(&c, &gap) {
        Some(i) => {
            let head_text = string(vstd::slice::slice_subrange(&c, 0, i));
            let tail_text = string(vstd::slice::slice_subrange(&c, i + 2, c.len()));
            assert(head_text@ =~= s@.take(i as int));
            assert(tail_text@ =~= s@.skip(i + 2));
            let head = group_texts(head_text.as_str());
            let tail = group_texts(tail_text.as_str());
            assert(views(head@).len() == head@.len());
            if !all_zero_groups(&head, head.len()) {
                return false;
            }
            match count_to_one(&tail) {
                Some(n) => head.len() as u128 + n <= 7,
                None => false,
            }
        },
        None => {
            let groups = group_texts(s);
            match count_to_one(&groups) {
                Some(n) => n == 8,
                None => false,
            }
        },
    }
}

// --------------------------------------------------------------------- loopback

/// The text is an address of this machine.
pub open spec fn is_loopback_address(s: Seq<char>) -> bool {
    is_ipv4_loopback(s) || is_ipv6_loopback(s)
}

/// The text names this machine: `localhost`, ASCII case aside, or an address of it.
pub open spec fn is_local_name(s: Seq<char>) -> bool {
    ascii_lower(s) == ascii_lower("localhost"@) || is_loopback_address(s)
}

/// Whether the text is an address of this machine.
pub fn loopback_address(s: &str) -> (r: bool)
    ensures
        r == is_loopback_address(s@),
{
    match read_ipv4(s) {
        Some((a, _, _, _)) => {
            if a == 127 {
                return true;
            }
        },
        None => {},
    }
    ipv6_loopback(s)
}

/// Whether the text names this machine.
pub fn local_name(s: &str) -> (r: bool)
    ensures
        r == is_local_name(s@),
{
    crate::text::same_ignoring_ascii_case(s, "localhost") || loopback_address(s)
}

} // verus!
