//! Character-level string helpers: conversions between `String` and
//! `Vec<char>`, string equality, ASCII case mapping, and lexicographic
//! ordering of character sequences.

use vstd::prelude::*;

verus! {

/// The characters of `s`, as a vector.
pub fn chars_of(s: &str) -> (r: Vec<char>)
    ensures
        r@ == s@,
{
    let n = s.unicode_len();
    let mut v: Vec<char> = Vec::new();
    let mut i: usize = 0;
    while i < n
        invariant
            n == s@.len(),
            i <= n,
            v@ =~= s@.take(i as int),
        decreases n - i,
    {
        v.push(s.get_char(i));
        i = i + 1;
    }
    proof {
        assert(s@.take(n as int) =~= s@);
    }
    v
}

/// Relies on `String: FromIterator<char>` of std: collecting an iterator
/// over a character vector yields the string of exactly those characters.
#[verifier::external_body]
pub fn string_of(v: &Vec<char>) -> (r: String)
    ensures
        r@ == v@,
{
    v.iter().collect()
}

/// Whether two strings hold the same characters.
pub fn str_eq(a: &str, b: &str) -> (r: bool)
    ensures
        r == (a@ == b@),
{
    let na = a.unicode_len();
    let nb = b.unicode_len();
    if na != nb {
        proof {
            assert(a@ != b@);
        }
        return false;
    }
    let mut i: usize = 0;
    while i < na
        invariant
            na == a@.len(),
            na == b@.len(),
            i <= na,
            forall|j: int| 0 <= j < i ==> a@[j] == b@[j],
        decreases na - i,
    {
        if a.get_char(i) != b.get_char(i) {
            proof {
                assert(a@[i as int] != b@[i as int]);
            }
            return false;
        }
        i = i + 1;
    }
    proof {
        assert(a@ =~= b@);
    }
    true
}

/// `c` with an ASCII capital letter mapped to its small form;
/// every other character is left as it is.
pub open spec fn lower_char(c: char) -> char {
    if 'A' <= c && c <= 'Z' {
        (((c as u32) + 32) as u8) as char
    } else {
        c
    }
}

/// `c` with an ASCII small letter mapped to its capital form.
pub open spec fn upper_char(c: char) -> char {
    if 'a' <= c && c <= 'z' {
        (((c as u32) - 32) as u8) as char
    } else {
        c
    }
}

/// `s` mapped through `lower_char`.
pub open spec fn lower_seq(s: Seq<char>) -> Seq<char> {
    s.map_values(|c: char| lower_char(c))
}

/// `s` mapped through `upper_char`.
pub open spec fn upper_seq(s: Seq<char>) -> Seq<char> {
    s.map_values(|c: char| upper_char(c))
}

/// `lower_char`, executably.
pub fn to_lower_char(c: char) -> (r: char)
    ensures
        r == lower_char(c),
{
    if 'A' <= c && c <= 'Z' {
        (((c as u32) + 32) as u8) as char
    } else {
        c
    }
}

/// `upper_char`, executably.
pub fn to_upper_char(c: char) -> (r: char)
    ensures
        r == upper_char(c),
{
    if 'a' <= c && c <= 'z' {
        (((c as u32) - 32) as u8) as char
    } else {
        c
    }
}

/// Whether `a` and `b` are the same string after ASCII lowercasing.
pub fn str_eq_ignore_case(a: &str, b: &str) -> (r: bool)
    ensures
        r == (lower_seq(a@) == lower_seq(b@)),
{
    let na = a.unicode_len();
    let nb = b.unicode_len();
    if na != nb {
        proof {
            assert(lower_seq(a@).len() != lower_seq(b@).len());
        }
        return false;
    }
    let mut i: usize = 0;
    while i < na
        invariant
            na == a@.len(),
            na == b@.len(),
            i <= na,
            forall|j: int| 0 <= j < i ==> lower_seq(a@)[j] == lower_seq(b@)[j],
        decreases na - i,
    {
        if to_lower_char(a.get_char(i)) != to_lower_char(b.get_char(i)) {
            proof {
                assert(lower_seq(a@)[i as int] != lower_seq(b@)[i as int]);
            }
            return false;
        }
        i = i + 1;
    }
    proof {
        assert(lower_seq(a@) =~= lower_seq(b@));
    }
    true
}

/// The suffix of `s` after the last occurrence of `sep`; all of `s` when
/// `sep` does not occur.
pub open spec fn after_last(s: Seq<char>, sep: char) -> Seq<char>
    decreases s.len(),
{
    if s.len() == 0 {
        s
    } else if s.last() == sep {
        Seq::empty()
    } else {
        after_last(s.drop_last(), sep).push(s.last())
    }
}

/// The suffix after a separator is never longer than the whole.
pub proof fn lemma_after_last_len(s: Seq<char>, sep: char)
    ensures
        after_last(s, sep).len() <= s.len(),
    decreases s.len(),
{
    if s.len() != 0 && s.last() != sep {
        lemma_after_last_len(s.drop_last(), sep);
    }
}

/// `after_last` is the suffix that starts right after the last separator.
proof fn lemma_after_last_at(s: Seq<char>, sep: char, p: int)
    requires
        0 <= p <= s.len(),
        p > 0 ==> s[p - 1] == sep,
        forall|j: int| p <= j < s.len() ==> s[j] != sep,
    ensures
        after_last(s, sep) == s.skip(p),
    decreases s.len(),
{
    if s.len() == 0 {
        assert(after_last(s, sep) =~= s.skip(0));
    } else if p == s.len() {
        assert(s.last() == sep);
        assert(after_last(s, sep) =~= s.skip(p));
    } else {
        assert(s[s.len() - 1] != sep);
        lemma_after_last_at(s.drop_last(), sep, p);
        assert(after_last(s.drop_last(), sep).push(s.last()) =~= s.skip(p));
    }
}

/// The characters of `v` after its last occurrence of `sep`.
pub fn suffix_after_last(v: &Vec<char>, sep: char) -> (r: Vec<char>)
    ensures
        r@ == after_last(v@, sep),
{
    let mut p: usize = v.len();
    loop
        invariant
            p <= v@.len(),
            forall|j: int| p <= j < v@.len() ==> v@[j] != sep,
        ensures
            p <= v@.len(),
            p > 0 ==> v@[p - 1] == sep,
            forall|j: int| p <= j < v@.len() ==> v@[j] != sep,
        decreases p,
    {
        if p == 0 {
            break;
        }
        if v[p - 1] == sep {
            break;
        }
        p = p - 1;
    }
    let mut r: Vec<char> = Vec::new();
    let mut i: usize = p;
    while i < v.len()
        invariant
            p <= i <= v@.len(),
            r@ =~= v@.subrange(p as int, i as int),
        decreases v@.len() - i,
    {
        r.push(v[i]);
        i = i + 1;
    }
    proof {
        lemma_after_last_at(v@, sep, p as int);
        assert(r@ =~= v@.skip(p as int));
    }
    r
}

/// `s` mapped through `upper_char`, executably.
pub fn upper_chars(v: &Vec<char>) -> (r: Vec<char>)
    ensures
        r@ == upper_seq(v@),
{
    let mut r: Vec<char> = Vec::new();
    let mut i: usize = 0;
    while i < v.len()
        invariant
            i <= v@.len(),
            r@ =~= upper_seq(v@.take(i as int)),
        decreases v@.len() - i,
    {
        r.push(to_upper_char(v[i]));
        proof {
            assert(upper_seq(v@.take(i as int + 1)) =~= upper_seq(v@.take(i as int)).push(
                upper_char(v@[i as int]),
            ));
        }
        i = i + 1;
    }
    proof {
        assert(v@.take(v@.len() as int) =~= v@);
    }
    r
}

/// Strict lexicographic order on character sequences, by code point.
pub open spec fn lex_lt(a: Seq<char>, b: Seq<char>) -> bool
    decreases a.len(),
{
    if b.len() == 0 {
        false
    } else if a.len() == 0 {
        true
    } else if a[0] != b[0] {
        (a[0] as int) < (b[0] as int)
    } else {
        lex_lt(a.drop_first(), b.drop_first())
    }
}

/// `lex_lt` is irreflexive and total: of two distinct sequences one is
/// strictly below the other, and never both.
pub proof fn lemma_lex_lt_trichotomy(a: Seq<char>, b: Seq<char>)
    ensures
        lex_lt(a, b) || lex_lt(b, a) || a == b,
        !(lex_lt(a, b) && lex_lt(b, a)),
        !(lex_lt(a, b) && a == b),
    decreases a.len(),
{
    if a.len() != 0 && b.len() != 0 && a[0] == b[0] {
        lemma_lex_lt_trichotomy(a.drop_first(), b.drop_first());
        if a.drop_first() == b.drop_first() {
            assert(a.drop_first().len() == b.drop_first().len());
            assert forall|j: int| 0 <= j < a.len() implies a[j] == b[j] by {
                if j >= 1 {
                    assert(a[j] == a.drop_first()[j - 1]);
                    assert(b[j] == b.drop_first()[j - 1]);
                }
            }
            assert(a =~= b);
        }
    } else if a.len() == 0 && b.len() == 0 {
        assert(a =~= b);
    }
}

/// `lex_lt` is transitive.
pub proof fn lemma_lex_lt_transitive(a: Seq<char>, b: Seq<char>, c: Seq<char>)
    requires
        lex_lt(a, b),
        lex_lt(b, c),
    ensures
        lex_lt(a, c),
    decreases a.len(),
{
    if a.len() != 0 && b.len() != 0 && c.len() != 0 && a[0] == b[0] && b[0] == c[0] {
        lemma_lex_lt_transitive(a.drop_first(), b.drop_first(), c.drop_first());
    }
}

/// Whether `lex_lt(a@, b@)` holds, comparing raw characters.
pub fn str_lex_lt(a: &str, b: &str) -> (r: bool)
    ensures
        r == lex_lt(a@, b@),
{
    let na = a.unicode_len();
    let nb = b.unicode_len();
    let mut i: usize = 0;
    proof {
        assert(a@.skip(0) =~= a@);
        assert(b@.skip(0) =~= b@);
    }
    loop
        invariant
            na == a@.len(),
            nb == b@.len(),
            i <= na,
            i <= nb,
            forall|j: int| 0 <= j < i ==> a@[j] == b@[j],
            lex_lt(a@, b@) == lex_lt(a@.skip(i as int), b@.skip(i as int)),
        ensures
            lex_lt(a@, b@) == lex_lt(a@.skip(i as int), b@.skip(i as int)),
            i == na || i == nb || a@[i as int] != b@[i as int],
            i <= na,
            i <= nb,
        decreases na - i,
    {
        if i == na || i == nb {
            break;
        }
        let ca = a.get_char(i);
        let cb = b.get_char(i);
        if ca != cb {
            break;
        }
        proof {
            assert(a@.skip(i as int).drop_first() =~= a@.skip(i as int + 1));
            assert(b@.skip(i as int).drop_first() =~= b@.skip(i as int + 1));
            assert(a@.skip(i as int)[0] == a@[i as int]);
            assert(b@.skip(i as int)[0] == b@[i as int]);
        }
        i = i + 1;
    }
    proof {
        assert(a@.skip(i as int).len() == na - i);
        assert(b@.skip(i as int).len() == nb - i);
    }
    if i == nb {
        proof {
            if i < na {
                assert(a@.skip(i as int).len() != 0);
            }
        }
        false
    } else if i == na {
        true
    } else {
        proof {
            assert(a@.skip(i as int)[0] == a@[i as int]);
            assert(b@.skip(i as int)[0] == b@[i as int]);
        }
        (a.get_char(i)) < (b.get_char(i))
    }
}

/// Whether `lex_lt(lower_seq(a@), lower_seq(b@))` holds: the case-insensitive
/// strict order on strings.
pub fn str_lex_lt_ignore_case(a: &str, b: &str) -> (r: bool)
    ensures
        r == lex_lt(lower_seq(a@), lower_seq(b@)),
{
    let va = chars_of(a);
    let vb = chars_of(b);
    let mut la: Vec<char> = Vec::new();
    let mut i: usize = 0;
    while i < va.len()
        invariant
            i <= va.len(),
            la@ =~= lower_seq(va@.take(i as int)),
        decreases va.len() - i,
    {
        la.push(to_lower_char(va[i]));
        proof {
            assert(lower_seq(va@.take(i as int + 1)) =~= lower_seq(va@.take(i as int)).push(
                lower_char(va@[i as int]),
            ));
        }
        i = i + 1;
    }
    let mut lb: Vec<char> = Vec::new();
    let mut j: usize = 0;
    while j < vb.len()
        invariant
            j <= vb.len(),
            lb@ =~= lower_seq(vb@.take(j as int)),
        decreases vb.len() - j,
    {
        lb.push(to_lower_char(vb[j]));
        proof {
            assert(lower_seq(vb@.take(j as int + 1)) =~= lower_seq(vb@.take(j as int)).push(
                lower_char(vb@[j as int]),
            ));
        }
        j = j + 1;
    }
    proof {
        assert(va@.take(va@.len() as int) =~= va@);
        assert(vb@.take(vb@.len() as int) =~= vb@);
        assert(la@ =~= lower_seq(a@));
        assert(lb@ =~= lower_seq(b@));
    }
    chars_lex_lt(&la, &lb)
}

/// Whether `lex_lt(a@, b@)` holds on character vectors.
pub fn chars_lex_lt(a: &Vec<char>, b: &Vec<char>) -> (r: bool)
    ensures
        r == lex_lt(a@, b@),
{
    let na = a.len();
    let nb = b.len();
    let mut i: usize = 0;
    proof {
        assert(a@.skip(0) =~= a@);
        assert(b@.skip(0) =~= b@);
    }
    loop
        invariant
            na == a@.len(),
            nb == b@.len(),
            i <= na,
            i <= nb,
            lex_lt(a@, b@) == lex_lt(a@.skip(i as int), b@.skip(i as int)),
        ensures
            lex_lt(a@, b@) == lex_lt(a@.skip(i as int), b@.skip(i as int)),
            i == na || i == nb || a@[i as int] != b@[i as int],
            i <= na,
            i <= nb,
        decreases na - i,
    {
        if i == na || i == nb {
            break;
        }
        if a[i] != b[i] {
            break;
        }
        proof {
            assert(a@.skip(i as int).drop_first() =~= a@.skip(i as int + 1));
            assert(b@.skip(i as int).drop_first() =~= b@.skip(i as int + 1));
            assert(a@.skip(i as int)[0] == a@[i as int]);
            assert(b@.skip(i as int)[0] == b@[i as int]);
        }
        i = i + 1;
    }
    proof {
        assert(a@.skip(i as int).len() == na - i);
        assert(b@.skip(i as int).len() == nb - i);
    }
    if i == nb {
        proof {
            if i < na {
                assert(a@.skip(i as int).len() != 0);
            }
        }
        false
    } else if i == na {
        true
    } else {
        proof {
            assert(a@.skip(i as int)[0] == a@[i as int]);
            assert(b@.skip(i as int)[0] == b@[i as int]);
        }
        a[i] < b[i]
    }
}

} // verus!
