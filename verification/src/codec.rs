//! The structured document format of the report: a JSON array with one
//! object per entry, and a parser that reads such a document back.
//!
//! The encoder escapes only quotes and backslashes, so documents are plain
//! JSON for texts without control characters.  The parser accepts exactly
//! the documents the encoder produces.

use vstd::prelude::*;
use crate::digits::{dec_str, digit_val, digits_value, is_digit_char, lemma_dec_str_shape,
    lemma_digits_value_of_dec_str, u64_to_chars};
use crate::entry::{Entry, EntryV};
use crate::strutil::{chars_of, str_eq, string_of};

verus! {

/// A character of a quoted string, escaped where the format requires it.
pub open spec fn esc_char(c: char) -> Seq<char> {
    if c == '"' || c == '\\' {
        seq!['\\', c]
    } else {
        seq![c]
    }
}

/// A text with every quote and backslash escaped.
pub open spec fn esc_str(s: Seq<char>) -> Seq<char>
    decreases s.len(),
{
    if s.len() == 0 {
        Seq::empty()
    } else {
        esc_char(s[0]) + esc_str(s.drop_first())
    }
}

/// The rendering of a boolean.
pub open spec fn json_bool(b: bool) -> Seq<char> {
    if b {
        "true"@
    } else {
        "false"@
    }
}

/// The object an entry is written as.
pub open spec fn json_entry(e: EntryV) -> Seq<char> {
    "{\"path\":\""@ + esc_str(e.path) + seq!['"'] + ",\"is_directory\":"@ + json_bool(
        e.is_directory,
    ) + ",\"size\":"@ + dec_str(e.size as nat) + ",\"file_type\":\""@ + esc_str(e.file_type)
        + seq!['"'] + seq!['}']
}

/// The comma-separated entry objects.
pub open spec fn json_inner(s: Seq<EntryV>) -> Seq<char>
    decreases s.len(),
{
    if s.len() == 0 {
        Seq::empty()
    } else if s.len() == 1 {
        json_entry(s[0])
    } else {
        json_entry(s[0]) + seq![','] + json_inner(s.drop_first())
    }
}

/// The whole document: the array of all entry objects.
pub open spec fn json_entries(s: Seq<EntryV>) -> Seq<char> {
    seq!['['] + json_inner(s) + seq![']']
}

/// Consume a fixed token at the head of `s`.
pub open spec fn ps_lit(s: Seq<char>, lit: Seq<char>) -> Option<Seq<char>> {
    if lit.len() <= s.len() && s.take(lit.len() as int) == lit {
        Some(s.skip(lit.len() as int))
    } else {
        None
    }
}

/// Read a quoted string up to and over its closing quote, undoing escapes:
/// the value read and the rest of the text.
pub open spec fn ps_string(s: Seq<char>) -> Option<(Seq<char>, Seq<char>)>
    decreases s.len(),
{
    if s.len() == 0 {
        None
    } else if s[0] == '"' {
        Some((Seq::empty(), s.drop_first()))
    } else if s[0] == '\\' {
        if s.len() >= 2 {
            match ps_string(s.skip(2)) {
                Some((t, r)) => Some((seq![s[1]] + t, r)),
                None => None,
            }
        } else {
            None
        }
    } else {
        match ps_string(s.drop_first()) {
            Some((t, r)) => Some((seq![s[0]] + t, r)),
            None => None,
        }
    }
}

/// Split the longest run of digits off the head of `s`.
pub open spec fn ps_digits(s: Seq<char>) -> (Seq<char>, Seq<char>)
    decreases s.len(),
{
    if s.len() == 0 || !is_digit_char(s[0]) {
        (Seq::empty(), s)
    } else {
        let (d, r) = ps_digits(s.drop_first());
        (seq![s[0]] + d, r)
    }
}

/// Read a size: at least one digit, and a value a `u64` can hold.
pub open spec fn ps_number(s: Seq<char>) -> Option<(u64, Seq<char>)> {
    let (d, r) = ps_digits(s);
    if d.len() == 0 {
        None
    } else if digits_value(d) > u64::MAX {
        None
    } else {
        Some((digits_value(d) as u64, r))
    }
}

/// Read a boolean.
pub open spec fn ps_bool(s: Seq<char>) -> Option<(bool, Seq<char>)> {
    match ps_lit(s, "true"@) {
        Some(r) => Some((true, r)),
        None => match ps_lit(s, "false"@) {
            Some(r) => Some((false, r)),
            None => None,
        },
    }
}

/// Read one entry object.
pub open spec fn ps_entry(s: Seq<char>) -> Option<(EntryV, Seq<char>)> {
    match ps_lit(s, "{\"path\":\""@) {
        None => None,
        Some(s1) => match ps_string(s1) {
            None => None,
            Some((path, s2)) => match ps_lit(s2, ",\"is_directory\":"@) {
                None => None,
                Some(s3) => match ps_bool(s3) {
                    None => None,
                    Some((isd, s4)) => match ps_lit(s4, ",\"size\":"@) {
                        None => None,
                        Some(s5) => match ps_number(s5) {
                            None => None,
                            Some((size, s6)) => match ps_lit(s6, ",\"file_type\":\""@) {
                                None => None,
                                Some(s7) => match ps_string(s7) {
                                    None => None,
                                    Some((tag, s8)) => match ps_lit(s8, "}"@) {
                                        None => None,
                                        Some(s9) => Some(
                                            (
                                                EntryV {
                                                    path: path,
                                                    is_directory: isd,
                                                    size: size,
                                                    file_type: tag,
                                                },
                                                s9,
                                            ),
                                        ),
                                    },
                                },
                            },
                        },
                    },
                },
            },
        },
    }
}

/// Read one or more comma-separated entry objects.
pub open spec fn ps_list(s: Seq<char>) -> Option<(Seq<EntryV>, Seq<char>)>
    decreases s.len(),
{
    match ps_entry(s) {
        None => None,
        Some((e, r)) => if r.len() >= s.len() {
            None
        } else if r.len() > 0 && r[0] == ',' {
            match ps_list(r.drop_first()) {
                Some((es, r2)) => Some((seq![e] + es, r2)),
                None => None,
            }
        } else {
            Some((seq![e], r))
        },
    }
}

/// Read a whole document.
pub open spec fn ps_document(s: Seq<char>) -> Option<Seq<EntryV>> {
    if s == "[]"@ {
        Some(Seq::empty())
    } else {
        match ps_lit(s, "["@) {
            None => None,
            Some(r) => match ps_list(r) {
                Some((es, r2)) => if r2 == "]"@ {
                    Some(es)
                } else {
                    None
                },
                None => None,
            },
        }
    }
}

proof fn lemma_ps_lit_of(lit: Seq<char>, rest: Seq<char>)
    ensures
        ps_lit(lit + rest, lit) == Some(rest),
{
    assert((lit + rest).take(lit.len() as int) =~= lit);
    assert((lit + rest).skip(lit.len() as int) =~= rest);
}

proof fn lemma_ps_string_of(p: Seq<char>, rest: Seq<char>)
    ensures
        ps_string(esc_str(p) + seq!['"'] + rest) == Some((p, rest)),
    decreases p.len(),
{
    let s = esc_str(p) + seq!['"'] + rest;
    if p.len() == 0 {
        assert(esc_str(p) =~= Seq::<char>::empty());
        assert(s =~= seq!['"'] + rest);
        assert(s[0] == '"');
        assert(s.drop_first() =~= rest);
    } else {
        let c = p[0];
        lemma_ps_string_of(p.drop_first(), rest);
        let tail = esc_str(p.drop_first()) + seq!['"'] + rest;
        if c == '"' || c == '\\' {
            assert(esc_str(p) =~= seq!['\\', c] + esc_str(p.drop_first()));
            assert(s =~= seq!['\\', c] + tail);
            assert(s[0] == '\\');
            assert(s[1] == c);
            assert(s.len() >= 2);
            assert(s.skip(2) =~= tail);
            assert(seq![c] + p.drop_first() =~= p);
        } else {
            assert(esc_str(p) =~= seq![c] + esc_str(p.drop_first()));
            assert(s =~= seq![c] + tail);
            assert(s[0] == c);
            assert(s.drop_first() =~= tail);
            assert(seq![c] + p.drop_first() =~= p);
        }
    }
}

proof fn lemma_ps_digits_of(d: Seq<char>, rest: Seq<char>)
    requires
        forall|i: int| 0 <= i < d.len() ==> is_digit_char(#[trigger] d[i]),
        rest.len() > 0 ==> !is_digit_char(rest[0]),
    ensures
        ps_digits(d + rest) == (d, rest),
    decreases d.len(),
{
    let s = d + rest;
    if d.len() == 0 {
        assert(s =~= rest);
        assert(d =~= Seq::<char>::empty());
        if s.len() == 0 {
        } else {
            assert(!is_digit_char(s[0]));
        }
    } else {
        assert(s[0] == d[0]);
        assert(is_digit_char(s[0]));
        assert(s.drop_first() =~= d.drop_first() + rest);
        lemma_ps_digits_of(d.drop_first(), rest);
        assert(seq![d[0]] + d.drop_first() =~= d);
    }
}

proof fn lemma_ps_number_of(n: u64, rest: Seq<char>)
    requires
        rest.len() > 0 ==> !is_digit_char(rest[0]),
    ensures
        ps_number(dec_str(n as nat) + rest) == Some((n, rest)),
{
    lemma_dec_str_shape(n as nat);
    lemma_ps_digits_of(dec_str(n as nat), rest);
    lemma_digits_value_of_dec_str(n as nat);
}

proof fn lemma_ps_bool_of(b: bool, rest: Seq<char>)
    ensures
        ps_bool(json_bool(b) + rest) == Some((b, rest)),
{
    reveal_strlit("true");
    reveal_strlit("false");
    if b {
        lemma_ps_lit_of("true"@, rest);
    } else {
        lemma_ps_lit_of("false"@, rest);
        let s = "false"@ + rest;
        assert(ps_lit(s, "true"@) is None) by {
            if ps_lit(s, "true"@) is Some {
                assert(s.take(4)[0] == 't');
                assert(s[0] == 'f');
            }
        }
    }
}

/// One encoded entry, followed by anything, parses to exactly that entry.
proof fn lemma_ps_entry_of(e: EntryV, rest: Seq<char>)
    requires
        rest.len() > 0 ==> !is_digit_char(rest[0]),
    ensures
        ps_entry(json_entry(e) + rest) == Some((e, rest)),
{
    let lit1 = "{\"path\":\""@;
    let lit2 = ",\"is_directory\":"@;
    let lit3 = ",\"size\":"@;
    let lit4 = ",\"file_type\":\""@;
    let lit5 = "}"@;
    reveal_strlit("{\"path\":\"");
    reveal_strlit(",\"is_directory\":");
    reveal_strlit(",\"size\":");
    reveal_strlit(",\"file_type\":\"");
    reveal_strlit("}");
    let s1 = esc_str(e.path) + seq!['"'] + (lit2 + (json_bool(e.is_directory) + (lit3 + (dec_str(
        e.size as nat,
    ) + (lit4 + (esc_str(e.file_type) + seq!['"'] + (lit5 + rest)))))));
    assert(json_entry(e) + rest =~= lit1 + s1);
    lemma_ps_lit_of(lit1, s1);
    let s2 = lit2 + (json_bool(e.is_directory) + (lit3 + (dec_str(e.size as nat) + (lit4 + (
    esc_str(e.file_type) + seq!['"'] + (lit5 + rest))))));
    assert(s1 =~= esc_str(e.path) + seq!['"'] + s2);
    lemma_ps_string_of(e.path, s2);
    let s3 = json_bool(e.is_directory) + (lit3 + (dec_str(e.size as nat) + (lit4 + (esc_str(
        e.file_type,
    ) + seq!['"'] + (lit5 + rest)))));
    lemma_ps_lit_of(lit2, s3);
    let s4 = lit3 + (dec_str(e.size as nat) + (lit4 + (esc_str(e.file_type) + seq!['"'] + (lit5
        + rest))));
    lemma_ps_bool_of(e.is_directory, s4);
    let s5 = dec_str(e.size as nat) + (lit4 + (esc_str(e.file_type) + seq!['"'] + (lit5 + rest)));
    lemma_ps_lit_of(lit3, s5);
    let s6 = lit4 + (esc_str(e.file_type) + seq!['"'] + (lit5 + rest));
    assert(s6[0] == ',');
    assert(!is_digit_char(','));
    lemma_ps_number_of(e.size, s6);
    let s7 = esc_str(e.file_type) + seq!['"'] + (lit5 + rest);
    lemma_ps_lit_of(lit4, s7);
    let s8 = lit5 + rest;
    lemma_ps_string_of(e.file_type, s8);
    lemma_ps_lit_of(lit5, rest);
}

/// An encoded entry is never empty and never opens with a digit or a comma
/// or a closing bracket.
proof fn lemma_json_entry_head(e: EntryV)
    ensures
        json_entry(e).len() >= 1,
        json_entry(e)[0] == '{',
{
    reveal_strlit("{\"path\":\"");
    let lit1 = "{\"path\":\""@;
    assert(lit1.len() == 9);
    assert(json_entry(e)[0] == lit1[0]);
}

/// The encoded list, followed by a closing bracket, parses to the entries.
proof fn lemma_ps_list_of(s: Seq<EntryV>)
    requires
        s.len() >= 1,
    ensures
        ps_list(json_inner(s) + seq![']']) == Some((s, seq![']'])),
    decreases s.len(),
{
    let text = json_inner(s) + seq![']'];
    if s.len() == 1 {
        assert(json_inner(s) == json_entry(s[0]));
        assert(!is_digit_char(']'));
        lemma_ps_entry_of(s[0], seq![']']);
        assert(ps_entry(text) == Some((s[0], seq![']'])));
        let r = seq![']'];
        assert(r.len() < text.len()) by {
            lemma_json_entry_head(s[0]);
        }
        assert(r[0] == ']');
        assert(seq![s[0]] =~= s);
    } else {
        let rest_entries = s.drop_first();
        let tail = json_inner(rest_entries) + seq![']'];
        assert(text =~= json_entry(s[0]) + (seq![','] + tail));
        assert(!is_digit_char(','));
        lemma_ps_entry_of(s[0], seq![','] + tail);
        let r = seq![','] + tail;
        assert(ps_entry(text) == Some((s[0], r)));
        assert(r.len() < text.len()) by {
            lemma_json_entry_head(s[0]);
        }
        assert(r[0] == ',');
        assert(r.drop_first() =~= tail);
        lemma_ps_list_of(rest_entries);
        assert(seq![s[0]] + rest_entries =~= s);
    }
}

/// Parsing an encoded document reproduces every entry exactly: the same
/// path, directory flag, size and type tag, in the same order.
pub proof fn lemma_document_round_trip(s: Seq<EntryV>)
    ensures
        ps_document(json_entries(s)) == Some(s),
{
    let text = json_entries(s);
    reveal_strlit("[]");
    reveal_strlit("[");
    reveal_strlit("]");
    if s.len() == 0 {
        assert(json_inner(s) =~= Seq::<char>::empty());
        assert(text =~= "[]"@);
    } else {
        let body = json_inner(s) + seq![']'];
        assert(text =~= "["@ + body);
        lemma_ps_lit_of("["@, body);
        lemma_ps_list_of(s);
        assert(text != "[]"@) by {
            lemma_json_entry_head(s[0]);
            if text == "[]"@ {
                assert(text.len() == 2);
                assert(json_inner(s).len() >= json_entry(s[0]).len());
                assert(json_inner(s)[0] == json_entry(s[0])[0]) by {
                    if s.len() > 1 {
                        assert(json_inner(s) =~= json_entry(s[0]) + (seq![','] + json_inner(
                            s.drop_first(),
                        )));
                    }
                }
                assert(text[1] == json_inner(s)[0]);
                assert(text[1] == ']');
            }
        }
        assert(seq![']'] =~= "]"@);
    }
}

proof fn lemma_esc_snoc(s: Seq<char>, c: char)
    ensures
        esc_str(s.push(c)) == esc_str(s) + esc_char(c),
    decreases s.len(),
{
    if s.len() == 0 {
        assert(s.push(c)[0] == c);
        assert(s.push(c).drop_first() =~= Seq::<char>::empty());
        assert(esc_str(s.push(c).drop_first()) =~= Seq::<char>::empty());
        assert(esc_str(s) =~= Seq::<char>::empty());
        assert(esc_char(c) + Seq::<char>::empty() =~= esc_char(c));
        assert(esc_str(s) + esc_char(c) =~= esc_char(c));
    } else {
        assert(s.push(c)[0] == s[0]);
        assert(s.push(c).drop_first() =~= s.drop_first().push(c));
        lemma_esc_snoc(s.drop_first(), c);
        assert(esc_char(s[0]) + (esc_str(s.drop_first()) + esc_char(c)) =~= (esc_char(s[0])
            + esc_str(s.drop_first())) + esc_char(c));
    }
}

/// Append the escaped form of `s` to `out`.
fn push_escaped(out: &mut Vec<char>, s: &str)
    ensures
        final(out)@ == old(out)@ + esc_str(s@),
{
    let n = s.unicode_len();
    let mut i: usize = 0;
    proof {
        assert(s@.take(0) =~= Seq::<char>::empty());
        assert(esc_str(s@.take(0)) =~= Seq::<char>::empty());
        assert(old(out)@ + esc_str(s@.take(0)) =~= old(out)@);
    }
    while i < n
        invariant
            n == s@.len(),
            i <= n,
            out@ =~= old(out)@ + esc_str(s@.take(i as int)),
        decreases n - i,
    {
        let c = s.get_char(i);
        if c == '"' || c == '\\' {
            out.push('\\');
            out.push(c);
        } else {
            out.push(c);
        }
        proof {
            assert(s@.take(i as int + 1) =~= s@.take(i as int).push(s@[i as int]));
            lemma_esc_snoc(s@.take(i as int), s@[i as int]);
        }
        i = i + 1;
    }
    proof {
        assert(s@.take(n as int) =~= s@);
    }
}

/// Append the characters of `lit` to `out`.
fn push_str_chars(out: &mut Vec<char>, lit: &str)
    ensures
        final(out)@ == old(out)@ + lit@,
{
    let mut t = chars_of(lit);
    out.append(&mut t);
}

/// The object one entry is written as, in characters.
fn entry_json_chars(e: &Entry) -> (r: Vec<char>)
    ensures
        r@ == json_entry(e.deep_view()),
{
    let mut out: Vec<char> = Vec::new();
    push_str_chars(&mut out, "{\"path\":\"");
    push_escaped(&mut out, e.path.as_str());
    out.push('"');
    push_str_chars(&mut out, ",\"is_directory\":");
    if e.is_directory {
        push_str_chars(&mut out, "true");
    } else {
        push_str_chars(&mut out, "false");
    }
    push_str_chars(&mut out, ",\"size\":");
    let mut d = u64_to_chars(e.size);
    out.append(&mut d);
    push_str_chars(&mut out, ",\"file_type\":\"");
    push_escaped(&mut out, e.file_type.as_str());
    out.push('"');
    out.push('}');
    proof {
        assert(out@ =~= json_entry(e.deep_view()));
    }
    out
}

proof fn lemma_json_inner_snoc(s: Seq<EntryV>, e: EntryV)
    ensures
        json_inner(s.push(e)) == if s.len() == 0 {
            json_entry(e)
        } else {
            json_inner(s) + seq![','] + json_entry(e)
        },
    decreases s.len(),
{
    if s.len() == 0 {
        assert(s.push(e)[0] == e);
        assert(s.push(e).len() == 1);
    } else {
        assert(s.push(e)[0] == s[0]);
        assert(s.push(e).drop_first() =~= s.drop_first().push(e));
        lemma_json_inner_snoc(s.drop_first(), e);
        if s.len() == 1 {
            assert(json_inner(s) == json_entry(s[0]));
            assert(json_entry(s[0]) + seq![','] + json_entry(e) =~= json_entry(s[0]) + (seq![',']
                + json_entry(e)));
        } else {
            assert((json_entry(s[0]) + seq![','] + json_inner(s.drop_first())) + seq![',']
                + json_entry(e) =~= json_entry(s[0]) + seq![','] + ((json_inner(s.drop_first())
                + seq![',']) + json_entry(e)));
            assert(json_inner(s.drop_first()) + seq![','] + json_entry(e) =~= (json_inner(
                s.drop_first(),
            ) + seq![',']) + json_entry(e));
        }
    }
}

/// The whole report serialized to the structured document format.
pub fn entries_to_json(entries: &Vec<Entry>) -> (r: String)
    ensures
        r@ == json_entries(entries.deep_view()),
{
    let ghost a = entries.deep_view();
    let mut out: Vec<char> = Vec::new();
    out.push('[');
    proof {
        assert(a.take(0) =~= Seq::<EntryV>::empty());
        assert(json_inner(a.take(0)) =~= Seq::<char>::empty());
        assert(out@ =~= seq!['['] + json_inner(a.take(0)));
    }
    let mut i: usize = 0;
    while i < entries.len()
        invariant
            i <= entries@.len(),
            a == entries.deep_view(),
            a.len() == entries@.len(),
            out@ =~= seq!['['] + json_inner(a.take(i as int)),
        decreases entries@.len() - i,
    {
        if i > 0 {
            out.push(',');
        }
        let e = &entries[i];
        proof {
            assert(e.deep_view() == a[i as int]);
        }
        let mut t = entry_json_chars(e);
        out.append(&mut t);
        proof {
            assert(a.take(i as int + 1) =~= a.take(i as int).push(a[i as int]));
            lemma_json_inner_snoc(a.take(i as int), a[i as int]);
            if i > 0 {
                assert(out@ =~= seq!['['] + json_inner(a.take(i as int + 1)));
            } else {
                assert(out@ =~= seq!['['] + json_inner(a.take(i as int + 1)));
            }
        }
        i = i + 1;
    }
    out.push(']');
    proof {
        assert(a.take(a.len() as int) =~= a);
        assert(out@ =~= json_entries(a));
    }
    string_of(&out)
}

/// Consume `lit` at position `i`.
fn pe_lit(v: &Vec<char>, i: usize, lit: &str) -> (r: Option<usize>)
    requires
        i <= v@.len(),
    ensures
        match r {
            Some(j) => i <= j <= v@.len() && ps_lit(v@.skip(i as int), lit@) == Some(
                v@.skip(j as int),
            ),
            None => ps_lit(v@.skip(i as int), lit@) is None,
        },
{
    let n = lit.unicode_len();
    proof {
        assert(v@.len() == v.len());
    }
    if n > v.len() - i {
        proof {
            assert(v@.skip(i as int).len() < lit@.len());
        }
        return None;
    }
    let mut k: usize = 0;
    while k < n
        invariant
            i <= v@.len(),
            v@.len() <= usize::MAX,
            n == lit@.len(),
            i + n <= v@.len(),
            k <= n,
            forall|t: int| 0 <= t < k ==> v@.skip(i as int)[t] == lit@[t],
        decreases n - k,
    {
        if v[i + k] != lit.get_char(k) {
            proof {
                assert(v@.skip(i as int)[k as int] == v@[i as int + k]);
                assert(v@.skip(i as int).take(n as int)[k as int] != lit@[k as int]);
            }
            return None;
        }
        proof {
            assert(v@.skip(i as int)[k as int] == v@[i as int + k]);
        }
        k = k + 1;
    }
    proof {
        assert(v@.skip(i as int).take(n as int) =~= lit@);
        assert(v@.skip(i as int).skip(n as int) =~= v@.skip(i as int + n));
    }
    Some(i + n)
}

/// Read a quoted string from position `i`, undoing escapes.
fn pe_string(v: &Vec<char>, i: usize) -> (r: Option<(Vec<char>, usize)>)
    requires
        i <= v@.len(),
    ensures
        match r {
            Some((t, j)) => i < j <= v@.len() && ps_string(v@.skip(i as int)) == Some(
                (t@, v@.skip(j as int)),
            ),
            None => ps_string(v@.skip(i as int)) is None,
        },
    decreases v@.len() - i,
{
    if i == v.len() {
        return None;
    }
    let c = v[i];
    proof {
        assert(v@.skip(i as int)[0] == c);
        assert(v@.skip(i as int).drop_first() =~= v@.skip(i as int + 1));
    }
    if c == '"' {
        let t: Vec<char> = Vec::new();
        proof {
            assert(t@ =~= Seq::<char>::empty());
        }
        Some((t, i + 1))
    } else if c == '\\' {
        if v.len() - i < 2 {
            proof {
                assert(v@.skip(i as int).len() < 2);
            }
            return None;
        }
        proof {
            assert(v@.skip(i as int)[1] == v@[i as int + 1]);
            assert(v@.skip(i as int).skip(2) =~= v@.skip(i as int + 2));
        }
        match pe_string(v, i + 2) {
            Some((t, j)) => {
                let mut t2 = t;
                t2.insert(0, v[i + 1]);
                proof {
                    assert(t2@ =~= seq![v@[i as int + 1]] + t2@.skip(1));
                    assert(t2@.skip(1) =~= t2@.subrange(1, t2@.len() as int));
                }
                Some((t2, j))
            },
            None => None,
        }
    } else {
        match pe_string(v, i + 1) {
            Some((t, j)) => {
                let mut t2 = t;
                t2.insert(0, c);
                proof {
                    assert(t2@ =~= seq![c] + t2@.skip(1));
                }
                Some((t2, j))
            },
            None => None,
        }
    }
}

/// The value of one digit character.
fn digit_value_of(c: char) -> (r: u64)
    requires
        is_digit_char(c),
    ensures
        r == digit_val(c),
        r <= 9,
{
    match c {
        '0' => 0,
        '1' => 1,
        '2' => 2,
        '3' => 3,
        '4' => 4,
        '5' => 5,
        '6' => 6,
        '7' => 7,
        '8' => 8,
        '9' => 9,
        _ => {
            proof {
                assert(false);
            }
            0
        },
    }
}

proof fn lemma_digits_value_append_ge(a: Seq<char>, b: Seq<char>)
    ensures
        digits_value(a + b) >= digits_value(a),
    decreases b.len(),
{
    if b.len() == 0 {
        assert(a + b =~= a);
    } else {
        assert(a + b =~= (a + b.drop_last()).push(b.last()));
        assert((a + b).drop_last() =~= a + b.drop_last());
        lemma_digits_value_append_ge(a, b.drop_last());
    }
}

/// Read a size at position `i`: digits, valued within `u64`.
fn pe_number(v: &Vec<char>, i: usize) -> (r: Option<(u64, usize)>)
    requires
        i <= v@.len(),
    ensures
        match r {
            Some((n, j)) => i < j <= v@.len() && ps_number(v@.skip(i as int)) == Some(
                (n, v@.skip(j as int)),
            ),
            None => ps_number(v@.skip(i as int)) is None,
        },
{
    let mut k: usize = i;
    loop
        invariant
            i <= k <= v@.len(),
            forall|t: int| i <= t < k ==> is_digit_char(#[trigger] v@[t]),
        ensures
            i <= k <= v@.len(),
            forall|t: int| i <= t < k ==> is_digit_char(#[trigger] v@[t]),
            k == v@.len() || !is_digit_char(v@[k as int]),
        decreases v@.len() - k,
    {
        if k == v.len() {
            break;
        }
        let c = v[k];
        if !('0' <= c && c <= '9') {
            break;
        }
        k = k + 1;
    }
    proof {
        assert(v@.skip(i as int) =~= v@.subrange(i as int, k as int) + v@.skip(k as int));
        assert forall|t: int|
            0 <= t < v@.subrange(i as int, k as int).len() implies is_digit_char(
            #[trigger] v@.subrange(i as int, k as int)[t],
        ) by {
            assert(v@.subrange(i as int, k as int)[t] == v@[i + t]);
        }
        if k < v@.len() {
            assert(v@.skip(k as int)[0] == v@[k as int]);
        }
        lemma_ps_digits_of(v@.subrange(i as int, k as int), v@.skip(k as int));
    }
    if k == i {
        return None;
    }
    let ghost d = v@.subrange(i as int, k as int);
    let mut val: u64 = 0;
    let mut t: usize = i;
    proof {
        assert(d.subrange(0, 0) =~= Seq::<char>::empty());
    }
    while t < k
        invariant
            i <= t <= k <= v@.len(),
            d == v@.subrange(i as int, k as int),
            d.len() == k - i,
            k > i,
            ps_digits(v@.skip(i as int)) == (d, v@.skip(k as int)),
            forall|q: int| i <= q < k ==> is_digit_char(#[trigger] v@[q]),
            val == digits_value(d.subrange(0, t - i)),
        decreases k - t,
    {
        let c = v[t];
        proof {
            assert(v@[t as int] == d[t - i]);
            assert(is_digit_char(c));
        }
        let dv: u64 = digit_value_of(c);
        if val > (u64::MAX - dv) / 10 {
            proof {
                let p = d.subrange(0, t - i + 1);
                assert(p.drop_last() =~= d.subrange(0, t - i));
                assert(p.last() == d[t - i]);
                assert(digits_value(p) == val * 10 + digit_val(c));
                assert(val * 10 + dv > u64::MAX) by (nonlinear_arith)
                    requires
                        val > (u64::MAX - dv) / 10,
                        dv <= 9,
                ;
                assert(d =~= p + d.subrange(t - i + 1, d.len() as int));
                lemma_digits_value_append_ge(p, d.subrange(t - i + 1, d.len() as int));
            }
            return None;
        }
        val = val * 10 + dv;
        proof {
            let p = d.subrange(0, t - i + 1);
            assert(p.drop_last() =~= d.subrange(0, t - i));
            assert(p.last() == d[t - i]);
        }
        t = t + 1;
    }
    proof {
        assert(d.subrange(0, k - i) =~= d);
    }
    Some((val, k))
}

/// Read a boolean at position `i`.
fn pe_bool(v: &Vec<char>, i: usize) -> (r: Option<(bool, usize)>)
    requires
        i <= v@.len(),
    ensures
        match r {
            Some((b, j)) => i < j <= v@.len() && ps_bool(v@.skip(i as int)) == Some(
                (b, v@.skip(j as int)),
            ),
            None => ps_bool(v@.skip(i as int)) is None,
        },
{
    proof {
        reveal_strlit("true");
        reveal_strlit("false");
    }
    match pe_lit(v, i, "true") {
        Some(j) => Some((true, j)),
        None => match pe_lit(v, i, "false") {
            Some(j) => Some((false, j)),
            None => None,
        },
    }
}

/// Read one entry object at position `i`.
fn pe_entry(v: &Vec<char>, i: usize) -> (r: Option<(Entry, usize)>)
    requires
        i <= v@.len(),
    ensures
        match r {
            Some((e, j)) => i < j <= v@.len() && ps_entry(v@.skip(i as int)) == Some(
                (e.deep_view(), v@.skip(j as int)),
            ),
            None => ps_entry(v@.skip(i as int)) is None,
        },
{
    let s1 = match pe_lit(v, i, "{\"path\":\"") {
        Some(j) => j,
        None => {
            return None;
        },
    };
    let (path, s2) = match pe_string(v, s1) {
        Some(p) => p,
        None => {
            return None;
        },
    };
    let s3 = match pe_lit(v, s2, ",\"is_directory\":") {
        Some(j) => j,
        None => {
            return None;
        },
    };
    let (isd, s4) = match pe_bool(v, s3) {
        Some(p) => p,
        None => {
            return None;
        },
    };
    let s5 = match pe_lit(v, s4, ",\"size\":") {
        Some(j) => j,
        None => {
            return None;
        },
    };
    let (size, s6) = match pe_number(v, s5) {
        Some(p) => p,
        None => {
            return None;
        },
    };
    let s7 = match pe_lit(v, s6, ",\"file_type\":\"") {
        Some(j) => j,
        None => {
            return None;
        },
    };
    let (tag, s8) = match pe_string(v, s7) {
        Some(p) => p,
        None => {
            return None;
        },
    };
    let s9 = match pe_lit(v, s8, "}") {
        Some(j) => j,
        None => {
            return None;
        },
    };
    let e = Entry {
        path: string_of(&path),
        is_directory: isd,
        size: size,
        file_type: string_of(&tag),
    };
    proof {
        assert(ps_lit(v@.skip(i as int), "{\"path\":\""@) == Some(v@.skip(s1 as int)));
        assert(i < s1) by {
            reveal_strlit("{\"path\":\"");
            assert(v@.skip(i as int).len() >= "{\"path\":\""@.len());
        }
    }
    Some((e, s9))
}

/// Read one or more comma-separated entry objects at position `i`.
fn pe_list(v: &Vec<char>, i: usize) -> (r: Option<(Vec<Entry>, usize)>)
    requires
        i <= v@.len(),
    ensures
        match r {
            Some((es, j)) => i < j <= v@.len() && ps_list(v@.skip(i as int)) == Some(
                (es.deep_view(), v@.skip(j as int)),
            ),
            None => ps_list(v@.skip(i as int)) is None,
        },
    decreases v@.len() - i,
{
    let (e, j) = match pe_entry(v, i) {
        Some(p) => p,
        None => {
            return None;
        },
    };
    proof {
        assert(v@.skip(j as int).len() < v@.skip(i as int).len());
    }
    if j < v.len() && v[j] == ',' {
        proof {
            assert(v@.skip(j as int)[0] == v@[j as int]);
            assert(v@.skip(j as int).drop_first() =~= v@.skip(j as int + 1));
        }
        match pe_list(v, j + 1) {
            Some((es, j2)) => {
                let ghost pre = es.deep_view();
                let mut es2 = es;
                es2.insert(0, e);
                proof {
                    assert(es2.deep_view() =~= seq![e.deep_view()] + pre);
                }
                Some((es2, j2))
            },
            None => None,
        }
    } else {
        proof {
            if j < v@.len() {
                assert(v@.skip(j as int)[0] == v@[j as int]);
            }
        }
        let mut es: Vec<Entry> = Vec::new();
        es.push(e);
        proof {
            assert(es.deep_view() =~= seq![e.deep_view()]);
        }
        Some((es, j))
    }
}

/// Parse a document of the structured format back into entries.  Exactly the
/// documents `entries_to_json` produces are accepted.
pub fn parse_entries(text: &str) -> (r: Option<Vec<Entry>>)
    ensures
        match r {
            Some(es) => ps_document(text@) == Some(es.deep_view()),
            None => ps_document(text@) is None,
        },
{
    let v = chars_of(text);
    if str_eq(text, "[]") {
        let es: Vec<Entry> = Vec::new();
        proof {
            assert(es.deep_view() =~= Seq::<EntryV>::empty());
        }
        return Some(es);
    }
    proof {
        assert(v@.skip(0) =~= v@);
    }
    let s1 = match pe_lit(&v, 0, "[") {
        Some(j) => j,
        None => {
            return None;
        },
    };
    let (es, s2) = match pe_list(&v, s1) {
        Some(p) => p,
        None => {
            return None;
        },
    };
    if v.len() - s2 == 1 && v[s2] == ']' {
        proof {
            reveal_strlit("]");
            assert(v@.skip(s2 as int) =~= "]"@);
        }
        Some(es)
    } else {
        proof {
            reveal_strlit("]");
            if v@.skip(s2 as int).len() == 1 {
                assert(v@.skip(s2 as int)[0] == v@[s2 as int]);
                assert(v@.skip(s2 as int) != "]"@);
            } else {
                assert(v@.skip(s2 as int).len() != "]"@.len());
            }
        }
        None
    }
}

} // verus!
