//! The extension summary: file entries grouped by lowercased extension,
//! with per-group file count and total byte size.

use vstd::prelude::*;
use crate::entry::{Entry, EntryV};
use crate::naming::ext_of;
use crate::strutil::{
    after_last, chars_lex_lt, chars_of, lemma_lex_lt_transitive, lemma_lex_lt_trichotomy, lex_lt,
    lower_seq, str_eq, string_of, suffix_after_last, to_lower_char, lower_char,
};
use crate::tree::sat64;

verus! {

/// One group of the extension summary.
pub struct ExtGroup {
    /// The lowercased extension, or the sentinel for files without one.
    pub key: String,
    /// How many file entries carry this extension.
    pub count: u64,
    /// Their total byte size, saturated at `u64::MAX`.
    pub bytes: u64,
}

/// The mathematical picture of an `ExtGroup`.
pub struct ExtGroupV {
    pub key: Seq<char>,
    pub count: u64,
    pub bytes: u64,
}

impl View for ExtGroup {
    type V = ExtGroupV;

    open spec fn view(&self) -> ExtGroupV {
        ExtGroupV { key: self.key@, count: self.count, bytes: self.bytes }
    }
}

impl DeepView for ExtGroup {
    type V = ExtGroupV;

    open spec fn deep_view(&self) -> ExtGroupV {
        self.view()
    }
}

/// The summary key of an entry: its lowercased extension, or the sentinel
/// `"(none)"` when the name has no extension.
pub open spec fn ext_key(e: EntryV) -> Seq<char> {
    let x = lower_seq(ext_of(after_last(e.path, '/')));
    if x.len() == 0 {
        "(none)"@
    } else {
        x
    }
}

/// How many file entries of `s` carry the key `k`; directories never count.
pub open spec fn count_with_key(s: Seq<EntryV>, k: Seq<char>) -> nat
    decreases s.len(),
{
    if s.len() == 0 {
        0
    } else {
        (if !s[0].is_directory && ext_key(s[0]) == k {
            1 as nat
        } else {
            0 as nat
        }) + count_with_key(s.drop_first(), k)
    }
}

/// Total byte size of the file entries of `s` with key `k`.
pub open spec fn bytes_with_key(s: Seq<EntryV>, k: Seq<char>) -> nat
    decreases s.len(),
{
    if s.len() == 0 {
        0
    } else {
        (if !s[0].is_directory && ext_key(s[0]) == k {
            s[0].size as nat
        } else {
            0 as nat
        }) + bytes_with_key(s.drop_first(), k)
    }
}

proof fn lemma_key_snoc(s: Seq<EntryV>, e: EntryV, k: Seq<char>)
    ensures
        count_with_key(s.push(e), k) == count_with_key(s, k) + (if !e.is_directory && ext_key(e)
            == k {
            1 as nat
        } else {
            0 as nat
        }),
        bytes_with_key(s.push(e), k) == bytes_with_key(s, k) + (if !e.is_directory && ext_key(e)
            == k {
            e.size as nat
        } else {
            0 as nat
        }),
    decreases s.len(),
{
    if s.len() == 0 {
        assert(s.push(e)[0] == e);
        assert(s.push(e).drop_first() =~= Seq::<EntryV>::empty());
        assert(count_with_key(s.push(e).drop_first(), k) == 0);
        assert(bytes_with_key(s.push(e).drop_first(), k) == 0);
    } else {
        assert(s.push(e)[0] == s[0]);
        assert(s.push(e).drop_first() =~= s.drop_first().push(e));
        lemma_key_snoc(s.drop_first(), e, k);
    }
}

proof fn lemma_count_le_len(s: Seq<EntryV>, k: Seq<char>)
    ensures
        count_with_key(s, k) <= s.len(),
    decreases s.len(),
{
    if s.len() != 0 {
        lemma_count_le_len(s.drop_first(), k);
    }
}

/// The groups are exact for `s`: keys strictly ascending, each group's count
/// and bytes are those of its key over `s`, and exactly the keys that some
/// file entry of `s` carries appear.
pub open spec fn summary_exact(g: Seq<ExtGroupV>, s: Seq<EntryV>) -> bool {
    &&& forall|i: int, j: int|
        0 <= i < j < g.len() ==> lex_lt((#[trigger] g[i]).key, (#[trigger] g[j]).key)
    &&& forall|i: int|
        0 <= i < g.len() ==> (#[trigger] g[i]).count == count_with_key(s, g[i].key) && g[i].bytes
            == sat64(bytes_with_key(s, g[i].key)) && g[i].count >= 1
    &&& forall|k: Seq<char>|
        count_with_key(s, k) > 0 ==> exists|i: int| 0 <= i < g.len() && (#[trigger] g[i]).key == k
}

/// The position where `k` stands, or would stand, in the key-ordered groups.
fn find_key_pos(groups: &Vec<ExtGroup>, k: &String) -> (pos: usize)
    ensures
        pos <= groups@.len(),
        forall|t: int| 0 <= t < pos ==> lex_lt((#[trigger] groups.deep_view()[t]).key, k@),
        pos < groups@.len() ==> !lex_lt(groups.deep_view()[pos as int].key, k@),
{
    let kc = chars_of(k.as_str());
    let mut pos: usize = 0;
    loop
        invariant
            pos <= groups@.len(),
            kc@ == k@,
            forall|t: int| 0 <= t < pos ==> lex_lt((#[trigger] groups.deep_view()[t]).key, k@),
        ensures
            pos <= groups@.len(),
            forall|t: int| 0 <= t < pos ==> lex_lt((#[trigger] groups.deep_view()[t]).key, k@),
            pos < groups@.len() ==> !lex_lt(groups.deep_view()[pos as int].key, k@),
        decreases groups@.len() - pos,
    {
        if pos == groups.len() {
            break;
        }
        if !chars_lex_lt(&chars_of(groups[pos].key.as_str()), &kc) {
            proof {
                assert(groups.deep_view()[pos as int].key == groups@[pos as int].key@);
            }
            break;
        }
        pos = pos + 1;
    }
    pos
}

/// The summary key of an entry, as a string.
fn ext_key_of_entry(e: &Entry) -> (r: String)
    ensures
        r@ == ext_key(e.deep_view()),
{
    let v = chars_of(e.path.as_str());
    let name = suffix_after_last(&v, '/');
    let x = suffix_after_last(&name, '.');
    proof {
        crate::strutil::lemma_after_last_len(name@, '.');
    }
    let raw: Vec<char> = if x.len() == name.len() {
        Vec::new()
    } else if name.len() - x.len() - 1 == 0 {
        Vec::new()
    } else {
        x
    };
    proof {
        assert(raw@ =~= ext_of(after_last(e.path@, '/')));
    }
    let mut low: Vec<char> = Vec::new();
    let mut i: usize = 0;
    while i < raw.len()
        invariant
            i <= raw@.len(),
            low@ =~= lower_seq(raw@.take(i as int)),
        decreases raw@.len() - i,
    {
        low.push(to_lower_char(raw[i]));
        proof {
            assert(lower_seq(raw@.take(i as int + 1)) =~= lower_seq(raw@.take(i as int)).push(
                lower_char(raw@[i as int]),
            ));
        }
        i = i + 1;
    }
    proof {
        assert(raw@.take(raw@.len() as int) =~= raw@);
    }
    if low.len() == 0 {
        String::from_str("(none)")
    } else {
        string_of(&low)
    }
}

/// The extension summary of the full entry collection: every file entry is
/// grouped under its lowercased extension (the sentinel `"(none)"` when it
/// has none), with the group's file count and total byte size; groups come
/// sorted ascending by key.  Directories are excluded.
#[verifier::loop_isolation(false)]
#[verifier::rlimit(100)]
pub fn summarize_extensions(entries: &Vec<Entry>) -> (r: Vec<ExtGroup>)
    ensures
        summary_exact(r.deep_view(), entries.deep_view()),
{
    let ghost a = entries.deep_view();
    proof {
        assert(a.len() == entries@.len());
        assert(a.take(0) =~= Seq::<EntryV>::empty());
    }
    let mut groups: Vec<ExtGroup> = Vec::new();
    let mut i: usize = 0;
    while i < entries.len()
        invariant
            i <= entries@.len(),
            summary_exact(groups.deep_view(), a.take(i as int)),
        decreases entries@.len() - i,
    {
        let ghost pre = a.take(i as int);
        proof {
            assert(a.take(i as int + 1) =~= pre.push(a[i as int]));
        }
        let e = &entries[i];
        proof {
            assert(e.deep_view() == a[i as int]);
        }
        if !e.is_directory {
            let k = ext_key_of_entry(e);
            let ghost kk = ext_key(a[i as int]);
            proof {
                assert(k@ == kk);
            }
            let pos = find_key_pos(&groups, &k);
            let ghost gpre = groups.deep_view();
            if pos < groups.len() && str_eq(groups[pos].key.as_str(), k.as_str()) {
                proof {
                    lemma_count_le_len(pre, kk);
                }
                let g = groups.remove(pos);
                let g2 = ExtGroup {
                    key: g.key,
                    count: g.count + 1,
                    bytes: crate::tree::sat_add_u64(g.bytes, e.size),
                };
                groups.insert(pos, g2);
                proof {
                    assert(g.view() == gpre[pos as int]);
                    assert(gpre[pos as int].key == kk);
                    assert(groups.deep_view() =~= gpre.update(
                        pos as int,
                        ExtGroupV { key: g2.key@, count: g2.count, bytes: g2.bytes },
                    ));
                    assert forall|i1: int, j1: int|
                        0 <= i1 < j1 < groups.deep_view().len() implies lex_lt(
                        (#[trigger] groups.deep_view()[i1]).key,
                        (#[trigger] groups.deep_view()[j1]).key,
                    ) by {
                        assert(groups.deep_view()[i1].key == gpre[i1].key);
                        assert(groups.deep_view()[j1].key == gpre[j1].key);
                    }
                    assert forall|k2: Seq<char>|
                        count_with_key(pre.push(a[i as int]), k2) > 0 implies exists|t: int|
                        0 <= t < groups.deep_view().len() && (#[trigger] groups.deep_view()[t]).key
                            == k2 by {
                        lemma_key_snoc(pre, a[i as int], k2);
                        if count_with_key(pre, k2) > 0 {
                            let t = choose|t: int|
                                0 <= t < gpre.len() && (#[trigger] gpre[t]).key == k2;
                            assert(groups.deep_view()[t].key == k2);
                        } else {
                            assert(k2 == kk);
                            assert(groups.deep_view()[pos as int].key == k2);
                        }
                    }
                    assert forall|t: int| 0 <= t < groups.deep_view().len() implies (
                    #[trigger] groups.deep_view()[t]).count == count_with_key(
                        pre.push(a[i as int]),
                        groups.deep_view()[t].key,
                    ) && groups.deep_view()[t].bytes == sat64(
                        bytes_with_key(pre.push(a[i as int]), groups.deep_view()[t].key),
                    ) && groups.deep_view()[t].count >= 1 by {
                        lemma_key_snoc(pre, a[i as int], groups.deep_view()[t].key);
                        if t != pos {
                            assert(groups.deep_view()[t] == gpre[t]);
                            assert(lex_lt(gpre[t].key, kk) || lex_lt(kk, gpre[t].key)) by {
                                lemma_lex_lt_trichotomy(gpre[t].key, kk);
                                if gpre[t].key == kk {
                                    assert(gpre[pos as int].key == kk);
                                    if t < pos {
                                        assert(lex_lt(gpre[t].key, gpre[pos as int].key));
                                    } else {
                                        assert(lex_lt(gpre[pos as int].key, gpre[t].key));
                                    }
                                    lemma_lex_lt_trichotomy(gpre[t].key, gpre[pos as int].key);
                                }
                            }
                            assert(groups.deep_view()[t].key != kk) by {
                                lemma_lex_lt_trichotomy(gpre[t].key, kk);
                            }
                        }
                    }
                }
            } else {
                proof {
                    if pos < gpre.len() {
                        lemma_lex_lt_trichotomy(gpre[pos as int].key, kk);
                    }
                }
                let g2 = ExtGroup { key: k, count: 1, bytes: e.size };
                groups.insert(pos, g2);
                proof {
                    assert(groups.deep_view() =~= gpre.insert(
                        pos as int,
                        ExtGroupV { key: kk, count: 1, bytes: g2.bytes },
                    ));
                    assert(sat64(bytes_with_key(pre.push(a[i as int]), kk)) == g2.bytes) by {
                        lemma_key_snoc(pre, a[i as int], kk);
                        assert(count_with_key(pre, kk) == 0) by {
                            if count_with_key(pre, kk) > 0 {
                                let t = choose|t: int|
                                    0 <= t < gpre.len() && (#[trigger] gpre[t]).key == kk;
                                if t < pos {
                                    assert(lex_lt(gpre[t].key, kk));
                                } else {
                                    assert(!lex_lt(gpre[pos as int].key, kk));
                                    if t > pos {
                                        assert(lex_lt(gpre[pos as int].key, gpre[t].key));
                                        lemma_lex_lt_transitive(
                                            gpre[pos as int].key,
                                            gpre[t].key,
                                            kk,
                                        );
                                    }
                                }
                                lemma_lex_lt_trichotomy(gpre[t].key, kk);
                            }
                        }
                        assert(bytes_with_key(pre, kk) == 0) by {
                            lemma_zero_count_zero_bytes(pre, kk);
                        }
                    }
                    assert forall|t: int| 0 <= t < groups.deep_view().len() implies (
                    #[trigger] groups.deep_view()[t]).count == count_with_key(
                        pre.push(a[i as int]),
                        groups.deep_view()[t].key,
                    ) && groups.deep_view()[t].bytes == sat64(
                        bytes_with_key(pre.push(a[i as int]), groups.deep_view()[t].key),
                    ) && groups.deep_view()[t].count >= 1 by {
                        lemma_key_snoc(pre, a[i as int], groups.deep_view()[t].key);
                        if t != pos {
                            let told = if t < pos {
                                t
                            } else {
                                t - 1
                            };
                            assert(groups.deep_view()[t] == gpre[told]);
                            assert(groups.deep_view()[t].key != kk) by {
                                lemma_lex_lt_trichotomy(gpre[told].key, kk);
                                if gpre[told].key == kk {
                                    assert(count_with_key(pre, kk) >= 1);
                                    assert(count_with_key(pre, kk) == 0) by {
                                        lemma_count_of_absent(gpre, pre, kk, pos as int);
                                    }
                                }
                            }
                        } else {
                            assert(groups.deep_view()[t].key == kk);
                            assert(count_with_key(pre, kk) == 0) by {
                                lemma_count_of_absent(gpre, pre, kk, pos as int);
                            }
                        }
                    }
                    assert forall|i1: int, j1: int|
                        0 <= i1 < j1 < groups.deep_view().len() implies lex_lt(
                        (#[trigger] groups.deep_view()[i1]).key,
                        (#[trigger] groups.deep_view()[j1]).key,
                    ) by {
                        if i1 == pos {
                            assert(groups.deep_view()[j1] == gpre[j1 - 1]);
                            assert(!lex_lt(gpre[pos as int].key, kk));
                            lemma_lex_lt_trichotomy(gpre[pos as int].key, kk);
                            if j1 - 1 > pos {
                                lemma_lex_lt_transitive(
                                    kk,
                                    gpre[pos as int].key,
                                    gpre[j1 - 1].key,
                                );
                            }
                        } else if j1 == pos {
                            assert(groups.deep_view()[i1] == gpre[i1]);
                            assert(lex_lt(gpre[i1].key, kk));
                        } else {
                            let i0 = if i1 < pos {
                                i1
                            } else {
                                i1 - 1
                            };
                            let j0 = if j1 < pos {
                                j1
                            } else {
                                j1 - 1
                            };
                            assert(groups.deep_view()[i1] == gpre[i0]);
                            assert(groups.deep_view()[j1] == gpre[j0]);
                        }
                    }
                    assert forall|k2: Seq<char>|
                        count_with_key(pre.push(a[i as int]), k2) > 0 implies exists|t: int|
                        0 <= t < groups.deep_view().len() && (#[trigger] groups.deep_view()[t]).key
                            == k2 by {
                        lemma_key_snoc(pre, a[i as int], k2);
                        if count_with_key(pre, k2) > 0 {
                            let t = choose|t: int|
                                0 <= t < gpre.len() && (#[trigger] gpre[t]).key == k2;
                            let tn = if t < pos {
                                t
                            } else {
                                t + 1
                            };
                            assert(groups.deep_view()[tn].key == k2);
                        } else {
                            assert(k2 == kk);
                            assert(groups.deep_view()[pos as int].key == k2);
                        }
                    }
                }
            }
        } else {
            proof {
                assert(a[i as int].is_directory);
                assert forall|t: int| 0 <= t < groups.deep_view().len() implies (
                #[trigger] groups.deep_view()[t]).count == count_with_key(
                    pre.push(a[i as int]),
                    groups.deep_view()[t].key,
                ) && groups.deep_view()[t].bytes == sat64(
                    bytes_with_key(pre.push(a[i as int]), groups.deep_view()[t].key),
                ) && groups.deep_view()[t].count >= 1 by {
                    lemma_key_snoc(pre, a[i as int], groups.deep_view()[t].key);
                }
                assert forall|k2: Seq<char>|
                    count_with_key(pre.push(a[i as int]), k2) > 0 implies exists|t: int|
                    0 <= t < groups.deep_view().len() && (#[trigger] groups.deep_view()[t]).key
                        == k2 by {
                    lemma_key_snoc(pre, a[i as int], k2);
                    assert(count_with_key(pre, k2) > 0);
                }
                assert(summary_exact(groups.deep_view(), pre.push(a[i as int])));
            }
        }
        proof {
            assert(summary_exact(groups.deep_view(), a.take(i as int + 1)));
        }
        i = i + 1;
    }
    proof {
        assert(a.take(a.len() as int) =~= a);
    }
    groups
}

/// A key that stands in no group of an exact summary occurs in no entry;
/// stated for the scan prefix via the sorted-position argument.
proof fn lemma_count_of_absent(g: Seq<ExtGroupV>, s: Seq<EntryV>, k: Seq<char>, pos: int)
    requires
        forall|i: int, j: int|
            0 <= i < j < g.len() ==> lex_lt((#[trigger] g[i]).key, (#[trigger] g[j]).key),
        forall|k2: Seq<char>|
            count_with_key(s, k2) > 0 ==> exists|i: int| 0 <= i < g.len() && (#[trigger] g[i]).key
                == k2,
        0 <= pos <= g.len(),
        forall|t: int| 0 <= t < pos ==> lex_lt((#[trigger] g[t]).key, k),
        pos < g.len() ==> !lex_lt(g[pos].key, k) && g[pos].key != k,
    ensures
        count_with_key(s, k) == 0,
{
    if count_with_key(s, k) > 0 {
        let t = choose|t: int| 0 <= t < g.len() && (#[trigger] g[t]).key == k;
        if t < pos {
            assert(lex_lt(g[t].key, k));
        } else {
            assert(pos < g.len());
            lemma_lex_lt_trichotomy(g[pos].key, k);
            assert(lex_lt(k, g[pos].key));
            if t > pos {
                assert(lex_lt(g[pos].key, g[t].key));
                lemma_lex_lt_transitive(k, g[pos].key, g[t].key);
            }
        }
        lemma_lex_lt_trichotomy(g[t].key, k);
    }
}

/// No file with key `k` means no bytes under `k`.
proof fn lemma_zero_count_zero_bytes(s: Seq<EntryV>, k: Seq<char>)
    requires
        count_with_key(s, k) == 0,
    ensures
        bytes_with_key(s, k) == 0,
    decreases s.len(),
{
    if s.len() != 0 {
        lemma_zero_count_zero_bytes(s.drop_first(), k);
    }
}

/// The first `n` groups of the summary: the cap of the report is by key
/// order, a prefix of the ascending key sequence, not by size.
pub fn cap_groups(groups: &Vec<ExtGroup>, n: usize) -> (r: Vec<ExtGroup>)
    ensures
        r@.len() <= n,
        r@.len() == if n <= groups@.len() {
            n as int
        } else {
            groups@.len() as int
        },
        r.deep_view() == groups.deep_view().take(r@.len() as int),
{
    let m = if n <= groups.len() {
        n
    } else {
        groups.len()
    };
    let mut r: Vec<ExtGroup> = Vec::new();
    let mut i: usize = 0;
    while i < m
        invariant
            m <= groups@.len(),
            i <= m,
            r.deep_view() =~= groups.deep_view().take(i as int),
        decreases m - i,
    {
        let g = &groups[i];
        let g2 = ExtGroup { key: g.key.clone(), count: g.count, bytes: g.bytes };
        proof {
            assert(g2.deep_view() == groups.deep_view()[i as int]);
        }
        let ghost pre = r.deep_view();
        r.push(g2);
        proof {
            assert(r.deep_view() =~= pre.push(g2.deep_view()));
            assert(groups.deep_view().take(i as int + 1) =~= groups.deep_view().take(i as int).push(
                groups.deep_view()[i as int],
            ));
        }
        i = i + 1;
    }
    r
}

} // verus!
