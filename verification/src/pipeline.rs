//! The report pipeline: minimum-size filtering, stable sorting by one
//! requested key, and truncation to a result cap.

use vstd::prelude::*;
use crate::entry::{clone_entry, Entry, EntryV};
use crate::strutil::{
    lemma_lex_lt_transitive, lemma_lex_lt_trichotomy, lex_lt, lower_seq, str_eq,
    str_eq_ignore_case, str_lex_lt, str_lex_lt_ignore_case,
};

verus! {

/// The one key the report is ordered by.
#[derive(Clone, Copy)]
pub enum SortKey {
    /// Descending by size, largest first.
    Size,
    /// Ascending by path, without regard to ASCII case.
    Name,
    /// Ascending by the type tag.
    Type,
}

/// Non-strict "may come at or before" between entries under `key`.
pub open spec fn key_le(a: EntryV, b: EntryV, key: SortKey) -> bool {
    match key {
        SortKey::Size => a.size >= b.size,
        SortKey::Name => lex_lt(lower_seq(a.path), lower_seq(b.path)) || lower_seq(a.path)
            == lower_seq(b.path),
        SortKey::Type => lex_lt(a.file_type, b.file_type) || a.file_type == b.file_type,
    }
}

/// Whether `a` and `b` rank the same under `key`.
pub open spec fn key_eq(a: EntryV, b: EntryV, key: SortKey) -> bool {
    match key {
        SortKey::Size => a.size == b.size,
        SortKey::Name => lower_seq(a.path) == lower_seq(b.path),
        SortKey::Type => a.file_type == b.file_type,
    }
}

/// Whether `s` is ordered under `key`.
pub open spec fn sorted_by(s: Seq<EntryV>, key: SortKey) -> bool {
    forall|k1: int, k2: int|
        0 <= k1 < k2 < s.len() ==> key_le(#[trigger] s[k1], #[trigger] s[k2], key)
}

/// `f` witnesses that `b` is a stable `key`-sort of `a`: it maps each output
/// position to the input position it came from, injectively, and entries that
/// rank the same keep their input order.
pub open spec fn stable_perm(a: Seq<EntryV>, b: Seq<EntryV>, f: Seq<int>, key: SortKey) -> bool {
    &&& b.len() == a.len()
    &&& f.len() == a.len()
    &&& forall|k: int| 0 <= k < f.len() ==> 0 <= #[trigger] f[k] < a.len() && b[k] == a[f[k]]
    &&& forall|k1: int, k2: int| 0 <= k1 < k2 < f.len() ==> f[k1] != f[k2]
    &&& forall|k1: int, k2: int|
        0 <= k1 < k2 < b.len() && key_eq(#[trigger] b[k1], #[trigger] b[k2], key) ==> f[k1]
            < f[k2]
}

/// Strict "comes before" for a pair of an entry and its input position:
/// ties in the key are broken by the input position, so this is a strict
/// total order whenever positions differ.
pub open spec fn pair_before(a: (EntryV, int), b: (EntryV, int), key: SortKey) -> bool {
    if key_eq(a.0, b.0, key) {
        a.1 < b.1
    } else {
        key_le(a.0, b.0, key)
    }
}

/// The entry and position of an exec pair.
pub open spec fn pv(p: (Entry, usize)) -> (EntryV, int) {
    (p.0.deep_view(), p.1 as int)
}

proof fn lemma_key_total(a: EntryV, b: EntryV, key: SortKey)
    ensures
        key_le(a, b, key) || key_le(b, a, key),
        key_eq(a, b, key) <==> (key_le(a, b, key) && key_le(b, a, key)),
{
    match key {
        SortKey::Size => {},
        SortKey::Name => {
            lemma_lex_lt_trichotomy(lower_seq(a.path), lower_seq(b.path));
        },
        SortKey::Type => {
            lemma_lex_lt_trichotomy(a.file_type, b.file_type);
        },
    }
}

proof fn lemma_key_le_trans(a: EntryV, b: EntryV, c: EntryV, key: SortKey)
    requires
        key_le(a, b, key),
        key_le(b, c, key),
    ensures
        key_le(a, c, key),
{
    match key {
        SortKey::Size => {},
        SortKey::Name => {
            if lex_lt(lower_seq(a.path), lower_seq(b.path)) && lex_lt(
                lower_seq(b.path),
                lower_seq(c.path),
            ) {
                lemma_lex_lt_transitive(lower_seq(a.path), lower_seq(b.path), lower_seq(c.path));
            }
        },
        SortKey::Type => {
            if lex_lt(a.file_type, b.file_type) && lex_lt(b.file_type, c.file_type) {
                lemma_lex_lt_transitive(a.file_type, b.file_type, c.file_type);
            }
        },
    }
}

proof fn lemma_pair_before_total(a: (EntryV, int), b: (EntryV, int), key: SortKey)
    requires
        a.1 != b.1,
    ensures
        pair_before(a, b, key) || pair_before(b, a, key),
{
    lemma_key_total(a.0, b.0, key);
}

proof fn lemma_pair_before_trans(a: (EntryV, int), b: (EntryV, int), c: (EntryV, int), key: SortKey)
    requires
        pair_before(a, b, key),
        pair_before(b, c, key),
    ensures
        pair_before(a, c, key),
{
    lemma_key_total(a.0, b.0, key);
    lemma_key_total(b.0, c.0, key);
    lemma_key_total(a.0, c.0, key);
    lemma_key_le_trans(a.0, b.0, c.0, key);
    if key_le(c.0, a.0, key) {
        lemma_key_le_trans(b.0, c.0, a.0, key);
        lemma_key_le_trans(c.0, a.0, b.0, key);
    }
}

/// Strict comparison of two entry/position pairs under `key`.
fn pair_lt(a: &(Entry, usize), b: &(Entry, usize), key: SortKey) -> (r: bool)
    ensures
        r == pair_before(pv(*a), pv(*b), key),
{
    match key {
        SortKey::Size => {
            if a.0.size == b.0.size {
                a.1 < b.1
            } else {
                a.0.size > b.0.size
            }
        },
        SortKey::Name => {
            if str_eq_ignore_case(a.0.path.as_str(), b.0.path.as_str()) {
                a.1 < b.1
            } else {
                str_lex_lt_ignore_case(a.0.path.as_str(), b.0.path.as_str())
            }
        },
        SortKey::Type => {
            if str_eq(a.0.file_type.as_str(), b.0.file_type.as_str()) {
                a.1 < b.1
            } else {
                str_lex_lt(a.0.file_type.as_str(), b.0.file_type.as_str())
            }
        },
    }
}

/// Positions in `s` are valid for `a` and each pair carries the entry that
/// stood at its position.
spec fn pairs_match(s: Seq<(Entry, usize)>, a: Seq<EntryV>) -> bool {
    forall|k: int|
        0 <= k < s.len() ==> 0 <= (#[trigger] s[k]).1 < a.len() && s[k].0.deep_view() == a[s[
            k
        ].1 as int]
}

/// All positions, within and across the two sequences, are distinct.
spec fn idxs_distinct(s: Seq<(Entry, usize)>, t: Seq<(Entry, usize)>) -> bool {
    &&& forall|k1: int, k2: int|
        0 <= k1 < k2 < s.len() ==> (#[trigger] s[k1]).1 != (#[trigger] s[k2]).1
    &&& forall|k1: int, k2: int|
        0 <= k1 < k2 < t.len() ==> (#[trigger] t[k1]).1 != (#[trigger] t[k2]).1
    &&& forall|k1: int, k2: int|
        0 <= k1 < s.len() && 0 <= k2 < t.len() ==> (#[trigger] s[k1]).1 != (#[trigger] t[k2]).1
}

/// `s` is strictly ordered by `pair_before`.
spec fn pairs_sorted(s: Seq<(Entry, usize)>, key: SortKey) -> bool {
    forall|k1: int, k2: int|
        0 <= k1 < k2 < s.len() ==> pair_before(pv(#[trigger] s[k1]), pv(#[trigger] s[k2]), key)
}

/// Every pair of `s` comes before every pair of `t`.
spec fn pairs_dominate(s: Seq<(Entry, usize)>, t: Seq<(Entry, usize)>, key: SortKey) -> bool {
    forall|k1: int, k2: int|
        0 <= k1 < s.len() && 0 <= k2 < t.len() ==> pair_before(
            pv(#[trigger] s[k1]),
            pv(#[trigger] t[k2]),
            key,
        )
}

/// The entries ordered under `key` by a stable sort: entries that rank the
/// same keep the relative order they had in the input.  For `SortKey::Size`
/// this is the descending size order of the report, largest first.
#[verifier::loop_isolation(false)]
pub fn sort_entries(entries: &Vec<Entry>, key: SortKey) -> (r: Vec<Entry>)
    ensures
        r.deep_view().len() == entries.deep_view().len(),
        sorted_by(r.deep_view(), key),
        exists|f: Seq<int>| stable_perm(entries.deep_view(), r.deep_view(), f, key),
{
    let ghost a = entries.deep_view();
    proof {
        assert(a.len() == entries@.len());
    }
    let mut src: Vec<(Entry, usize)> = Vec::new();
    let mut i: usize = 0;
    while i < entries.len()
        invariant
            i <= entries@.len(),
            src@.len() == i,
            forall|k: int| 0 <= k < i ==> (#[trigger] src@[k]).1 == k,
            forall|k: int| 0 <= k < i ==> (#[trigger] src@[k]).0.deep_view() == a[k],
        decreases entries@.len() - i,
    {
        let e = clone_entry(&entries[i]);
        proof {
            assert(e.deep_view() == a[i as int]);
        }
        src.push((e, i));
        i = i + 1;
    }
    let mut out: Vec<(Entry, usize)> = Vec::new();
    while src.len() > 0
        invariant
            src@.len() + out@.len() == a.len(),
            pairs_match(src@, a),
            pairs_match(out@, a),
            idxs_distinct(src@, out@),
            pairs_sorted(out@, key),
            pairs_dominate(out@, src@, key),
        decreases src@.len(),
    {
        let mut m: usize = 0;
        let mut j: usize = 1;
        while j < src.len()
            invariant
                m < j <= src@.len(),
                forall|t: int|
                    0 <= t < j && t != m ==> pair_before(
                        pv(src@[m as int]),
                        pv(#[trigger] src@[t]),
                        key,
                    ),
            decreases src@.len() - j,
        {
            if pair_lt(&src[j], &src[m], key) {
                proof {
                    assert forall|t: int| 0 <= t < j + 1 && t != j implies pair_before(
                        pv(src@[j as int]),
                        pv(#[trigger] src@[t]),
                        key,
                    ) by {
                        if t != m {
                            lemma_pair_before_trans(
                                pv(src@[j as int]),
                                pv(src@[m as int]),
                                pv(src@[t]),
                                key,
                            );
                        }
                    }
                }
                m = j;
            } else {
                proof {
                    lemma_pair_before_total(pv(src@[m as int]), pv(src@[j as int]), key);
                }
            }
            j = j + 1;
        }
        let ghost old_src = src@;
        let x = src.swap_remove(m);
        proof {
            assert forall|k: int| 0 <= k < src@.len() implies (exists|t: int|
                0 <= t < old_src.len() && t != m && #[trigger] src@[k] == old_src[t]) by {
                if k == m {
                    assert(src@[k] == old_src[old_src.len() - 1]);
                } else {
                    assert(src@[k] == old_src[k]);
                }
            }
            assert forall|k: int| 0 <= k < src@.len() implies pair_before(
                pv(x),
                pv(#[trigger] src@[k]),
                key,
            ) by {
                let t = choose|t: int|
                    0 <= t < old_src.len() && t != m && #[trigger] src@[k] == old_src[t];
                assert(pair_before(pv(old_src[m as int]), pv(old_src[t]), key));
            }
            assert(pairs_match(src@, a));
            assert(idxs_distinct(src@, out@.push(x))) by {
                assert forall|k1: int, k2: int|
                    0 <= k1 < k2 < src@.len() implies (#[trigger] src@[k1]).1 != (
                #[trigger] src@[k2]).1 by {
                    let t1 = choose|t: int|
                        0 <= t < old_src.len() && t != m && #[trigger] src@[k1] == old_src[t];
                    let t2 = choose|t: int|
                        0 <= t < old_src.len() && t != m && #[trigger] src@[k2] == old_src[t];
                    if k1 == m {
                        assert(src@[k1] == old_src[old_src.len() - 1]);
                    } else {
                        assert(src@[k1] == old_src[k1]);
                    }
                    if k2 == m {
                        assert(src@[k2] == old_src[old_src.len() - 1]);
                    } else {
                        assert(src@[k2] == old_src[k2]);
                    }
                }
                assert forall|k1: int, k2: int|
                    0 <= k1 < src@.len() && 0 <= k2 < out@.push(x).len() implies (
                #[trigger] src@[k1]).1 != (#[trigger] out@.push(x)[k2]).1 by {
                    if k1 == m {
                        assert(src@[k1] == old_src[old_src.len() - 1]);
                    } else {
                        assert(src@[k1] == old_src[k1]);
                    }
                    if k2 < out@.len() {
                        assert(out@.push(x)[k2] == out@[k2]);
                    } else {
                        assert(out@.push(x)[k2] == x);
                    }
                }
            }
            assert(pairs_sorted(out@.push(x), key)) by {
                assert forall|k1: int, k2: int|
                    0 <= k1 < k2 < out@.push(x).len() implies pair_before(
                    pv(#[trigger] out@.push(x)[k1]),
                    pv(#[trigger] out@.push(x)[k2]),
                    key,
                ) by {
                    assert(out@.push(x)[k1] == out@[k1]);
                    if k2 < out@.len() {
                        assert(out@.push(x)[k2] == out@[k2]);
                    } else {
                        assert(out@.push(x)[k2] == x);
                        assert(pair_before(pv(out@[k1]), pv(old_src[m as int]), key));
                    }
                }
            }
            assert(pairs_dominate(out@.push(x), src@, key)) by {
                assert forall|k1: int, k2: int|
                    0 <= k1 < out@.push(x).len() && 0 <= k2 < src@.len() implies pair_before(
                    pv(#[trigger] out@.push(x)[k1]),
                    pv(#[trigger] src@[k2]),
                    key,
                ) by {
                    let t = choose|t: int|
                        0 <= t < old_src.len() && t != m && #[trigger] src@[k2] == old_src[t];
                    if k1 < out@.len() {
                        assert(out@.push(x)[k1] == out@[k1]);
                        assert(pair_before(pv(out@[k1]), pv(old_src[t]), key));
                    } else {
                        assert(out@.push(x)[k1] == x);
                    }
                }
            }
        }
        out.push(x);
    }
    let mut r: Vec<Entry> = Vec::new();
    let mut t: usize = 0;
    while t < out.len()
        invariant
            t <= out@.len(),
            r.deep_view() =~= Seq::new(t as nat, |k: int| out@[k].0.deep_view()),
        decreases out@.len() - t,
    {
        let ghost pre = r.deep_view();
        let e = clone_entry(&out[t].0);
        proof {
            assert(e.deep_view() == out@[t as int].0.deep_view());
        }
        r.push(e);
        proof {
            assert(r.deep_view() =~= pre.push(e.deep_view()));
            assert(r.deep_view() =~= Seq::new(t as nat + 1, |k: int| out@[k].0.deep_view()));
        }
        t = t + 1;
    }
    proof {
        let b = r.deep_view();
        let f = Seq::new(out@.len() as nat, |k: int| out@[k].1 as int);
        assert forall|k1: int, k2: int|
            0 <= k1 < k2 < b.len() implies key_le(#[trigger] b[k1], #[trigger] b[k2], key) by {
            assert(pair_before(pv(out@[k1]), pv(out@[k2]), key));
            lemma_key_total(b[k1], b[k2], key);
        }
        assert forall|k1: int, k2: int|
            0 <= k1 < k2 < b.len() && key_eq(#[trigger] b[k1], #[trigger] b[k2], key) implies f[k1]
            < f[k2] by {
            assert(pair_before(pv(out@[k1]), pv(out@[k2]), key));
        }
        assert(stable_perm(a, b, f, key));
    }
    r
}

/// The entries whose size reaches `min`, in their given order.
pub open spec fn min_size_filter(s: Seq<EntryV>, min: u64) -> Seq<EntryV>
    decreases s.len(),
{
    if s.len() == 0 {
        Seq::empty()
    } else {
        let rest = min_size_filter(s.drop_first(), min);
        if s[0].size >= min {
            seq![s[0]] + rest
        } else {
            rest
        }
    }
}

proof fn lemma_min_size_filter_snoc(s: Seq<EntryV>, e: EntryV, min: u64)
    ensures
        min_size_filter(s.push(e), min) == min_size_filter(s, min) + if e.size >= min {
            seq![e]
        } else {
            Seq::<EntryV>::empty()
        },
    decreases s.len(),
{
    let k = if e.size >= min {
        seq![e]
    } else {
        Seq::<EntryV>::empty()
    };
    if s.len() == 0 {
        assert(s.push(e)[0] == e);
        assert(s.push(e).drop_first() =~= Seq::<EntryV>::empty());
        assert(min_size_filter(s.push(e).drop_first(), min) =~= Seq::<EntryV>::empty());
        assert(min_size_filter(s, min) =~= Seq::<EntryV>::empty());
        assert(min_size_filter(s.push(e), min) =~= min_size_filter(s, min) + k);
    } else {
        assert(s.push(e)[0] == s[0]);
        assert(s.push(e).drop_first() =~= s.drop_first().push(e));
        lemma_min_size_filter_snoc(s.drop_first(), e, min);
        let r0 = min_size_filter(s.drop_first(), min);
        if s[0].size >= min {
            let e0 = seq![s[0]];
            assert(min_size_filter(s.push(e), min) == e0 + (r0 + k));
            assert(min_size_filter(s, min) == e0 + r0);
            assert(e0 + (r0 + k) =~= (e0 + r0) + k);
        } else {
            assert(min_size_filter(s.push(e), min) == r0 + k);
        }
    }
}

/// Entries below the threshold are dropped; the rest keep their order.
pub fn filter_min_size(entries: &Vec<Entry>, min: u64) -> (r: Vec<Entry>)
    ensures
        r.deep_view() == min_size_filter(entries.deep_view(), min),
{
    let ghost a = entries.deep_view();
    let mut r: Vec<Entry> = Vec::new();
    let mut i: usize = 0;
    while i < entries.len()
        invariant
            i <= entries@.len(),
            a == entries.deep_view(),
            a.len() == entries@.len(),
            r.deep_view() =~= min_size_filter(a.take(i as int), min),
        decreases entries@.len() - i,
    {
        proof {
            assert(a.take(i as int + 1) =~= a.take(i as int).push(a[i as int]));
            lemma_min_size_filter_snoc(a.take(i as int), a[i as int], min);
        }
        if entries[i].size >= min {
            r.push(clone_entry(&entries[i]));
        }
        i = i + 1;
    }
    proof {
        assert(a.take(a.len() as int) =~= a);
    }
    r
}

/// Raising the threshold never increases the number of reported entries.
pub proof fn lemma_min_size_filter_monotonic(s: Seq<EntryV>, lo: u64, hi: u64)
    requires
        lo <= hi,
    ensures
        min_size_filter(s, hi).len() <= min_size_filter(s, lo).len(),
    decreases s.len(),
{
    if s.len() != 0 {
        lemma_min_size_filter_monotonic(s.drop_first(), lo, hi);
    }
}

/// The first `n` entries of the ordered report — never more than `n`, and
/// always a prefix of the full ordered sequence.
pub fn take_top(entries: &Vec<Entry>, n: usize) -> (r: Vec<Entry>)
    ensures
        r@.len() <= n,
        r@.len() == if n <= entries@.len() {
            n as int
        } else {
            entries@.len() as int
        },
        r.deep_view() == entries.deep_view().take(r@.len() as int),
{
    let m = if n <= entries.len() {
        n
    } else {
        entries.len()
    };
    let mut r: Vec<Entry> = Vec::new();
    let mut i: usize = 0;
    while i < m
        invariant
            m <= entries@.len(),
            i <= m,
            r.deep_view() =~= entries.deep_view().take(i as int),
        decreases m - i,
    {
        let ghost pre = r.deep_view();
        let e = clone_entry(&entries[i]);
        proof {
            assert(e.deep_view() == entries.deep_view()[i as int]);
        }
        r.push(e);
        proof {
            assert(r.deep_view() =~= pre.push(e.deep_view()));
            assert(entries.deep_view().take(i as int + 1) =~= entries.deep_view().take(
                i as int,
            ).push(entries.deep_view()[i as int]));
            assert(r.deep_view() =~= entries.deep_view().take(i as int + 1));
        }
        i = i + 1;
    }
    r
}

} // verus!
