//! The first-layer collector: one report entry per readable direct child of
//! the scanned root, with sizes from the recursive accumulator.

use vstd::prelude::*;
use crate::entry::{Entry, EntryV};
use crate::naming::{get_file_type, is_ignored_name, spec_file_type, spec_is_ignored};
use crate::tree::{
    calculate_total_size, children_size, has_failure, sat64, sat_add_u64, seq_has_failure,
    subtree_size, Node, ScanError,
};

verus! {

/// The name a node was listed under.
pub open spec fn node_name(n: Node) -> Seq<char> {
    match n {
        Node::File { name, .. } => name@,
        Node::Dir { name, .. } => name@,
        Node::Denied { name } => name@,
        Node::Failed { name } => name@,
    }
}

/// Whether a direct child of the root yields a report entry.  Children whose
/// metadata could not be read are dropped, as are children the smart-ignore
/// filter excludes, and directories whose accumulation fails when a full-depth
/// scan is asked for.
pub open spec fn child_kept(c: Node, smart_ignore: bool, full_depth: bool) -> bool {
    &&& !(c is Denied)
    &&& !(c is Failed)
    &&& !(smart_ignore && spec_is_ignored(node_name(c)))
    &&& !(full_depth && c is Dir && has_failure(c))
}

/// The entry a kept child yields.  In a depth-limited scan a directory is
/// reported with size zero instead of its subtree total.  Directories carry
/// the sentinel `"-"` tag.
pub open spec fn entry_view_of(c: Node, full_depth: bool) -> EntryV {
    EntryV {
        path: node_name(c),
        is_directory: c is Dir,
        size: if c is Dir && !full_depth {
            0
        } else {
            sat64(subtree_size(c))
        },
        file_type: if c is Dir {
            "-"@
        } else {
            spec_file_type(node_name(c))
        },
    }
}

/// The report entries of a child sequence, in listing order.
pub open spec fn first_layer_spec(cs: Seq<Node>, smart_ignore: bool, full_depth: bool) -> Seq<
    EntryV,
>
    decreases cs.len(),
{
    if cs.len() == 0 {
        Seq::empty()
    } else {
        let rest = first_layer_spec(cs.drop_first(), smart_ignore, full_depth);
        if child_kept(cs[0], smart_ignore, full_depth) {
            seq![entry_view_of(cs[0], full_depth)] + rest
        } else {
            rest
        }
    }
}

proof fn lemma_first_layer_snoc(cs: Seq<Node>, x: Node, smart_ignore: bool, full_depth: bool)
    ensures
        first_layer_spec(cs.push(x), smart_ignore, full_depth) == first_layer_spec(
            cs,
            smart_ignore,
            full_depth,
        ) + if child_kept(x, smart_ignore, full_depth) {
            seq![entry_view_of(x, full_depth)]
        } else {
            Seq::<EntryV>::empty()
        },
    decreases cs.len(),
{
    let k = if child_kept(x, smart_ignore, full_depth) {
        seq![entry_view_of(x, full_depth)]
    } else {
        Seq::<EntryV>::empty()
    };
    if cs.len() == 0 {
        assert(cs.push(x)[0] == x);
        assert(cs.push(x).drop_first() =~= Seq::<Node>::empty());
        assert(first_layer_spec(cs.push(x).drop_first(), smart_ignore, full_depth)
            =~= Seq::<EntryV>::empty());
        assert(first_layer_spec(cs, smart_ignore, full_depth) =~= Seq::<EntryV>::empty());
        assert(first_layer_spec(cs.push(x), smart_ignore, full_depth) =~= first_layer_spec(
            cs,
            smart_ignore,
            full_depth,
        ) + k);
    } else {
        assert(cs.push(x)[0] == cs[0]);
        assert(cs.push(x).drop_first() =~= cs.drop_first().push(x));
        lemma_first_layer_snoc(cs.drop_first(), x, smart_ignore, full_depth);
        let r0 = first_layer_spec(cs.drop_first(), smart_ignore, full_depth);
        assert(first_layer_spec(cs.drop_first().push(x), smart_ignore, full_depth) == r0 + k);
        if child_kept(cs[0], smart_ignore, full_depth) {
            let e0 = seq![entry_view_of(cs[0], full_depth)];
            assert(first_layer_spec(cs.push(x), smart_ignore, full_depth) == e0 + (r0 + k));
            assert(first_layer_spec(cs, smart_ignore, full_depth) == e0 + r0);
            assert(e0 + (r0 + k) =~= (e0 + r0) + k);
        } else {
            assert(first_layer_spec(cs.push(x), smart_ignore, full_depth) == r0 + k);
            assert(first_layer_spec(cs, smart_ignore, full_depth) == r0);
        }
    }
}

/// The name of a node, as a string slice.
fn node_name_str(n: &Node) -> (r: &String)
    ensures
        r@ == node_name(*n),
{
    match n {
        Node::File { name, .. } => name,
        Node::Dir { name, .. } => name,
        Node::Denied { name } => name,
        Node::Failed { name } => name,
    }
}

/// One report entry per readable direct child of the scanned root, in listing
/// order.  With `smart_ignore` the fixed ignore set is applied, at the first
/// layer only: ignored children yield no entry, but their bytes still count in
/// a parent directory's total.  With `full_depth` false, directories are
/// reported with size zero instead of a full subtree scan.  The root must be
/// a listable directory; anything else is a structural error.
pub fn get_first_layer_full_sizes(root: &Node, smart_ignore: bool, full_depth: bool) -> (r: Result<
    Vec<Entry>,
    ScanError,
>)
    ensures
        r is Ok <==> *root is Dir,
        r matches Ok(es) ==> es.deep_view() == first_layer_spec(
            root->Dir_children@,
            smart_ignore,
            full_depth,
        ),
        r matches Err(e) ==> e is NotADirectory,
{
    match root {
        Node::Dir { children, .. } => {
            let mut es: Vec<Entry> = Vec::new();
            let mut i: usize = 0;
            while i < children.len()
                invariant
                    *root is Dir,
                    root->Dir_children == *children,
                    i <= children.len(),
                    es.deep_view() =~= first_layer_spec(
                        children@.take(i as int),
                        smart_ignore,
                        full_depth,
                    ),
                decreases children.len() - i,
            {
                let c = &children[i];
                proof {
                    assert(children@.take(i as int + 1) =~= children@.take(i as int).push(
                        children@[i as int],
                    ));
                    lemma_first_layer_snoc(
                        children@.take(i as int),
                        children@[i as int],
                        smart_ignore,
                        full_depth,
                    );
                }
                let dropped = match c {
                    Node::Denied { .. } => true,
                    Node::Failed { .. } => true,
                    _ => false,
                };
                if !dropped && !(smart_ignore && is_ignored_name(node_name_str(c).as_str())) {
                    let is_dir = match c {
                        Node::Dir { .. } => true,
                        _ => false,
                    };
                    if is_dir && !full_depth {
                        let e = Entry {
                            path: node_name_str(c).clone(),
                            is_directory: true,
                            size: 0,
                            file_type: String::from_str("-"),
                        };
                        proof {
                            assert(e.deep_view() == entry_view_of(children@[i as int], full_depth));
                        }
                        push_entry(&mut es, e);
                    } else {
                        match calculate_total_size(c) {
                            Ok(v) => {
                                let tag = if is_dir {
                                    String::from_str("-")
                                } else {
                                    get_file_type(node_name_str(c).as_str())
                                };
                                let e = Entry {
                                    path: node_name_str(c).clone(),
                                    is_directory: is_dir,
                                    size: v,
                                    file_type: tag,
                                };
                                proof {
                                    assert(e.deep_view() == entry_view_of(
                                        children@[i as int],
                                        full_depth,
                                    ));
                                }
                                push_entry(&mut es, e);
                            },
                            Err(_) => {
                                proof {
                                    assert(!child_kept(
                                        children@[i as int],
                                        smart_ignore,
                                        full_depth,
                                    ));
                                }
                            },
                        }
                    }
                }
                i = i + 1;
            }
            proof {
                assert(children@.take(children@.len() as int) =~= children@);
            }
            Ok(es)
        },
        _ => Err(ScanError::NotADirectory),
    }
}

/// Push, stated over deep views.
fn push_entry(es: &mut Vec<Entry>, e: Entry)
    ensures
        final(es).deep_view() == old(es).deep_view().push(e.deep_view()),
{
    es.push(e);
    proof {
        assert(final(es).deep_view() =~= old(es).deep_view().push(e.deep_view()));
    }
}

/// Sum of the sizes of a sequence of entries.
pub open spec fn entries_total(s: Seq<EntryV>) -> nat
    decreases s.len(),
{
    if s.len() == 0 {
        0
    } else {
        s[0].size as nat + entries_total(s.drop_first())
    }
}

proof fn lemma_entries_total_snoc(s: Seq<EntryV>, e: EntryV)
    ensures
        entries_total(s.push(e)) == entries_total(s) + e.size,
    decreases s.len(),
{
    if s.len() == 0 {
        assert(s.push(e)[0] == e);
        assert(s.push(e).drop_first() =~= Seq::<EntryV>::empty());
        assert(entries_total(s.push(e).drop_first()) == 0);
        assert(entries_total(s) == 0);
    } else {
        assert(s.push(e)[0] == s[0]);
        assert(s.push(e).drop_first() =~= s.drop_first().push(e));
        lemma_entries_total_snoc(s.drop_first(), e);
    }
}

/// The headline total: the sum of all collected entry sizes, saturated at
/// `u64::MAX`.  It is computed from the full collection, before any
/// filtering or truncation.
pub fn total_of_entries(entries: &Vec<Entry>) -> (r: u64)
    ensures
        r == sat64(entries_total(entries.deep_view())),
{
    let mut total: u64 = 0;
    let mut i: usize = 0;
    while i < entries.len()
        invariant
            i <= entries.len(),
            total == sat64(entries_total(entries.deep_view().take(i as int))),
        decreases entries.len() - i,
    {
        proof {
            assert(entries.deep_view().take(i as int + 1) =~= entries.deep_view().take(
                i as int,
            ).push(entries.deep_view()[i as int]));
            lemma_entries_total_snoc(
                entries.deep_view().take(i as int),
                entries.deep_view()[i as int],
            );
        }
        total = sat_add_u64(total, entries[i].size);
        i = i + 1;
    }
    proof {
        assert(entries.deep_view().take(entries@.len() as int) =~= entries.deep_view());
    }
    total
}

/// With no ignore filter, a full-depth scan, and no failure among the
/// children, the collector yields exactly one entry per readable direct
/// child, and the sum of all entry sizes is the root's accumulated size:
/// denied children are dropped and count zero on both sides.
pub proof fn lemma_first_layer_total(cs: Seq<Node>)
    requires
        !seq_has_failure(cs),
        children_size(cs) <= u64::MAX,
    ensures
        entries_total(first_layer_spec(cs, false, true)) == children_size(cs),
    decreases cs.len(),
{
    if cs.len() != 0 {
        assert(!has_failure(cs[0]) && !seq_has_failure(cs.drop_first()));
        lemma_first_layer_total(cs.drop_first());
        if child_kept(cs[0], false, true) {
            let e = entry_view_of(cs[0], true);
            let rest = first_layer_spec(cs.drop_first(), false, true);
            assert((seq![e] + rest)[0] == e);
            assert((seq![e] + rest).drop_first() =~= rest);
            assert(e.size == sat64(subtree_size(cs[0])));
            assert(subtree_size(cs[0]) <= children_size(cs));
        } else {
            assert(cs[0] is Denied);
            assert(subtree_size(cs[0]) == 0);
        }
    }
}

} // verus!
