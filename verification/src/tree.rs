//! The in-memory model of a scanned directory tree, and the recursive
//! size accumulator over it.
//!
//! A scan of the real filesystem (performed outside this library) produces a
//! `Node` per entry it met: a regular file with its byte length, a directory
//! with the nodes of its children, an entry whose metadata or listing could
//! not be read because access was denied (or it vanished mid-scan), or an
//! entry whose reading failed for any other reason.  Denied entries contribute
//! zero bytes to every total and never fail a scan; failed entries abort the
//! accumulation that reaches them.

use vstd::prelude::*;

verus! {

/// One entry of a scanned directory tree.
pub enum Node {
    /// A regular file (or anything that is not a directory), with its byte length.
    File { name: String, size: u64 },
    /// A directory that could be listed, with one node per child.
    Dir { name: String, children: Vec<Node> },
    /// An entry whose metadata or listing was denied, or which vanished
    /// while the scan ran.  It is skipped: it contributes zero bytes.
    Denied { name: String },
    /// An entry whose reading failed for a reason other than denied access.
    Failed { name: String },
}

/// Why an accumulation or a collection gave no result.
#[derive(Debug)]
pub enum ScanError {
    /// Some entry of the subtree failed to read for a non-permission reason.
    ReadFailed,
    /// The scanned root is not a listable directory.
    NotADirectory,
}

/// Total byte size of the regular files of the subtree rooted at `n`:
/// a file counts its length, a directory the sum over its children,
/// and a denied or failed entry counts zero.
pub open spec fn subtree_size(n: Node) -> nat
    decreases n,
{
    match n {
        Node::File { size, .. } => size as nat,
        Node::Dir { children, .. } => children_size(children@),
        Node::Denied { .. } => 0,
        Node::Failed { .. } => 0,
    }
}

/// Sum of `subtree_size` over a sequence of sibling nodes.
pub open spec fn children_size(s: Seq<Node>) -> nat
    decreases s,
{
    if s.len() == 0 {
        0
    } else {
        subtree_size(s[0]) + children_size(s.drop_first())
    }
}

/// Whether the subtree rooted at `n` holds an entry whose reading failed
/// for a reason other than denied access.
pub open spec fn has_failure(n: Node) -> bool
    decreases n,
{
    match n {
        Node::File { .. } => false,
        Node::Dir { children, .. } => seq_has_failure(children@),
        Node::Denied { .. } => false,
        Node::Failed { .. } => true,
    }
}

/// Whether some node of `s` has a failure in its subtree.
pub open spec fn seq_has_failure(s: Seq<Node>) -> bool
    decreases s,
{
    s.len() != 0 && (has_failure(s[0]) || seq_has_failure(s.drop_first()))
}

/// Whether every entry of the subtree rooted at `n` was read: no denied
/// and no failed entry anywhere below (nor at) `n`.
pub open spec fn fully_readable(n: Node) -> bool
    decreases n,
{
    match n {
        Node::File { .. } => true,
        Node::Dir { children, .. } => seq_fully_readable(children@),
        Node::Denied { .. } => false,
        Node::Failed { .. } => false,
    }
}

/// Whether every node of `s` is fully readable.
pub open spec fn seq_fully_readable(s: Seq<Node>) -> bool
    decreases s,
{
    s.len() == 0 || (fully_readable(s[0]) && seq_fully_readable(s.drop_first()))
}

/// `n` clamped to the largest `u64`.
pub open spec fn sat64(n: nat) -> u64 {
    if n <= u64::MAX {
        n as u64
    } else {
        u64::MAX
    }
}

/// Saturating addition on `u64`, with its exact meaning.
pub fn sat_add_u64(a: u64, b: u64) -> (r: u64)
    ensures
        r == sat64(a as nat + b as nat),
{
    if b > u64::MAX - a {
        u64::MAX
    } else {
        a + b
    }
}

proof fn lemma_children_size_push(s: Seq<Node>, x: Node)
    ensures
        children_size(s.push(x)) == children_size(s) + subtree_size(x),
    decreases s,
{
    if s.len() == 0 {
        assert(s.push(x)[0] == x);
        assert(s.push(x).drop_first() =~= Seq::<Node>::empty());
        assert(children_size(s.push(x).drop_first()) == 0);
    } else {
        assert(s.push(x)[0] == s[0]);
        assert(s.push(x).drop_first() =~= s.drop_first().push(x));
        lemma_children_size_push(s.drop_first(), x);
    }
}

proof fn lemma_seq_has_failure_push(s: Seq<Node>, x: Node)
    ensures
        seq_has_failure(s.push(x)) == (seq_has_failure(s) || has_failure(x)),
    decreases s,
{
    if s.len() == 0 {
        assert(s.push(x)[0] == x);
        assert(s.push(x).drop_first() =~= Seq::<Node>::empty());
        assert(!seq_has_failure(s.push(x).drop_first()));
    } else {
        assert(s.push(x)[0] == s[0]);
        assert(s.push(x).drop_first() =~= s.drop_first().push(x));
        lemma_seq_has_failure_push(s.drop_first(), x);
    }
}

/// Total byte size of all regular files under `node`, saturated at `u64::MAX`,
/// skipping denied entries; an entry that failed to read for any other reason
/// aborts the whole accumulation.
pub fn calculate_total_size(node: &Node) -> (r: Result<u64, ScanError>)
    ensures
        r is Ok <==> !has_failure(*node),
        r matches Ok(v) ==> v == sat64(subtree_size(*node)),
        r matches Err(e) ==> e is ReadFailed,
    decreases *node,
{
    match node {
        Node::File { size, .. } => Ok(*size),
        Node::Denied { .. } => Ok(0),
        Node::Failed { .. } => Err(ScanError::ReadFailed),
        Node::Dir { children, .. } => {
            let mut total: u64 = 0;
            let mut i: usize = 0;
            while i < children.len()
                invariant
                    *node is Dir,
                    node->Dir_children == *children,
                    i <= children.len(),
                    total == sat64(children_size(children@.take(i as int))),
                    !seq_has_failure(children@.take(i as int)),
                    children_size(children@) == subtree_size(*node),
                    seq_has_failure(children@) == has_failure(*node),
                decreases children.len() - i,
            {
                proof {
                    assert(decreases_to!(*node => node->Dir_children));
                    assert(decreases_to!(node->Dir_children => node->Dir_children@));
                    assert(decreases_to!(node->Dir_children@ => node->Dir_children@[i as int]));
                    assert(decreases_to!(*node => children@[i as int]));
                }
                let child_total = match calculate_total_size(&children[i]) {
                    Ok(v) => v,
                    Err(e) => {
                        proof {
                            lemma_seq_failure_element(children@, i as int);
                        }
                        return Err(ScanError::ReadFailed);
                    },
                };
                proof {
                    assert(children@.take(i as int + 1)
                        =~= children@.take(i as int).push(children@[i as int]));
                    lemma_children_size_push(children@.take(i as int), children@[i as int]);
                    lemma_seq_has_failure_push(children@.take(i as int), children@[i as int]);
                }
                total = sat_add_u64(total, child_total);
                i = i + 1;
            }
            proof {
                assert(children@.take(children@.len() as int) =~= children@);
            }
            Ok(total)
        },
    }
}

/// The byte lengths of the regular files of the subtree rooted at `n`,
/// in depth-first order.
pub open spec fn file_sizes(n: Node) -> Seq<nat>
    decreases n,
{
    match n {
        Node::File { size, .. } => seq![size as nat],
        Node::Dir { children, .. } => seq_file_sizes(children@),
        Node::Denied { .. } => Seq::empty(),
        Node::Failed { .. } => Seq::empty(),
    }
}

/// The byte lengths of the regular files under a sequence of sibling nodes.
pub open spec fn seq_file_sizes(s: Seq<Node>) -> Seq<nat>
    decreases s,
{
    if s.len() == 0 {
        Seq::empty()
    } else {
        file_sizes(s[0]) + seq_file_sizes(s.drop_first())
    }
}

/// Sum of a sequence of naturals.
pub open spec fn sum_nat(s: Seq<nat>) -> nat
    decreases s,
{
    if s.len() == 0 {
        0
    } else {
        s[0] + sum_nat(s.drop_first())
    }
}

proof fn lemma_sum_nat_concat(a: Seq<nat>, b: Seq<nat>)
    ensures
        sum_nat(a + b) == sum_nat(a) + sum_nat(b),
    decreases a,
{
    if a.len() == 0 {
        assert(a + b =~= b);
    } else {
        assert((a + b)[0] == a[0]);
        assert((a + b).drop_first() =~= a.drop_first() + b);
        lemma_sum_nat_concat(a.drop_first(), b);
    }
}

/// On a tree without denied or failed entries, the accumulated subtree size
/// is exactly the sum of the byte lengths of all regular files in it,
/// regardless of nesting depth.
pub proof fn lemma_size_is_file_byte_sum(n: Node)
    requires
        fully_readable(n),
    ensures
        subtree_size(n) == sum_nat(file_sizes(n)),
    decreases n,
{
    match n {
        Node::Dir { children, .. } => {
            assert(subtree_size(n) == children_size(children@));
            assert(file_sizes(n) == seq_file_sizes(children@));
            assert(seq_fully_readable(children@));
            lemma_seq_size_is_file_byte_sum(children@);
        },
        Node::File { size, .. } => {
            assert(file_sizes(n) =~= seq![size as nat]);
            assert(file_sizes(n).drop_first() =~= Seq::<nat>::empty());
            assert(sum_nat(file_sizes(n).drop_first()) == 0);
            assert(file_sizes(n)[0] == size as nat);
            assert(sum_nat(file_sizes(n)) == size as nat);
        },
        _ => {},
    }
}

proof fn lemma_seq_size_is_file_byte_sum(s: Seq<Node>)
    requires
        seq_fully_readable(s),
    ensures
        children_size(s) == sum_nat(seq_file_sizes(s)),
    decreases s,
{
    if s.len() != 0 {
        lemma_size_is_file_byte_sum(s[0]);
        lemma_seq_size_is_file_byte_sum(s.drop_first());
        lemma_sum_nat_concat(file_sizes(s[0]), seq_file_sizes(s.drop_first()));
    }
}

/// A subtree made access-restricted after construction contributes zero to
/// its parent's accumulated size — replacing any child with a denied entry
/// takes exactly that child's subtree size out of the parent's total — and
/// it does not make a scan fail that would not have failed without it.
pub proof fn lemma_denied_contributes_zero(s: Seq<Node>, i: int, d: Node)
    requires
        0 <= i < s.len(),
        d is Denied,
    ensures
        children_size(s.update(i, d)) + subtree_size(s[i]) == children_size(s),
        seq_has_failure(s.update(i, d)) ==> seq_has_failure(s),
    decreases s,
{
    let s2 = s.update(i, d);
    assert(s2.len() == s.len());
    if i == 0 {
        assert(s2[0] == d);
        assert(subtree_size(d) == 0);
        assert(!has_failure(d));
        assert(s2.drop_first() =~= s.drop_first());
    } else {
        assert(s2[0] == s[0]);
        assert(s2.drop_first() =~= s.drop_first().update(i - 1, d));
        assert(s.drop_first()[i - 1] == s[i]);
        lemma_denied_contributes_zero(s.drop_first(), i - 1, d);
    }
}

/// A node of `s` with a failure makes the whole sequence have one.
proof fn lemma_seq_failure_element(s: Seq<Node>, i: int)
    requires
        0 <= i < s.len(),
        has_failure(s[i]),
    ensures
        seq_has_failure(s),
    decreases s,
{
    if i > 0 {
        lemma_seq_failure_element(s.drop_first(), i - 1);
    }
}

} // verus!
