//! The radix trie itself: nodes with multi-character edge labels, and the
//! spec-level model of the structure as a set of stored words.

use vstd::prelude::*;

use crate::prefix::common_prefix_len;
use crate::prefix::common_len_from;
use crate::prefix::lemma_common_prefix_len;
use crate::prefix::lemma_common_prefix_len_at_least;
use crate::prefix::lemma_skip_skip;
use crate::prefix::to_char_vec;
use vstd::string::StrSliceExecFns;

verus! {

/// One node of the trie. `label` is the substring consumed along the edge
/// from the parent to this node (empty for the root, non-empty everywhere
/// else). `terminal` marks that the concatenation of labels from the root
/// down to here is a stored word.
pub struct Node {
    pub label: Vec<char>,
    pub terminal: bool,
    pub children: Vec<Node>,
}

/// A radix trie holding a set of non-empty words. The root consumes no
/// characters and is never terminal.
pub struct RadixTrie {
    pub root: Node,
}

/// Local shape of a non-root node: its edge label is non-empty, and a
/// non-terminal node keeps at least two children (a single-child non-terminal
/// node must have been compressed away, a childless one pruned).
pub open spec fn child_ok(c: Node) -> bool {
    &&& c.label@.len() > 0
    &&& (c.terminal || c.children@.len() >= 2)
}

/// Sibling edge labels never share a first character; since labels are
/// non-empty this is exactly "pairwise prefix-free", and it makes the child
/// to follow for a given suffix unique.
pub open spec fn distinct_heads(cs: Seq<Node>) -> bool {
    forall|i: int, j: int|
        0 <= i < cs.len() && 0 <= j < cs.len() && i != j
            ==> #[trigger] cs[i].label@[0] != #[trigger] cs[j].label@[0]
}

/// Well-formedness of the subtree below `n`: every child has a non-empty
/// label, non-terminal children branch, sibling labels are prefix-free, and
/// the same holds recursively. Nothing is required of `n`'s own label or
/// terminal flag, so the predicate fits the root as well as any inner node.
pub open spec fn node_wf(n: Node) -> bool
    decreases n, 3int,
{
    &&& distinct_heads(n.children@)
    &&& (forall|i: int| 0 <= i < n.children@.len() ==> child_ok(#[trigger] n.children@[i]))
    &&& (forall|i: int| 0 <= i < n.children@.len() ==> node_wf(#[trigger] n.children@[i]))
}

/// The suffix `w` is stored in the subtree below `n`: either it is exhausted
/// at a terminal node, or some child's label is a prefix of it and the rest
/// is stored below that child.
pub open spec fn has_word(n: Node, w: Seq<char>) -> bool
    decreases n, 0int,
{
    if w.len() == 0 {
        n.terminal
    } else {
        has_via(n.children@, w)
    }
}

/// Some node in `cs` consumes a prefix of `w` and stores the rest.
pub open spec fn has_via(cs: Seq<Node>, w: Seq<char>) -> bool
    decreases cs, 2int,
{
    exists|i: int| 0 <= i < cs.len() && child_matches(#[trigger] cs[i], w)
}

/// `c`'s label is a non-empty prefix of `w` and the remainder of `w` is
/// stored below `c`.
pub open spec fn child_matches(c: Node, w: Seq<char>) -> bool
    decreases c, 1int,
{
    &&& c.label@.len() > 0
    &&& c.label@.len() <= w.len()
    &&& c.label@ == w.take(c.label@.len() as int)
    &&& has_word(c, w.skip(c.label@.len() as int))
}

/// A matching child consumes the first character of the suffix.
proof fn lemma_match_head(c: Node, w: Seq<char>)
    requires
        child_matches(c, w),
    ensures
        w.len() > 0,
        c.label@[0] == w[0],
{
    assert(w.take(c.label@.len() as int)[0] == w[0]);
}

/// Under prefix-free sibling labels, at most one child can match a suffix:
/// any matching sibling is the one whose label starts with the suffix's
/// first character.
proof fn lemma_match_unique(cs: Seq<Node>, w: Seq<char>, i: int)
    requires
        distinct_heads(cs),
        0 <= i < cs.len(),
        w.len() > 0,
        cs[i].label@.len() > 0,
        cs[i].label@[0] == w[0],
    ensures
        forall|j: int|
            0 <= j < cs.len() && j != i ==> !child_matches(#[trigger] cs[j], w),
        has_via(cs, w) <==> child_matches(cs[i], w),
{
    assert forall|j: int| 0 <= j < cs.len() && j != i implies !child_matches(
        #[trigger] cs[j],
        w,
    ) by {
        if child_matches(cs[j], w) {
            lemma_match_head(cs[j], w);
            assert(cs[j].label@[0] != cs[i].label@[0]);
        }
    }
    if child_matches(cs[i], w) {
        assert(has_via(cs, w));
    }
}

/// If no child's label starts with the suffix's first character, no child
/// matches the suffix at all.
proof fn lemma_no_match(cs: Seq<Node>, w: Seq<char>)
    requires
        w.len() > 0,
        forall|j: int|
            0 <= j < cs.len() ==> (#[trigger] cs[j]).label@.len() == 0 || cs[j].label@[0] != w[0],
    ensures
        !has_via(cs, w),
{
    assert forall|j: int| 0 <= j < cs.len() implies !child_matches(#[trigger] cs[j], w) by {
        if child_matches(cs[j], w) {
            lemma_match_head(cs[j], w);
        }
    }
}

/// Whether a suffix is stored below a node depends only on the node's
/// terminal flag and children, never on its own label.
proof fn lemma_has_word_same_shape(c1: Node, c2: Node)
    requires
        c1.terminal == c2.terminal,
        c1.children@ == c2.children@,
    ensures
        forall|w: Seq<char>| has_word(c1, w) == has_word(c2, w),
{
    assert forall|w: Seq<char>| has_word(c1, w) == has_word(c2, w) by {
        if w.len() != 0 {
            assert(has_via(c1.children@, w) == has_via(c2.children@, w));
        }
    }
}

/// Replacing the child at one slot: a suffix is stored via the new sequence
/// exactly when it is stored via another slot of the old one, or via the
/// replacement.
proof fn lemma_has_via_update(cs: Seq<Node>, i: int, nc: Node, w: Seq<char>)
    requires
        0 <= i < cs.len(),
    ensures
        has_via(cs.update(i, nc), w) <==> ((exists|j: int|
            0 <= j < cs.len() && j != i && child_matches(#[trigger] cs[j], w))
            || child_matches(nc, w)),
{
    let cs2 = cs.update(i, nc);
    if has_via(cs2, w) {
        let j = choose|j: int| 0 <= j < cs2.len() && child_matches(#[trigger] cs2[j], w);
        if j != i {
            assert(child_matches(cs[j], w));
        }
    }
    if exists|j: int| 0 <= j < cs.len() && j != i && child_matches(#[trigger] cs[j], w) {
        let j = choose|j: int| 0 <= j < cs.len() && j != i && child_matches(#[trigger] cs[j], w);
        assert(child_matches(cs2[j], w));
        assert(has_via(cs2, w));
    }
    if child_matches(nc, w) {
        assert(child_matches(cs2[i], w));
        assert(has_via(cs2, w));
    }
}

/// Appending a child: a suffix is stored via the extended sequence exactly
/// when it was stored before or the new child matches it.
proof fn lemma_has_via_push(cs: Seq<Node>, nc: Node, w: Seq<char>)
    ensures
        has_via(cs.push(nc), w) <==> (has_via(cs, w) || child_matches(nc, w)),
{
    let cs2 = cs.push(nc);
    if has_via(cs2, w) {
        let j = choose|j: int| 0 <= j < cs2.len() && child_matches(#[trigger] cs2[j], w);
        if j < cs.len() {
            assert(child_matches(cs[j], w));
        } else {
            assert(cs2[j] == nc);
        }
    }
    if has_via(cs, w) {
        let j = choose|j: int| 0 <= j < cs.len() && child_matches(#[trigger] cs[j], w);
        assert(child_matches(cs2[j], w));
        assert(has_via(cs2, w));
    }
    if child_matches(nc, w) {
        assert(child_matches(cs2[cs.len() as int], w));
        assert(has_via(cs2, w));
    }
}

/// Removing the child at one slot: a suffix is stored via the shortened
/// sequence exactly when it was stored via some other slot.
proof fn lemma_has_via_remove(cs: Seq<Node>, i: int, w: Seq<char>)
    requires
        0 <= i < cs.len(),
    ensures
        has_via(cs.remove(i), w) <==> (exists|j: int|
            0 <= j < cs.len() && j != i && child_matches(#[trigger] cs[j], w)),
{
    let cs2 = cs.remove(i);
    if has_via(cs2, w) {
        let j = choose|j: int| 0 <= j < cs2.len() && child_matches(#[trigger] cs2[j], w);
        if j < i {
            assert(child_matches(cs[j], w));
        } else {
            assert(cs2[j] == cs[j + 1]);
            assert(child_matches(cs[j + 1], w));
        }
    }
    if exists|j: int| 0 <= j < cs.len() && j != i && child_matches(#[trigger] cs[j], w) {
        let j = choose|j: int| 0 <= j < cs.len() && j != i && child_matches(#[trigger] cs[j], w);
        if j < i {
            assert(child_matches(cs2[j], w));
        } else {
            assert(cs2[j - 1] == cs[j]);
            assert(child_matches(cs2[j - 1], w));
        }
        assert(has_via(cs2, w));
    }
}

/// Membership via a sequence of children, split at one slot: either that
/// slot matches, or some other one does.
proof fn lemma_has_via_split(cs: Seq<Node>, i: int, w: Seq<char>)
    requires
        0 <= i < cs.len(),
    ensures
        has_via(cs, w) <==> ((exists|j: int|
            0 <= j < cs.len() && j != i && child_matches(#[trigger] cs[j], w))
            || child_matches(cs[i], w)),
{
    if has_via(cs, w) {
        let j = choose|j: int| 0 <= j < cs.len() && child_matches(#[trigger] cs[j], w);
        assert(j == i || (0 <= j < cs.len() && j != i && child_matches(cs[j], w)));
    }
    if exists|j: int| 0 <= j < cs.len() && j != i && child_matches(#[trigger] cs[j], w) {
        let j = choose|j: int| 0 <= j < cs.len() && j != i && child_matches(#[trigger] cs[j], w);
        assert(has_via(cs, w));
    }
    if child_matches(cs[i], w) {
        assert(has_via(cs, w));
    }
}

/// A terminal leaf matches exactly its own label.
proof fn lemma_leaf_matches(leaf: Node, u: Seq<char>)
    requires
        leaf.terminal,
        leaf.children@.len() == 0,
        leaf.label@.len() > 0,
    ensures
        child_matches(leaf, u) <==> u == leaf.label@,
{
    let m = leaf.label@.len() as int;
    if child_matches(leaf, u) {
        if u.skip(m).len() != 0 {
            assert(!has_via(leaf.children@, u.skip(m)));
            assert(false);
        }
        assert(u =~= leaf.label@);
    }
    if u == leaf.label@ {
        assert(u.take(m) =~= leaf.label@);
        assert(u.skip(m).len() == 0);
        assert(child_matches(leaf, u));
    }
}

/// Two equal prefixes and two equal remainders make equal sequences.
proof fn lemma_take_skip_parts(u: Seq<char>, v: Seq<char>, m: int)
    requires
        0 <= m <= u.len(),
        m <= v.len(),
        u.take(m) == v.take(m),
        u.skip(m) == v.skip(m),
    ensures
        u == v,
{
    assert(u.skip(m).len() == u.len() - m);
    assert(v.skip(m).len() == v.len() - m);
    assert(u =~= v) by {
        assert forall|x: int| 0 <= x < u.len() implies u[x] == v[x] by {
            if x < m {
                assert(u.take(m)[x] == u[x]);
                assert(v.take(m)[x] == v[x]);
            } else {
                assert(u.skip(m)[x - m] == u[x]);
                assert(v.skip(m)[x - m] == v[x]);
            }
        }
    }
}

/// Well-formedness of the subtree below a node also depends only on the
/// children, never on the node's own label or terminal flag.
proof fn lemma_node_wf_same_children(c1: Node, c2: Node)
    requires
        c1.children@ == c2.children@,
    ensures
        node_wf(c1) == node_wf(c2),
{
    if node_wf(c1) {
        assert forall|i: int| 0 <= i < c2.children@.len() implies child_ok(
            #[trigger] c2.children@[i],
        ) && node_wf(c2.children@[i]) by {
            assert(c2.children@[i] == c1.children@[i]);
        }
        assert(node_wf(c2));
    }
    if node_wf(c2) {
        assert forall|i: int| 0 <= i < c1.children@.len() implies child_ok(
            #[trigger] c1.children@[i],
        ) && node_wf(c1.children@[i]) by {
            assert(c1.children@[i] == c2.children@[i]);
        }
        assert(node_wf(c1));
    }
}

/// Splitting a match at `k` characters into the label: a node matches a
/// suffix exactly when the suffix starts with the first `k` characters of
/// the label and the relabeled remainder node matches the rest.
proof fn lemma_match_through(c: Node, back: Node, k: int, u: Seq<char>)
    requires
        1 <= k < c.label@.len(),
        back.label@ == c.label@.skip(k),
        back.terminal == c.terminal,
        back.children@ == c.children@,
    ensures
        child_matches(c, u) <==> (k <= u.len() && u.take(k) == c.label@.take(k)
            && child_matches(back, u.skip(k))),
{
    let m = c.label@.len() as int;
    lemma_has_word_same_shape(c, back);
    if child_matches(c, u) {
        assert(u.take(k) =~= c.label@.take(k)) by {
            assert forall|x: int| 0 <= x < k implies u[x] == c.label@[x] by {
                assert(u.take(m)[x] == c.label@[x]);
            }
        }
        assert(u.skip(k).take(m - k) =~= c.label@.skip(k)) by {
            assert forall|x: int| 0 <= x < m - k implies u.skip(k)[x] == c.label@.skip(k)[x] by {
                assert(u.take(m)[k + x] == c.label@[k + x]);
            }
        }
        lemma_skip_skip(u, k, m - k);
        assert(child_matches(back, u.skip(k)));
    }
    if k <= u.len() && u.take(k) == c.label@.take(k) && child_matches(back, u.skip(k)) {
        assert(m - k <= u.skip(k).len());
        assert(u.take(m) =~= c.label@) by {
            assert forall|x: int| 0 <= x < m implies u[x] == c.label@[x] by {
                if x < k {
                    assert(u.take(k)[x] == c.label@.take(k)[x]);
                } else {
                    assert(u.skip(k).take(m - k)[x - k] == c.label@.skip(k)[x - k]);
                }
            }
        }
        lemma_skip_skip(u, k, m - k);
        assert(child_matches(c, u));
    }
}

/// Replacing one child with a well-formed child whose label keeps the same
/// first character preserves well-formedness of the parent's subtree.
proof fn lemma_wf_update(n0: Node, n1: Node, i: int, c2: Node)
    requires
        node_wf(n0),
        0 <= i < n0.children@.len(),
        n1.children@ == n0.children@.update(i, c2),
        c2.label@.len() > 0,
        c2.label@[0] == n0.children@[i].label@[0],
        child_ok(c2),
        node_wf(c2),
    ensures
        node_wf(n1),
{
    let cs = n1.children@;
    assert forall|a: int, b: int|
        0 <= a < cs.len() && 0 <= b < cs.len() && a != b implies #[trigger] cs[a].label@[0]
        != #[trigger] cs[b].label@[0] by {
        assert(n0.children@[a].label@[0] != n0.children@[b].label@[0]);
    }
    assert forall|a: int| 0 <= a < cs.len() implies child_ok(#[trigger] cs[a]) && node_wf(
        cs[a],
    ) by {
        if a != i {
            assert(cs[a] == n0.children@[a]);
        }
    }
    assert(node_wf(n1));
}

/// Lifting a one-child replacement to the stored-word set of the parent:
/// if the new child matches exactly what the old one matched plus `rest`,
/// the parent stores exactly what it stored plus `rest`.
proof fn lemma_insert_step(n0: Node, n1: Node, i: int, c2: Node, rest: Seq<char>)
    requires
        0 <= i < n0.children@.len(),
        n1.children@ == n0.children@.update(i, c2),
        n1.terminal == n0.terminal,
        rest.len() > 0,
        forall|u: Seq<char>|
            child_matches(c2, u) <==> (child_matches(n0.children@[i], u) || u == rest),
    ensures
        forall|u: Seq<char>| #[trigger] has_word(n1, u) <==> (has_word(n0, u) || u == rest),
{
    assert forall|u: Seq<char>|
        #[trigger] has_word(n1, u) <==> (has_word(n0, u) || u == rest) by {
        if u.len() > 0 {
            lemma_has_via_update(n0.children@, i, c2, u);
            lemma_has_via_split(n0.children@, i, u);
            assert(has_via(n1.children@, u) == has_via(n0.children@.update(i, c2), u));
        }
    }
}

/// Dropping one child preserves well-formedness of the parent's subtree.
proof fn lemma_wf_remove(n0: Node, n1: Node, i: int)
    requires
        node_wf(n0),
        0 <= i < n0.children@.len(),
        n1.children@ == n0.children@.remove(i),
    ensures
        node_wf(n1),
{
    let cs = n1.children@;
    let cs0 = n0.children@;
    assert forall|a: int, b: int|
        0 <= a < cs.len() && 0 <= b < cs.len() && a != b implies #[trigger] cs[a].label@[0]
        != #[trigger] cs[b].label@[0] by {
        let a0: int = if a < i { a } else { a + 1 };
        let b0: int = if b < i { b } else { b + 1 };
        assert(cs[a] == cs0[a0]);
        assert(cs[b] == cs0[b0]);
        assert(cs0[a0].label@[0] != cs0[b0].label@[0]);
    }
    assert forall|a: int| 0 <= a < cs.len() implies child_ok(#[trigger] cs[a]) && node_wf(
        cs[a],
    ) by {
        let a0: int = if a < i { a } else { a + 1 };
        assert(cs[a] == cs0[a0]);
    }
    assert(node_wf(n1));
}

/// Lifting a one-child replacement to the stored-word set of the parent:
/// if the new child matches exactly what the old one matched except `rest`,
/// the parent stores exactly what it stored except `rest`.
proof fn lemma_delete_step(n0: Node, n1: Node, i: int, c2: Node, rest: Seq<char>)
    requires
        0 <= i < n0.children@.len(),
        distinct_heads(n0.children@),
        n0.children@[i].label@.len() > 0,
        rest.len() > 0,
        n0.children@[i].label@[0] == rest[0],
        n1.children@ == n0.children@.update(i, c2),
        n1.terminal == n0.terminal,
        forall|u: Seq<char>|
            child_matches(c2, u) <==> (child_matches(n0.children@[i], u) && u != rest),
    ensures
        forall|u: Seq<char>| #[trigger] has_word(n1, u) <==> (has_word(n0, u) && u != rest),
{
    assert forall|u: Seq<char>|
        #[trigger] has_word(n1, u) <==> (has_word(n0, u) && u != rest) by {
        if u.len() > 0 {
            lemma_has_via_update(n0.children@, i, c2, u);
            lemma_has_via_split(n0.children@, i, u);
            assert(has_via(n1.children@, u) == has_via(n0.children@.update(i, c2), u));
            if u == rest {
                lemma_match_unique(n0.children@, rest, i);
            }
        }
    }
}

/// Copies `src[from..to]` into a fresh vector.
fn copy_range(src: &Vec<char>, from: usize, to: usize) -> (v: Vec<char>)
    requires
        from <= to <= src@.len(),
    ensures
        v@ == src@.subrange(from as int, to as int),
{
    let mut v: Vec<char> = Vec::new();
    let mut i: usize = from;
    while i < to
        invariant
            from <= i <= to <= src@.len(),
            v@ == src@.subrange(from as int, i as int),
        decreases to - i,
    {
        v.push(src[i]);
        i = i + 1;
        proof {
            assert(v@ =~= src@.subrange(from as int, i as int));
        }
    }
    v
}

/// Finds the child whose label starts with `h`; under prefix-free siblings
/// there is at most one.
fn find_child(children: &Vec<Node>, h: char) -> (r: Option<usize>)
    ensures
        match r {
            Some(i) => i < children@.len() && children@[i as int].label@.len() > 0
                && children@[i as int].label@[0] == h,
            None => forall|j: int|
                0 <= j < children@.len() ==> (#[trigger] children@[j]).label@.len() == 0
                    || children@[j].label@[0] != h,
        },
{
    let mut i: usize = 0;
    while i < children.len()
        invariant
            i <= children@.len(),
            forall|j: int|
                0 <= j < i ==> (#[trigger] children@[j]).label@.len() == 0
                    || children@[j].label@[0] != h,
        decreases children@.len() - i,
    {
        let c = &children[i];
        if c.label.len() > 0 && c.label[0] == h {
            return Some(i);
        }
        i = i + 1;
    }
    None
}

/// Membership of the suffix of `w` from `pos` on in the subtree below `n`.
fn search_at(n: &Node, w: &Vec<char>, pos: usize) -> (r: bool)
    requires
        node_wf(*n),
        pos <= w@.len(),
    ensures
        r == has_word(*n, w@.skip(pos as int)),
    decreases w@.len() - pos,
{
    let ghost rest = w@.skip(pos as int);
    if pos == w.len() {
        return n.terminal;
    }
    proof {
        assert(rest[0] == w@[pos as int]);
    }
    match find_child(&n.children, w[pos]) {
        None => {
            proof {
                lemma_no_match(n.children@, rest);
            }
            false
        }
        Some(i) => {
            let m = n.children[i].label.len();
            let k = common_len_from(w, pos, &n.children[i].label);
            proof {
                lemma_common_prefix_len(rest, n.children@[i as int].label@);
                lemma_match_unique(n.children@, rest, i as int);
            }
            if k == m {
                proof {
                    assert(n.children@[i as int].label@.take(m as int) =~= n.children@[
                        i as int
                    ].label@);
                    assert(rest.take(m as int) == n.children@[i as int].label@);
                    lemma_skip_skip(w@, pos as int, m as int);
                }
                let r = search_at(&n.children[i], w, pos + m);
                proof {
                    assert(child_matches(n.children@[i as int], rest) == r);
                }
                r
            } else {
                proof {
                    if child_matches(n.children@[i as int], rest) {
                        assert(n.children@[i as int].label@.take(m as int) =~= n.children@[
                            i as int
                        ].label@);
                        lemma_common_prefix_len_at_least(
                            rest,
                            n.children@[i as int].label@,
                            m as int,
                        );
                    }
                }
                false
            }
        }
    }
}

/// Inserts the suffix of `w` from `pos` on into the subtree below `n`:
/// a fresh leaf when nothing matches, a descent when a whole child label
/// matches, and an edge split when the suffix diverges inside a label.
fn insert_at(n: &mut Node, w: &Vec<char>, pos: usize)
    requires
        node_wf(*old(n)),
        pos < w@.len(),
    ensures
        node_wf(*final(n)),
        final(n).label@ == old(n).label@,
        final(n).terminal == old(n).terminal,
        final(n).children@.len() >= old(n).children@.len(),
        forall|u: Seq<char>|
            #[trigger] has_word(*final(n), u) <==> (has_word(*old(n), u) || u == w@.skip(
                pos as int,
            )),
    decreases w@.len() - pos,
{
    let ghost n0 = *n;
    let ghost rest = w@.skip(pos as int);
    proof {
        assert(rest[0] == w@[pos as int]);
    }
    let wlen = w.len();
    match find_child(&n.children, w[pos]) {
        None => {
            // no label shares even a first character: attach a fresh leaf
            let lab = copy_range(w, pos, wlen);
            proof {
                assert(lab@ =~= rest);
            }
            let leaf = Node { label: lab, terminal: true, children: Vec::new() };
            let ghost leafg = leaf;
            n.children.push(leaf);
            proof {
                assert forall|u: Seq<char>|
                    #[trigger] has_word(*n, u) <==> (has_word(n0, u) || u == rest) by {
                    lemma_leaf_matches(leafg, u);
                    if u.len() > 0 {
                        lemma_has_via_push(n0.children@, leafg, u);
                    }
                }
                let cs = n.children@;
                assert forall|a: int, b: int|
                    0 <= a < cs.len() && 0 <= b < cs.len() && a != b implies #[trigger] cs[
                    a].label@[0] != #[trigger] cs[b].label@[0] by {
                    if a < n0.children@.len() && b < n0.children@.len() {
                        assert(cs[a] == n0.children@[a]);
                        assert(cs[b] == n0.children@[b]);
                        assert(n0.children@[a].label@[0] != n0.children@[b].label@[0]);
                    } else if a < n0.children@.len() {
                        assert(child_ok(n0.children@[a]));
                        assert(cs[b] == leafg);
                    } else {
                        assert(child_ok(n0.children@[b]));
                        assert(cs[a] == leafg);
                    }
                }
                assert forall|a: int| 0 <= a < cs.len() implies child_ok(#[trigger] cs[a])
                    && node_wf(cs[a]) by {
                    if a < n0.children@.len() {
                        assert(cs[a] == n0.children@[a]);
                    } else {
                        assert(cs[a] == leafg);
                        assert(distinct_heads(leafg.children@));
                        assert(node_wf(leafg));
                    }
                }
                assert(node_wf(*n));
            }
        },
        Some(i) => {
            let ghost c1 = n0.children@[i as int];
            let m = n.children[i].label.len();
            let k = common_len_from(w, pos, &n.children[i].label);
            proof {
                lemma_common_prefix_len(rest, c1.label@);
                assert(rest.take(1) =~= c1.label@.take(1));
                lemma_common_prefix_len_at_least(rest, c1.label@, 1);
                assert(child_ok(n0.children@[i as int]));
            }
            if k == m {
                proof {
                    assert(c1.label@.take(m as int) =~= c1.label@);
                    assert(rest.take(m as int) == c1.label@);
                }
                if pos + m == wlen {
                    // the suffix is exactly the child's label: mark it terminal
                    let mut c = n.children.remove(i);
                    c.terminal = true;
                    let ghost c2 = c;
                    n.children.insert(i, c);
                    proof {
                        assert(n.children@ =~= n0.children@.update(i as int, c2));
                        assert(rest.take(m as int) =~= rest);
                        assert(rest == c1.label@);
                        assert forall|u: Seq<char>|
                            child_matches(c2, u) <==> (child_matches(c1, u) || u == rest) by {
                            let mi = m as int;
                            if child_matches(c2, u) {
                                if u.skip(mi).len() == 0 {
                                    assert(u.take(mi) =~= u);
                                    assert(u == rest);
                                } else {
                                    assert(has_via(c2.children@, u.skip(mi)));
                                    assert(child_matches(c1, u));
                                }
                            }
                            if child_matches(c1, u) {
                                if u.skip(mi).len() == 0 {
                                    assert(has_word(c2, u.skip(mi)));
                                } else {
                                    assert(has_via(c1.children@, u.skip(mi)));
                                }
                                assert(child_matches(c2, u));
                            }
                            if u == rest {
                                assert(u.take(mi) =~= u);
                                assert(u.skip(mi).len() == 0);
                                assert(has_word(c2, u.skip(mi)));
                                assert(child_matches(c2, u));
                            }
                        }
                        lemma_insert_step(n0, *n, i as int, c2, rest);
                        lemma_node_wf_same_children(c1, c2);
                        lemma_wf_update(n0, *n, i as int, c2);
                    }
                } else {
                    // the child's label is a strict prefix of the suffix: descend
                    let mut c = n.children.remove(i);
                    insert_at(&mut c, w, pos + m);
                    let ghost c2 = c;
                    n.children.insert(i, c);
                    proof {
                        assert(n.children@ =~= n0.children@.update(i as int, c2));
                        lemma_skip_skip(w@, pos as int, m as int);
                        let ghost rest2 = w@.skip(pos as int + m as int);
                        assert(rest.skip(m as int) == rest2);
                        assert forall|u: Seq<char>|
                            child_matches(c2, u) <==> (child_matches(c1, u) || u == rest) by {
                            let mi = m as int;
                            if child_matches(c2, u) {
                                assert(has_word(c2, u.skip(mi)));
                                if has_word(c1, u.skip(mi)) {
                                    assert(child_matches(c1, u));
                                } else {
                                    assert(u.skip(mi) == rest2);
                                    lemma_take_skip_parts(u, rest, mi);
                                    assert(u == rest);
                                }
                            }
                            if child_matches(c1, u) {
                                assert(has_word(c2, u.skip(mi)));
                                assert(child_matches(c2, u));
                            }
                            if u == rest {
                                assert(has_word(c2, rest.skip(mi)));
                                assert(child_matches(c2, u));
                            }
                        }
                        lemma_insert_step(n0, *n, i as int, c2, rest);
                        assert(child_ok(c2));
                        lemma_wf_update(n0, *n, i as int, c2);
                    }
                }
            } else {
                // the suffix diverges inside the child's label: split the edge
                proof {
                    assert(k < m);
                }
                let mut c = n.children.remove(i);
                let mid_label = copy_range(&c.label, 0, k);
                let back_label = copy_range(&c.label, k, m);
                let is_term = k == wlen - pos;
                let back = Node { label: back_label, terminal: c.terminal, children: c.children };
                let ghost backg = back;
                let ghost ki = k as int;
                let ghost mi = m as int;
                proof {
                    assert(backg.label@ =~= c1.label@.skip(ki));
                    assert(mid_label@ =~= c1.label@.take(ki));
                    assert(rest.take(ki) == c1.label@.take(ki));
                    lemma_node_wf_same_children(c1, backg);
                }
                let mut mid_children: Vec<Node> = Vec::new();
                mid_children.push(back);
                if is_term {
                    let mid = Node { label: mid_label, terminal: true, children: mid_children };
                    let ghost c2 = mid;
                    n.children.insert(i, mid);
                    proof {
                        assert(n.children@ =~= n0.children@.update(i as int, c2));
                        assert(c2.children@ =~= seq![backg]);
                        assert(rest.take(ki) =~= rest);
                        assert(rest == c2.label@);
                        assert forall|u: Seq<char>|
                            child_matches(c2, u) <==> (child_matches(c1, u) || u == rest) by {
                            lemma_match_through(c1, backg, ki, u);
                            if child_matches(c2, u) {
                                if u.skip(ki).len() == 0 {
                                    assert(u.take(ki) =~= u);
                                    assert(u == rest);
                                } else {
                                    assert(has_via(c2.children@, u.skip(ki)));
                                    let j = choose|j: int|
                                        0 <= j < c2.children@.len() && child_matches(
                                            #[trigger] c2.children@[j],
                                            u.skip(ki),
                                        );
                                    assert(c2.children@[j] == backg);
                                    assert(child_matches(c1, u));
                                }
                            }
                            if child_matches(c1, u) {
                                assert(child_matches(c2.children@[0], u.skip(ki)));
                                assert(has_via(c2.children@, u.skip(ki)));
                                assert(child_matches(c2, u));
                            }
                            if u == rest {
                                assert(u.take(ki) =~= u);
                                assert(u.skip(ki).len() == 0);
                                assert(has_word(c2, u.skip(ki)));
                                assert(child_matches(c2, u));
                            }
                        }
                        lemma_insert_step(n0, *n, i as int, c2, rest);
                        assert(child_ok(backg));
                        assert(distinct_heads(c2.children@));
                        assert(node_wf(c2)) by {
                            assert forall|a: int| 0 <= a < c2.children@.len() implies child_ok(
                                #[trigger] c2.children@[a],
                            ) && node_wf(c2.children@[a]) by {
                                assert(c2.children@[a] == backg);
                            }
                        }
                        assert(c2.label@[0] == c1.label@[0]);
                        lemma_wf_update(n0, *n, i as int, c2);
                    }
                } else {
                    let leaf_label = copy_range(w, pos + k, wlen);
                    let leaf = Node { label: leaf_label, terminal: true, children: Vec::new() };
                    let ghost leafg = leaf;
                    mid_children.push(leaf);
                    let mid = Node { label: mid_label, terminal: false, children: mid_children };
                    let ghost c2 = mid;
                    n.children.insert(i, mid);
                    proof {
                        assert(n.children@ =~= n0.children@.update(i as int, c2));
                        assert(c2.children@ =~= seq![backg, leafg]);
                        assert(k < rest.len());
                        assert(leafg.label@ =~= rest.skip(ki));
                        assert forall|u: Seq<char>|
                            child_matches(c2, u) <==> (child_matches(c1, u) || u == rest) by {
                            lemma_match_through(c1, backg, ki, u);
                            lemma_leaf_matches(leafg, u.skip(ki));
                            if child_matches(c2, u) {
                                assert(u.skip(ki).len() > 0);
                                assert(has_via(c2.children@, u.skip(ki)));
                                let j = choose|j: int|
                                    0 <= j < c2.children@.len() && child_matches(
                                        #[trigger] c2.children@[j],
                                        u.skip(ki),
                                    );
                                if j == 0 {
                                    assert(child_matches(c1, u));
                                } else {
                                    assert(c2.children@[j] == leafg);
                                    assert(u.skip(ki) == rest.skip(ki));
                                    lemma_take_skip_parts(u, rest, ki);
                                    assert(u == rest);
                                }
                            }
                            if child_matches(c1, u) {
                                assert(child_matches(c2.children@[0], u.skip(ki)));
                                assert(has_via(c2.children@, u.skip(ki)));
                                assert(child_matches(c2, u));
                            }
                            if u == rest {
                                assert(u.skip(ki) == leafg.label@);
                                assert(child_matches(c2.children@[1], u.skip(ki)));
                                assert(has_via(c2.children@, u.skip(ki)));
                                assert(child_matches(c2, u));
                            }
                        }
                        lemma_insert_step(n0, *n, i as int, c2, rest);
                        assert(child_ok(backg));
                        assert(backg.label@[0] == c1.label@[ki]);
                        assert(leafg.label@[0] == rest[ki]);
                        assert(distinct_heads(c2.children@)) by {
                            assert(rest[ki] != c1.label@[ki]);
                        }
                        assert(node_wf(c2)) by {
                            assert(distinct_heads(leafg.children@));
                            assert(node_wf(leafg));
                            assert forall|a: int| 0 <= a < c2.children@.len() implies child_ok(
                                #[trigger] c2.children@[a],
                            ) && node_wf(c2.children@[a]) by {
                                if a == 0 {
                                    assert(c2.children@[a] == backg);
                                } else {
                                    assert(c2.children@[a] == leafg);
                                }
                            }
                        }
                        assert(c2.label@[0] == c1.label@[0]);
                        lemma_wf_update(n0, *n, i as int, c2);
                    }
                }
            }
        },
    }
}

/// Removes the suffix of `w` from `pos` on from the subtree below `n`.
/// A child whose word set empties out is dropped, and a kept child left
/// non-terminal with a single grandchild is compressed: the grandchild moves
/// up into the child's slot with the two edge labels concatenated. Returns
/// true when `n` itself ended up childless and non-terminal, so that the
/// caller must drop `n` in turn.
fn delete_at(n: &mut Node, w: &Vec<char>, pos: usize) -> (pruned: bool)
    requires
        node_wf(*old(n)),
        pos <= w@.len(),
    ensures
        node_wf(*final(n)),
        final(n).label@ == old(n).label@,
        pos < w@.len() ==> final(n).terminal == old(n).terminal,
        forall|u: Seq<char>|
            #[trigger] has_word(*final(n), u) <==> (has_word(*old(n), u) && u != w@.skip(
                pos as int,
            )),
        pruned <==> (!final(n).terminal && final(n).children@.len() == 0 && has_word(
            *old(n),
            w@.skip(pos as int),
        )),
        !has_word(*old(n), w@.skip(pos as int)) ==> (final(n).terminal == old(n).terminal
            && final(n).children@.len() == old(n).children@.len()),
    decreases w@.len() - pos,
{
    let ghost n0 = *n;
    let ghost rest = w@.skip(pos as int);
    if pos == w.len() {
        proof {
            assert(rest.len() == 0);
        }
        if n.terminal {
            n.terminal = false;
            proof {
                lemma_node_wf_same_children(n0, *n);
                assert forall|u: Seq<char>|
                    #[trigger] has_word(*n, u) <==> (has_word(n0, u) && u != rest) by {
                    if u.len() > 0 {
                        assert(has_via(n.children@, u) == has_via(n0.children@, u));
                    } else {
                        assert(u =~= rest);
                    }
                }
            }
            return n.children.len() == 0;
        } else {
            proof {
                assert(!has_word(n0, rest));
                assert forall|u: Seq<char>|
                    #[trigger] has_word(*n, u) <==> (has_word(n0, u) && u != rest) by {}
            }
            return false;
        }
    }
    proof {
        assert(rest[0] == w@[pos as int]);
    }
    match find_child(&n.children, w[pos]) {
        None => {
            // no label starts with the suffix's first character: word absent
            proof {
                lemma_no_match(n.children@, rest);
                assert(!has_word(n0, rest));
                assert forall|u: Seq<char>|
                    #[trigger] has_word(*n, u) <==> (has_word(n0, u) && u != rest) by {}
            }
            false
        },
        Some(i) => {
            let ghost c1 = n0.children@[i as int];
            let m = n.children[i].label.len();
            let k = common_len_from(w, pos, &n.children[i].label);
            proof {
                lemma_common_prefix_len(rest, c1.label@);
                assert(child_ok(n0.children@[i as int]));
                lemma_match_unique(n0.children@, rest, i as int);
            }
            if k < m {
                // the child's label is not a prefix of the suffix: word absent
                proof {
                    if child_matches(c1, rest) {
                        assert(c1.label@.take(m as int) =~= c1.label@);
                        lemma_common_prefix_len_at_least(rest, c1.label@, m as int);
                    }
                    assert(!has_word(n0, rest));
                    assert forall|u: Seq<char>|
                        #[trigger] has_word(*n, u) <==> (has_word(n0, u) && u != rest) by {}
                }
                false
            } else {
                // the whole label matches: delete the remainder below the child
                proof {
                    assert(c1.label@.take(m as int) =~= c1.label@);
                    assert(rest.take(m as int) == c1.label@);
                    lemma_skip_skip(w@, pos as int, m as int);
                }
                let ghost rest2 = w@.skip(pos as int + m as int);
                let mut c = n.children.remove(i);
                let pruned_child = delete_at(&mut c, w, pos + m);
                let ghost c2 = c;
                if pruned_child {
                    // the child's subtree emptied out: drop it
                    proof {
                        assert(n.children@ == n0.children@.remove(i as int));
                        lemma_wf_remove(n0, *n, i as int);
                        assert forall|v: Seq<char>| !has_word(c2, v) by {
                            if v.len() > 0 {
                                assert(!has_via(c2.children@, v));
                            }
                        }
                        assert(has_word(c1, rest2));
                        assert(child_matches(c1, rest));
                        assert forall|u: Seq<char>|
                            child_matches(c1, u) implies u == rest by {
                            assert(has_word(c2, u.skip(m as int)) <==> (has_word(
                                c1,
                                u.skip(m as int),
                            ) && u.skip(m as int) != rest2));
                            assert(u.skip(m as int) == rest2);
                            lemma_take_skip_parts(u, rest, m as int);
                        }
                        assert forall|u: Seq<char>|
                            #[trigger] has_word(*n, u) <==> (has_word(n0, u) && u != rest) by {
                            if u.len() > 0 {
                                lemma_has_via_remove(n0.children@, i as int, u);
                                lemma_has_via_split(n0.children@, i as int, u);
                                if u == rest {
                                    assert(!has_via(n.children@, u));
                                }
                            }
                        }
                    }
                    n.children.len() == 0 && !n.terminal
                } else {
                    let needs_merge = !c.terminal && c.children.len() == 1;
                    if needs_merge {
                        // compress: pull the single grandchild up into `c`'s
                        // slot, concatenating the edge labels
                        let mut cc = c;
                        let g = cc.children.remove(0);
                        let ghost gg = g;
                        let mut nl = cc.label;
                        let mut gl = g.label;
                        nl.append(&mut gl);
                        let merged = Node { label: nl, terminal: g.terminal, children: g.children };
                        let ghost mg = merged;
                        n.children.insert(i, merged);
                        proof {
                            assert(gg == c2.children@[0]);
                            assert(child_ok(c2.children@[0]));
                            assert(node_wf(c2.children@[0]));
                            assert(mg.label@ == c2.label@ + gg.label@);
                            let mc = c2.label@.len() as int;
                            let mt = mg.label@.len() as int;
                            assert(gg.label@ =~= mg.label@.skip(mc));
                            assert(c2.label@ =~= mg.label@.take(mc));
                            lemma_node_wf_same_children(gg, mg);
                            lemma_has_word_same_shape(gg, mg);
                            // a match through the merged node is a match
                            // through the kept child
                            assert forall|u: Seq<char>|
                                child_matches(mg, u) <==> child_matches(c2, u) by {
                                lemma_match_through(mg, gg, mc, u);
                                if mc <= u.len() && u.take(mc) == c2.label@ {
                                    if u.skip(mc).len() == 0 {
                                        assert(!child_matches(gg, u.skip(mc)));
                                        assert(!has_word(c2, u.skip(mc)));
                                    } else {
                                        assert(has_via(c2.children@, u.skip(mc)) <==> child_matches(
                                            gg,
                                            u.skip(mc),
                                        )) by {
                                            if has_via(c2.children@, u.skip(mc)) {
                                                let j = choose|j: int|
                                                    0 <= j < c2.children@.len() && child_matches(
                                                        #[trigger] c2.children@[j],
                                                        u.skip(mc),
                                                    );
                                                assert(c2.children@[j] == gg);
                                            }
                                            if child_matches(gg, u.skip(mc)) {
                                                assert(child_matches(c2.children@[0], u.skip(mc)));
                                                assert(has_via(c2.children@, u.skip(mc)));
                                            }
                                        }
                                    }
                                }
                            }
                            assert(n.children@ =~= n0.children@.update(i as int, mg));
                            assert forall|u: Seq<char>|
                                child_matches(mg, u) <==> (child_matches(c1, u) && u != rest) by {
                                assert(child_matches(c2, u) <==> (child_matches(c1, u) && u
                                    != rest)) by {
                                    if child_matches(c2, u) {
                                        assert(has_word(c2, u.skip(m as int)));
                                        if u == rest {
                                            assert(u.skip(m as int) == rest2);
                                            assert(false);
                                        }
                                        assert(child_matches(c1, u));
                                    }
                                    if child_matches(c1, u) && u != rest {
                                        assert(has_word(c1, u.skip(m as int)));
                                        if u.skip(m as int) == rest2 {
                                            lemma_take_skip_parts(u, rest, m as int);
                                            assert(false);
                                        }
                                        assert(has_word(c2, u.skip(m as int)));
                                        assert(child_matches(c2, u));
                                    }
                                }
                            }
                            lemma_delete_step(n0, *n, i as int, mg, rest);
                            assert(child_ok(mg));
                            assert(mg.label@[0] == c1.label@[0]);
                            lemma_wf_update(n0, *n, i as int, mg);
                        }
                        false
                    } else {
                        n.children.insert(i, c);
                        proof {
                            assert(n.children@ =~= n0.children@.update(i as int, c2));
                            assert forall|u: Seq<char>|
                                child_matches(c2, u) <==> (child_matches(c1, u) && u != rest) by {
                                if child_matches(c2, u) {
                                    assert(has_word(c2, u.skip(m as int)));
                                    if u == rest {
                                        assert(u.skip(m as int) == rest2);
                                        assert(false);
                                    }
                                    assert(child_matches(c1, u));
                                }
                                if child_matches(c1, u) && u != rest {
                                    assert(has_word(c1, u.skip(m as int)));
                                    if u.skip(m as int) == rest2 {
                                        lemma_take_skip_parts(u, rest, m as int);
                                        assert(false);
                                    }
                                    assert(has_word(c2, u.skip(m as int)));
                                    assert(child_matches(c2, u));
                                }
                            }
                            lemma_delete_step(n0, *n, i as int, c2, rest);
                            assert(child_ok(c2)) by {
                                if !has_word(c1, rest2) {
                                    assert(c2.terminal == c1.terminal);
                                    assert(c2.children@.len() == c1.children@.len());
                                }
                            }
                            lemma_wf_update(n0, *n, i as int, c2);
                        }
                        false
                    }
                }
            }
        },
    }
}

impl View for RadixTrie {
    type V = Set<Seq<char>>;

    /// The trie denotes the set of words spelled by root-to-terminal paths.
    open spec fn view(&self) -> Set<Seq<char>> {
        Set::new(|w: Seq<char>| has_word(self.root, w))
    }
}

impl RadixTrie {
    /// The structural invariants of the whole trie: the subtree below the
    /// root is well-formed and the root itself is never terminal, so the
    /// empty word is never stored.
    pub open spec fn wf(self) -> bool {
        &&& node_wf(self.root)
        &&& !self.root.terminal
    }

    /// An empty trie: a bare root with no children.
    pub fn new() -> (t: Self)
        ensures
            t.wf(),
            t@ == Set::<Seq<char>>::empty(),
    {
        let t = RadixTrie {
            root: Node { label: Vec::new(), terminal: false, children: Vec::new() },
        };
        proof {
            assert forall|w: Seq<char>| !has_word(t.root, w) by {
                if w.len() > 0 {
                    assert(!has_via(t.root.children@, w));
                }
            }
            assert(t@ =~= Set::<Seq<char>>::empty());
        }
        t
    }

    /// Stores `word`. Inserting the empty word, or a word already present,
    /// leaves the stored set unchanged; every other word is added.
    pub fn insert(&mut self, word: &str)
        requires
            old(self).wf(),
        ensures
            final(self).wf(),
            word@.len() == 0 ==> final(self)@ == old(self)@,
            word@.len() > 0 ==> final(self)@ == old(self)@.insert(word@),
    {
        let w = to_char_vec(word);
        if w.len() == 0 {
            return;
        }
        insert_at(&mut self.root, &w, 0);
        proof {
            assert(w@.skip(0) =~= w@);
            assert(self@ =~= old(self)@.insert(word@));
        }
    }

    /// Removes `word` from the stored set. Deleting the empty word, or a
    /// word that is not stored, leaves the contents unchanged and never
    /// fails.
    pub fn delete(&mut self, word: &str)
        requires
            old(self).wf(),
        ensures
            final(self).wf(),
            final(self)@ == old(self)@.remove(word@),
    {
        let w = to_char_vec(word);
        if w.len() == 0 {
            proof {
                assert(!has_word(self.root, word@));
                assert(self@ =~= old(self)@.remove(word@));
            }
            return;
        }
        let _ = delete_at(&mut self.root, &w, 0);
        proof {
            assert(w@.skip(0) =~= w@);
            assert(self@ =~= old(self)@.remove(word@));
        }
    }

    /// True exactly when `word` is currently stored; the empty word never is.
    pub fn search(&self, word: &str) -> (found: bool)
        requires
            self.wf(),
        ensures
            found == self@.contains(word@),
    {
        let w = to_char_vec(word);
        let r = search_at(&self.root, &w, 0);
        proof {
            assert(w@.skip(0) =~= w@);
        }
        r
    }
}

impl Default for RadixTrie {
    /// The default trie is the empty one.
    fn default() -> (t: Self)
        ensures
            t.wf(),
            t@ == Set::<Seq<char>>::empty(),
    {
        RadixTrie::new()
    }
}

/// The longest common prefix of two strings, compared code point by code
/// point, returned as a slice of the first.
pub fn get_common_prefix<'a>(word_a: &'a str, word_b: &'a str) -> (r: &'a str)
    ensures
        r@ == word_a@.take(common_prefix_len(word_a@, word_b@) as int),
{
    let a = to_char_vec(word_a);
    let b = to_char_vec(word_b);
    proof {
        assert(a@.skip(0) =~= a@);
        lemma_common_prefix_len(word_a@, word_b@);
    }
    let k = common_len_from(&a, 0, &b);
    word_a.substring_char(0, k)
}

} // verus!
