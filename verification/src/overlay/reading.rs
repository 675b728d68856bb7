//! Reading the bytes of a tree back.
use super::commit::{actions_of, law_segments_are_actions};
use super::encoding::{
    below_bytes, bytes_from, finite_tree, law_trees_are_orderly, lemma_bytes_from,
    lemma_child_tellable, lemma_node_cut, lemma_nowhere_staged, lemma_sorted_names,
    lemma_staged_inside, lemma_u32_parts, lemma_written, orderly, redirect_named, sources_named,
    tellable,
};
use super::laws::children_at;
use super::tree::{
    after_segments, child, node_at, passthrough, staged_at, DentryView, NodeView, TargetView,
    TreeView,
};
use super::types::Segment;
use super::view::inside;
use super::wire::{
    children_bytes, dentry_bytes, dentry_fits, flag, le16, le32, leads_nowhere, names_rise,
    node_bytes, sorted_names, tree_bytes, tree_fits, utf8, written_names,
};
use crate::sift::{lemma_sift_positions, sift};
use crate::text::str_lt;
use vstd::prelude::*;

verus! {

/// A node as it is read: its name, its entry and its children in order.
pub struct ReadNode {
    pub name: Seq<char>,
    pub entry: DentryView,
    pub children: Seq<ReadNode>,
}

// ── The format ───────────────────────────────────────────────────────

/// The number in the first two bytes, the lower first.
pub open spec fn num16(b: Seq<u8>) -> int {
    b[0] + 256 * b[1]
}

/// A text after its length in two bytes, and the bytes after it.
pub open spec fn read_text(b: Seq<u8>) -> Option<(Seq<char>, Seq<u8>)> {
    if b.len() < 2 || b.len() < 2 + num16(b) {
        None
    } else {
        let s = b.subrange(2, 2 + num16(b));
        if vstd::utf8::valid_utf8(s) {
            Some((vstd::utf8::decode_utf8(s), b.skip(2 + num16(b))))
        } else {
            None
        }
    }
}

/// An entry, and the bytes after it: a tag, whether base has something there,
/// and an inode, a path or nothing. The empty path stands for what is there anyway.
pub open spec fn read_entry(b: Seq<u8>) -> Option<(DentryView, Seq<u8>)> {
    if b.len() < 2 || b[1] > 1 {
        None
    } else {
        let in_base = b[1] == 1;
        if b[0] == 1 {
            if b.len() < 6 {
                None
            } else {
                let ino = (b[2] + 256 * b[3] + 65536 * b[4] + 16777216 * b[5]) as u32;
                Some((DentryView { target: TargetView::Inode(ino), in_base }, b.skip(6)))
            }
        } else if b[0] == 2 {
            match read_text(b.skip(2)) {
                Some((p, rest)) => {
                    let p = if p.len() == 0 {
                        None
                    } else {
                        Some(p)
                    };
                    Some((DentryView { target: TargetView::Path(p), in_base }, rest))
                },
                None => None,
            }
        } else if b[0] == 3 {
            Some((DentryView { target: TargetView::Nothing, in_base }, b.skip(2)))
        } else {
            None
        }
    }
}

/// The children of a directory after their number, and the bytes after them.
pub open spec fn read_tree(b: Seq<u8>) -> Option<(Seq<ReadNode>, Seq<u8>)>
    decreases b.len(), 0int, 0int,
{
    if b.len() < 2 {
        None
    } else {
        read_nodes(b.skip(2), num16(b))
    }
}

/// So many nodes, one after the other, and the bytes after them.
pub open spec fn read_nodes(b: Seq<u8>, n: int) -> Option<(Seq<ReadNode>, Seq<u8>)>
    decreases b.len(), 2int, n,
{
    if n <= 0 {
        Some((Seq::empty(), b))
    } else {
        match read_node(b) {
            Some((node, rest)) => if rest.len() < b.len() {
                match read_nodes(rest, n - 1) {
                    Some((nodes, rest)) => Some((seq![node] + nodes, rest)),
                    None => None,
                }
            } else {
                None
            },
            None => None,
        }
    }
}

/// A node, and the bytes after it: its name, its entry and its children.
pub open spec fn read_node(b: Seq<u8>) -> Option<(ReadNode, Seq<u8>)>
    decreases b.len(), 1int, 0int,
{
    match read_text(b) {
        Some((name, rest)) => match read_entry(rest) {
            Some((entry, rest)) => if rest.len() < b.len() {
                match read_tree(rest) {
                    Some((children, rest)) => Some((ReadNode { name, entry, children }, rest)),
                    None => None,
                }
            } else {
                None
            },
            None => None,
        },
        None => None,
    }
}

// ── What is read of a tree ───────────────────────────────────────────

/// The entry as it is read: a directory that only leads on is in base.
pub open spec fn entry_read(d: DentryView) -> DentryView {
    if d.passes() {
        passthrough()
    } else {
        d
    }
}

/// The nodes as they are read: the children that are written, in byte order.
pub open spec fn nodes_read(t: TreeView) -> Seq<ReadNode>
    decreases t, 1int, 0int,
{
    children_read(t, written_names(t), 0)
}

/// The children of these names from position `i` on.
pub open spec fn children_read(t: TreeView, ks: Seq<Seq<char>>, i: int) -> Seq<ReadNode>
    decreases t, 0int, ks.len() - i,
{
    if i < 0 || i >= ks.len() {
        Seq::empty()
    } else if t.dom().finite() && t.contains_key(ks[i]) {
        seq![node_read(ks[i], t[ks[i]])] + children_read(t, ks, i + 1)
    } else {
        children_read(t, ks, i + 1)
    }
}

/// The node as it is read.
pub open spec fn node_read(name: Seq<char>, n: NodeView) -> ReadNode
    decreases n, 0int, 0int,
{
    ReadNode {
        name,
        entry: entry_read(n.dentry()),
        children: match n {
            NodeView::File(_) => Seq::empty(),
            NodeView::Dir(_, sub) => nodes_read(sub),
        },
    }
}

proof fn lemma_num16(n: nat, x: Seq<u8>)
    requires
        n <= 65535,
    ensures
        num16(le16(n) + x) == n,
        (le16(n) + x).skip(2) == x,
        (le16(n) + x).len() == 2 + x.len(),
{
    let b = le16(n) + x;
    assert(b[0] == (n % 256) as u8);
    assert(b[1] == (n / 256 % 256) as u8);
    assert(b.skip(2) =~= x);
}

proof fn lemma_read_text(s: Seq<char>, x: Seq<u8>)
    requires
        utf8(s).len() <= 65535,
    ensures
        read_text(le16(utf8(s).len()) + utf8(s) + x) == Some((s, x)),
{
    let n = utf8(s).len();
    let b = le16(n) + utf8(s) + x;
    assert(b =~= le16(n) + (utf8(s) + x));
    lemma_num16(n, utf8(s) + x);
    assert(b.subrange(2, 2 + n as int) =~= utf8(s));
    assert(b.skip(2 + n as int) =~= x);
    vstd::utf8::encode_utf8_valid_utf8(s);
    vstd::utf8::encode_utf8_decode_utf8(s);
}

proof fn lemma_read_entry(d: DentryView, x: Seq<u8>)
    requires
        dentry_fits(d),
        redirect_named(d),
    ensures
        read_entry(dentry_bytes(d) + x) == Some((entry_read(d), x)),
{
    let b = dentry_bytes(d) + x;
    match d.target {
        TargetView::Inode(ino) => {
            assert(b =~= seq![1u8, flag(d.in_base)] + (le32(ino as nat) + x));
            assert(b.skip(6) =~= x);
            lemma_u32_parts(ino);
            let e = le32(ino as nat);
            assert(b[2] == e[0] && b[3] == e[1] && b[4] == e[2] && b[5] == e[3]);
            assert(e[0] == ino % 256 && e[1] == ino / 256 % 256);
            assert(e[2] == ino / 65536 % 256 && e[3] == ino / 16777216 % 256);
        },
        TargetView::Path(p) => {
            let s = match p {
                Some(s) => s,
                None => Seq::empty(),
            };
            assert(utf8(Seq::empty()) =~= Seq::<u8>::empty());
            let rest = le16(utf8(s).len()) + utf8(s) + x;
            let f = if p is None {
                1u8
            } else {
                flag(d.in_base)
            };
            assert(b =~= seq![2u8, f] + rest);
            assert(b.skip(2) =~= rest);
            lemma_read_text(s, x);
        },
        TargetView::Nothing => {
            assert(b.skip(2) =~= x);
        },
    }
}

/// The bytes of a node are read as the node, where those of its children are.
proof fn lemma_node_read(name: Seq<char>, n: NodeView, more: Seq<u8>)
    requires
        utf8(name).len() <= 65535,
        dentry_fits(n.dentry()),
        redirect_named(n.dentry()),
        read_tree(below_bytes(n) + more) == Some((node_read(name, n).children, more)),
    ensures
        read_node(node_bytes(name, n) + more) == Some((node_read(name, n), more)),
        more.len() < (node_bytes(name, n) + more).len(),
{
    let b = node_bytes(name, n) + more;
    let rest = below_bytes(n) + more;
    let d = dentry_bytes(n.dentry()) + rest;
    lemma_node_cut(name, n, more);
    lemma_read_text(name, d);
    lemma_read_entry(n.dentry(), rest);
    assert(b == le16(utf8(name).len()) + utf8(name) + d);
    assert(rest.len() < b.len());
}

/// The bytes of the children from position `i` on are read as these children.
proof fn lemma_children_read(t: TreeView, ks: Seq<Seq<char>>, i: int, x: Seq<u8>)
    requires
        tellable(t),
        ks == written_names(t),
        0 <= i <= ks.len(),
    ensures
        read_nodes(bytes_from(t, ks, i) + x, ks.len() - i) == Some((children_read(t, ks, i), x)),
    decreases t, 0int, ks.len() - i,
{
    assert(children_at(t, Seq::empty()) == t);
    assert(t.dom().finite());
    if i == ks.len() {
        assert(bytes_from(t, ks, i) + x =~= x);
    } else {
        lemma_written(t);
        let n = t[ks[i]];
        assert(t.contains_key(ks[i]));
        lemma_child_tellable(t, ks[i]);
        let more = bytes_from(t, ks, i + 1) + x;
        let b = bytes_from(t, ks, i) + x;
        assert(b =~= node_bytes(ks[i], n) + more);
        match n {
            NodeView::File(_) => {
                lemma_num16(0, more);
                assert(read_nodes(more, 0) == Some((Seq::<ReadNode>::empty(), more)));
            },
            NodeView::Dir(_, sub) => {
                lemma_tree_read(sub, more);
            },
        }
        lemma_node_read(ks[i], n, more);
        lemma_children_read(t, ks, i + 1, x);
    }
}

/// The bytes of a tree are read as its nodes, whatever follows them.
proof fn lemma_tree_read(t: TreeView, x: Seq<u8>)
    requires
        tellable(t),
    ensures
        read_tree(tree_bytes(t) + x) == Some((nodes_read(t), x)),
    decreases t, 1int, 0int,
{
    assert(children_at(t, Seq::empty()) == t);
    assert(t.dom().finite());
    let ks = written_names(t);
    let c = children_bytes(t, ks, ks.len() as int);
    assert(tree_bytes(t) + x =~= le16(ks.len()) + (c + x));
    lemma_num16(ks.len(), c + x);
    lemma_written(t);
    lemma_bytes_from(t, ks, 0);
    assert(children_bytes(t, ks, 0) + bytes_from(t, ks, 0) =~= bytes_from(t, ks, 0));
    lemma_children_read(t, ks, 0, x);
}

/// Reading the bytes of a tree gives its nodes back and leaves no byte over.
pub proof fn law_bytes_read_back(t: TreeView)
    requires
        tree_fits(t),
        orderly(t),
    ensures
        read_tree(tree_bytes(t)) == Some((nodes_read(t), Seq::<u8>::empty())),
{
    lemma_tree_read(t, Seq::empty());
    assert(tree_bytes(t) + Seq::<u8>::empty() =~= tree_bytes(t));
}

// ── What the nodes say ───────────────────────────────────────────────

/// The first of the nodes with this name.
pub open spec fn named(nodes: Seq<ReadNode>, name: Seq<char>) -> Option<ReadNode>
    decreases nodes.len(),
{
    if nodes.len() == 0 {
        None
    } else if nodes[0].name == name {
        Some(nodes[0])
    } else {
        named(nodes.skip(1), name)
    }
}

/// The entry at a path of names that is a staged change.
pub open spec fn staged_in(nodes: Seq<ReadNode>, ps: Seq<Seq<char>>) -> Option<DentryView>
    decreases ps.len(),
{
    if ps.len() == 0 {
        None
    } else {
        match named(nodes, ps[0]) {
            Some(n) => if ps.len() > 1 {
                staged_in(n.children, ps.skip(1))
            } else if n.entry.passes() {
                None
            } else {
                Some(n.entry)
            },
            None => None,
        }
    }
}

/// The names of siblings rise in byte order, at every level.
pub open spec fn in_order(nodes: Seq<ReadNode>) -> bool
    decreases nodes,
{
    &&& forall|i: int, j: int|
        0 <= i < j < nodes.len() ==> str_lt((#[trigger] nodes[i]).name, (#[trigger] nodes[j]).name)
    &&& forall|i: int| 0 <= i < nodes.len() ==> in_order((#[trigger] nodes[i]).children)
}

proof fn lemma_children_at(t: TreeView, ks: Seq<Seq<char>>, i: int)
    requires
        t.dom().finite(),
        0 <= i <= ks.len(),
        forall|j: int| 0 <= j < ks.len() ==> t.contains_key(#[trigger] ks[j]),
    ensures
        children_read(t, ks, i).len() == ks.len() - i,
        forall|j: int|
            0 <= j < ks.len() - i ==> #[trigger] children_read(t, ks, i)[j] == node_read(
                ks[i + j],
                t[ks[i + j]],
            ),
    decreases ks.len() - i,
{
    if i < ks.len() {
        lemma_children_at(t, ks, i + 1);
        assert(t.contains_key(ks[i]));
        let r = children_read(t, ks, i + 1);
        assert forall|j: int| 0 <= j < ks.len() - i implies #[trigger] children_read(t, ks, i)[j]
            == node_read(ks[i + j], t[ks[i + j]]) by {
            if j > 0 {
                assert(children_read(t, ks, i)[j] == r[j - 1]);
            }
        }
    }
}

proof fn lemma_written_rise(t: TreeView)
    requires
        t.dom().finite(),
    ensures
        names_rise(written_names(t)),
{
    lemma_sorted_names(t);
    let ks = sorted_names(t);
    let keep = |i: int| !leads_nowhere(t[ks[i]]);
    let w = written_names(t);
    assert(w == sift(ks, ks.len() as int, keep));
    let pos = lemma_sift_positions(ks, ks.len() as int, keep);
    assert forall|i: int, j: int| 0 <= i < j < w.len() implies str_lt(
        #[trigger] w[i],
        #[trigger] w[j],
    ) by {
        assert(w[i] == ks[pos[i]] && w[j] == ks[pos[j]]);
    }
}

proof fn lemma_named(nodes: Seq<ReadNode>, name: Seq<char>)
    ensures
        match named(nodes, name) {
            Some(n) => n.name == name && nodes.contains(n),
            None => forall|j: int| 0 <= j < nodes.len() ==> (#[trigger] nodes[j]).name != name,
        },
    decreases nodes.len(),
{
    if nodes.len() > 0 {
        let rest = nodes.skip(1);
        lemma_named(rest, name);
        if nodes[0].name == name {
            assert(nodes.contains(nodes[0]));
        } else {
            match named(rest, name) {
                Some(n) => {
                    let j = choose|j: int| 0 <= j < rest.len() && rest[j] == n;
                    assert(nodes[j + 1] == n);
                },
                None => {
                    assert forall|j: int| 0 <= j < nodes.len() implies (#[trigger] nodes[j]).name
                        != name by {
                        if j > 0 {
                            assert(rest[j - 1] == nodes[j]);
                        }
                    }
                },
            }
        }
    }
}

/// The child of a name, as it is read.
proof fn lemma_child_read(t: TreeView, k: Seq<char>)
    requires
        t.dom().finite(),
    ensures
        named(nodes_read(t), k) == if t.contains_key(k) && !leads_nowhere(t[k]) {
            Some(node_read(k, t[k]))
        } else {
            None
        },
{
    let ks = written_names(t);
    let r = nodes_read(t);
    lemma_written(t);
    lemma_children_at(t, ks, 0);
    lemma_named(r, k);
    match named(r, k) {
        Some(n) => {
            let j = choose|j: int| 0 <= j < r.len() && r[j] == n;
            assert(r[j] == node_read(ks[j], t[ks[j]]));
        },
        None => {
            if t.contains_key(k) && !leads_nowhere(t[k]) {
                assert(ks.contains(k));
                let j = choose|j: int| 0 <= j < ks.len() && ks[j] == k;
                assert(r[j] == node_read(ks[j], t[ks[j]]));
            }
        },
    }
}

/// What is read of a tree is what is staged in it.
pub proof fn law_read_is_staged(t: TreeView, q: Seq<Seq<char>>)
    requires
        finite_tree(t),
    ensures
        staged_in(nodes_read(t), q) == staged_at(t, q),
    decreases q.len(),
{
    assert(children_at(t, Seq::empty()) == t);
    assert(t.dom().finite());
    if q.len() > 0 {
        let k = q[0];
        lemma_child_read(t, k);
        if t.contains_key(k) {
            if leads_nowhere(t[k]) {
                lemma_nowhere_staged(t[k], q);
            } else if q.len() > 1 {
                lemma_staged_inside(t, q);
                lemma_inside_finite(t, k);
                law_read_is_staged(inside(t[k]), q.skip(1));
                lemma_inside_read(t[k], k);
            }
        }
    }
}

proof fn lemma_inside_finite(t: TreeView, k: Seq<char>)
    requires
        finite_tree(t),
        t.contains_key(k),
    ensures
        finite_tree(inside(t[k])),
{
    match t[k] {
        NodeView::Dir(_, sub) => {
            assert forall|ps: Seq<Seq<char>>| (#[trigger] children_at(sub, ps)).dom().finite() by {
                let q = seq![k] + ps;
                assert(q.skip(1) =~= ps);
                assert(children_at(t, q) == children_at(sub, ps));
            }
        },
        NodeView::File(_) => {
            lemma_empty_finite();
        },
    }
}

proof fn lemma_empty_finite()
    ensures
        finite_tree(Map::empty()),
        nodes_read(Map::empty()) == Seq::<ReadNode>::empty(),
{
    let t = Map::<Seq<char>, NodeView>::empty();
    assert forall|ps: Seq<Seq<char>>| (#[trigger] children_at(t, ps)).dom().finite() by {
        assert(children_at(t, ps) =~= t);
        assert(t.dom() =~= Set::empty());
    }
    assert(children_at(t, Seq::empty()) == t);
    let w = written_names(t);
    lemma_written(t);
    if w.len() > 0 {
        assert(t.contains_key(w[0]));
    }
}

proof fn lemma_inside_read(n: NodeView, k: Seq<char>)
    ensures
        node_read(k, n).children == nodes_read(inside(n)),
{
    lemma_empty_finite();
}

/// The children of each directory are read in the byte order of their names.
pub proof fn law_read_in_order(t: TreeView)
    requires
        finite_tree(t),
    ensures
        in_order(nodes_read(t)),
    decreases t,
{
    assert(children_at(t, Seq::empty()) == t);
    assert(t.dom().finite());
    let ks = written_names(t);
    let r = nodes_read(t);
    lemma_written(t);
    lemma_written_rise(t);
    lemma_children_at(t, ks, 0);
    assert forall|i: int, j: int| 0 <= i < j < r.len() implies str_lt(
        (#[trigger] r[i]).name,
        (#[trigger] r[j]).name,
    ) by {
        assert(str_lt(ks[i], ks[j]));
    }
    assert forall|i: int| 0 <= i < r.len() implies in_order((#[trigger] r[i]).children) by {
        let n = t[ks[i]];
        assert(t.contains_key(ks[i]));
        assert(r[i] == node_read(ks[i], n));
        lemma_inside_finite(t, ks[i]);
        if let NodeView::Dir(_, sub) = n {
            law_read_in_order(sub);
        }
    }
}

/// Trees with the same nodes are written alike, whatever order they were built in.
pub proof fn law_same_nodes_same_bytes(a: TreeView, b: TreeView)
    requires
        forall|ps: Seq<Seq<char>>| #[trigger] node_at(a, ps) == node_at(b, ps),
    ensures
        tree_bytes(a) == tree_bytes(b),
{
    assert forall|k: Seq<char>| #[trigger] child(a, k) == child(b, k) by {
        assert(node_at(a, seq![k]) == node_at(b, seq![k]));
    }
    assert forall|k: Seq<char>| #[trigger] a.contains_key(k) == b.contains_key(k) && (
    a.contains_key(k) ==> a[k] == b[k]) by {
        assert(child(a, k) == child(b, k));
    }
    assert(a =~= b);
}

/// The bytes of a tree that segments have built are read back whole: no byte
/// is left over, exactly its staged entries are read, and siblings come in the
/// byte order of their names.
pub proof fn law_serialized_reads_back(s: Seq<Segment>)
    requires
        sources_named(actions_of(s)),
        tree_fits(after_segments(Map::empty(), s)),
    ensures
        ({
            let t = after_segments(Map::empty(), s);
            let nodes = nodes_read(t);
            &&& read_tree(tree_bytes(t)) == Some((nodes, Seq::<u8>::empty()))
            &&& forall|q: Seq<Seq<char>>| #[trigger] staged_in(nodes, q) == staged_at(t, q)
            &&& in_order(nodes)
        }),
{
    let t = after_segments(Map::empty(), s);
    law_segments_are_actions(Map::empty(), s);
    law_trees_are_orderly(actions_of(s));
    law_bytes_read_back(t);
    law_read_in_order(t);
    assert forall|q: Seq<Seq<char>>| #[trigger] staged_in(nodes_read(t), q) == staged_at(t, q) by {
        law_read_is_staged(t, q);
    }
}

} // verus!
