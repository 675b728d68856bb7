//! That the bytes of a tree tell its staged entries.
use super::laws::children_at;
use super::path::parent_and_name;
use super::tree::{
    after_actions, after_move, child, edited, edited_at, edited_below, is_directory, moved_node,
    node_at, node_below, passthrough, source_gone, source_node, staged_at, tombstoned, without,
    DentryView, EditView, NodeView, TargetView, TreeView,
};
use super::types::Action;
use super::view::inside;
use super::wire::{
    are_names_of, children_bytes, dentry_bytes, dentry_fits, flag, le16, le32, leads_nowhere,
    names_rise, node_bytes, sorted_names, tree_bytes, tree_fits, utf8, written_names,
};
use crate::sift::{lemma_sift_positions, sift};
use crate::text::{law_str_lt_total, law_str_lt_transitive, str_lt};
use vstd::prelude::*;

verus! {

/// Every directory of the tree has finitely many children.
pub open spec fn finite_tree(t: TreeView) -> bool {
    forall|ps: Seq<Seq<char>>| (#[trigger] children_at(t, ps)).dom().finite()
}

/// No entry of the tree is redirected to the empty path.
pub open spec fn redirects_named(t: TreeView) -> bool {
    forall|ps: Seq<Seq<char>>|
        (#[trigger] node_at(t, ps)) matches Some(n) ==> redirect_named(n.dentry())
}

/// The entry is not redirected to the empty path.
pub open spec fn redirect_named(d: DentryView) -> bool {
    match d.target {
        TargetView::Path(Some(p)) => p.len() > 0,
        _ => true,
    }
}

// ── Names in order ───────────────────────────────────────────────────

/// The names with one more in its place.
spec fn name_put(ks: Seq<Seq<char>>, k: Seq<char>) -> Seq<Seq<char>>
    decreases ks.len(),
{
    if ks.len() == 0 {
        seq![k]
    } else if str_lt(ks.last(), k) {
        ks.push(k)
    } else {
        name_put(ks.drop_last(), k).push(ks.last())
    }
}

proof fn lemma_name_put(ks: Seq<Seq<char>>, k: Seq<char>)
    requires
        names_rise(ks),
        !ks.contains(k),
    ensures
        names_rise(name_put(ks, k)),
        forall|x: Seq<char>| #[trigger]
            name_put(ks, k).contains(x) == (x == k || ks.contains(x)),
    decreases ks.len(),
{
    let r = name_put(ks, k);
    if ks.len() == 0 {
        assert(r[0] == k);
    } else {
        let l = ks.last();
        assert(ks[ks.len() - 1] == l);
        assert(ks.contains(l));
        law_str_lt_total(l, k);
        if str_lt(l, k) {
            assert forall|i: int, j: int| 0 <= i < j < r.len() implies str_lt(
                #[trigger] r[i],
                #[trigger] r[j],
            ) by {
                assert(r[i] == ks[i]);
                if j == ks.len() {
                    if i < ks.len() - 1 {
                        assert(str_lt(ks[i], ks[ks.len() - 1]));
                        law_str_lt_transitive(ks[i], l, k);
                    }
                } else {
                    assert(r[j] == ks[j]);
                }
            }
            assert forall|x: Seq<char>| #[trigger] r.contains(x) == (x == k || ks.contains(x)) by {
                if ks.contains(x) {
                    let i = choose|i: int| 0 <= i < ks.len() && ks[i] == x;
                    assert(r[i] == x);
                }
                assert(r[ks.len() as int] == k);
            }
        } else {
            let d = ks.drop_last();
            assert forall|x: Seq<char>| #[trigger] d.contains(x) implies ks.contains(x) by {
                let i = choose|i: int| 0 <= i < d.len() && d[i] == x;
                assert(ks[i] == x);
            }
            assert(names_rise(d)) by {
                assert forall|i: int, j: int| 0 <= i < j < d.len() implies str_lt(
                    #[trigger] d[i],
                    #[trigger] d[j],
                ) by {
                    assert(d[i] == ks[i] && d[j] == ks[j]);
                }
            }
            lemma_name_put(d, k);
            let p = name_put(d, k);
            assert forall|i: int, j: int| 0 <= i < j < r.len() implies str_lt(
                #[trigger] r[i],
                #[trigger] r[j],
            ) by {
                assert(r[i] == p[i]);
                if j < p.len() {
                    assert(r[j] == p[j]);
                } else {
                    assert(p.contains(p[i]));
                    if p[i] != k {
                        let a = choose|a: int| 0 <= a < d.len() && d[a] == p[i];
                        assert(ks[a] == p[i]);
                        assert(str_lt(ks[a], ks[ks.len() - 1]));
                    }
                }
            }
            assert forall|x: Seq<char>| #[trigger] r.contains(x) == (x == k || ks.contains(x)) by {
                if r.contains(x) {
                    let i = choose|i: int| 0 <= i < r.len() && r[i] == x;
                    if i < p.len() {
                        assert(p[i] == x);
                        assert(p.contains(x));
                    }
                }
                if x == k || ks.contains(x) {
                    if x == l {
                        assert(r[p.len() as int] == x);
                    } else {
                        if ks.contains(x) {
                            let i = choose|i: int| 0 <= i < ks.len() && ks[i] == x;
                            assert(d[i] == x);
                        }
                        assert(p.contains(x));
                        let i = choose|i: int| 0 <= i < p.len() && p[i] == x;
                        assert(r[i] == x);
                    }
                }
            }
        }
    }
}

/// The names of finitely many children can be put in order.
proof fn lemma_names_listed(s: Set<Seq<char>>) -> (ks: Seq<Seq<char>>)
    requires
        s.finite(),
    ensures
        names_rise(ks),
        forall|k: Seq<char>| #[trigger] ks.contains(k) == s.contains(k),
    decreases s.len(),
{
    if s.len() == 0 {
        let ks = Seq::<Seq<char>>::empty();
        assert forall|k: Seq<char>| #[trigger] ks.contains(k) == s.contains(k) by {
            if s.contains(k) {
                assert(s.remove(k).len() < s.len());
            }
        }
        ks
    } else {
        let k = s.choose();
        let d = lemma_names_listed(s.remove(k));
        lemma_name_put(d, k);
        name_put(d, k)
    }
}

pub(crate) proof fn lemma_sorted_names(t: TreeView)
    requires
        t.dom().finite(),
    ensures
        are_names_of(sorted_names(t), t),
{
    let ks = lemma_names_listed(t.dom());
    assert(are_names_of(ks, t));
}

/// What is written of the children, and what is not.
pub(crate) proof fn lemma_written(t: TreeView)
    requires
        t.dom().finite(),
    ensures
        forall|i: int|
            0 <= i < written_names(t).len() ==> t.contains_key(#[trigger] written_names(t)[i])
                && !leads_nowhere(t[written_names(t)[i]]),
        forall|k: Seq<char>|
            #![trigger t.contains_key(k)]
            t.contains_key(k) && !leads_nowhere(t[k]) ==> written_names(t).contains(k),
{
    lemma_sorted_names(t);
    let ks = sorted_names(t);
    let keep = |i: int| !leads_nowhere(t[ks[i]]);
    let w = written_names(t);
    assert(w == sift(ks, ks.len() as int, keep));
    let pos = lemma_sift_positions(ks, ks.len() as int, keep);
    assert forall|i: int| 0 <= i < w.len() implies t.contains_key(#[trigger] w[i])
        && !leads_nowhere(t[w[i]]) by {
        assert(w[i] == ks[pos[i]]);
        assert(ks.contains(ks[pos[i]]));
    }
    assert forall|k: Seq<char>|
        #![trigger t.contains_key(k)]
        t.contains_key(k) && !leads_nowhere(t[k]) implies w.contains(k) by {
        assert(ks.contains(k));
        let i = choose|i: int| 0 <= i < ks.len() && ks[i] == k;
        assert(keep(i));
        let j = choose|j: int| 0 <= j < pos.len() && #[trigger] pos[j] == i;
        assert(w[j] == ks[pos[j]]);
    }
}

// ── Pieces of bytes ──────────────────────────────────────────────────

/// Byte strings of one length before others.
proof fn lemma_cut(a: Seq<u8>, x: Seq<u8>, b: Seq<u8>, y: Seq<u8>)
    requires
        a + x == b + y,
        a.len() == b.len(),
    ensures
        a == b,
        x == y,
{
    let n = a.len() as int;
    assert((a + x).take(n) =~= a);
    assert((b + y).take(n) =~= b);
    assert((a + x).skip(n) =~= x);
    assert((b + y).skip(n) =~= y);
}

proof fn lemma_le16(m: nat, n: nat)
    requires
        m <= 65535,
        n <= 65535,
        le16(m) == le16(n),
    ensures
        m == n,
{
    assert(le16(m)[0] == le16(n)[0]);
    assert(le16(m)[1] == le16(n)[1]);
}

pub(crate) proof fn lemma_u32_parts(m: u32)
    ensures
        m == m % 256 + 256 * (m / 256 % 256) + 65536 * (m / 65536 % 256) + 16777216 * (m / 16777216
            % 256),
{
    assert(m / 256 / 256 == m / 65536);
    assert(m / 65536 / 256 == m / 16777216);
    assert(m / 16777216 < 256);
}

proof fn lemma_le32(m: u32, n: u32)
    requires
        le32(m as nat) == le32(n as nat),
    ensures
        m == n,
{
    lemma_u32_parts(m);
    lemma_u32_parts(n);
    let (a, b) = (le32(m as nat), le32(n as nat));
    assert(a[0] == b[0] && a[1] == b[1] && a[2] == b[2] && a[3] == b[3]);
    assert(a[0] == m % 256 && b[0] == n % 256);
    assert(a[1] == m / 256 % 256 && b[1] == n / 256 % 256);
    assert(a[2] == m / 65536 % 256 && b[2] == n / 65536 % 256);
    assert(a[3] == m / 16777216 % 256 && b[3] == n / 16777216 % 256);
}

/// A length in two bytes and then so many bytes of text.
proof fn lemma_text_cut(s: Seq<char>, x: Seq<u8>, t: Seq<char>, y: Seq<u8>)
    requires
        utf8(s).len() <= 65535,
        utf8(t).len() <= 65535,
        le16(utf8(s).len()) + utf8(s) + x == le16(utf8(t).len()) + utf8(t) + y,
    ensures
        s == t,
        x == y,
{
    let (a, b) = (le16(utf8(s).len()), le16(utf8(t).len()));
    assert(a + utf8(s) + x =~= a + (utf8(s) + x));
    assert(b + utf8(t) + y =~= b + (utf8(t) + y));
    lemma_cut(a, utf8(s) + x, b, utf8(t) + y);
    lemma_le16(utf8(s).len(), utf8(t).len());
    lemma_cut(utf8(s), x, utf8(t), y);
    vstd::utf8::encode_utf8_decode_utf8(s);
    vstd::utf8::encode_utf8_decode_utf8(t);
}

/// The entries are the same, or neither is staged.
spec fn same_entry(c: DentryView, d: DentryView) -> bool {
    c.passes() == d.passes() && (!c.passes() ==> c == d)
}

proof fn lemma_path_entry_cut(c: DentryView, x: Seq<u8>, d: DentryView, y: Seq<u8>)
    requires
        dentry_fits(c),
        dentry_fits(d),
        redirect_named(c),
        redirect_named(d),
        c.target is Path,
        d.target is Path,
        dentry_bytes(c) + x == dentry_bytes(d) + y,
    ensures
        same_entry(c, d),
        x == y,
{
    // A directory that only leads on is written like a redirect to the empty path.
    let s = path_written(c);
    let t = path_written(d);
    assert(utf8(Seq::empty()) =~= Seq::<u8>::empty());
    let a = seq![2u8, base_written(c)];
    let b = seq![2u8, base_written(d)];
    let u = le16(utf8(s).len()) + utf8(s) + x;
    let v = le16(utf8(t).len()) + utf8(t) + y;
    assert(dentry_bytes(c) + x =~= a + u);
    assert(dentry_bytes(d) + y =~= b + v);
    lemma_cut(a, u, b, v);
    assert(a[1] == b[1]);
    lemma_text_cut(s, x, t, y);
}

/// The path that is written for an entry.
spec fn path_written(d: DentryView) -> Seq<char> {
    match d.target {
        TargetView::Path(Some(s)) => s,
        _ => Seq::empty(),
    }
}

/// What is written of whether base has something there.
spec fn base_written(d: DentryView) -> u8 {
    if d.passes() {
        1
    } else {
        flag(d.in_base)
    }
}

proof fn lemma_entry_cut(c: DentryView, x: Seq<u8>, d: DentryView, y: Seq<u8>)
    requires
        dentry_fits(c),
        dentry_fits(d),
        redirect_named(c),
        redirect_named(d),
        dentry_bytes(c) + x == dentry_bytes(d) + y,
    ensures
        same_entry(c, d),
        x == y,
{
    lemma_tag(c, x);
    lemma_tag(d, y);
    if c.target is Path {
        lemma_path_entry_cut(c, x, d, y);
    } else {
        lemma_cut(dentry_bytes(c), x, dentry_bytes(d), y);
        assert(dentry_bytes(c)[1] == dentry_bytes(d)[1]);
        if let TargetView::Inode(m) = c.target {
            if let TargetView::Inode(n) = d.target {
                let a = seq![1u8, flag(c.in_base)];
                let b = seq![1u8, flag(d.in_base)];
                lemma_cut(a, le32(m as nat), b, le32(n as nat));
                lemma_le32(m, n);
            }
        }
    }
}

/// The first byte of an entry tells what kind of entry it is.
proof fn lemma_tag(d: DentryView, x: Seq<u8>)
    ensures
        (dentry_bytes(d) + x)[0] == (match d.target {
            TargetView::Inode(_) => 1u8,
            TargetView::Path(_) => 2u8,
            TargetView::Nothing => 3u8,
        }),
{
    assert((dentry_bytes(d) + x)[0] == dentry_bytes(d)[0]);
}

// ── Trees ────────────────────────────────────────────────────────────

/// The trees have the same staged entries.
pub open spec fn same_staged(a: TreeView, b: TreeView) -> bool {
    forall|q: Seq<Seq<char>>| #[trigger] staged_at(a, q) == staged_at(b, q)
}

/// The bytes of the children from position `i` on.
pub(crate) open spec fn bytes_from(t: TreeView, ks: Seq<Seq<char>>, i: int) -> Seq<u8>
    decreases ks.len() - i,
{
    if i < 0 || i >= ks.len() {
        Seq::empty()
    } else {
        node_bytes(ks[i], t[ks[i]]) + bytes_from(t, ks, i + 1)
    }
}

pub(crate) proof fn lemma_bytes_from(t: TreeView, ks: Seq<Seq<char>>, i: int)
    requires
        t.dom().finite(),
        0 <= i <= ks.len(),
        forall|j: int| 0 <= j < ks.len() ==> t.contains_key(#[trigger] ks[j]),
    ensures
        children_bytes(t, ks, ks.len() as int) == children_bytes(t, ks, i) + bytes_from(t, ks, i),
    decreases ks.len() - i,
{
    if i == ks.len() {
        assert(children_bytes(t, ks, i) + bytes_from(t, ks, i) =~= children_bytes(t, ks, i));
    } else {
        lemma_bytes_from(t, ks, i + 1);
        assert(t.contains_key(ks[i]));
        let b = children_bytes(t, ks, i);
        let n = node_bytes(ks[i], t[ks[i]]);
        assert((b + n) + bytes_from(t, ks, i + 1) =~= b + (n + bytes_from(t, ks, i + 1)));
    }
}

/// What can be told of a tree by its bytes.
pub(crate) open spec fn tellable(t: TreeView) -> bool {
    tree_fits(t) && finite_tree(t) && redirects_named(t)
}

/// A child of a tree that can be told can be told itself.
pub(crate) proof fn lemma_child_tellable(t: TreeView, k: Seq<char>)
    requires
        tellable(t),
        t.contains_key(k),
        !leads_nowhere(t[k]),
    ensures
        utf8(k).len() <= 65535,
        dentry_fits(t[k].dentry()),
        redirect_named(t[k].dentry()),
        t[k] is Dir ==> tellable(inside(t[k])),
{
    assert(children_at(t, Seq::empty()) == t);
    assert(t.dom().finite());
    assert(node_at(t, seq![k]) == Some(t[k]));
    if let NodeView::Dir(_, sub) = t[k] {
        assert forall|ps: Seq<Seq<char>>| (#[trigger] children_at(sub, ps)).dom().finite() by {
            let q = seq![k] + ps;
            assert(q.skip(1) =~= ps);
            assert(children_at(t, q) == children_at(sub, ps));
        }
        assert forall|ps: Seq<Seq<char>>|
            (#[trigger] node_at(sub, ps)) matches Some(n) implies redirect_named(
            (node_at(sub, ps)->0).dentry(),
        ) by {
            let q = seq![k] + ps;
            assert(q.skip(1) =~= ps);
            assert(node_at(t, q) == node_at(sub, ps));
        }
    }
}

/// The bytes of a child, with those of its children last.
pub(crate) proof fn lemma_node_cut(name: Seq<char>, n: NodeView, rest: Seq<u8>)
    ensures
        node_bytes(name, n) + rest == le16(utf8(name).len()) + utf8(name) + (dentry_bytes(
            n.dentry(),
        ) + (below_bytes(n) + rest)),
{
    assert(node_bytes(name, n) + rest =~= le16(utf8(name).len()) + utf8(name) + (dentry_bytes(
        n.dentry(),
    ) + (below_bytes(n) + rest)));
}

/// The bytes of the children of a node.
pub(crate) open spec fn below_bytes(n: NodeView) -> Seq<u8> {
    match n {
        NodeView::File(_) => le16(0),
        NodeView::Dir(_, sub) => tree_bytes(sub),
    }
}

/// A tree whose bytes begin with a count of none has no staged entries.
proof fn lemma_none_written(t: TreeView, x: Seq<u8>, y: Seq<u8>)
    requires
        tellable(t),
        tree_bytes(t) + x == le16(0) + y,
    ensures
        forall|q: Seq<Seq<char>>| (#[trigger] staged_at(t, q)) is None,
        x == y,
{
    assert(children_at(t, Seq::empty()) == t);
    assert(t.dom().finite());
    let w = written_names(t);
    let c = children_bytes(t, w, w.len() as int);
    assert(tree_bytes(t) + x =~= le16(w.len()) + (c + x));
    lemma_cut(le16(w.len()), c + x, le16(0), y);
    lemma_le16(w.len(), 0);
    assert(c + x =~= x);
    lemma_written(t);
    assert forall|q: Seq<Seq<char>>| (#[trigger] staged_at(t, q)) is None by {
        if q.len() > 0 && t.contains_key(q[0]) {
            assert(!w.contains(q[0]));
            lemma_nowhere_staged(t[q[0]], q);
        }
    }
}

/// Nothing is staged at or below a directory that leads to nothing.
pub(crate) proof fn lemma_nowhere_staged(n: NodeView, q: Seq<Seq<char>>)
    requires
        leads_nowhere(n),
        q.len() > 0,
    ensures
        forall|t: TreeView|
            #![trigger staged_at(t, q)]
            t.contains_key(q[0]) && t[q[0]] == n ==> staged_at(t, q) is None,
{
    assert forall|t: TreeView|
        #![trigger staged_at(t, q)]
        t.contains_key(q[0]) && t[q[0]] == n implies staged_at(t, q) is None by {
        if q.len() > 1 {
            assert(node_at(t, q) == node_at(Map::empty(), q.skip(1)));
        }
    }
}

/// The children from position `i` on are told by their bytes.
proof fn lemma_children_told(
    a: TreeView,
    ka: Seq<Seq<char>>,
    b: TreeView,
    kb: Seq<Seq<char>>,
    i: int,
    x: Seq<u8>,
    y: Seq<u8>,
)
    requires
        tellable(a),
        tellable(b),
        ka == written_names(a),
        kb == written_names(b),
        ka.len() == kb.len(),
        0 <= i <= ka.len(),
        bytes_from(a, ka, i) + x == bytes_from(b, kb, i) + y,
    ensures
        x == y,
        forall|j: int|
            #![trigger ka[j]]
            i <= j < ka.len() ==> ka[j] == kb[j] && same_entry(
                a[ka[j]].dentry(),
                b[ka[j]].dentry(),
            ) && same_staged(inside(a[ka[j]]), inside(b[ka[j]])),
    decreases a, 0int, ka.len() - i,
{
    assert(children_at(a, Seq::empty()) == a);
    assert(children_at(b, Seq::empty()) == b);
    assert(a.dom().finite() && b.dom().finite());
    if i == ka.len() {
        assert(bytes_from(a, ka, i) + x =~= x);
        assert(bytes_from(b, kb, i) + y =~= y);
    } else {
        lemma_written(a);
        lemma_written(b);
        let (m, n) = (a[ka[i]], b[kb[i]]);
        assert(a.contains_key(ka[i]) && b.contains_key(kb[i]));
        lemma_child_tellable(a, ka[i]);
        lemma_child_tellable(b, kb[i]);
        let xs = bytes_from(a, ka, i + 1) + x;
        let ys = bytes_from(b, kb, i + 1) + y;
        assert(bytes_from(a, ka, i) + x =~= node_bytes(ka[i], m) + xs);
        assert(bytes_from(b, kb, i) + y =~= node_bytes(kb[i], n) + ys);
        lemma_node_cut(ka[i], m, xs);
        lemma_node_cut(kb[i], n, ys);
        let xd = dentry_bytes(m.dentry()) + (below_bytes(m) + xs);
        let yd = dentry_bytes(n.dentry()) + (below_bytes(n) + ys);
        lemma_text_cut(ka[i], xd, kb[i], yd);
        lemma_entry_cut(m.dentry(), below_bytes(m) + xs, n.dentry(), below_bytes(n) + ys);
        match (m, n) {
            (NodeView::Dir(_, s), NodeView::Dir(_, t)) => {
                lemma_tree_told(s, t, xs, ys);
            },
            (NodeView::Dir(_, s), NodeView::File(_)) => {
                lemma_none_written(s, xs, ys);
                lemma_empty_staged_nowhere();
            },
            (NodeView::File(_), NodeView::Dir(_, t)) => {
                lemma_none_written(t, ys, xs);
                lemma_empty_staged_nowhere();
            },
            (NodeView::File(_), NodeView::File(_)) => {
                lemma_cut(le16(0), xs, le16(0), ys);
            },
        }
        lemma_children_told(a, ka, b, kb, i + 1, x, y);
    }
}

proof fn lemma_empty_staged_nowhere()
    ensures
        forall|q: Seq<Seq<char>>| (#[trigger] staged_at(Map::empty(), q)) is None,
{
}

/// A tree is told by its bytes, whatever follows them.
proof fn lemma_tree_told(a: TreeView, b: TreeView, x: Seq<u8>, y: Seq<u8>)
    requires
        tellable(a),
        tellable(b),
        tree_bytes(a) + x == tree_bytes(b) + y,
    ensures
        x == y,
        same_staged(a, b),
    decreases a, 1int, 0int,
{
    assert(children_at(a, Seq::empty()) == a);
    assert(children_at(b, Seq::empty()) == b);
    assert(a.dom().finite() && b.dom().finite());
    let (ka, kb) = (written_names(a), written_names(b));
    let ca = children_bytes(a, ka, ka.len() as int);
    let cb = children_bytes(b, kb, kb.len() as int);
    assert(tree_bytes(a) + x =~= le16(ka.len()) + (ca + x));
    assert(tree_bytes(b) + y =~= le16(kb.len()) + (cb + y));
    lemma_cut(le16(ka.len()), ca + x, le16(kb.len()), cb + y);
    lemma_le16(ka.len(), kb.len());
    lemma_written(a);
    lemma_written(b);
    lemma_bytes_from(a, ka, 0);
    lemma_bytes_from(b, kb, 0);
    assert(children_bytes(a, ka, 0) + bytes_from(a, ka, 0) =~= bytes_from(a, ka, 0));
    assert(children_bytes(b, kb, 0) + bytes_from(b, kb, 0) =~= bytes_from(b, kb, 0));
    lemma_children_told(a, ka, b, kb, 0, x, y);
    assert(ka =~= kb);
    assert forall|q: Seq<Seq<char>>| #[trigger] staged_at(a, q) == staged_at(b, q) by {
        if q.len() > 0 {
            let k = q[0];
            if ka.contains(k) {
                let j = choose|j: int| 0 <= j < ka.len() && ka[j] == k;
                assert(ka[j] == k);
                assert(a.contains_key(k) && b.contains_key(kb[j]));
                if q.len() > 1 {
                    lemma_staged_inside(a, q);
                    lemma_staged_inside(b, q);
                    assert(staged_at(inside(a[k]), q.skip(1)) == staged_at(
                        inside(b[k]),
                        q.skip(1),
                    ));
                }
            } else {
                if a.contains_key(k) {
                    lemma_nowhere_staged(a[k], q);
                }
                if b.contains_key(k) {
                    lemma_nowhere_staged(b[k], q);
                }
            }
        }
    }
}

/// What is staged below a child is staged in its children.
pub(crate) proof fn lemma_staged_inside(t: TreeView, q: Seq<Seq<char>>)
    requires
        q.len() > 1,
        t.contains_key(q[0]),
    ensures
        staged_at(t, q) == staged_at(inside(t[q[0]]), q.skip(1)),
{
    lemma_empty_staged_nowhere();
}

/// The bytes of a tree tell its staged entries: two trees that are written
/// alike stage the same. A redirect to the empty path, which no action makes
/// of a path with a name, would be written like a directory that only leads on.
pub proof fn law_bytes_tell_entries(a: TreeView, b: TreeView, q: Seq<Seq<char>>)
    requires
        tree_fits(a),
        tree_fits(b),
        orderly(a),
        orderly(b),
        tree_bytes(a) == tree_bytes(b),
    ensures
        staged_at(a, q) == staged_at(b, q),
{
    lemma_tree_told(a, b, Seq::empty(), Seq::empty());
}

// ── Trees that actions build ─────────────────────────────────────────

/// Finite directories, and no redirect to the empty path.
pub open spec fn orderly(t: TreeView) -> bool {
    finite_tree(t) && redirects_named(t)
}

/// The same of a node.
spec fn node_orderly(n: NodeView) -> bool {
    redirect_named(n.dentry()) && orderly(inside(n))
}

/// The same of what an edit puts in place.
spec fn edit_orderly(e: EditView) -> bool {
    match e {
        EditView::Stage(d, _) => redirect_named(d),
        EditView::Place(n) => node_orderly(n),
        EditView::Settle(n) => node_orderly(n),
        _ => true,
    }
}

proof fn lemma_empty_orderly()
    ensures
        orderly(Map::empty()),
{
    let t = Map::<Seq<char>, NodeView>::empty();
    assert forall|ps: Seq<Seq<char>>| (#[trigger] children_at(t, ps)).dom().finite() by {
        assert(children_at(t, ps) =~= t);
        assert(t.dom() =~= Set::empty());
    }
}

proof fn lemma_child_orderly(t: TreeView, k: Seq<char>)
    requires
        orderly(t),
        t.contains_key(k),
    ensures
        node_orderly(t[k]),
{
    lemma_empty_orderly();
    assert(node_at(t, seq![k]) == Some(t[k]));
    if let NodeView::Dir(_, sub) = t[k] {
        assert forall|ps: Seq<Seq<char>>| (#[trigger] children_at(sub, ps)).dom().finite() by {
            let q = seq![k] + ps;
            assert(q.skip(1) =~= ps);
            assert(children_at(t, q) == children_at(sub, ps));
        }
        assert forall|ps: Seq<Seq<char>>|
            (#[trigger] node_at(sub, ps)) matches Some(n) implies redirect_named(
            (node_at(sub, ps)->0).dentry(),
        ) by {
            let q = seq![k] + ps;
            assert(q.skip(1) =~= ps);
            assert(node_at(t, q) == node_at(sub, ps));
        }
    }
}

proof fn lemma_put_orderly(t: TreeView, k: Seq<char>, n: NodeView)
    requires
        orderly(t),
        node_orderly(n),
    ensures
        orderly(t.insert(k, n)),
{
    let r = t.insert(k, n);
    lemma_empty_orderly();
    assert(children_at(t, Seq::empty()) == t);
    assert(r.dom() =~= t.dom().insert(k));
    assert forall|ps: Seq<Seq<char>>| (#[trigger] children_at(r, ps)).dom().finite() by {
        if ps.len() > 0 {
            if ps[0] == k {
                if let NodeView::Dir(_, sub) = n {
                    assert(children_at(r, ps) == children_at(sub, ps.skip(1)));
                } else {
                    assert(children_at(r, ps) == children_at(Map::empty(), seq![]));
                }
            } else {
                assert(children_at(r, ps) == children_at(t, ps));
            }
        }
    }
    assert forall|ps: Seq<Seq<char>>|
        (#[trigger] node_at(r, ps)) matches Some(m) implies redirect_named(
        (node_at(r, ps)->0).dentry(),
    ) by {
        if ps[0] == k {
            if ps.len() > 1 {
                assert(node_at(r, ps) == node_at(inside(n), ps.skip(1)));
            }
        } else {
            assert(node_at(r, ps) == node_at(t, ps));
        }
    }
}

proof fn lemma_drop_orderly(t: TreeView, k: Seq<char>)
    requires
        orderly(t),
    ensures
        orderly(t.remove(k)),
{
    let r = t.remove(k);
    assert(children_at(t, Seq::empty()) == t);
    assert(r.dom() =~= t.dom().remove(k));
    lemma_empty_orderly();
    assert forall|ps: Seq<Seq<char>>| (#[trigger] children_at(r, ps)).dom().finite() by {
        if ps.len() > 0 {
            if ps[0] == k {
                assert(children_at(r, ps) == children_at(Map::empty(), seq![]));
            } else {
                assert(children_at(r, ps) == children_at(t, ps));
            }
        }
    }
    assert forall|ps: Seq<Seq<char>>|
        (#[trigger] node_at(r, ps)) matches Some(m) implies redirect_named(
        (node_at(r, ps)->0).dentry(),
    ) by {
        assert(node_at(r, ps) == node_at(t, ps));
    }
}

proof fn lemma_edited_orderly(t: TreeView, name: Seq<char>, e: EditView)
    requires
        orderly(t),
        edit_orderly(e),
    ensures
        orderly(edited(t, name, e)),
{
    lemma_empty_orderly();
    if t.contains_key(name) {
        lemma_child_orderly(t, name);
    }
    match e {
        EditView::Stage(d, is_dir) => {
            let n = if is_dir {
                match child(t, name) {
                    Some(NodeView::Dir(_, sub)) => NodeView::Dir(d, sub),
                    _ => NodeView::Dir(d, Map::empty()),
                }
            } else {
                NodeView::File(d)
            };
            lemma_put_orderly(t, name, n);
        },
        EditView::Delete(is_dir) => {
            lemma_put_orderly(t, name, tombstoned(child(t, name), is_dir));
            lemma_drop_orderly(t, name);
        },
        EditView::Tombstone(is_dir) => {
            lemma_put_orderly(t, name, tombstoned(child(t, name), is_dir));
        },
        EditView::Place(n) => {
            lemma_put_orderly(t, name, n);
        },
        EditView::Settle(n) => {
            match n {
                NodeView::Dir(_, sub) => {
                    lemma_put_orderly(t, name, NodeView::Dir(passthrough(), sub));
                },
                NodeView::File(_) => {
                    lemma_drop_orderly(t, name);
                },
            }
        },
    }
}

proof fn lemma_edited_below_orderly(t: TreeView, ps: Seq<Seq<char>>, name: Seq<char>, e: EditView)
    requires
        orderly(t),
        edit_orderly(e),
    ensures
        orderly(edited_below(t, ps, name, e)),
    decreases ps.len(),
{
    if ps.len() == 0 {
        lemma_edited_orderly(t, name, e);
    } else {
        match child(t, ps[0]) {
            Some(NodeView::File(_)) => {},
            Some(NodeView::Dir(d, sub)) => {
                lemma_child_orderly(t, ps[0]);
                lemma_edited_below_orderly(sub, ps.skip(1), name, e);
                let below = edited_below(sub, ps.skip(1), name, e);
                lemma_put_orderly(t, ps[0], NodeView::Dir(d, below));
            },
            None => {
                lemma_empty_orderly();
                lemma_edited_below_orderly(Map::empty(), ps.skip(1), name, e);
                let below = edited_below(Map::empty(), ps.skip(1), name, e);
                lemma_put_orderly(t, ps[0], NodeView::Dir(passthrough(), below));
            },
        }
    }
}

proof fn lemma_edited_at_orderly(t: TreeView, path: Seq<char>, e: EditView)
    requires
        orderly(t),
        edit_orderly(e),
    ensures
        orderly(edited_at(t, path, e)),
{
    if let Some((ps, name)) = parent_and_name(path) {
        lemma_edited_below_orderly(t, ps, name, e);
    }
}

proof fn lemma_without_orderly(t: TreeView, ps: Seq<Seq<char>>, name: Seq<char>)
    requires
        orderly(t),
    ensures
        orderly(without(t, ps, name)),
    decreases ps.len(),
{
    if ps.len() == 0 {
        lemma_drop_orderly(t, name);
    } else {
        match child(t, ps[0]) {
            Some(NodeView::Dir(d, sub)) => {
                lemma_child_orderly(t, ps[0]);
                lemma_without_orderly(sub, ps.skip(1), name);
                let below = without(sub, ps.skip(1), name);
                lemma_put_orderly(t, ps[0], NodeView::Dir(d, below));
            },
            _ => {},
        }
    }
}

proof fn lemma_below_orderly(t: TreeView, ps: Seq<Seq<char>>, name: Seq<char>)
    requires
        orderly(t),
    ensures
        node_below(t, ps, name) matches Some(n) ==> node_orderly(n),
    decreases ps.len(),
{
    if ps.len() == 0 {
        if t.contains_key(name) {
            lemma_child_orderly(t, name);
        }
    } else {
        match child(t, ps[0]) {
            Some(NodeView::Dir(_, sub)) => {
                lemma_child_orderly(t, ps[0]);
                lemma_below_orderly(sub, ps.skip(1), name);
            },
            _ => {},
        }
    }
}

proof fn lemma_move_orderly(
    t: TreeView,
    dst: Seq<char>,
    src: Seq<char>,
    is_dir: bool,
    in_base: bool,
)
    requires
        orderly(t),
        src.len() > 0,
    ensures
        orderly(after_move(t, dst, src, is_dir, in_base)),
{
    if dst != src {
        lemma_empty_orderly();
        let node = source_node(t, src);
        if let Some((ps, name)) = parent_and_name(src) {
            lemma_below_orderly(t, ps, name);
            lemma_without_orderly(t, ps, name);
        }
        let t1 = source_gone(t, src);
        lemma_edited_at_orderly(t1, src, EditView::Tombstone(is_dir));
        let covered = match node {
            Some(n) => n.dentry().covers_base(),
            None => true,
        };
        let t2 = if covered {
            edited_at(t1, src, EditView::Tombstone(is_dir))
        } else {
            t1
        };
        let moved = moved_node(node, src, is_dir, in_base);
        assert(node_orderly(moved));
        lemma_edited_at_orderly(t2, dst, EditView::Settle(moved));
        lemma_edited_at_orderly(t2, dst, EditView::Place(moved));
    }
}

/// True when nothing is moved from the empty path.
pub open spec fn sources_named(s: Seq<Action>) -> bool {
    forall|i: int|
        0 <= i < s.len() ==> match #[trigger] s[i] {
            Action::Rename { src, .. } => src@.len() > 0,
            Action::Replace { src, .. } => src@.len() > 0,
            _ => true,
        }
}

/// A tree that actions have built is finite, and none of its entries is
/// redirected to the empty path.
pub proof fn law_trees_are_orderly(s: Seq<Action>)
    requires
        sources_named(s),
    ensures
        orderly(after_actions(Map::empty(), s)),
    decreases s.len(),
{
    lemma_empty_orderly();
    if s.len() > 0 {
        let r = s.drop_last();
        assert forall|i: int| 0 <= i < r.len() implies match #[trigger] r[i] {
            Action::Rename { src, .. } => src@.len() > 0,
            Action::Replace { src, .. } => src@.len() > 0,
            _ => true,
        } by {
            assert(r[i] == s[i]);
        }
        law_trees_are_orderly(r);
        let t = after_actions(Map::empty(), r);
        assert(s[s.len() - 1] == s.last());
        match s.last() {
            Action::Add { path, dtype, ino } => {
                let d = DentryView { target: TargetView::Inode(ino), in_base: false };
                lemma_edited_at_orderly(t, path@, EditView::Stage(d, is_directory(dtype)));
            },
            Action::Modify { path, dtype, ino } => {
                let d = DentryView { target: TargetView::Inode(ino), in_base: true };
                lemma_edited_at_orderly(t, path@, EditView::Stage(d, is_directory(dtype)));
            },
            Action::Delete { path, dtype } => {
                lemma_edited_at_orderly(t, path@, EditView::Delete(is_directory(dtype)));
            },
            Action::Rename { src, dst, dtype } => {
                lemma_move_orderly(t, dst@, src@, is_directory(dtype), false);
            },
            Action::Replace { src, dst, dtype } => {
                lemma_move_orderly(t, dst@, src@, is_directory(dtype), true);
            },
        }
    }
}

} // verus!
