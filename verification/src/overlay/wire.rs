//! The bytes in which a tree is handed to the kernel module.
use super::listing::lemma_child_at;
use super::tree::{
    lemma_node_view, lemma_tree_finite, lemma_tree_view, Dentry, DentryView,
    DirNode, DirTree, NodeView, Target, TargetView, TreeView,
};
use crate::pathmap::sorted_keys;
use crate::sift::sift;
use crate::text::{law_str_lt_total, str_lt};
use vstd::prelude::*;

verus! {

/// Two bytes, the lower first.
pub open spec fn le16(n: nat) -> Seq<u8> {
    seq![(n % 256) as u8, (n / 256 % 256) as u8]
}

/// Four bytes, the lowest first.
pub open spec fn le32(n: nat) -> Seq<u8> {
    seq![
        (n % 256) as u8,
        (n / 256 % 256) as u8,
        (n / 65536 % 256) as u8,
        (n / 16777216 % 256) as u8,
    ]
}

/// The bytes of a string.
pub open spec fn utf8(s: Seq<char>) -> Seq<u8> {
    vstd::utf8::encode_utf8(s)
}

/// One byte for yes or no.
pub open spec fn flag(b: bool) -> u8 {
    if b {
        1
    } else {
        0
    }
}

/// The bytes of an entry: a tag, whether base has something there, and what it shows.
pub open spec fn dentry_bytes(d: DentryView) -> Seq<u8> {
    match d.target {
        TargetView::Path(None) => seq![2u8, 1u8] + le16(0),
        TargetView::Inode(ino) => seq![1u8, flag(d.in_base)] + le32(ino as nat),
        TargetView::Path(Some(p)) => seq![2u8, flag(d.in_base)] + le16(utf8(p).len()) + utf8(p),
        TargetView::Nothing => seq![3u8, flag(d.in_base)],
    }
}

/// Names in strictly rising byte order.
pub open spec fn names_rise(ks: Seq<Seq<char>>) -> bool {
    forall|i: int, j: int| 0 <= i < j < ks.len() ==> str_lt(#[trigger] ks[i], #[trigger] ks[j])
}

/// The names are those of the children, in byte order.
pub open spec fn are_names_of(ks: Seq<Seq<char>>, t: TreeView) -> bool {
    &&& names_rise(ks)
    &&& forall|k: Seq<char>| #[trigger] ks.contains(k) == t.contains_key(k)
}

/// The names of the children, in byte order.
pub open spec fn sorted_names(t: TreeView) -> Seq<Seq<char>> {
    choose|ks: Seq<Seq<char>>| are_names_of(ks, t)
}

/// A directory that leads to nothing.
pub open spec fn leads_nowhere(n: NodeView) -> bool {
    match n {
        NodeView::Dir(d, sub) => d.passes() && sub == Map::<Seq<char>, NodeView>::empty(),
        NodeView::File(_) => false,
    }
}

/// The names of the children that are written out, in byte order.
pub open spec fn written_names(t: TreeView) -> Seq<Seq<char>> {
    let ks = sorted_names(t);
    sift(ks, ks.len() as int, |i: int| !leads_nowhere(t[ks[i]]))
}

/// The bytes of a tree: the number of its children, then each child.
pub open spec fn tree_bytes(t: TreeView) -> Seq<u8>
    decreases t, 1int, 0int,
{
    let ks = written_names(t);
    le16(ks.len()) + children_bytes(t, ks, ks.len() as int)
}

/// The bytes of the first `n` children.
pub open spec fn children_bytes(t: TreeView, ks: Seq<Seq<char>>, n: int) -> Seq<u8>
    decreases t, 0int, n,
{
    if n <= 0 {
        Seq::empty()
    } else if t.dom().finite() && t.contains_key(ks[n - 1]) {
        children_bytes(t, ks, n - 1) + node_bytes(ks[n - 1], t[ks[n - 1]])
    } else {
        children_bytes(t, ks, n - 1)
    }
}

/// The bytes of a child: its name, its entry and its children.
pub open spec fn node_bytes(name: Seq<char>, n: NodeView) -> Seq<u8>
    decreases n, 0int, 0int,
{
    le16(utf8(name).len()) + utf8(name) + dentry_bytes(n.dentry()) + match n {
        NodeView::File(_) => le16(0),
        NodeView::Dir(_, sub) => tree_bytes(sub),
    }
}

/// True when the entry can be written: inodes are not 0, and 16 bits can tell
/// the length of a path.
pub open spec fn dentry_fits(d: DentryView) -> bool {
    match d.target {
        TargetView::Inode(ino) => ino > 0,
        TargetView::Path(Some(p)) => utf8(p).len() <= 65535,
        _ => true,
    }
}

/// True when the tree can be written: 16 bits can tell the number of children
/// of each directory and the length of each name, and each entry can be written.
pub open spec fn tree_fits(t: TreeView) -> bool
    decreases t,
{
    &&& written_names(t).len() <= 65535
    &&& forall|k: Seq<char>| #[trigger]
        t.contains_key(k) && t.dom().finite() && !leads_nowhere(t[k]) ==> utf8(k).len() <= 65535
            && node_fits(t[k])
}

/// True when the node can be written.
pub open spec fn node_fits(n: NodeView) -> bool
    decreases n,
{
    dentry_fits(n.dentry()) && match n {
        NodeView::File(_) => true,
        NodeView::Dir(_, sub) => tree_fits(sub),
    }
}

/// The names of the entries of a tree.
spec fn entry_names(t: DirTree) -> Seq<Seq<char>> {
    Seq::new(t.nodes.entries@.len(), |i: int| t.nodes.entries@[i].0@)
}

proof fn lemma_names_unique(a: Seq<Seq<char>>, b: Seq<Seq<char>>)
    requires
        names_rise(a),
        names_rise(b),
        forall|k: Seq<char>| #[trigger] a.contains(k) == b.contains(k),
    ensures
        a == b,
    decreases a.len(),
{
    if a.len() == 0 {
        if b.len() > 0 {
            assert(b.contains(b[0]));
            assert(a.contains(b[0]));
        }
        assert(a =~= b);
    } else {
        assert(a.contains(a[0]));
        assert(b.contains(a[0]));
        let (la, lb) = (a.last(), b.last());
        assert(a.contains(la));
        assert(b.contains(lb));
        assert(b.contains(la));
        assert(a.contains(lb));
        let i = choose|i: int| 0 <= i < b.len() && b[i] == la;
        let j = choose|j: int| 0 <= j < a.len() && a[j] == lb;
        if la != lb {
            law_str_lt_total(la, lb);
            assert(str_lt(b[i], b[b.len() - 1]));
            assert(str_lt(a[j], a[a.len() - 1]));
            assert(false);
        }
        let (x, y) = (a.drop_last(), b.drop_last());
        assert forall|k: Seq<char>| #[trigger] x.contains(k) == y.contains(k) by {
            if x.contains(k) {
                let p = choose|p: int| 0 <= p < x.len() && x[p] == k;
                assert(a[p] == k);
                assert(str_lt(a[p], a[a.len() - 1]));
                law_str_lt_total(la, la);
                assert(a.contains(k));
                let q = choose|q: int| 0 <= q < b.len() && b[q] == k;
                assert(q < b.len() - 1);
                assert(y[q] == k);
            }
            if y.contains(k) {
                let p = choose|p: int| 0 <= p < y.len() && y[p] == k;
                assert(b[p] == k);
                assert(str_lt(b[p], b[b.len() - 1]));
                law_str_lt_total(la, la);
                assert(b.contains(k));
                assert(a.contains(k));
                let q = choose|q: int| 0 <= q < a.len() && a[q] == k;
                assert(q < a.len() - 1);
                assert(x[q] == k);
            }
        }
        lemma_names_unique(x, y);
        assert(a =~= x.push(la));
        assert(b =~= y.push(lb));
    }
}

proof fn lemma_entry_names(t: DirTree)
    requires
        sorted_keys(t.nodes.entries@),
    ensures
        sorted_names(t@) == entry_names(t),
        are_names_of(entry_names(t), t@),
{
    let ks = entry_names(t);
    let e = t.nodes.entries@;
    assert forall|k: Seq<char>| #[trigger] ks.contains(k) == t@.contains_key(k) by {
        lemma_tree_view(t, k);
        crate::pathmap::lemma_view(t.nodes);
        crate::pathmap::lemma_entries_map(e);
        if ks.contains(k) {
            let i = choose|i: int| 0 <= i < ks.len() && ks[i] == k;
            assert(e[i].0@ == k);
        }
        if t@.contains_key(k) {
            let i = choose|i: int| 0 <= i < e.len() && (#[trigger] e[i]).0@ == k;
            assert(ks[i] == k);
        }
    }
    assert(are_names_of(ks, t@));
    let other = sorted_names(t@);
    assert(are_names_of(other, t@));
    assert forall|k: Seq<char>| #[trigger] other.contains(k) == ks.contains(k) by {
        assert(other.contains(k) == t@.contains_key(k));
    }
    lemma_names_unique(other, ks);
}

/// Appends two bytes, the lower first.
fn push_le16(buf: &mut Vec<u8>, n: usize)
    ensures
        final(buf)@ == old(buf)@ + le16(n as nat),
{
    let ghost before = buf@;
    buf.push((n % 256) as u8);
    buf.push((n / 256 % 256) as u8);
    assert(buf@ =~= before + le16(n as nat));
}

/// Appends bytes.
fn push_bytes(buf: &mut Vec<u8>, bytes: &[u8])
    ensures
        final(buf)@ == old(buf)@ + bytes@,
{
    let ghost before = buf@;
    let mut i: usize = 0;
    assert(before + bytes@.take(0) =~= before);
    while i < bytes.len()
        invariant
            i <= bytes@.len(),
            buf@ == before + bytes@.take(i as int),
        decreases bytes@.len() - i,
    {
        buf.push(bytes[i]);
        proof {
            assert(before + bytes@.take(i + 1) =~= (before + bytes@.take(i as int)).push(
                bytes@[i as int],
            ));
        }
        i += 1;
    }
    assert(bytes@.take(bytes@.len() as int) =~= bytes@);
}

impl DirTree {
    /// Appends the bytes of an entry.
    fn serialize_dentry(dentry: &Dentry, buf: &mut Vec<u8>)
        requires
            dentry_fits(dentry@),
        ensures
            final(buf)@ == old(buf)@ + dentry_bytes(dentry@),
    {
        let ghost before = buf@;
        let in_base: u8 = if dentry.in_base {
            1
        } else {
            0
        };
        match &dentry.target {
            Target::Path(None) => {
                buf.push(2);
                buf.push(1);
                push_le16(buf, 0);
            },
            Target::Inode(ino) => {
                let n: u32 = *ino;
                buf.push(1);
                buf.push(in_base);
                buf.push((n % 256) as u8);
                buf.push((n / 256 % 256) as u8);
                buf.push((n / 65536 % 256) as u8);
                buf.push((n / 16777216 % 256) as u8);
            },
            Target::Path(Some(src)) => {
                let bytes = src.as_str().as_bytes();
                buf.push(2);
                buf.push(in_base);
                push_le16(buf, bytes.len());
                push_bytes(buf, bytes);
            },
            Target::Nothing => {
                buf.push(3);
                buf.push(in_base);
            },
        }
        assert(buf@ =~= before + dentry_bytes(dentry@));
    }

    /// True when the directory leads to nothing.
    fn is_empty_scaffold(node: &DirNode) -> (r: bool)
        ensures
            r == leads_nowhere(node@),
    {
        proof {
            lemma_node_view(*node);
        }
        match node {
            DirNode::Dir(d, sub) => d.is_passthrough() && sub.has_no_children(),
            DirNode::File(_) => false,
        }
    }

    /// True when the directory has no children.
    fn has_no_children(&self) -> (r: bool)
        ensures
            r == (self@ == Map::<Seq<char>, NodeView>::empty()),
    {
        let r: bool = self.nodes.is_empty();
        proof {
            if r {
                assert forall|k: Seq<char>| !(#[trigger] self@.contains_key(k)) by {
                    lemma_tree_view(*self, k);
                }
                assert(self@ =~= Map::<Seq<char>, NodeView>::empty());
            } else if self@ == Map::<Seq<char>, NodeView>::empty() {
                assert forall|k: Seq<char>| !(#[trigger] self.nodes@.contains_key(k)) by {
                    lemma_tree_view(*self, k);
                }
                assert(self.nodes@ =~= Map::<Seq<char>, DirNode>::empty());
            }
        }
        r
    }

    /// The number of children that are written out.
    fn count_written(&self) -> (n: usize)
        ensures
            n == written_names(self@).len(),
    {
        let entries = self.nodes.raw_entries();
        let ghost ks = entry_names(*self);
        let ghost keep = |i: int| !leads_nowhere(self@[ks[i]]);
        proof {
            lemma_entry_names(*self);
        }
        let mut n: usize = 0;
        let mut i: usize = 0;
        while i < entries.len()
            invariant
                n <= i <= entries@.len(),
                *entries == self.nodes.entries,
                sorted_keys(entries@),
                ks == entry_names(*self),
                keep == (|i: int| !leads_nowhere(self@[ks[i]])),
                n == sift(ks, i as int, keep).len(),
            decreases entries@.len() - i,
        {
            proof {
                lemma_child_at(*self, i as int);
            }
            if !DirTree::is_empty_scaffold(&entries[i].1) {
                n += 1;
            }
            i += 1;
        }
        n
    }

    /// Appends the bytes of the tree.
    fn serialize_into(&self, buf: &mut Vec<u8>)
        requires
            tree_fits(self@),
        ensures
            final(buf)@ == old(buf)@ + tree_bytes(self@),
        decreases *self,
    {
        let ghost before = buf@;
        let entries = self.nodes.raw_entries();
        let ghost ks = entry_names(*self);
        let ghost keep = |i: int| !leads_nowhere(self@[ks[i]]);
        let ghost ws = written_names(self@);
        proof {
            lemma_entry_names(*self);
            lemma_tree_finite(*self);
        }
        push_le16(buf, self.count_written());
        let ghost head = le16(ws.len());
        assert(head + children_bytes(self@, ws, 0) =~= head);
        let mut i: usize = 0;
        while i < entries.len()
            invariant
                i <= entries@.len(),
                *entries == self.nodes.entries,
                sorted_keys(entries@),
                tree_fits(self@),
                self@.dom().finite(),
                ks == entry_names(*self),
                keep == (|i: int| !leads_nowhere(self@[ks[i]])),
                ws == sift(ks, ks.len() as int, keep),
                buf@ == before + (head + children_bytes(
                    self@,
                    ws,
                    sift(ks, i as int, keep).len() as int,
                )),
            decreases entries@.len() - i,
        {
            let ghost so_far = buf@;
            let ghost n = sift(ks, i as int, keep).len() as int;
            let ghost name = entries@[i as int].0@;
            let node: &DirNode = &entries[i].1;
            proof {
                lemma_child_at(*self, i as int);
                lemma_node_view(*node);
                assert(self@.contains_key(name) && self@[name] == node@);
            }
            if !DirTree::is_empty_scaffold(node) {
                proof {
                    assert(keep(i as int));
                    lemma_sift_index(ks, i as int, ks.len() as int, keep);
                    assert(ws[n] == name);
                    assert(node_fits(node@));
                }
                let bytes = entries[i].0.as_str().as_bytes();
                push_le16(buf, bytes.len());
                push_bytes(buf, bytes);
                DirTree::serialize_dentry(node.dentry(), buf);
                match node {
                    DirNode::File(_) => {
                        push_le16(buf, 0);
                    },
                    DirNode::Dir(_, sub) => {
                        sub.serialize_into(buf);
                    },
                }
                proof {
                    assert(buf@ =~= so_far + node_bytes(name, node@));
                    assert(children_bytes(self@, ws, n + 1) == children_bytes(self@, ws, n)
                        + node_bytes(name, node@));
                    assert(buf@ =~= before + (head + children_bytes(self@, ws, n + 1)));
                }
            }
            i += 1;
        }
        assert(buf@ == before + tree_bytes(self@));
    }

    /// Writes the tree out for the kernel module.
    ///
    /// A tree is the number of its children in two bytes and then its
    /// children, by name. A child is the length of its name in two bytes, the
    /// name, its entry, and the tree of its children. An entry is a tag, one
    /// byte for whether base has something there, and for tag 1 an inode in
    /// four bytes, for tag 2 the length of a path in two bytes and the path, and
    /// for tag 3 nothing. Directories that lead to nothing are left out.
    pub fn serialize(&self) -> (r: Vec<u8>)
        requires
            tree_fits(self@),
        ensures
            r@ == tree_bytes(self@),
    {
        let mut buf: Vec<u8> = Vec::new();
        self.serialize_into(&mut buf);
        assert(Seq::<u8>::empty() + tree_bytes(self@) =~= tree_bytes(self@));
        buf
    }

    /// True when the tree can be written out.
    pub fn fits(&self) -> (r: bool)
        ensures
            r == tree_fits(self@),
        decreases *self,
    {
        let entries = self.nodes.raw_entries();
        proof {
            lemma_tree_finite(*self);
        }
        if self.count_written() > 65535 {
            return false;
        }
        let mut i: usize = 0;
        while i < entries.len()
            invariant
                i <= entries@.len(),
                *entries == self.nodes.entries,
                sorted_keys(entries@),
                self@.dom().finite(),
                forall|j: int|
                    0 <= j < i ==> leads_nowhere(self@[(#[trigger] entries@[j]).0@]) || (utf8(
                        entries@[j].0@,
                    ).len() <= 65535 && node_fits(self@[entries@[j].0@])),
            decreases entries@.len() - i,
        {
            let node: &DirNode = &entries[i].1;
            let ghost name = entries@[i as int].0@;
            proof {
                lemma_child_at(*self, i as int);
                lemma_node_view(*node);
                assert(self@.contains_key(name) && self@[name] == node@);
            }
            if !DirTree::is_empty_scaffold(node) {
                if entries[i].0.as_str().as_bytes().len() > 65535 {
                    return false;
                }
                if !DirTree::dentry_can_be_written(node.dentry()) {
                    return false;
                }
                if let DirNode::Dir(_, sub) = node {
                    if !sub.fits() {
                        return false;
                    }
                }
            }
            i += 1;
        }
        proof {
            assert forall|k: Seq<char>| #[trigger]
                self@.contains_key(k) && self@.dom().finite() && !leads_nowhere(
                    self@[k],
                ) implies utf8(k).len() <= 65535 && node_fits(self@[k]) by {
                lemma_tree_view(*self, k);
                crate::pathmap::lemma_view(self.nodes);
                crate::pathmap::lemma_entries_map(entries@);
                let j = choose|j: int| 0 <= j < entries@.len() && (#[trigger] entries@[j]).0@ == k;
                assert(entries@[j].0@ == k);
            }
        }
        true
    }

    /// True when the entry can be written out.
    fn dentry_can_be_written(d: &Dentry) -> (r: bool)
        ensures
            r == dentry_fits(d@),
    {
        match &d.target {
            Target::Inode(ino) => *ino > 0,
            Target::Path(Some(p)) => p.as_str().as_bytes().len() <= 65535,
            _ => true,
        }
    }
}

/// What is kept of the first `n` positions keeps its place in what is kept of all.
proof fn lemma_sift_index(s: Seq<Seq<char>>, i: int, n: int, keep: spec_fn(int) -> bool)
    requires
        0 <= i < n <= s.len(),
        keep(i),
    ensures
        sift(s, i, keep).len() < sift(s, n, keep).len(),
        sift(s, n, keep)[sift(s, i, keep).len() as int] == s[i],
    decreases n - i,
{
    if n > i + 1 {
        lemma_sift_index(s, i, n - 1, keep);
    }
}

} // verus!
