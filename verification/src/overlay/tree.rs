//! The tree of directory entries: actions applied one after the other.
//!
//! Three rules govern `in_base` and negative entries, that is those with no
//! target over something in base:
//!
//! 1. An addition or a rename puts something where base has nothing, a
//!    modification or a replacement where base has something.
//! 2. A move away from something in base leaves a negative entry.
//! 3. A deletion of what base does not have takes the entry away; any other
//!    leaves a negative entry.
//!
//! Directories that only lead to deeper entries carry a passthrough entry.
use super::path::{name_views, names, parent_and_name, split_names, split_parent};
use super::types::{Action, Segment};
use crate::dtype::DT_DIR;
use crate::pathmap::{entries_map, PathMap};
use vstd::prelude::*;

verus! {

/// What an entry shows.
#[derive(Debug)]
pub enum Target {
    /// A staged inode.
    Inode(u32),
    /// What stands at a path in base; `None` for what stands there anyway.
    Path(Option<String>),
    /// Nothing: a negative entry.
    Nothing,
}

/// The state of a single entry.
#[derive(Debug)]
pub struct Dentry {
    pub target: Target,
    /// Whether base has something at this place.
    pub in_base: bool,
}

/// A node of the tree: a leaf or a directory with its children.
#[derive(Debug)]
pub enum DirNode {
    File(Dentry),
    Dir(Dentry, DirTree),
}

/// The children of a directory, by name.
#[derive(Debug)]
pub struct DirTree {
    pub nodes: PathMap<DirNode>,
}

// ── Mathematical values ──────────────────────────────────────────────

/// What an entry shows, as a mathematical value.
pub enum TargetView {
    Inode(u32),
    Path(Option<Seq<char>>),
    Nothing,
}

/// The state of an entry as a mathematical value.
pub struct DentryView {
    pub target: TargetView,
    pub in_base: bool,
}

/// A node as a mathematical value.
pub enum NodeView {
    File(DentryView),
    Dir(DentryView, Map<Seq<char>, NodeView>),
}

/// A tree as a mathematical value.
pub type TreeView = Map<Seq<char>, NodeView>;

impl View for Target {
    type V = TargetView;

    open spec fn view(&self) -> TargetView {
        match self {
            Target::Inode(i) => TargetView::Inode(*i),
            Target::Path(Some(p)) => TargetView::Path(Some(p@)),
            Target::Path(None) => TargetView::Path(None),
            Target::Nothing => TargetView::Nothing,
        }
    }
}

impl View for Dentry {
    type V = DentryView;

    open spec fn view(&self) -> DentryView {
        DentryView { target: self.target@, in_base: self.in_base }
    }
}

/// The children that the first `n` entries stand for.
closed spec fn nodes_view(t: DirTree, n: int) -> TreeView
    decreases t, n,
{
    if n <= 0 || n > t.nodes.entries@.len() {
        Map::empty()
    } else {
        nodes_view(t, n - 1).insert(
            t.nodes.entries@[n - 1].0@,
            node_view(t.nodes.entries@[n - 1].1),
        )
    }
}

closed spec fn node_view(n: DirNode) -> NodeView
    decreases n,
{
    match n {
        DirNode::File(d) => NodeView::File(d@),
        DirNode::Dir(d, t) => NodeView::Dir(d@, nodes_view(t, t.nodes.entries@.len() as int)),
    }
}

impl View for DirTree {
    type V = TreeView;

    closed spec fn view(&self) -> TreeView {
        nodes_view(*self, self.nodes.entries@.len() as int)
    }
}

impl View for DirNode {
    type V = NodeView;

    closed spec fn view(&self) -> NodeView {
        node_view(*self)
    }
}

/// The children of a tree, looked at one by one.
pub broadcast proof fn lemma_tree_view(t: DirTree, k: Seq<char>)
    ensures
        (#[trigger] t@.contains_key(k)) == t.nodes@.contains_key(k),
        t@.contains_key(k) ==> t@[k] == t.nodes@[k]@,
{
    lemma_nodes_view(t, t.nodes.entries@.len() as int, k);
    crate::pathmap::lemma_view(t.nodes);
    assert(t.nodes.entries@.take(t.nodes.entries@.len() as int) =~= t.nodes.entries@);
}

proof fn lemma_nodes_view(t: DirTree, n: int, k: Seq<char>)
    requires
        0 <= n <= t.nodes.entries@.len(),
    ensures
        nodes_view(t, n).contains_key(k) == entries_map(t.nodes.entries@.take(n)).contains_key(k),
        nodes_view(t, n).contains_key(k) ==> nodes_view(t, n)[k] == node_view(
            entries_map(t.nodes.entries@.take(n))[k],
        ),
    decreases n,
{
    if n > 0 {
        lemma_nodes_view(t, n - 1, k);
        assert(t.nodes.entries@.take(n).drop_last() =~= t.nodes.entries@.take(n - 1));
    }
}

/// The value of a node, by its kind.
pub broadcast proof fn lemma_node_view(n: DirNode)
    ensures
        #[trigger] n@ == (match n {
            DirNode::File(d) => NodeView::File(d@),
            DirNode::Dir(d, t) => NodeView::Dir(d@, t@),
        }),
{
}

/// A tree has finitely many children.
pub proof fn lemma_tree_finite(t: DirTree)
    ensures
        t@.dom().finite(),
{
    lemma_nodes_finite(t, t.nodes.entries@.len() as int);
}

proof fn lemma_nodes_finite(t: DirTree, n: int)
    ensures
        nodes_view(t, n).dom().finite(),
    decreases n,
{
    if n > 0 {
        lemma_nodes_finite(t, n - 1);
    }
}

// ── Looking up ───────────────────────────────────────────────────────

/// The entry of a directory that only leads to deeper entries.
pub open spec fn passthrough() -> DentryView {
    DentryView { target: TargetView::Path(None), in_base: true }
}

/// A negative entry.
pub open spec fn tombstone() -> DentryView {
    DentryView { target: TargetView::Nothing, in_base: true }
}

impl DentryView {
    /// True when the entry shows what stands there anyway.
    pub open spec fn passes(self) -> bool {
        self.target == TargetView::Path(None)
    }

    /// True when the entry covers something in base.
    pub open spec fn covers_base(self) -> bool {
        self.passes() || self.in_base
    }
}

impl NodeView {
    /// The entry of a node.
    pub open spec fn dentry(self) -> DentryView {
        match self {
            NodeView::File(d) => d,
            NodeView::Dir(d, _) => d,
        }
    }
}

/// The child of that name.
pub open spec fn child(t: TreeView, name: Seq<char>) -> Option<NodeView> {
    if t.contains_key(name) {
        Some(t[name])
    } else {
        None
    }
}

/// The node at a path of names.
pub open spec fn node_at(t: TreeView, ps: Seq<Seq<char>>) -> Option<NodeView>
    decreases ps.len(),
{
    if ps.len() == 0 {
        None
    } else if ps.len() == 1 {
        child(t, ps[0])
    } else {
        match child(t, ps[0]) {
            Some(NodeView::Dir(_, sub)) => node_at(sub, ps.skip(1)),
            _ => None,
        }
    }
}

/// The entry at a path of names that is a staged change.
pub open spec fn staged_at(t: TreeView, ps: Seq<Seq<char>>) -> Option<DentryView> {
    match node_at(t, ps) {
        Some(n) => if n.dentry().passes() {
            None
        } else {
            Some(n.dentry())
        },
        None => None,
    }
}

impl Dentry {
    /// The entry of a directory that only leads to deeper entries.
    pub fn passthrough() -> (r: Self)
        ensures
            r@ == passthrough(),
    {
        Dentry { target: Target::Path(None), in_base: true }
    }

    /// A negative entry.
    fn tombstone() -> (r: Self)
        ensures
            r@ == tombstone(),
    {
        Dentry { target: Target::Nothing, in_base: true }
    }

    /// True when the entry shows what stands there anyway.
    pub fn is_passthrough(&self) -> (r: bool)
        ensures
            r == self@.passes(),
    {
        match self.target {
            Target::Path(None) => true,
            _ => false,
        }
    }

    /// True when the entry covers something in base.
    fn covers_base(&self) -> (r: bool)
        ensures
            r == self@.covers_base(),
    {
        self.is_passthrough() || self.in_base
    }

    /// True when the entry at `path` involves `query`, as its place or its source.
    pub fn matches_path(&self, path: &str, query: &str) -> (r: bool)
        ensures
            r == (path@ == query@ || self@.target == TargetView::Path(Some(query@))),
    {
        if crate::text::same(path, query) {
            return true;
        }
        match &self.target {
            Target::Path(Some(src)) => crate::text::same(src.as_str(), query),
            _ => false,
        }
    }
}

impl DirNode {
    /// The entry of a node.
    pub fn dentry(&self) -> (r: &Dentry)
        ensures
            r@ == self@.dentry(),
    {
        proof {
            lemma_node_view(*self);
        }
        match self {
            DirNode::File(d) => d,
            DirNode::Dir(d, _) => d,
        }
    }
}

impl DirTree {
    pub fn new() -> (r: Self)
        ensures
            r@ == Map::<Seq<char>, NodeView>::empty(),
    {
        let r = DirTree { nodes: PathMap::new() };
        proof {
            assert forall|k: Seq<char>| !(#[trigger] r@.contains_key(k)) by {
                lemma_tree_view(r, k);
            }
            assert(r@ =~= Map::<Seq<char>, NodeView>::empty());
        }
        r
    }

    /// The node at the names `parts[i..]`.
    fn node_below(&self, parts: &Vec<String>, i: usize) -> (r: Option<&DirNode>)
        requires
            i < parts@.len(),
        ensures
            match r {
                Some(n) => node_at(self@, name_views(parts@).skip(i as int)) == Some(n@),
                None => node_at(self@, name_views(parts@).skip(i as int)) is None,
            },
        decreases parts@.len() - i,
    {
        let ghost ps = name_views(parts@).skip(i as int);
        proof {
            lemma_tree_view(*self, parts@[i as int]@);
            assert(ps[0] == parts@[i as int]@);
            assert(ps.skip(1) =~= name_views(parts@).skip(i + 1));
        }
        match self.nodes.get(parts[i].as_str()) {
            Some(node) => {
                proof {
                    lemma_node_view(*node);
                }
                if i == parts.len() - 1 {
                    return Some(node);
                }
                match node {
                    DirNode::Dir(_, sub) => sub.node_below(parts, i + 1),
                    DirNode::File(_) => None,
                }
            },
            None => None,
        }
    }

    /// Looks up a node by its path.
    pub fn get_node(&self, path: &str) -> (r: Option<&DirNode>)
        ensures
            match r {
                Some(n) => node_at(self@, names(path@)) == Some(n@),
                None => node_at(self@, names(path@)) is None,
            },
    {
        let parts = split_names(path);
        if parts.len() == 0 {
            return None;
        }
        assert(name_views(parts@).skip(0) =~= names(path@));
        self.node_below(&parts, 0)
    }

    /// Looks up an entry by its path; `None` where there is none or it is a passthrough.
    pub fn get(&self, path: &str) -> (r: Option<&Dentry>)
        ensures
            match r {
                Some(d) => staged_at(self@, names(path@)) == Some(d@),
                None => staged_at(self@, names(path@)) is None,
            },
    {
        match self.get_node(path) {
            Some(n) => {
                let d = n.dentry();
                if d.is_passthrough() {
                    None
                } else {
                    Some(d)
                }
            },
            None => None,
        }
    }
}

// ── Edits ────────────────────────────────────────────────────────────

/// An edit of one child of a directory.
enum Edit {
    Stage(Dentry, bool),
    Delete(bool),
    Tombstone(bool),
    Place(DirNode),
    Settle(DirNode),
}

/// An edit of one child of a directory, as a mathematical value.
pub enum EditView {
    /// Put an entry there, on a directory or on a leaf.
    Stage(DentryView, bool),
    /// Delete a directory or a leaf.
    Delete(bool),
    /// Put a negative entry there.
    Tombstone(bool),
    /// Put a node there.
    Place(NodeView),
    /// Put a node there that has come back to where it was: a directory shows
    /// what stands there anyway, and a leaf is gone.
    Settle(NodeView),
}

impl Edit {
    spec fn value(self) -> EditView {
        match self {
            Edit::Stage(d, is_dir) => EditView::Stage(d@, is_dir),
            Edit::Delete(is_dir) => EditView::Delete(is_dir),
            Edit::Tombstone(is_dir) => EditView::Tombstone(is_dir),
            Edit::Place(n) => EditView::Place(n@),
            Edit::Settle(n) => EditView::Settle(n@),
        }
    }
}

/// The node that a negative entry makes of what stands there; the children of
/// a directory stay.
pub open spec fn tombstoned(was: Option<NodeView>, is_dir: bool) -> NodeView {
    match was {
        Some(NodeView::File(_)) => NodeView::File(tombstone()),
        Some(NodeView::Dir(_, sub)) => NodeView::Dir(tombstone(), sub),
        None => if is_dir {
            NodeView::Dir(tombstone(), Map::empty())
        } else {
            NodeView::File(tombstone())
        },
    }
}

/// The children after an edit of the one called `name`.
pub open spec fn edited(t: TreeView, name: Seq<char>, e: EditView) -> TreeView {
    match e {
        EditView::Stage(d, is_dir) => if is_dir {
            match child(t, name) {
                Some(NodeView::Dir(_, sub)) => t.insert(name, NodeView::Dir(d, sub)),
                _ => t.insert(name, NodeView::Dir(d, Map::empty())),
            }
        } else {
            t.insert(name, NodeView::File(d))
        },
        EditView::Delete(is_dir) => match child(t, name) {
            Some(n) => if n.dentry().covers_base() {
                t.insert(name, tombstoned(Some(n), is_dir))
            } else {
                t.remove(name)
            },
            None => t.insert(name, tombstoned(None, is_dir)),
        },
        EditView::Tombstone(is_dir) => t.insert(name, tombstoned(child(t, name), is_dir)),
        EditView::Place(n) => t.insert(name, n),
        EditView::Settle(n) => match n {
            NodeView::Dir(_, sub) => t.insert(name, NodeView::Dir(passthrough(), sub)),
            NodeView::File(_) => t.remove(name),
        },
    }
}

/// The tree after an edit of the child `name` of the directory at `ps`.
/// Directories that are not there are made; where a leaf stands in the way
/// nothing happens.
pub open spec fn edited_below(
    t: TreeView,
    ps: Seq<Seq<char>>,
    name: Seq<char>,
    e: EditView,
) -> TreeView
    decreases ps.len(),
{
    if ps.len() == 0 {
        edited(t, name, e)
    } else {
        match child(t, ps[0]) {
            Some(NodeView::File(_)) => t,
            Some(NodeView::Dir(d, sub)) => t.insert(
                ps[0],
                NodeView::Dir(d, edited_below(sub, ps.skip(1), name, e)),
            ),
            None => t.insert(
                ps[0],
                NodeView::Dir(passthrough(), edited_below(Map::empty(), ps.skip(1), name, e)),
            ),
        }
    }
}

/// The tree after an edit at a path; a path without a last name changes nothing.
pub open spec fn edited_at(t: TreeView, path: Seq<char>, e: EditView) -> TreeView {
    match parent_and_name(path) {
        Some((ps, name)) => edited_below(t, ps, name, e),
        None => t,
    }
}

/// The tree without the node at `ps` and then `name`.
pub open spec fn without(t: TreeView, ps: Seq<Seq<char>>, name: Seq<char>) -> TreeView
    decreases ps.len(),
{
    if ps.len() == 0 {
        t.remove(name)
    } else {
        match child(t, ps[0]) {
            Some(NodeView::Dir(d, sub)) => t.insert(
                ps[0],
                NodeView::Dir(d, without(sub, ps.skip(1), name)),
            ),
            _ => t,
        }
    }
}

/// The node at `ps` and then `name`.
pub open spec fn node_below(t: TreeView, ps: Seq<Seq<char>>, name: Seq<char>) -> Option<NodeView>
    decreases ps.len(),
{
    if ps.len() == 0 {
        child(t, name)
    } else {
        match child(t, ps[0]) {
            Some(NodeView::Dir(_, sub)) => node_below(sub, ps.skip(1), name),
            _ => None,
        }
    }
}

impl DirTree {
    /// Puts a child there.
    fn put_child(&mut self, name: String, node: DirNode)
        ensures
            final(self)@ == old(self)@.insert(name@, node@),
    {
        self.nodes.insert(name, node);
        proof {
            let m = old(self)@.insert(name@, node@);
            assert forall|k: Seq<char>| #[trigger] self@.contains_key(k) == m.contains_key(k) by {
                lemma_tree_view(*self, k);
                lemma_tree_view(*old(self), k);
            }
            assert forall|k: Seq<char>| self@.contains_key(k) implies #[trigger] self@[k]
                == m[k] by {
                lemma_tree_view(*self, k);
                lemma_tree_view(*old(self), k);
            }
            assert(self@ =~= m);
        }
    }

    /// Takes a child away.
    fn take_child(&mut self, name: &str) -> (r: Option<DirNode>)
        ensures
            final(self)@ == old(self)@.remove(name@),
            match r {
                Some(n) => child(old(self)@, name@) == Some(n@),
                None => child(old(self)@, name@) is None,
            },
    {
        let r = self.nodes.remove(name);
        proof {
            lemma_tree_view(*old(self), name@);
            let m = old(self)@.remove(name@);
            assert forall|k: Seq<char>| #[trigger] self@.contains_key(k) == m.contains_key(k) by {
                lemma_tree_view(*self, k);
                lemma_tree_view(*old(self), k);
            }
            assert forall|k: Seq<char>| self@.contains_key(k) implies #[trigger] self@[k]
                == m[k] by {
                lemma_tree_view(*self, k);
                lemma_tree_view(*old(self), k);
            }
            assert(self@ =~= m);
        }
        r
    }

    /// The node that a negative entry makes of what stood there.
    fn tombstone_over(was: Option<DirNode>, is_dir: bool) -> (r: DirNode)
        ensures
            r@ == tombstoned(
                match was {
                    Some(n) => Some(n@),
                    None => None,
                },
                is_dir,
            ),
    {
        let r = match was {
            Some(DirNode::File(_)) => DirNode::File(Dentry::tombstone()),
            Some(DirNode::Dir(_, sub)) => DirNode::Dir(Dentry::tombstone(), sub),
            None => if is_dir {
                DirNode::Dir(Dentry::tombstone(), DirTree::new())
            } else {
                DirNode::File(Dentry::tombstone())
            },
        };
        proof {
            lemma_node_view(r);
            if was is Some {
                lemma_node_view(was->0);
            }
        }
        r
    }

    /// Edits the child called `name`.
    fn edit_child(&mut self, name: String, e: Edit)
        ensures
            final(self)@ == edited(old(self)@, name@, e.value()),
    {
        let ghost t = self@;
        let ghost k = name@;
        let was = self.take_child(name.as_str());
        proof {
            if was is Some {
                lemma_node_view(was->0);
            }
        }
        let node: Option<DirNode> = match e {
            Edit::Stage(d, is_dir) => if is_dir {
                match was {
                    Some(DirNode::Dir(_, sub)) => Some(DirNode::Dir(d, sub)),
                    _ => Some(DirNode::Dir(d, DirTree::new())),
                }
            } else {
                Some(DirNode::File(d))
            },
            Edit::Delete(is_dir) => {
                let covers: bool = match &was {
                    Some(n) => n.dentry().covers_base(),
                    None => true,
                };
                if covers {
                    Some(DirTree::tombstone_over(was, is_dir))
                } else {
                    None
                }
            },
            Edit::Tombstone(is_dir) => Some(DirTree::tombstone_over(was, is_dir)),
            Edit::Place(n) => Some(n),
            Edit::Settle(n) => {
                proof {
                    lemma_node_view(n);
                }
                match n {
                    DirNode::Dir(_, sub) => Some(DirNode::Dir(Dentry::passthrough(), sub)),
                    DirNode::File(_) => None,
                }
            },
        };
        match node {
            Some(n) => {
                proof {
                    lemma_node_view(n);
                    assert(t.remove(k).insert(k, n@) =~= t.insert(k, n@));
                }
                self.put_child(name, n);
            },
            None => {},
        }
    }

    /// Edits the child `name` of the directory at `parts[i..]`.
    fn edit_below(&mut self, parts: &Vec<String>, i: usize, name: String, e: Edit)
        requires
            i <= parts@.len(),
        ensures
            final(self)@ == edited_below(
                old(self)@,
                name_views(parts@).skip(i as int),
                name@,
                e.value(),
            ),
        decreases parts@.len() - i,
    {
        let ghost t = self@;
        let ghost ps = name_views(parts@).skip(i as int);
        if i == parts.len() {
            assert(ps.len() == 0);
            self.edit_child(name, e);
            return ;
        }
        let ghost k = parts@[i as int]@;
        proof {
            assert(ps[0] == k);
            assert(ps.skip(1) =~= name_views(parts@).skip(i + 1));
        }
        match self.take_child(parts[i].as_str()) {
            Some(node) => {
                proof {
                    lemma_node_view(node);
                }
                match node {
                    DirNode::File(d) => {
                        let back = DirNode::File(d);
                        proof {
                            lemma_node_view(back);
                            assert(t.remove(k).insert(k, back@) =~= t);
                        }
                        self.put_child(parts[i].clone(), back);
                    },
                    DirNode::Dir(d, sub) => {
                        let mut sub = sub;
                        sub.edit_below(parts, i + 1, name, e);
                        let back = DirNode::Dir(d, sub);
                        proof {
                            lemma_node_view(back);
                            assert(t.remove(k).insert(k, back@) =~= t.insert(k, back@));
                        }
                        self.put_child(parts[i].clone(), back);
                    },
                }
            },
            None => {
                let mut sub = DirTree::new();
                sub.edit_below(parts, i + 1, name, e);
                let made = DirNode::Dir(Dentry::passthrough(), sub);
                proof {
                    lemma_node_view(made);
                    assert(t.remove(k).insert(k, made@) =~= t.insert(k, made@));
                }
                self.put_child(parts[i].clone(), made);
            },
        }
    }

    /// Edits what stands at a path.
    fn edit_at(&mut self, path: &str, e: Edit)
        ensures
            final(self)@ == edited_at(old(self)@, path@, e.value()),
    {
        match split_parent(path) {
            Some((parts, name)) => {
                assert(name_views(parts@).skip(0) =~= name_views(parts@));
                self.edit_below(&parts, 0, name, e);
            },
            None => {},
        }
    }

    /// Takes the node at `parts[i..]` and then `name` out.
    fn detach_below(&mut self, parts: &Vec<String>, i: usize, name: &str) -> (r: Option<DirNode>)
        requires
            i <= parts@.len(),
        ensures
            final(self)@ == without(old(self)@, name_views(parts@).skip(i as int), name@),
            match r {
                Some(n) => node_below(old(self)@, name_views(parts@).skip(i as int), name@)
                    == Some(n@),
                None => node_below(old(self)@, name_views(parts@).skip(i as int), name@) is None,
            },
        decreases parts@.len() - i,
    {
        let ghost t = self@;
        let ghost ps = name_views(parts@).skip(i as int);
        if i == parts.len() {
            assert(ps.len() == 0);
            return self.take_child(name);
        }
        let ghost k = parts@[i as int]@;
        proof {
            assert(ps[0] == k);
            assert(ps.skip(1) =~= name_views(parts@).skip(i + 1));
        }
        match self.take_child(parts[i].as_str()) {
            Some(node) => {
                proof {
                    lemma_node_view(node);
                }
                match node {
                    DirNode::File(d) => {
                        let back = DirNode::File(d);
                        proof {
                            lemma_node_view(back);
                            assert(t.remove(k).insert(k, back@) =~= t);
                        }
                        self.put_child(parts[i].clone(), back);
                        None
                    },
                    DirNode::Dir(d, sub) => {
                        let mut sub = sub;
                        let r = sub.detach_below(parts, i + 1, name);
                        let back = DirNode::Dir(d, sub);
                        proof {
                            lemma_node_view(back);
                            assert(t.remove(k).insert(k, back@) =~= t.insert(k, back@));
                        }
                        self.put_child(parts[i].clone(), back);
                        r
                    },
                }
            },
            None => {
                assert(t.remove(k) =~= t);
                None
            },
        }
    }
}

// ── Actions ──────────────────────────────────────────────────────────

/// True when the kind given, if any, is that of a directory.
pub open spec fn is_directory(dtype: Option<u8>) -> bool {
    dtype == Some(DT_DIR)
}

/// The node that a move puts at its destination: what stood at the source, or
/// a redirect to the source where only base has something there.
pub open spec fn moved_node(
    node: Option<NodeView>,
    src: Seq<char>,
    is_dir: bool,
    in_base: bool,
) -> NodeView {
    let redirect = DentryView { target: TargetView::Path(Some(src)), in_base };
    match node {
        Some(NodeView::File(d)) => NodeView::File(DentryView { in_base, ..d }),
        Some(NodeView::Dir(d, sub)) => if d.passes() {
            NodeView::Dir(redirect, sub)
        } else {
            NodeView::Dir(DentryView { in_base, ..d }, sub)
        },
        None => if is_dir {
            NodeView::Dir(redirect, Map::empty())
        } else {
            NodeView::File(redirect)
        },
    }
}

/// The node at a path, as a move looks it up.
pub open spec fn source_node(t: TreeView, src: Seq<char>) -> Option<NodeView> {
    match parent_and_name(src) {
        Some((ps, name)) => node_below(t, ps, name),
        None => None,
    }
}

/// The tree without the node at a path.
pub open spec fn source_gone(t: TreeView, src: Seq<char>) -> TreeView {
    match parent_and_name(src) {
        Some((ps, name)) => without(t, ps, name),
        None => t,
    }
}

/// The tree after a move. The source leaves a negative entry where base has
/// something there; a redirect that comes back to its own place is settled.
pub open spec fn after_move(
    t: TreeView,
    dst: Seq<char>,
    src: Seq<char>,
    is_dir: bool,
    in_base: bool,
) -> TreeView {
    if dst == src {
        t
    } else {
        let node = source_node(t, src);
        let t1 = source_gone(t, src);
        let covered = match node {
            Some(n) => n.dentry().covers_base(),
            None => true,
        };
        let t2 = if covered {
            edited_at(t1, src, EditView::Tombstone(is_dir))
        } else {
            t1
        };
        let moved = moved_node(node, src, is_dir, in_base);
        if moved.dentry().target == TargetView::Path(Some(dst)) {
            edited_at(t2, dst, EditView::Settle(moved))
        } else {
            edited_at(t2, dst, EditView::Place(moved))
        }
    }
}

/// The tree after an action.
pub open spec fn after_action(t: TreeView, a: Action) -> TreeView {
    match a {
        Action::Add { path, dtype, ino } => edited_at(
            t,
            path@,
            EditView::Stage(
                DentryView { target: TargetView::Inode(ino), in_base: false },
                is_directory(dtype),
            ),
        ),
        Action::Modify { path, dtype, ino } => edited_at(
            t,
            path@,
            EditView::Stage(
                DentryView { target: TargetView::Inode(ino), in_base: true },
                is_directory(dtype),
            ),
        ),
        Action::Delete { path, dtype } => edited_at(
            t,
            path@,
            EditView::Delete(is_directory(dtype)),
        ),
        Action::Rename { src, dst, dtype } => after_move(
            t,
            dst@,
            src@,
            is_directory(dtype),
            false,
        ),
        Action::Replace { src, dst, dtype } => after_move(
            t,
            dst@,
            src@,
            is_directory(dtype),
            true,
        ),
    }
}

/// The tree after a sequence of actions.
pub open spec fn after_actions(t: TreeView, s: Seq<Action>) -> TreeView
    decreases s.len(),
{
    if s.len() == 0 {
        t
    } else {
        after_action(after_actions(t, s.drop_last()), s.last())
    }
}

/// The tree after the actions of a sequence of segments.
pub open spec fn after_segments(t: TreeView, s: Seq<Segment>) -> TreeView
    decreases s.len(),
{
    if s.len() == 0 {
        t
    } else {
        after_actions(after_segments(t, s.drop_last()), s.last().records@)
    }
}

/// True when the kind given, if any, is that of a directory.
fn names_directory(dtype: Option<u8>) -> (r: bool)
    ensures
        r == is_directory(dtype),
{
    match dtype {
        Some(d) => d == DT_DIR,
        None => false,
    }
}

impl DirTree {
    /// Takes the node at a path out.
    fn detach(&mut self, path: &str) -> (r: Option<DirNode>)
        ensures
            final(self)@ == source_gone(old(self)@, path@),
            match r {
                Some(n) => source_node(old(self)@, path@) == Some(n@),
                None => source_node(old(self)@, path@) is None,
            },
    {
        match split_parent(path) {
            Some((parts, name)) => {
                assert(name_views(parts@).skip(0) =~= name_views(parts@));
                self.detach_below(&parts, 0, name.as_str())
            },
            None => None,
        }
    }

    /// The node that a move puts at its destination.
    fn node_to_place(node: Option<DirNode>, src: &String, is_dir: bool, in_base: bool) -> (r:
        DirNode)
        ensures
            r@ == moved_node(
                match node {
                    Some(n) => Some(n@),
                    None => None,
                },
                src@,
                is_dir,
                in_base,
            ),
    {
        proof {
            if node is Some {
                lemma_node_view(node->0);
            }
        }
        let r = match node {
            Some(DirNode::File(d)) => DirNode::File(Dentry { target: d.target, in_base }),
            Some(DirNode::Dir(d, sub)) => if d.is_passthrough() {
                DirNode::Dir(Dentry { target: Target::Path(Some(src.clone())), in_base }, sub)
            } else {
                DirNode::Dir(Dentry { target: d.target, in_base }, sub)
            },
            None => {
                let d = Dentry { target: Target::Path(Some(src.clone())), in_base };
                if is_dir {
                    DirNode::Dir(d, DirTree::new())
                } else {
                    DirNode::File(d)
                }
            },
        };
        proof {
            lemma_node_view(r);
        }
        r
    }

    /// Applies a rename or a replacement.
    fn apply_rename(&mut self, dst: String, src: String, is_dir: bool, in_base: bool)
        ensures
            final(self)@ == after_move(old(self)@, dst@, src@, is_dir, in_base),
    {
        if dst == src {
            return ;
        }
        let node = self.detach(src.as_str());
        let covered: bool = match &node {
            Some(n) => n.dentry().covers_base(),
            None => true,
        };
        let moved = DirTree::node_to_place(node, &src, is_dir, in_base);
        if covered {
            self.edit_at(src.as_str(), Edit::Tombstone(is_dir));
        }
        // A redirect to where it is going to stand: the moves cancel out.
        let back: bool = match &moved.dentry().target {
            Target::Path(Some(from)) => *from == dst,
            _ => false,
        };
        if back {
            self.edit_at(dst.as_str(), Edit::Settle(moved));
        } else {
            self.edit_at(dst.as_str(), Edit::Place(moved));
        }
    }

    /// Applies one action.
    pub fn apply(&mut self, action: Action)
        ensures
            final(self)@ == after_action(old(self)@, action),
    {
        match action {
            Action::Add { path, dtype, ino } => {
                let d = Dentry { target: Target::Inode(ino), in_base: false };
                self.edit_at(path.as_str(), Edit::Stage(d, names_directory(dtype)));
            },
            Action::Modify { path, dtype, ino } => {
                let d = Dentry { target: Target::Inode(ino), in_base: true };
                self.edit_at(path.as_str(), Edit::Stage(d, names_directory(dtype)));
            },
            Action::Delete { path, dtype } => {
                self.edit_at(path.as_str(), Edit::Delete(names_directory(dtype)));
            },
            Action::Rename { src, dst, dtype } => {
                self.apply_rename(dst, src, names_directory(dtype), false);
            },
            Action::Replace { src, dst, dtype } => {
                self.apply_rename(dst, src, names_directory(dtype), true);
            },
        }
    }

    /// Applies the actions of one segment.
    fn apply_segment(&mut self, records: Vec<Action>)
        ensures
            final(self)@ == after_actions(old(self)@, records@),
    {
        let ghost s = records@;
        let ghost t = self@;
        for a in it: records
            invariant
                it.seq() == s,
                self@ == after_actions(t, s.take(it.index() as int)),
        {
            proof {
                let k = it.index() as int;
                assert(s.take(k + 1).drop_last() =~= s.take(k));
            }
            self.apply(a);
        }
        proof {
            assert(s.take(s.len() as int) =~= s);
        }
    }

    /// Builds the tree of a sequence of segments.
    pub fn build(segments: Vec<Segment>) -> (r: Self)
        ensures
            r@ == after_segments(Map::empty(), segments@),
    {
        let ghost s = segments@;
        let mut tree = DirTree::new();
        for seg in it: segments
            invariant
                it.seq() == s,
                tree@ == after_segments(Map::empty(), s.take(it.index() as int)),
        {
            proof {
                let k = it.index() as int;
                assert(s.take(k + 1).drop_last() =~= s.take(k));
            }
            tree.apply_segment(seg.records);
        }
        proof {
            assert(s.take(s.len() as int) =~= s);
        }
        tree
    }
}

} // verus!
