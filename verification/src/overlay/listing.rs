//! Listing the staged entries of a tree.
use super::path::{lemma_rendered_cons, rendered};
use super::tree::{
    child, lemma_node_view, lemma_tree_view, staged_at, Dentry, DirNode, DirTree,
    NodeView, TreeView,
};
use crate::pathmap::sorted_keys;
use crate::text::law_str_lt_total;
use vstd::prelude::*;

verus! {

/// The paths of names are those at which staged entries stand, each once.
pub open spec fn lists(cs: Seq<Seq<Seq<char>>>, t: TreeView) -> bool {
    &&& cs.no_duplicates()
    &&& forall|ps: Seq<Seq<char>>| #[trigger] cs.contains(ps) == (staged_at(t, ps) is Some)
}

/// The pairs hold the paths listed, and the entries at them.
pub open spec fn shows(r: Seq<(String, &Dentry)>, cs: Seq<Seq<Seq<char>>>, t: TreeView) -> bool {
    &&& r.len() == cs.len()
    &&& forall|i: int|
        0 <= i < r.len() ==> (#[trigger] r[i]).0@ == rendered(cs[i]) && staged_at(t, cs[i])
            == Some(r[i].1@)
}

/// True when one of the first `n` children has the first name of the path.
spec fn begins_among(t: DirTree, n: int, ps: Seq<Seq<char>>) -> bool {
    ps.len() > 0 && exists|i: int| 0 <= i < n && (#[trigger] t.nodes.entries@[i]).0@ == ps[0]
}

/// The paths below the child `name`.
spec fn paths_below(name: Seq<char>, cs: Seq<Seq<Seq<char>>>) -> Seq<Seq<Seq<char>>> {
    Seq::new(cs.len(), |i: int| seq![name] + cs[i])
}

/// What has been visited once the first `n` children have been.
spec fn visited(
    t: DirTree,
    n: int,
    prefix: Seq<char>,
    before: Seq<(String, &Dentry)>,
    out: Seq<(String, &Dentry)>,
    cs: Seq<Seq<Seq<char>>>,
) -> bool {
    let b = before.len() as int;
    &&& out.len() == b + cs.len()
    &&& forall|i: int| 0 <= i < b ==> #[trigger] out[i] == before[i]
    &&& forall|i: int|
        0 <= i < cs.len() ==> begins_among(t, n, #[trigger] cs[i]) && out[b + i].0@ == prefix
            + rendered(cs[i]) && staged_at(t@, cs[i]) == Some(out[b + i].1@)
    &&& cs.no_duplicates()
    &&& forall|ps: Seq<Seq<char>>| #[trigger]
        begins_among(t, n, ps) && staged_at(t@, ps) is Some ==> cs.contains(ps)
}

pub(crate) proof fn lemma_child_at(t: DirTree, i: int)
    requires
        sorted_keys(t.nodes.entries@),
        0 <= i < t.nodes.entries@.len(),
    ensures
        child(t@, t.nodes.entries@[i].0@) == Some(t.nodes.entries@[i].1@),
{
    crate::pathmap::lemma_view(t.nodes);
    crate::pathmap::lemma_entries_map(t.nodes.entries@);
    lemma_tree_view(t, t.nodes.entries@[i].0@);
}

proof fn lemma_staged_below(t: DirTree, i: int, c: Seq<Seq<char>>)
    requires
        sorted_keys(t.nodes.entries@),
        0 <= i < t.nodes.entries@.len(),
    ensures
        staged_at(t@, seq![t.nodes.entries@[i].0@] + c) == (if c.len() == 0 {
            if t.nodes.entries@[i].1@.dentry().passes() {
                None
            } else {
                Some(t.nodes.entries@[i].1@.dentry())
            }
        } else {
            match t.nodes.entries@[i].1@ {
                NodeView::Dir(_, sub) => staged_at(sub, c),
                NodeView::File(_) => None,
            }
        }),
{
    lemma_child_at(t, i);
    let ps = seq![t.nodes.entries@[i].0@] + c;
    assert(ps.skip(1) =~= c);
    assert(ps[0] == t.nodes.entries@[i].0@);
}

/// Two children have different names.
proof fn lemma_names_differ(t: DirTree, i: int, j: int)
    requires
        sorted_keys(t.nodes.entries@),
        0 <= i < t.nodes.entries@.len(),
        0 <= j < t.nodes.entries@.len(),
        t.nodes.entries@[i].0@ == t.nodes.entries@[j].0@,
    ensures
        i == j,
{
    crate::text::law_str_lt_total(t.nodes.entries@[i].0@, t.nodes.entries@[i].0@);
}

/// A path that begins with a name is that name and what follows.
proof fn lemma_split_first(ps: Seq<Seq<char>>)
    requires
        ps.len() > 0,
    ensures
        ps == seq![ps[0]] + ps.skip(1),
{
    assert(ps =~= seq![ps[0]] + ps.skip(1));
}

/// The child at `n` itself, and what stands below it, have been visited too.
proof fn lemma_visited_step(
    t: DirTree,
    n: int,
    prefix: Seq<char>,
    before: Seq<(String, &Dentry)>,
    mid: Seq<(String, &Dentry)>,
    out: Seq<(String, &Dentry)>,
    cs: Seq<Seq<Seq<char>>>,
    own: Seq<Seq<Seq<char>>>,
    sub: Seq<Seq<Seq<char>>>,
)
    requires
        sorted_keys(t.nodes.entries@),
        0 <= n < t.nodes.entries@.len(),
        visited(t, n, prefix, before, mid, cs),
        out.len() == mid.len() + own.len() + sub.len(),
        forall|i: int| 0 <= i < mid.len() ==> #[trigger] out[i] == mid[i],
        own == (if staged_at(t@, seq![t.nodes.entries@[n].0@]) is Some {
            seq![seq![t.nodes.entries@[n].0@]]
        } else {
            seq![]
        }),
        own.len() == 1 ==> out[mid.len() as int].0@ == prefix + rendered(own[0]) && staged_at(
            t@,
            own[0],
        ) == Some(out[mid.len() as int].1@),
        sub.no_duplicates(),
        forall|c: Seq<Seq<char>>| #[trigger]
            sub.contains(c) == (c.len() > 0 && staged_at(
                t@,
                seq![t.nodes.entries@[n].0@] + c,
            ) is Some),
        forall|i: int|
            0 <= i < sub.len() ==> out[mid.len() + own.len() + i].0@ == prefix + rendered(
                seq![t.nodes.entries@[n].0@] + #[trigger] sub[i],
            ) && staged_at(t@, seq![t.nodes.entries@[n].0@] + sub[i]) == Some(
                out[mid.len() + own.len() + i].1@,
            ),
    ensures
        visited(
            t,
            n + 1,
            prefix,
            before,
            out,
            cs + own + paths_below(t.nodes.entries@[n].0@, sub),
        ),
{
    let name = t.nodes.entries@[n].0@;
    let low = paths_below(name, sub);
    let all = cs + own + low;
    let b = before.len() as int;
    let e = t.nodes.entries@;
    assert forall|i: int| 0 <= i < b implies #[trigger] out[i] == before[i] by {
        assert(out[i] == mid[i]);
    }
    assert forall|i: int| 0 <= i < cs.len() implies !(#[trigger] cs[i][0] == name) by {
        assert(begins_among(t, n, cs[i]));
        let k = choose|k: int| 0 <= k < n && (#[trigger] e[k]).0@ == cs[i][0];
        if cs[i][0] == name {
            lemma_names_differ(t, k, n);
        }
    }
    assert forall|i: int| 0 <= i < all.len() implies begins_among(t, n + 1, #[trigger] all[i])
        && out[b + i].0@ == prefix + rendered(all[i]) && staged_at(t@, all[i]) == Some(
        out[b + i].1@,
    ) by {
        if i < cs.len() {
            assert(all[i] == cs[i]);
            assert(begins_among(t, n, cs[i]));
            assert(out[b + i] == mid[b + i]);
            let k = choose|k: int| 0 <= k < n && (#[trigger] e[k]).0@ == cs[i][0];
            assert(e[k].0@ == all[i][0]);
        } else if i < cs.len() + own.len() {
            assert(all[i] == own[i - cs.len()]);
            assert(e[n].0@ == all[i][0]);
        } else {
            let k = i - cs.len() - own.len();
            assert(all[i] == low[k]);
            assert(low[k] == seq![name] + sub[k]);
            assert(e[n].0@ == all[i][0]);
        }
    }
    assert forall|i: int, j: int| 0 <= i < j < all.len() implies all[i] != all[j] by {
        if j < cs.len() {
            assert(cs[i] != cs[j]);
        } else {
            let first = if j < cs.len() + own.len() {
                own[j - cs.len()][0]
            } else {
                (seq![name] + sub[j - cs.len() - own.len()])[0]
            };
            assert(all[j][0] == name);
            if i < cs.len() {
                assert(cs[i][0] != name);
            } else if i < cs.len() + own.len() {
                let k = j - cs.len() - own.len();
                assert(sub.contains(sub[k]));
                assert(all[j].len() == 1 + sub[k].len());
                assert(all[i].len() == 1);
            } else {
                let k = i - cs.len() - own.len();
                let l = j - cs.len() - own.len();
                assert(sub[k] != sub[l]);
                assert((seq![name] + sub[k]).skip(1) =~= sub[k]);
                assert((seq![name] + sub[l]).skip(1) =~= sub[l]);
            }
        }
    }
    assert forall|ps: Seq<Seq<char>>| #[trigger]
        begins_among(t, n + 1, ps) && staged_at(t@, ps) is Some implies all.contains(ps) by {
        let k = choose|k: int| 0 <= k < n + 1 && (#[trigger] e[k]).0@ == ps[0];
        if k < n {
            assert(begins_among(t, n, ps));
            let i = choose|i: int| 0 <= i < cs.len() && cs[i] == ps;
            assert(all[i] == ps);
        } else {
            lemma_split_first(ps);
            let c = ps.skip(1);
            if c.len() == 0 {
                assert(ps =~= seq![name]);
                assert(all[cs.len() as int] == own[0]);
            } else {
                assert(sub.contains(c));
                let i = choose|i: int| 0 <= i < sub.len() && sub[i] == c;
                assert(low[i] == ps);
                assert(all[cs.len() + own.len() + i] == low[i]);
            }
        }
    }
}

impl DirTree {
    /// Visits the staged entries below, the children of each directory in the
    /// byte order of their names.
    fn visit_dentries<'a>(&'a self, prefix: &String, out: &mut Vec<(String, &'a Dentry)>) -> (cs:
        Ghost<Seq<Seq<Seq<char>>>>)
        ensures
            visited(
                *self,
                self.nodes.entries@.len() as int,
                prefix@,
                old(out)@,
                final(out)@,
                cs@,
            ),
            lists(cs@, self@),
        decreases *self,
    {
        let ghost before = out@;
        let ghost mut cs: Seq<Seq<Seq<char>>> = Seq::empty();
        let entries = self.nodes.raw_entries();
        let mut i: usize = 0;
        while i < entries.len()
            invariant
                i <= entries@.len(),
                *entries == self.nodes.entries,
                sorted_keys(entries@),
                visited(*self, i as int, prefix@, before, out@, cs),
            decreases entries@.len() - i,
        {
            let ghost name = entries@[i as int].0@;
            let ghost mid = out@;
            let mut path: String = prefix.clone();
            path.push('/');
            vstd::string::StringExecFns::append(&mut path, entries[i].0.as_str());
            let node: &DirNode = &entries[i].1;
            let d: &Dentry = node.dentry();
            proof {
                lemma_node_view(*node);
                lemma_staged_below(*self, i as int, Seq::empty());
                assert(seq![name] + Seq::<Seq<char>>::empty() =~= seq![name]);
                super::path::lemma_rendered_cons(name, Seq::empty());
                assert(rendered(Seq::<Seq<char>>::empty()) =~= Seq::<char>::empty());
                assert(path@ =~= prefix@ + rendered(seq![name]));
            }
            let ghost own: Seq<Seq<Seq<char>>> = if d@.passes() {
                seq![]
            } else {
                seq![seq![name]]
            };
            if !d.is_passthrough() {
                out.push((path.clone(), d));
            }
            let ghost mut sub_cs: Seq<Seq<Seq<char>>> = Seq::empty();
            match node {
                DirNode::Dir(_, sub) => {
                    let ghost half = out@;
                    let below = sub.visit_dentries(&path, out);
                    proof {
                        sub_cs = below@;
                        assert forall|c: Seq<Seq<char>>| #[trigger]
                            sub_cs.contains(c) == (c.len() > 0 && staged_at(
                                self@,
                                seq![name] + c,
                            ) is Some) by {
                            lemma_staged_below(*self, i as int, c);
                        }
                        assert forall|k: int| 0 <= k < sub_cs.len() implies out@[mid.len()
                            + own.len() + k].0@ == prefix@ + rendered(
                            seq![name] + #[trigger] sub_cs[k],
                        ) && staged_at(self@, seq![name] + sub_cs[k]) == Some(
                            out@[mid.len() + own.len() + k].1@,
                        ) by {
                            assert(sub_cs.contains(sub_cs[k]));
                            lemma_staged_below(*self, i as int, sub_cs[k]);
                            super::path::lemma_rendered_cons(name, sub_cs[k]);
                            assert(path@ + rendered(sub_cs[k]) =~= prefix@ + rendered(
                                seq![name] + sub_cs[k],
                            ));
                        }
                        assert forall|k: int| 0 <= k < mid.len() implies #[trigger] out@[k]
                            == mid[k] by {
                            assert(out@[k] == half[k]);
                        }
                    }
                },
                DirNode::File(_) => {
                    proof {
                        assert forall|c: Seq<Seq<char>>| #[trigger]
                            sub_cs.contains(c) == (c.len() > 0 && staged_at(
                                self@,
                                seq![name] + c,
                            ) is Some) by {
                            lemma_staged_below(*self, i as int, c);
                        }
                    }
                },
            }
            proof {
                lemma_visited_step(
                    *self,
                    i as int,
                    prefix@,
                    before,
                    mid,
                    out@,
                    cs,
                    own,
                    sub_cs,
                );
                cs = cs + own + paths_below(name, sub_cs);
            }
            i += 1;
        }
        proof {
            lemma_visited_all(*self, prefix@, before, out@, cs);
        }
        Ghost(cs)
    }

    /// The staged entries, each with its path, the children of each directory
    /// in the byte order of their names.
    pub fn for_each(&self) -> (r: Vec<(String, &Dentry)>)
        ensures
            exists|cs: Seq<Seq<Seq<char>>>| #[trigger] lists(cs, self@) && shows(r@, cs, self@),
    {
        let mut out: Vec<(String, &Dentry)> = Vec::new();
        let prefix = String::new();
        let cs = self.visit_dentries(&prefix, &mut out);
        proof {
            assert forall|i: int| 0 <= i < out@.len() implies (#[trigger] out@[i]).0@ == rendered(
                cs@[i],
            ) && staged_at(self@, cs@[i]) == Some(out@[i].1@) by {
                assert(begins_among(*self, self.nodes.entries@.len() as int, cs@[i]));
                assert(prefix@ + rendered(cs@[i]) =~= rendered(cs@[i]));
            }
            assert(lists(cs@, self@) && shows(out@, cs@, self@));
        }
        out
    }
}

proof fn lemma_visited_all(
    t: DirTree,
    prefix: Seq<char>,
    before: Seq<(String, &Dentry)>,
    out: Seq<(String, &Dentry)>,
    cs: Seq<Seq<Seq<char>>>,
)
    requires
        sorted_keys(t.nodes.entries@),
        visited(t, t.nodes.entries@.len() as int, prefix, before, out, cs),
    ensures
        lists(cs, t@),
{
    let n = t.nodes.entries@.len() as int;
    assert forall|ps: Seq<Seq<char>>| #[trigger] cs.contains(ps) == (staged_at(
        t@,
        ps,
    ) is Some) by {
        if cs.contains(ps) {
            let i = choose|i: int| 0 <= i < cs.len() && cs[i] == ps;
            assert(begins_among(t, n, cs[i]));
        }
        if staged_at(t@, ps) is Some {
            lemma_tree_view(t, ps[0]);
            crate::pathmap::lemma_view(t.nodes);
            crate::pathmap::lemma_entries_map(t.nodes.entries@);
            let i = choose|i: int| 0 <= i < n && (#[trigger] t.nodes.entries@[i]).0@ == ps[0];
            assert(t.nodes.entries@[i].0@ == ps[0]);
            assert(begins_among(t, n, ps));
        }
    }
}

/// The paths of names at which staged entries stand.
pub open spec fn staged_paths(t: TreeView) -> Set<Seq<Seq<char>>> {
    Set::new(|ps: Seq<Seq<char>>| staged_at(t, ps) is Some)
}

/// A listing holds as many paths as there are staged entries.
pub proof fn lemma_listing_len(cs: Seq<Seq<Seq<char>>>, t: TreeView)
    requires
        lists(cs, t),
    ensures
        staged_paths(t).finite(),
        staged_paths(t).len() == cs.len(),
{
    cs.unique_seq_to_set();
    assert forall|ps: Seq<Seq<char>>| cs.to_set().contains(ps) == staged_paths(t).contains(ps) by {
        assert(cs.contains(ps) == (staged_at(t, ps) is Some));
    }
    assert(cs.to_set() =~= staged_paths(t));
}

impl DirTree {
    /// The number of staged entries.
    pub fn len(&self) -> (n: usize)
        ensures
            staged_paths(self@).finite(),
            n == staged_paths(self@).len(),
    {
        let r = self.for_each();
        proof {
            let cs = choose|cs: Seq<Seq<Seq<char>>>| #[trigger]
                lists(cs, self@) && shows(r@, cs, self@);
            lemma_listing_len(cs, self@);
        }
        r.len()
    }

    /// True when nothing is staged.
    pub fn is_empty(&self) -> (r: bool)
        ensures
            r == (forall|ps: Seq<Seq<char>>| staged_at(self@, ps) is None),
    {
        let l = self.for_each();
        proof {
            let cs = choose|cs: Seq<Seq<Seq<char>>>| #[trigger]
                lists(cs, self@) && shows(l@, cs, self@);
            if l@.len() == 0 {
                assert forall|ps: Seq<Seq<char>>| staged_at(self@, ps) is None by {
                    assert(!cs.contains(ps));
                }
            } else {
                assert(cs.contains(cs[0]));
                assert(staged_at(self@, cs[0]) is Some);
            }
        }
        l.len() == 0
    }

    /// True when some staged entry satisfies the predicate.
    pub fn any<F: Fn(&str, &Dentry) -> bool>(&self, f: F) -> (r: bool)
        requires
            forall|p: &str, d: &Dentry| #[trigger] f.requires((p, d)),
        ensures
            r ==> exists|ps: Seq<Seq<char>>, p: &str, d: &Dentry| #[trigger]
                staged_at(self@, ps) == Some(d@) && p@ == rendered(ps) && #[trigger] f.ensures(
                    (p, d),
                    true,
                ),
            !r ==> forall|ps: Seq<Seq<char>>| #[trigger]
                staged_at(self@, ps) is Some ==> exists|p: &str, d: &Dentry|
                    staged_at(self@, ps) == Some(d@) && p@ == rendered(ps) && #[trigger] f.ensures(
                        (p, d),
                        false,
                    ),
    {
        let l = self.for_each();
        let ghost cs = choose|cs: Seq<Seq<Seq<char>>>| #[trigger]
            lists(cs, self@) && shows(l@, cs, self@);
        let mut i: usize = 0;
        while i < l.len()
            invariant
                i <= l@.len(),
                lists(cs, self@),
                shows(l@, cs, self@),
                forall|p: &str, d: &Dentry| #[trigger] f.requires((p, d)),
                forall|k: int|
                    0 <= k < i ==> exists|p: &str, d: &Dentry|
                        staged_at(self@, #[trigger] cs[k]) == Some(d@) && p@ == rendered(cs[k])
                            && #[trigger] f.ensures((p, d), false),
            decreases l@.len() - i,
        {
            let p: &str = l[i].0.as_str();
            let d: &Dentry = l[i].1;
            let found: bool = f(p, d);
            proof {
                assert(l@[i as int].0@ == rendered(cs[i as int]));
                assert(f.ensures((p, d), found));
            }
            if found {
                assert(staged_at(self@, cs[i as int]) == Some(d@));
                return true;
            }
            i += 1;
        }
        proof {
            assert forall|ps: Seq<Seq<char>>| #[trigger] staged_at(self@, ps) is Some implies exists|
                p: &str,
                d: &Dentry,
            |
                staged_at(self@, ps) == Some(d@) && p@ == rendered(ps) && #[trigger] f.ensures(
                    (p, d),
                    false,
                ) by {
                assert(cs.contains(ps));
                let k = choose|k: int| 0 <= k < cs.len() && cs[k] == ps;
                assert(cs[k] == ps);
            }
        }
        false
    }
}

} // verus!
