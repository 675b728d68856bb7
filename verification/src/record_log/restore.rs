//! Restoring a checkpoint: the staging state of the kernel module, entry by entry.
use super::parse::Journal;
use super::resolve::{are_changes_of, replayed, resolve, Change};
use super::timeline::{checkpoint_position, find_checkpoint_index, reachable, reached};
use super::types::Record;
use crate::dtype::dtype_code;
use crate::error::Error;
use crate::ioctl::{address, all_zero, AgfsIocRestoreEntry};
use crate::text::{law_str_lt_total, law_str_lt_transitive, precedes, str_lt};
use vstd::hash_set::StringHashSet;
use vstd::prelude::*;
use vstd::string::StringSliceAdditionalSpecFns;

verus! {

/// The inode numbers that stand for a deleted and for a redirected entry.
pub const INO_DELETED: u64 = 0;

pub const INO_REDIRECT: u64 = 18446744073709551615;

/// One entry to restore, with its paths.
#[derive(Debug)]
pub struct RestoreItem {
    pub path: String,
    pub ino: u64,
    pub base: String,
    pub in_base: bool,
    pub d_type: u8,
}

/// An entry to restore as a mathematical value.
pub struct ItemView {
    pub path: Seq<char>,
    pub ino: u64,
    pub base: Seq<char>,
    pub in_base: bool,
    pub d_type: u8,
}

impl View for RestoreItem {
    type V = ItemView;

    open spec fn view(&self) -> ItemView {
        ItemView {
            path: self.path@,
            ino: self.ino,
            base: self.base@,
            in_base: self.in_base,
            d_type: self.d_type,
        }
    }
}

/// The items as mathematical values.
pub open spec fn item_views(s: Seq<RestoreItem>) -> Seq<ItemView> {
    Seq::new(s.len(), |i: int| s[i]@)
}

/// The item for a deleted path.
pub open spec fn deleted_item(path: Seq<char>) -> ItemView {
    ItemView { path, ino: INO_DELETED, base: Seq::empty(), in_base: true, d_type: 0 }
}

/// The items for a move: its source is deleted, and its destination is
/// redirected, unless staged content stands there.
pub open spec fn move_items(
    from: Seq<char>,
    to: Seq<char>,
    d_type: u8,
    in_base: bool,
    staged: bool,
) -> Seq<ItemView> {
    let gone = deleted_item(from);
    if staged {
        seq![gone]
    } else {
        seq![gone, ItemView { path: to, ino: INO_REDIRECT, base: from, in_base, d_type }]
    }
}

/// True when some change stages content at `p`.
pub open spec fn is_staged(s: Seq<Change>, p: Seq<char>) -> bool {
    exists|i: int| 0 <= i < s.len() && #[trigger] writes_to(s[i], p)
}

/// True when the change stages content at `p`.
pub open spec fn writes_to(c: Change, p: Seq<char>) -> bool {
    match c {
        Change::Added { path, .. } => path@ == p,
        Change::Modified { path, .. } => path@ == p,
        _ => false,
    }
}

/// The items for one of the changes `s`.
pub open spec fn items_for(s: Seq<Change>, c: Change) -> Seq<ItemView> {
    match c {
        Change::Added { path, ino, dtype } => seq![
            ItemView {
                path: path@,
                ino,
                base: Seq::empty(),
                in_base: false,
                d_type: dtype_code(dtype),
            },
        ],
        Change::Modified { path, ino, dtype } => seq![
            ItemView {
                path: path@,
                ino,
                base: Seq::empty(),
                in_base: true,
                d_type: dtype_code(dtype),
            },
        ],
        Change::Deleted(path) => seq![deleted_item(path@)],
        Change::Renamed { from, to, dtype } => move_items(
            from@,
            to@,
            dtype_code(dtype),
            false,
            is_staged(s, to@),
        ),
        Change::Replaced { from, to, dtype } => move_items(
            from@,
            to@,
            dtype_code(dtype),
            true,
            is_staged(s, to@),
        ),
    }
}

/// The items for the first `n` changes, in the order of the changes.
pub open spec fn items_in_order(s: Seq<Change>, n: int) -> Seq<ItemView>
    decreases n,
{
    if n <= 0 {
        Seq::empty()
    } else {
        items_in_order(s, n - 1) + items_for(s, s[n - 1])
    }
}

/// `s`, which is sorted by path, with `x` put after all that do not come after it.
pub open spec fn put_by_path(s: Seq<ItemView>, x: ItemView) -> Seq<ItemView>
    decreases s.len(),
{
    if s.len() > 0 && str_lt(x.path, s.last().path) {
        put_by_path(s.drop_last(), x).push(s.last())
    } else {
        s.push(x)
    }
}

/// The items sorted by path; those with one path stay in their order.
pub open spec fn by_path(s: Seq<ItemView>) -> Seq<ItemView>
    decreases s.len(),
{
    if s.len() == 0 {
        Seq::empty()
    } else {
        put_by_path(by_path(s.drop_last()), s.last())
    }
}

/// The items to restore for a list of changes.
pub open spec fn restore_items(s: Seq<Change>) -> Seq<ItemView> {
    by_path(items_in_order(s, s.len() as int))
}

proof fn lemma_put_position(s: Seq<ItemView>, x: ItemView, p: int)
    requires
        0 <= p <= s.len(),
        forall|i: int| p <= i < s.len() ==> str_lt(x.path, (#[trigger] s[i]).path),
        p == 0 || !str_lt(x.path, s[p - 1].path),
    ensures
        put_by_path(s, x) == s.insert(p, x),
    decreases s.len(),
{
    if p == s.len() {
        assert(s.push(x) =~= s.insert(p, x));
    } else {
        lemma_put_position(s.drop_last(), x, p);
        assert(s.drop_last().insert(p, x).push(s.last()) =~= s.insert(p, x));
    }
}

impl RestoreItem {
    /// The item for a deleted path.
    pub fn deleted(path: String) -> (r: Self)
        ensures
            r@ == deleted_item(path@),
    {
        let r = RestoreItem { path, ino: INO_DELETED, base: String::new(), in_base: true, d_type: 0 };
        assert(r@ == deleted_item(path@));
        r
    }
}

/// Puts an item where its path belongs, after those with the same path.
fn put_item(items: &mut Vec<RestoreItem>, item: RestoreItem)
    ensures
        item_views(final(items)@) == put_by_path(item_views(old(items)@), item@),
{
    let ghost v = item_views(items@);
    let mut p: usize = items.len();
    while p > 0 && precedes(item.path.as_str(), items[p - 1].path.as_str())
        invariant
            p <= items@.len(),
            v == item_views(items@),
            forall|i: int| p <= i < v.len() ==> str_lt(item@.path, (#[trigger] v[i]).path),
        decreases p,
    {
        assert(v[p - 1] == items@[p - 1]@);
        p -= 1;
    }
    proof {
        if p > 0 {
            assert(v[p - 1] == items@[p - 1]@);
        }
        lemma_put_position(v, item@, p as int);
    }
    let ghost before = items@;
    items.insert(p, item);
    proof {
        assert(item_views(items@) =~= v.insert(p as int, item@));
    }
}

/// The paths at which changes stage content.
fn staged_paths(changes: &[Change]) -> (r: StringHashSet)
    ensures
        forall|p: Seq<char>| #[trigger] r@.contains(p) == is_staged(changes@, p),
{
    let ghost s = changes@;
    let mut r: StringHashSet = StringHashSet::new();
    let mut i: usize = 0;
    while i < changes.len()
        invariant
            i <= changes@.len(),
            s == changes@,
            forall|p: Seq<char>| #[trigger]
                r@.contains(p) == (exists|j: int| 0 <= j < i && #[trigger] writes_to(s[j], p)),
        decreases changes@.len() - i,
    {
        let ghost before = r@;
        match &changes[i] {
            Change::Added { path, .. } => {
                r.insert(path.clone());
            },
            Change::Modified { path, .. } => {
                r.insert(path.clone());
            },
            _ => {},
        }
        proof {
            assert forall|p: Seq<char>| #[trigger] r@.contains(p) == (exists|j: int|
                0 <= j < i + 1 && #[trigger] writes_to(s[j], p)) by {
                if before.contains(p) {
                    let j = choose|j: int| 0 <= j < i && #[trigger] writes_to(s[j], p);
                    assert(writes_to(s[j], p));
                }
                if writes_to(s[i as int], p) {
                    assert(r@.contains(p));
                }
            }
        }
        i += 1;
    }
    r
}

/// Turns changes into the items to restore, sorted by path.
pub fn changes_to_items(changes: &[Change]) -> (r: Vec<RestoreItem>)
    ensures
        item_views(r@) == restore_items(changes@),
{
    let ghost s = changes@;
    let staged = staged_paths(changes);
    let mut items: Vec<RestoreItem> = Vec::new();
    let mut i: usize = 0;
    assert(item_views(items@) =~= by_path(items_in_order(s, 0)));
    while i < changes.len()
        invariant
            i <= changes@.len(),
            s == changes@,
            forall|p: Seq<char>| #[trigger] staged@.contains(p) == is_staged(s, p),
            item_views(items@) == by_path(items_in_order(s, i as int)),
        decreases changes@.len() - i,
    {
        let ghost before = items_in_order(s, i as int);
        let ghost new = items_for(s, s[i as int]);
        match &changes[i] {
            Change::Added { path, ino, dtype } => {
                let item = RestoreItem {
                    path: path.clone(),
                    ino: *ino,
                    base: String::new(),
                    in_base: false,
                    d_type: dtype.to_libc(),
                };
                proof {
                    assert(new =~= seq![item@]);
                    lemma_by_path_push(before, item@);
                    assert(before + seq![item@] =~= before.push(item@));
                }
                put_item(&mut items, item);
            },
            Change::Modified { path, ino, dtype } => {
                let item = RestoreItem {
                    path: path.clone(),
                    ino: *ino,
                    base: String::new(),
                    in_base: true,
                    d_type: dtype.to_libc(),
                };
                proof {
                    assert(new =~= seq![item@]);
                    lemma_by_path_push(before, item@);
                    assert(before + seq![item@] =~= before.push(item@));
                }
                put_item(&mut items, item);
            },
            Change::Deleted(path) => {
                let item = RestoreItem::deleted(path.clone());
                proof {
                    lemma_by_path_push(before, item@);
                    assert(before + seq![item@] =~= before.push(item@));
                }
                put_item(&mut items, item);
            },
            Change::Renamed { from, to, dtype } => {
                put_move(&mut items, from, to, dtype.to_libc(), false, staged.contains(to.as_str()), Ghost(before));
            },
            Change::Replaced { from, to, dtype } => {
                put_move(&mut items, from, to, dtype.to_libc(), true, staged.contains(to.as_str()), Ghost(before));
            },
        }
        i += 1;
    }
    items
}

/// Puts the items of a move where their paths belong.
fn put_move(
    items: &mut Vec<RestoreItem>,
    from: &String,
    to: &String,
    d_type: u8,
    in_base: bool,
    staged: bool,
    Ghost(before): Ghost<Seq<ItemView>>,
)
    requires
        item_views(old(items)@) == by_path(before),
    ensures
        item_views(final(items)@) == by_path(
            before + move_items(from@, to@, d_type, in_base, staged),
        ),
{
    let gone = RestoreItem::deleted(from.clone());
    let ghost g = gone@;
    proof {
        lemma_by_path_push(before, g);
        assert(before + seq![g] =~= before.push(g));
    }
    put_item(items, gone);
    if !staged {
        let item = RestoreItem {
            path: to.clone(),
            ino: INO_REDIRECT,
            base: from.clone(),
            in_base,
            d_type,
        };
        proof {
            lemma_by_path_push(before.push(g), item@);
            assert(before + seq![g, item@] =~= before.push(g).push(item@));
        }
        put_item(items, item);
    }
}

proof fn lemma_by_path_push(s: Seq<ItemView>, x: ItemView)
    ensures
        by_path(s.push(x)) == put_by_path(by_path(s), x),
{
    assert(s.push(x).drop_last() =~= s);
}

/// The number of bytes of a string in UTF-8.
pub open spec fn byte_len(s: Seq<char>) -> nat {
    vstd::utf8::encode_utf8(s).len()
}

/// The entry says what the item says, but for where its paths stand.
pub open spec fn encodes(e: AgfsIocRestoreEntry, item: RestoreItem) -> bool {
    &&& e.path_len == byte_len(item.path@)
    &&& e.d_type == item.d_type
    &&& e.in_base == (if item.in_base {
        1u8
    } else {
        0u8
    })
    &&& e.ino == item.ino
    &&& e.base_len == byte_len(item.base@)
    &&& all_zero(e._pad1@)
    &&& all_zero(e._pad2@)
}

/// True when 16 bits can tell the lengths of the item's paths.
pub open spec fn fits(item: RestoreItem) -> bool {
    byte_len(item.path@) <= u16::MAX && byte_len(item.base@) <= u16::MAX
}

/// The error for an item that does not fit.
pub open spec fn too_long(e: Error, item: RestoreItem) -> bool {
    if byte_len(item.path@) > u16::MAX {
        e is RestorePathTooLong
    } else {
        e is BaseTooLong
    }
}

/// Encodes an item whose two paths stand at these addresses. Fails where one
/// of them is too long.
pub fn entry_at(item: &RestoreItem, path_ptr: u64, base_ptr: u64) -> (r: Result<
    AgfsIocRestoreEntry,
    Error,
>)
    ensures
        match r {
            Ok(e) => fits(*item) && encodes(e, *item) && e.path_ptr == path_ptr && e.base_ptr
                == base_ptr,
            Err(e) => !fits(*item) && too_long(e, *item),
        },
{
    let path_len: usize = item.path.as_str().as_bytes().len();
    let base_len: usize = item.base.as_str().as_bytes().len();
    if path_len > 65535 {
        return Err(Error::RestorePathTooLong);
    }
    if base_len > 65535 {
        return Err(Error::BaseTooLong);
    }
    Ok(
        AgfsIocRestoreEntry {
            path_ptr,
            path_len: path_len as u16,
            d_type: item.d_type,
            in_base: if item.in_base {
                1
            } else {
                0
            },
            _pad1: [0u8;4],
            ino: item.ino,
            base_ptr,
            base_len: base_len as u16,
            _pad2: [0u8;6],
        },
    )
}

/// Encodes items for the kernel module. Fails at the first item with a path
/// that is too long. Each entry points into its item: it is [`entry_at`] the
/// addresses of the item's paths.
pub fn items_to_entries(items: &[RestoreItem]) -> (r: Result<Vec<AgfsIocRestoreEntry>, Error>)
    ensures
        match r {
            Ok(v) => v@.len() == items@.len() && (forall|i: int|
                0 <= i < items@.len() ==> fits(items@[i]) && encodes(#[trigger] v@[i], items@[i])),
            Err(e) => exists|i: int|
                0 <= i < items@.len() && !fits(#[trigger] items@[i]) && (forall|j: int|
                    0 <= j < i ==> fits(#[trigger] items@[j])) && too_long(e, items@[i]),
        },
{
    let mut out: Vec<AgfsIocRestoreEntry> = Vec::new();
    let mut i: usize = 0;
    while i < items.len()
        invariant
            i <= items@.len(),
            out@.len() == i,
            forall|j: int|
                0 <= j < i ==> fits(#[trigger] items@[j]) && encodes(out@[j], items@[j]),
        decreases items@.len() - i,
    {
        let path_ptr: u64 = address(items[i].path.as_str());
        let base_ptr: u64 = address(items[i].base.as_str());
        match entry_at(&items[i], path_ptr, base_ptr) {
            Ok(e) => out.push(e),
            Err(e) => {
                assert(!fits(items@[i as int]));
                return Err(e);
            },
        }
        i += 1;
    }
    Ok(out)
}

/// What to restore for a checkpoint.
#[derive(Debug)]
pub struct RestorePlan {
    /// The generation of the checkpoint.
    pub target_gen: u64,
    /// The name of the checkpoint.
    pub label: String,
    pub changes: Vec<Change>,
    pub items: Vec<RestoreItem>,
}

/// Works out what to restore for a checkpoint: the checkpoint is looked for
/// among all records, reachable or not, and the state is that of the records
/// up to it which restores before it have left reachable.
pub fn plan_restore(journal: Journal, checkpoint: &str) -> (r: Result<RestorePlan, Error>)
    ensures
        match (r, checkpoint_position(journal.records@, checkpoint@)) {
            (Ok(plan), Some(k)) => journal.records@[k] == Record::Checkpoint(
                super::types::Checkpoint { gen_id: plan.target_gen, name: plan.label },
            ) && are_changes_of(plan.changes@, replayed(reached(journal.records@.take(k + 1))))
                && item_views(plan.items@) == restore_items(plan.changes@),
            (Err(Error::CheckpointNotFound(n)), None) => n@ == checkpoint@,
            _ => false,
        },
{
    let ghost s = journal.records@;
    let mut records = journal.records;
    let n: usize = records.len();
    let k: usize = match find_checkpoint_index(records.as_slice(), checkpoint) {
        Ok(i) => i,
        Err(e) => return Err(e),
    };
    proof {
        super::timeline::lemma_checkpoint_position(s, checkpoint@);
    }
    let (target_gen, label) = match &records[k] {
        Record::Checkpoint(c) => (c.gen_id, c.name.clone()),
        _ => return Err(Error::CheckpointNotFound(checkpoint.to_owned())),
    };
    records.truncate(k + 1);
    assert(records@ =~= s.take(k + 1));
    let live = reachable(records);
    match resolve(live) {
        Ok(changes) => {
            let items = changes_to_items(changes.as_slice());
            Ok(RestorePlan { target_gen, label, changes, items })
        },
        Err(e) => Err(e),
    }
}

// ── Laws ─────────────────────────────────────────────────────────────

/// Sorted by path.
pub open spec fn paths_rise(s: Seq<ItemView>) -> bool {
    forall|i: int, j: int|
        0 <= i < j < s.len() ==> !str_lt((#[trigger] s[j]).path, (#[trigger] s[i]).path)
}

proof fn lemma_put_sorted(s: Seq<ItemView>, x: ItemView)
    requires
        paths_rise(s),
    ensures
        paths_rise(put_by_path(s, x)),
        put_by_path(s, x).to_multiset() == s.to_multiset().insert(x),
        forall|y: ItemView|
            put_by_path(s, x).contains(y) ==> #[trigger] s.contains(y) || y == x,
    decreases s.len(),
{
    broadcast use vstd::seq_lib::group_to_multiset_ensures;

    if s.len() > 0 && str_lt(x.path, s.last().path) {
        let t = s.drop_last();
        lemma_put_sorted(t, x);
        let u = put_by_path(t, x);
        let r = u.push(s.last());
        assert(s =~= t.push(s.last()));
        assert(r.to_multiset() =~= s.to_multiset().insert(x));
        assert forall|i: int, j: int| 0 <= i < j < r.len() implies !str_lt(
            (#[trigger] r[j]).path,
            (#[trigger] r[i]).path,
        ) by {
            if j == u.len() {
                assert(u.contains(r[i]));
                law_str_lt_total(x.path, s.last().path);
                if t.contains(r[i]) {
                    let k = choose|k: int| 0 <= k < t.len() && t[k] == r[i];
                    assert(s[k] == r[i]);
                }
            } else {
                assert(u[i] == r[i] && u[j] == r[j]);
            }
        }
        assert forall|y: ItemView| r.contains(y) implies #[trigger] s.contains(y) || y == x by {
            let k = choose|k: int| 0 <= k < r.len() && r[k] == y;
            if k == u.len() {
                assert(s[s.len() - 1] == y);
            } else {
                assert(u[k] == y);
                assert(u.contains(y));
                if t.contains(y) {
                    let l = choose|l: int| 0 <= l < t.len() && t[l] == y;
                    assert(s[l] == y);
                }
            }
        }
    } else {
        let r = s.push(x);
        assert forall|i: int, j: int| 0 <= i < j < r.len() implies !str_lt(
            (#[trigger] r[j]).path,
            (#[trigger] r[i]).path,
        ) by {
            if j == s.len() && i < s.len() - 1 {
                if str_lt(x.path, s[i].path) {
                    law_str_lt_total(s[i].path, s.last().path);
                    if s[i].path != s.last().path {
                        law_str_lt_transitive(x.path, s[i].path, s.last().path);
                    }
                }
            }
        }
        assert forall|y: ItemView| r.contains(y) implies #[trigger] s.contains(y) || y == x by {
            let k = choose|k: int| 0 <= k < r.len() && r[k] == y;
            if k < s.len() {
                assert(s[k] == y);
            }
        }
    }
}

/// Sorting by path keeps every item and puts the paths in byte order.
pub proof fn law_by_path_sorts(s: Seq<ItemView>)
    ensures
        paths_rise(by_path(s)),
        by_path(s).to_multiset() == s.to_multiset(),
    decreases s.len(),
{
    broadcast use vstd::seq_lib::group_to_multiset_ensures;

    if s.len() > 0 {
        law_by_path_sorts(s.drop_last());
        lemma_put_sorted(by_path(s.drop_last()), s.last());
        assert(s =~= s.drop_last().push(s.last()));
    } else {
        assert(s =~= Seq::<ItemView>::empty());
    }
}

} // verus!
