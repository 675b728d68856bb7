//! The layout of a report on changes, segment by segment.
use crate::diff::{label_of, range_label, Shown, ShownView};
use vstd::prelude::*;

verus! {

/// The changes of one segment, and the checkpoint that closes it.
#[derive(Debug)]
pub struct Block {
    pub changes: Vec<(String, Shown)>,
    pub label: Option<(u64, String)>,
}

/// One item of a report.
#[derive(Debug)]
pub enum Item {
    Change(String, Shown),
    /// What follows is after the last checkpoint.
    Unsaved,
    /// The checkpoint that closes a segment.
    Footer(u64, String),
    /// There are no changes; the label says of what.
    NoChanges(String),
    /// The number of changes.
    Total(u128),
}

/// A report, and whether it has changes.
#[derive(Debug)]
pub struct Report {
    pub items: Vec<Item>,
    pub has_changes: bool,
}

/// One item of a report as a mathematical value.
pub enum ItemView {
    Change(Seq<char>, ShownView),
    Unsaved,
    Footer(u64, Seq<char>),
    NoChanges(Seq<char>),
    Total(nat),
}

impl View for Item {
    type V = ItemView;

    open spec fn view(&self) -> ItemView {
        match self {
            Item::Change(p, s) => ItemView::Change(p@, s@),
            Item::Unsaved => ItemView::Unsaved,
            Item::Footer(g, n) => ItemView::Footer(*g, n@),
            Item::NoChanges(l) => ItemView::NoChanges(l@),
            Item::Total(n) => ItemView::Total(*n as nat),
        }
    }
}

/// The items as mathematical values.
pub open spec fn item_views(s: Seq<Item>) -> Seq<ItemView> {
    Seq::new(s.len(), |i: int| s[i]@)
}

/// The changes of a segment as mathematical values.
pub open spec fn change_views(s: Seq<(String, Shown)>) -> Seq<(Seq<char>, ShownView)> {
    Seq::new(s.len(), |i: int| (s[i].0@, s[i].1@))
}

/// The items for the changes of a segment.
pub open spec fn change_items(s: Seq<(String, Shown)>) -> Seq<ItemView> {
    Seq::new(s.len(), |i: int| ItemView::Change(s[i].0@, s[i].1@))
}

/// The footer of a segment, if a checkpoint closes it.
pub open spec fn footer_items(label: Option<(u64, String)>) -> Seq<ItemView> {
    match label {
        Some((g, n)) => seq![ItemView::Footer(g, n@)],
        None => seq![],
    }
}

/// True when a checkpoint closes one of the first `n` segments.
pub open spec fn any_label(bs: Seq<Block>, n: int) -> bool {
    exists|i: int| 0 <= i < n && (#[trigger] bs[i]).label is Some
}

/// The number of changes in the first `n` segments.
pub open spec fn change_count(bs: Seq<Block>, n: int) -> nat
    decreases n,
{
    if n <= 0 {
        0
    } else {
        change_count(bs, n - 1) + bs[n - 1].changes@.len()
    }
}

/// The items for a segment. Where there are checkpoints at all, an empty
/// segment is left out when a path is asked for, and else shows its footer alone.
pub open spec fn block_items(b: Block, labelled: bool, filtered: bool, marks_unsaved: bool) -> Seq<
    ItemView,
> {
    let unsaved = if labelled && marks_unsaved && b.label is None {
        seq![ItemView::Unsaved]
    } else {
        seq![]
    };
    if labelled && b.changes@.len() == 0 {
        if filtered {
            seq![]
        } else {
            unsaved + footer_items(b.label)
        }
    } else if labelled {
        unsaved + change_items(b.changes@) + footer_items(b.label)
    } else {
        change_items(b.changes@)
    }
}

/// The items for the first `n` segments.
pub open spec fn all_items(
    bs: Seq<Block>,
    n: int,
    labelled: bool,
    filtered: bool,
    marks_unsaved: bool,
) -> Seq<ItemView>
    decreases n,
{
    if n <= 0 {
        Seq::empty()
    } else {
        all_items(bs, n - 1, labelled, filtered, marks_unsaved) + block_items(
            bs[n - 1],
            labelled,
            filtered,
            marks_unsaved,
        )
    }
}

/// How a report is laid out.
#[derive(Debug, Clone, Copy)]
pub struct Layout {
    /// Contents are shown; the number of changes is not.
    pub verbose: bool,
    /// A path is asked for.
    pub filtered: bool,
    /// Changes after the last checkpoint are marked, and a report without
    /// changes says so and nothing else.
    pub marks_unsaved: bool,
}

/// The items of a report on the segments.
pub open spec fn report_items(bs: Seq<Block>, layout: Layout, label: Seq<char>) -> Seq<ItemView> {
    let n = bs.len() as int;
    let items = all_items(bs, n, any_label(bs, n), layout.filtered, layout.marks_unsaved);
    let total = change_count(bs, n);
    if total == 0 && layout.marks_unsaved {
        seq![ItemView::NoChanges(label)]
    } else if total == 0 {
        items.push(ItemView::NoChanges(label))
    } else if layout.verbose {
        items
    } else {
        items.push(ItemView::Total(total))
    }
}

/// Adds the items of a segment.
fn add_block(items: &mut Vec<Item>, b: Block, labelled: bool, layout: Layout)
    ensures
        item_views(final(items)@) == item_views(old(items)@) + block_items(
            b,
            labelled,
            layout.filtered,
            layout.marks_unsaved,
        ),
{
    let ghost before = item_views(items@);
    let ghost cs = b.changes@;
    let ghost label = b.label;
    if labelled && b.changes.len() == 0 && layout.filtered {
        assert(before + Seq::<ItemView>::empty() =~= before);
        return ;
    }
    let ghost unsaved: Seq<ItemView> = if labelled && layout.marks_unsaved && b.label is None {
        seq![ItemView::Unsaved]
    } else {
        seq![]
    };
    if labelled && layout.marks_unsaved && b.label.is_none() {
        items.push(Item::Unsaved);
    }
    let ghost head = before + unsaved;
    assert(item_views(items@) =~= head);
    let changes = b.changes;
    assert(head + change_items(cs.take(0)) =~= head);
    for e in it: changes
        invariant
            it.seq() == cs,
            item_views(items@) == head + change_items(cs.take(it.index() as int)),
    {
        let ghost k = it.index() as int;
        let ghost had = items@;
        let (path, shown) = e;
        items.push(Item::Change(path, shown));
        proof {
            let c = ItemView::Change(path@, shown@);
            assert(item_views(items@) =~= item_views(had).push(c));
            assert(change_items(cs.take(k + 1)) =~= change_items(cs.take(k)).push(c));
            assert(head + change_items(cs.take(k + 1)) =~= (head + change_items(cs.take(k))).push(
                c,
            ));
        }
    }
    assert(cs.take(cs.len() as int) =~= cs);
    let ghost mid = items@;
    if labelled {
        if let Some((g, n)) = b.label {
            items.push(Item::Footer(g, n));
        }
    }
    proof {
        if labelled {
            assert(item_views(items@) =~= head + change_items(cs) + footer_items(label));
            if cs.len() == 0 {
                assert(change_items(cs) =~= Seq::<ItemView>::empty());
            }
        }
        assert(item_views(items@) =~= before + block_items(
            b,
            labelled,
            layout.filtered,
            layout.marks_unsaved,
        ));
    }
}

/// Lays a report out. `at`, `from` and `to` are the query that it answers.
pub fn lay_out(
    blocks: Vec<Block>,
    layout: Layout,
    at: Option<&str>,
    from: Option<&str>,
    to: Option<&str>,
) -> (r: Report)
    ensures
        item_views(r.items@) == report_items(blocks@, layout, label_of(at, from, to)),
        r.has_changes == (change_count(blocks@, blocks@.len() as int) > 0),
{
    let ghost bs = blocks@;
    let ghost n = bs.len() as int;
    let mut labelled: bool = false;
    let mut total: u128 = 0;
    let mut i: usize = 0;
    while i < blocks.len()
        invariant
            i <= blocks@.len(),
            bs == blocks@,
            n == bs.len(),
            labelled == any_label(bs, i as int),
            total == change_count(bs, i as int),
        decreases blocks@.len() - i,
    {
        proof {
            lemma_count_bound(bs, i + 1);
            if any_label(bs, i as int) {
                let k = choose|k: int| 0 <= k < i && (#[trigger] bs[k]).label is Some;
                assert(bs[k].label is Some);
            }
        }
        if blocks[i].label.is_some() {
            assert(bs[i as int].label is Some);
            labelled = true;
        }
        total = total + blocks[i].changes.len() as u128;
        i += 1;
    }
    let mut items: Vec<Item> = Vec::new();
    if total == 0 && layout.marks_unsaved {
        items.push(Item::NoChanges(range_label(at, from, to)));
        assert(item_views(items@) =~= report_items(bs, layout, label_of(at, from, to)));
        return Report { items, has_changes: false };
    }
    assert(item_views(items@) =~= all_items(
        bs,
        0,
        labelled,
        layout.filtered,
        layout.marks_unsaved,
    ));
    for b in it: blocks
        invariant
            it.seq() == bs,
            item_views(items@) == all_items(
                bs,
                it.index() as int,
                labelled,
                layout.filtered,
                layout.marks_unsaved,
            ),
    {
        add_block(&mut items, b, labelled, layout);
    }
    let ghost had = items@;
    if total == 0 {
        items.push(Item::NoChanges(range_label(at, from, to)));
    } else if !layout.verbose {
        items.push(Item::Total(total));
    }
    proof {
        if total == 0 {
            assert(item_views(items@) =~= item_views(had).push(
                ItemView::NoChanges(label_of(at, from, to)),
            ));
        } else if !layout.verbose {
            assert(item_views(items@) =~= item_views(had).push(ItemView::Total(total as nat)));
        }
    }
    Report { items, has_changes: total > 0 }
}

proof fn lemma_count_bound(bs: Seq<Block>, i: int)
    requires
        0 <= i <= bs.len() <= usize::MAX,
    ensures
        change_count(bs, i) <= u128::MAX,
{
    lemma_count_product(bs, i);
    assert(i * (usize::MAX as int) <= u128::MAX) by (nonlinear_arith)
        requires
            0 <= i <= usize::MAX,
            usize::MAX <= 0xffff_ffff_ffff_ffff,
    ;
}

proof fn lemma_count_product(bs: Seq<Block>, i: int)
    requires
        0 <= i <= bs.len(),
    ensures
        change_count(bs, i) <= i * (usize::MAX as int),
    decreases i,
{
    if i > 0 {
        lemma_count_product(bs, i - 1);
        lemma_block_len(bs[i - 1]);
        assert((i - 1) * (usize::MAX as int) + usize::MAX == i * (usize::MAX as int))
            by (nonlinear_arith);
    }
}

proof fn lemma_block_len(b: Block)
    ensures
        b.changes@.len() <= usize::MAX,
{
    assert(b.changes.len() == b.changes@.len());
}

// ── Laws ─────────────────────────────────────────────────────────────

/// The changes among the items of a report, in order.
pub open spec fn changes_in(s: Seq<ItemView>) -> Seq<(Seq<char>, ShownView)>
    decreases s.len(),
{
    if s.len() == 0 {
        Seq::empty()
    } else {
        match s.last() {
            ItemView::Change(p, c) => changes_in(s.drop_last()).push((p, c)),
            _ => changes_in(s.drop_last()),
        }
    }
}

/// The checkpoints among the items of a report, in order.
pub open spec fn footers_in(s: Seq<ItemView>) -> Seq<(u64, Seq<char>)>
    decreases s.len(),
{
    if s.len() == 0 {
        Seq::empty()
    } else {
        match s.last() {
            ItemView::Footer(g, n) => footers_in(s.drop_last()).push((g, n)),
            _ => footers_in(s.drop_last()),
        }
    }
}

/// The changes of the first `n` segments, one segment after the other.
pub open spec fn changes_of_blocks(bs: Seq<Block>, n: int) -> Seq<(Seq<char>, ShownView)>
    decreases n,
{
    if n <= 0 {
        Seq::empty()
    } else {
        changes_of_blocks(bs, n - 1) + change_views(bs[n - 1].changes@)
    }
}

/// The checkpoints that close those of the first `n` segments that are shown.
/// Where a path is asked for, segments without changes are not.
pub open spec fn closers_of(bs: Seq<Block>, n: int, filtered: bool) -> Seq<(u64, Seq<char>)>
    decreases n,
{
    if n <= 0 {
        Seq::empty()
    } else {
        match bs[n - 1].label {
            Some((g, name)) if !filtered || bs[n - 1].changes@.len() > 0 => closers_of(
                bs,
                n - 1,
                filtered,
            ).push((g, name@)),
            _ => closers_of(bs, n - 1, filtered),
        }
    }
}

proof fn lemma_in_joined(a: Seq<ItemView>, b: Seq<ItemView>)
    ensures
        changes_in(a + b) == changes_in(a) + changes_in(b),
        footers_in(a + b) == footers_in(a) + footers_in(b),
    decreases b.len(),
{
    if b.len() == 0 {
        assert(a + b =~= a);
        assert(changes_in(a) + changes_in(b) =~= changes_in(a));
        assert(footers_in(a) + footers_in(b) =~= footers_in(a));
    } else {
        lemma_in_joined(a, b.drop_last());
        assert((a + b).drop_last() =~= a + b.drop_last());
        assert((a + b).last() == b.last());
        assert(changes_in(a + b) =~= changes_in(a) + changes_in(b));
        assert(footers_in(a + b) =~= footers_in(a) + footers_in(b));
    }
}

proof fn lemma_in_changes(s: Seq<(String, Shown)>)
    ensures
        changes_in(change_items(s)) == change_views(s),
        footers_in(change_items(s)) == Seq::<(u64, Seq<char>)>::empty(),
    decreases s.len(),
{
    if s.len() == 0 {
        assert(change_views(s) =~= Seq::empty());
    } else {
        lemma_in_changes(s.drop_last());
        assert(change_items(s).drop_last() =~= change_items(s.drop_last()));
        assert(change_views(s) =~= change_views(s.drop_last()).push((s.last().0@, s.last().1@)));
    }
}

proof fn lemma_in_one(x: ItemView)
    ensures
        changes_in(seq![x]) =~= match x {
            ItemView::Change(p, c) => seq![(p, c)],
            _ => Seq::empty(),
        },
        footers_in(seq![x]) =~= match x {
            ItemView::Footer(g, n) => seq![(g, n)],
            _ => Seq::empty(),
        },
{
    assert(seq![x].drop_last() =~= Seq::<ItemView>::empty());
    assert(changes_in(seq![x].drop_last()) =~= Seq::empty());
    assert(footers_in(seq![x].drop_last()) =~= Seq::empty());
}

proof fn lemma_in_block(b: Block, labelled: bool, filtered: bool, marks_unsaved: bool)
    requires
        b.label is Some ==> labelled,
    ensures
        changes_in(block_items(b, labelled, filtered, marks_unsaved)) == change_views(b.changes@),
        footers_in(block_items(b, labelled, filtered, marks_unsaved)) == match b.label {
            Some((g, n)) if !filtered || b.changes@.len() > 0 => seq![(g, n@)],
            _ => Seq::empty(),
        },
{
    let unsaved: Seq<ItemView> = if labelled && marks_unsaved && b.label is None {
        seq![ItemView::Unsaved]
    } else {
        seq![]
    };
    let (cs, fs) = (change_items(b.changes@), footer_items(b.label));
    lemma_in_one(ItemView::Unsaved);
    lemma_in_changes(b.changes@);
    if let Some((g, n)) = b.label {
        lemma_in_one(ItemView::Footer(g, n@));
    }
    lemma_in_joined(unsaved, cs);
    lemma_in_joined(unsaved + cs, fs);
    lemma_in_joined(unsaved, fs);
    if b.changes@.len() == 0 {
        assert(change_views(b.changes@) =~= Seq::empty());
    }
    let items = block_items(b, labelled, filtered, marks_unsaved);
    assert(changes_in(items) =~= change_views(b.changes@));
    assert(footers_in(items) =~= match b.label {
        Some((g, n)) if !filtered || b.changes@.len() > 0 => seq![(g, n@)],
        _ => Seq::empty(),
    });
}

proof fn lemma_in_all(bs: Seq<Block>, n: int, labelled: bool, filtered: bool, marks_unsaved: bool)
    requires
        0 <= n <= bs.len(),
        forall|i: int| 0 <= i < bs.len() && (#[trigger] bs[i]).label is Some ==> labelled,
    ensures
        changes_in(all_items(bs, n, labelled, filtered, marks_unsaved)) == changes_of_blocks(bs, n),
        footers_in(all_items(bs, n, labelled, filtered, marks_unsaved)) == closers_of(
            bs,
            n,
            filtered,
        ),
        changes_of_blocks(bs, n).len() == change_count(bs, n),
    decreases n,
{
    if n > 0 {
        lemma_in_all(bs, n - 1, labelled, filtered, marks_unsaved);
        let b = bs[n - 1];
        lemma_in_block(b, labelled, filtered, marks_unsaved);
        let a = all_items(bs, n - 1, labelled, filtered, marks_unsaved);
        lemma_in_joined(a, block_items(b, labelled, filtered, marks_unsaved));
        assert(footers_in(all_items(bs, n, labelled, filtered, marks_unsaved)) =~= closers_of(
            bs,
            n,
            filtered,
        ));
    }
}

/// A report shows every change of its segments, each once and in order, and
/// ends in saying how many there are, unless contents are shown, or that there
/// are none. Where there are changes, each segment that is shown is closed by
/// its checkpoint.
pub proof fn law_report_is_complete(bs: Seq<Block>, layout: Layout, label: Seq<char>)
    ensures
        ({
            let items = report_items(bs, layout, label);
            let n = bs.len() as int;
            let all = changes_of_blocks(bs, n);
            &&& changes_in(items) == all
            &&& all.len() > 0 || !layout.marks_unsaved ==> footers_in(items) == closers_of(
                bs,
                n,
                layout.filtered,
            )
            &&& all.len() == 0 ==> items.len() > 0 && items.last() == ItemView::NoChanges(label)
            &&& all.len() > 0 && !layout.verbose ==> items.len() > 0 && items.last()
                == ItemView::Total(all.len())
            &&& all.len() > 0 ==> forall|i: int|
                0 <= i < items.len() ==> !(#[trigger] items[i] is NoChanges)
            &&& layout.verbose ==> forall|i: int|
                0 <= i < items.len() ==> !(#[trigger] items[i] is Total)
        }),
{
    let n = bs.len() as int;
    let labelled = any_label(bs, n);
    let a = all_items(bs, n, labelled, layout.filtered, layout.marks_unsaved);
    lemma_in_all(bs, n, labelled, layout.filtered, layout.marks_unsaved);
    lemma_plain_items(bs, n, labelled, layout.filtered, layout.marks_unsaved);
    lemma_in_one(ItemView::NoChanges(label));
    let total = ItemView::Total(change_count(bs, n));
    lemma_in_one(total);
    lemma_in_joined(a, seq![ItemView::NoChanges(label)]);
    lemma_in_joined(a, seq![total]);
    assert(a.push(total) =~= a + seq![total]);
    assert(a.push(ItemView::NoChanges(label)) =~= a + seq![ItemView::NoChanges(label)]);
    let items = report_items(bs, layout, label);
    assert(changes_in(items) =~= changes_of_blocks(bs, n));
}

/// The items for segments say neither how many changes there are nor that there are none.
proof fn lemma_plain_items(
    bs: Seq<Block>,
    n: int,
    labelled: bool,
    filtered: bool,
    marks_unsaved: bool,
)
    requires
        0 <= n <= bs.len(),
    ensures
        forall|i: int|
            0 <= i < all_items(bs, n, labelled, filtered, marks_unsaved).len() ==> !(
            #[trigger] all_items(bs, n, labelled, filtered, marks_unsaved)[i] is NoChanges) && !(
            all_items(bs, n, labelled, filtered, marks_unsaved)[i] is Total),
    decreases n,
{
    if n > 0 {
        lemma_plain_items(bs, n - 1, labelled, filtered, marks_unsaved);
    }
}

} // verus!
