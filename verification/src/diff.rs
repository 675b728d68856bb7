//! Showing changes: unified diffs of contents, and labels for queries.
use crate::text::same;
use vstd::prelude::*;
use vstd::string::StringExecFns;

verus! {

/// How a piece of text is shown on a terminal.
#[derive(Debug, Clone, Copy, PartialEq, Eq, Structural)]
pub enum Style {
    Plain,
    Bold,
    Dimmed,
    Red,
    Green,
    Yellow,
    Blue,
    Magenta,
    Cyan,
    CyanBold,
    YellowBold,
}

/// A piece of text and how it is shown.
#[derive(Debug)]
pub struct Span {
    pub text: String,
    pub style: Style,
}

/// A piece of text and how it is shown, as a mathematical value.
pub struct SpanView {
    pub text: Seq<char>,
    pub style: Style,
}

impl View for Span {
    type V = SpanView;

    open spec fn view(&self) -> SpanView {
        SpanView { text: self.text@, style: self.style }
    }
}

/// The pieces as mathematical values.
pub open spec fn span_views(s: Seq<Span>) -> Seq<SpanView> {
    Seq::new(s.len(), |i: int| s[i]@)
}

/// The text of the pieces, without their styles.
pub open spec fn plain_text(s: Seq<SpanView>) -> Seq<char>
    decreases s.len(),
{
    if s.len() == 0 {
        Seq::empty()
    } else {
        plain_text(s.drop_last()) + s.last().text
    }
}

/// Puts the text of the pieces together, without their styles.
pub fn strip_styles(spans: &Vec<Span>) -> (r: String)
    ensures
        r@ == plain_text(span_views(spans@)),
{
    let ghost v = span_views(spans@);
    let mut r = String::new();
    let mut i: usize = 0;
    while i < spans.len()
        invariant
            i <= spans@.len(),
            v == span_views(spans@),
            r@ == plain_text(v.take(i as int)),
        decreases spans@.len() - i,
    {
        proof {
            assert(v.take(i + 1).drop_last() =~= v.take(i as int));
        }
        r.append(spans[i].text.as_str());
        i += 1;
    }
    assert(v.take(v.len() as int) =~= v);
    r
}

/// A piece of text.
pub fn span(text: &str, style: Style) -> (r: Span)
    ensures
        r@ == (SpanView { text: text@, style }),
{
    Span { text: text.to_owned(), style }
}

// ── Unified diffs ────────────────────────────────────────────────────

/// What has become of a line.
#[derive(Debug, Clone, Copy, PartialEq, Eq, Structural)]
pub enum LineTag {
    Deleted,
    Inserted,
    Unchanged,
}

/// A line of a unified diff.
#[derive(Debug)]
pub struct DiffLine {
    pub tag: LineTag,
    /// The line, with its line end where it has one.
    pub text: String,
    /// Whether a line end is missing.
    pub missing_newline: bool,
}

/// The lines as mathematical values.
pub open spec fn line_views(s: Seq<DiffLine>) -> Seq<(LineTag, Seq<char>, bool)> {
    Seq::new(s.len(), |i: int| (s[i].tag, s[i].text@, s[i].missing_newline))
}

/// The lines of the unified diff of two texts, hunk after hunk, with so many
/// unchanged lines around each change.
pub uninterp spec fn unified_lines(old_text: Seq<char>, new_text: Seq<char>, radius: nat) -> Seq<
    (LineTag, Seq<char>, bool),
>;

/// `similar::TextDiff::from_lines`, and of it `unified_diff` with its
/// `context_radius`, hunk after hunk: the lines that differ and those around
/// them. Which lines these are depends on the two texts and the radius alone.
#[verifier::external_body]
fn diff_lines(old_text: &str, new_text: &str, radius: usize) -> (r: Vec<DiffLine>)
    requires
        radius <= 65535,
    ensures
        line_views(r@) == unified_lines(old_text@, new_text@, radius as nat),
{
    let diff = similar::TextDiff::from_lines(old_text, new_text);
    let mut out: Vec<DiffLine> = Vec::new();
    for hunk in diff.unified_diff().context_radius(radius).iter_hunks() {
        for change in hunk.iter_changes() {
            let tag = match change.tag() {
                similar::ChangeTag::Delete => LineTag::Deleted,
                similar::ChangeTag::Insert => LineTag::Inserted,
                similar::ChangeTag::Equal => LineTag::Unchanged,
            };
            let text = change.to_string_lossy().into_owned();
            out.push(DiffLine { tag, text, missing_newline: change.missing_newline() });
        }
    }
    out
}

/// The mark and the style of a line.
pub open spec fn line_mark(tag: LineTag) -> (Seq<char>, Style) {
    match tag {
        LineTag::Deleted => ("-"@, Style::Red),
        LineTag::Inserted => ("+"@, Style::Green),
        LineTag::Unchanged => (" "@, Style::Plain),
    }
}

/// What is printed for the first `n` lines: each after its mark, and a line
/// end where it has none of its own.
pub open spec fn printed(lines: Seq<(LineTag, Seq<char>, bool)>, n: int) -> Seq<SpanView>
    decreases n,
{
    if n <= 0 {
        Seq::empty()
    } else {
        let (tag, text, missing) = lines[n - 1];
        let (mark, style) = line_mark(tag);
        let shown = printed(lines, n - 1).push(SpanView { text: mark + text, style });
        if missing {
            shown.push(SpanView { text: "\n"@, style: Style::Plain })
        } else {
            shown
        }
    }
}

/// What is printed for the lines of a diff.
pub fn print_lines(lines: &Vec<DiffLine>) -> (r: Vec<Span>)
    ensures
        span_views(r@) == printed(line_views(lines@), lines@.len() as int),
{
    let ghost v = line_views(lines@);
    let mut out: Vec<Span> = Vec::new();
    let mut i: usize = 0;
    assert(span_views(out@) =~= printed(v, 0));
    while i < lines.len()
        invariant
            i <= lines@.len(),
            v == line_views(lines@),
            span_views(out@) == printed(v, i as int),
        decreases lines@.len() - i,
    {
        let ghost before = out@;
        let (mark, style) = match lines[i].tag {
            LineTag::Deleted => ("-", Style::Red),
            LineTag::Inserted => ("+", Style::Green),
            LineTag::Unchanged => (" ", Style::Plain),
        };
        let text = mark.to_owned().concat(lines[i].text.as_str());
        let s = Span { text, style };
        out.push(s);
        proof {
            assert(span_views(out@) =~= span_views(before).push(s@));
        }
        let ghost half = out@;
        if lines[i].missing_newline {
            let e = span("\n", Style::Plain);
            out.push(e);
            proof {
                assert(span_views(out@) =~= span_views(half).push(e@));
            }
        }
        i += 1;
    }
    out
}

/// What is printed for the difference of two texts, with three unchanged
/// lines around each change.
pub fn print_unified_diff(old_text: &str, new_text: &str) -> (r: Vec<Span>)
    ensures
        span_views(r@) == printed(
            unified_lines(old_text@, new_text@, 3),
            unified_lines(old_text@, new_text@, 3).len() as int,
        ),
{
    let lines = diff_lines(old_text, new_text, 3);
    print_lines(&lines)
}

// ── Labels ───────────────────────────────────────────────────────────

/// What a query asks for, in words.
pub open spec fn label_of(at: Option<&str>, from: Option<&str>, to: Option<&str>) -> Seq<char> {
    match at {
        Some(name) => " at checkpoint \""@ + name@ + "\""@,
        None => match (from, to) {
            (Some(f), Some(t)) => " between \""@ + f@ + "\" and \""@ + t@ + "\""@,
            (Some(f), None) => " since checkpoint \""@ + f@ + "\""@,
            (None, Some(t)) => " up to checkpoint \""@ + t@ + "\""@,
            (None, None) => " staged"@,
        },
    }
}

/// What a query asks for, in words.
pub fn range_label(at: Option<&str>, from: Option<&str>, to: Option<&str>) -> (r: String)
    ensures
        r@ == label_of(at, from, to),
{
    match at {
        Some(name) => " at checkpoint \"".to_owned().concat(name).concat("\""),
        None => match (from, to) {
            (Some(f), Some(t)) => " between \"".to_owned().concat(f).concat("\" and \"").concat(
                t,
            ).concat("\""),
            (Some(f), None) => " since checkpoint \"".to_owned().concat(f).concat("\""),
            (None, Some(t)) => " up to checkpoint \"".to_owned().concat(t).concat("\""),
            (None, None) => " staged".to_owned(),
        },
    }
}

// ── Changes ──────────────────────────────────────────────────────────

/// What is shown of a changed path.
#[derive(Debug)]
pub enum Shown {
    /// A new path with staged content.
    Added(u64),
    /// A path with new staged content.
    Modified(u64),
    Deleted,
    /// A path that shows what stood at another.
    Renamed(String),
}

/// What is shown of a changed path, as a mathematical value.
pub enum ShownView {
    Added(u64),
    Modified(u64),
    Deleted,
    Renamed(Seq<char>),
}

impl View for Shown {
    type V = ShownView;

    open spec fn view(&self) -> ShownView {
        match self {
            Shown::Added(i) => ShownView::Added(*i),
            Shown::Modified(i) => ShownView::Modified(*i),
            Shown::Deleted => ShownView::Deleted,
            Shown::Renamed(p) => ShownView::Renamed(p@),
        }
    }
}

/// The line that announces a change.
pub open spec fn headline_of(path: Seq<char>, shown: ShownView) -> Seq<SpanView> {
    let name = SpanView { text: path, style: Style::Bold };
    let gap = SpanView { text: " "@, style: Style::Plain };
    match shown {
        ShownView::Added(_) => seq![
            name,
            gap,
            SpanView { text: "(added)"@, style: Style::Green },
        ],
        ShownView::Modified(_) => seq![
            name,
            gap,
            SpanView { text: "(modified)"@, style: Style::Yellow },
        ],
        ShownView::Deleted => seq![name, gap, SpanView { text: "(deleted)"@, style: Style::Red }],
        ShownView::Renamed(from) => seq![
            SpanView { text: from, style: Style::Bold },
            SpanView { text: " → "@, style: Style::Plain },
            name,
            gap,
            SpanView { text: "(renamed)"@, style: Style::Cyan },
        ],
    }
}

/// The line that announces a change.
pub fn headline(path: &str, shown: &Shown) -> (r: Vec<Span>)
    ensures
        span_views(r@) == headline_of(path@, shown@),
{
    let mut out: Vec<Span> = Vec::new();
    if let Shown::Renamed(from) = shown {
        out.push(span(from.as_str(), Style::Bold));
        out.push(span(" → ", Style::Plain));
    }
    out.push(span(path, Style::Bold));
    out.push(span(" ", Style::Plain));
    match shown {
        Shown::Added(_) => out.push(span("(added)", Style::Green)),
        Shown::Modified(_) => out.push(span("(modified)", Style::Yellow)),
        Shown::Deleted => out.push(span("(deleted)", Style::Red)),
        Shown::Renamed(_) => out.push(span("(renamed)", Style::Cyan)),
    }
    assert(span_views(out@) =~= headline_of(path@, shown@));
    out
}

/// What is shown of a change, given what its contents were and what they are.
/// Where contents are asked for, a modification that leaves them as they were
/// is not shown, and a rename has none to show.
pub open spec fn change_of(
    path: Seq<char>,
    shown: ShownView,
    old_text: Seq<char>,
    new_text: Seq<char>,
    verbose: bool,
) -> Seq<SpanView> {
    let head = headline_of(path, shown).push(SpanView { text: "\n"@, style: Style::Plain });
    let body = |a: Seq<char>, b: Seq<char>|
        printed(unified_lines(a, b, 3), unified_lines(a, b, 3).len() as int);
    if !verbose {
        head
    } else {
        match shown {
            ShownView::Added(_) => head + body(""@, new_text),
            ShownView::Modified(_) => if old_text == new_text {
                Seq::empty()
            } else {
                head + body(old_text, new_text)
            },
            ShownView::Deleted => head + body(old_text, ""@),
            ShownView::Renamed(_) => head,
        }
    }
}

/// What is shown of a change, given what its contents were and what they are.
pub fn show_change(
    path: &str,
    shown: &Shown,
    old_text: &str,
    new_text: &str,
    verbose: bool,
) -> (r: Vec<Span>)
    ensures
        span_views(r@) == change_of(path@, shown@, old_text@, new_text@, verbose),
{
    let mut out = headline(path, shown);
    let ghost before = out@;
    out.push(span("\n", Style::Plain));
    let ghost head = out@;
    proof {
        assert(span_views(head) =~= span_views(before).push(
            SpanView { text: "\n"@, style: Style::Plain },
        ));
    }
    if !verbose {
        return out;
    }
    let mut body: Vec<Span> = match shown {
        Shown::Added(_) => print_unified_diff("", new_text),
        Shown::Modified(_) => {
            if same(old_text, new_text) {
                return Vec::new();
            }
            print_unified_diff(old_text, new_text)
        },
        Shown::Deleted => print_unified_diff(old_text, ""),
        Shown::Renamed(_) => return out,
    };
    let ghost rest = body@;
    out.append(&mut body);
    assert(span_views(out@) =~= span_views(head) + span_views(rest));
    out
}

/// What a query asks for names the checkpoints that it is about, and nothing
/// else: a query at one checkpoint takes no notice of the ends of a range.
pub proof fn law_labels_name_checkpoints(
    at: &str,
    from: Option<&str>,
    to: Option<&str>,
    other: Option<&str>,
)
    ensures
        label_of(Some(at), from, to) == label_of(Some(at), None, other),
        label_of(Some(at), None, None) == " at checkpoint \""@ + at@ + "\""@,
        label_of(None, Some(at), None) == " since checkpoint \""@ + at@ + "\""@,
        label_of(None, None, Some(at)) == " up to checkpoint \""@ + at@ + "\""@,
        label_of(None, None, None) == " staged"@,
        from matches Some(f) ==> label_of(None, from, Some(at)) == " between \""@ + f@
            + "\" and \""@ + at@ + "\""@,
{
}

} // verus!
