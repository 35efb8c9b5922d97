//! The difference between the old text of a file and the new one, as the
//! lines to show for it.

use crate::text::{copy_bytes, copy_range, LINE_FEED};
use vstd::prelude::*;

verus! {

/// The carriage return, which belongs to the line break where it stands
/// before a line feed.
pub const CARRIAGE_RETURN: u8 = 13;

/// A stretch of text that both texts share, that only the new one has, or that
/// only the old one has.
#[derive(Debug)]
pub enum Change {
    Same(Vec<u8>),
    Add(Vec<u8>),
    Rem(Vec<u8>),
}

/// A change as contracts see it.
pub enum ChangeView {
    Same(Seq<u8>),
    Add(Seq<u8>),
    Rem(Seq<u8>),
}

impl View for Change {
    type V = ChangeView;

    open spec fn view(&self) -> ChangeView {
        match *self {
            Change::Same(text) => ChangeView::Same(text@),
            Change::Add(text) => ChangeView::Add(text@),
            Change::Rem(text) => ChangeView::Rem(text@),
        }
    }
}

/// The views of `changes`, in order.
pub open spec fn change_views(changes: Seq<Change>) -> Seq<ChangeView> {
    Seq::new(changes.len(), |i: int| changes[i]@)
}

/// The changes that lead from `old` to `new` as the `difference` crate finds
/// them when it splits both at `split`.
pub uninterp spec fn difference_changes(old: Seq<u8>, new: Seq<u8>, split: Seq<char>) -> Seq<
    ChangeView,
>;

/// Calls `difference::Changeset::new` and hands out its `diffs`. The result is
/// named, not described; bytes that are not UTF-8 reach the crate as
/// replacement characters.
#[verifier::external_body]
fn changeset(old: &[u8], new: &[u8], split: &str) -> (changes: Vec<Change>)
    ensures
        change_views(changes@) == difference_changes(old@, new@, split@),
{
    let old_text = String::from_utf8_lossy(old);
    let new_text = String::from_utf8_lossy(new);
    let set = difference::Changeset::new(&old_text, &new_text, split);
    set.diffs.into_iter().map(|diff| match diff {
        difference::Difference::Same(text) => Change::Same(text.into_bytes()),
        difference::Difference::Add(text) => Change::Add(text.into_bytes()),
        difference::Difference::Rem(text) => Change::Rem(text.into_bytes()),
    }).collect()
}

/// The offset of the first line feed in `text` from `from` on, or the length
/// of `text` where there is none.
pub open spec fn line_end(text: Seq<u8>, from: int) -> int
    decreases text.len() - from,
{
    if from < 0 || from >= text.len() {
        text.len() as int
    } else if text[from] == LINE_FEED {
        from
    } else {
        line_end(text, from + 1)
    }
}

/// `line` without the carriage return that it ends with, if it ends with one.
pub open spec fn without_return(line: Seq<u8>) -> Seq<u8> {
    if line.len() > 0 && line.last() == CARRIAGE_RETURN {
        line.drop_last()
    } else {
        line
    }
}

/// The lines of `text` from the offset `from` on. A line ends at a line feed,
/// or at a carriage return and a line feed, neither of which belongs to it;
/// the last line may end with the text instead, and then keeps what it holds.
pub open spec fn lines_from(text: Seq<u8>, from: int) -> Seq<Seq<u8>>
    decreases text.len() - from,
    via lines_from_terminates
{
    if from < 0 || from >= text.len() {
        Seq::empty()
    } else {
        let end = line_end(text, from);
        if end < text.len() {
            seq![without_return(text.subrange(from, end))] + lines_from(text, end + 1)
        } else {
            seq![text.subrange(from, end)]
        }
    }
}

#[via_fn]
proof fn lines_from_terminates(text: Seq<u8>, from: int) {
    if 0 <= from < text.len() {
        lemma_line_end(text, from);
    }
}

/// `line_end` answers with an offset from `from` on at which a line feed
/// stands, or with the length of the text; no line feed stands before it.
pub proof fn lemma_line_end(text: Seq<u8>, from: int)
    requires
        0 <= from <= text.len(),
    ensures
        from <= line_end(text, from) <= text.len(),
        line_end(text, from) < text.len() ==> text[line_end(text, from)] == LINE_FEED,
        forall|k: int| from <= k < line_end(text, from) ==> text[k] != LINE_FEED,
    decreases text.len() - from,
{
    if from < text.len() && text[from] != LINE_FEED {
        lemma_line_end(text, from + 1);
    }
}

/// The lines of `text`.
pub open spec fn lines_of(text: Seq<u8>) -> Seq<Seq<u8>> {
    lines_from(text, 0)
}

/// What a line of the difference is: shared by both texts and shown for
/// context, added by the new text, or removed from the old one.
#[derive(Clone, Copy, Debug, PartialEq, Eq, Structural)]
pub enum LineKind {
    Context,
    Added,
    Removed,
}

/// One line of the difference.
#[derive(Debug)]
pub struct DiffLine {
    pub kind: LineKind,
    pub text: Vec<u8>,
}

/// A line of the difference as contracts see it.
pub struct LineView {
    pub kind: LineKind,
    pub text: Seq<u8>,
}

impl View for DiffLine {
    type V = LineView;

    open spec fn view(&self) -> LineView {
        LineView { kind: self.kind, text: self.text@ }
    }
}

/// The views of `lines`, in order.
pub open spec fn line_views(lines: Seq<DiffLine>) -> Seq<LineView> {
    Seq::new(lines.len(), |i: int| lines[i]@)
}

/// `lines`, each of `kind`.
pub open spec fn tagged(kind: LineKind, lines: Seq<Seq<u8>>) -> Seq<LineView> {
    Seq::new(lines.len(), |i: int| LineView { kind, text: lines[i] })
}

/// The smaller of two numbers.
pub open spec fn least(a: int, b: int) -> int {
    if a <= b {
        a
    } else {
        b
    }
}

/// How many of `count` shared lines are shown behind the change before them:
/// up to `context`, and none where no change stands before them.
pub open spec fn shown_at_start(count: int, context: int, first: bool) -> int {
    if first {
        0
    } else {
        least(context, count)
    }
}

/// How many of `count` shared lines are shown before the change behind them:
/// up to `context` of those not shown at the start, and none where no change
/// follows them.
pub open spec fn shown_at_end(count: int, context: int, first: bool, last: bool) -> int {
    if last {
        0
    } else {
        least(context, count - shown_at_start(count, context, first))
    }
}

/// The lines shown for one change. Added and removed lines are all shown. Of
/// shared lines, those next to a change are: the first ones unless the change
/// is the first, and the last ones unless it is the last.
pub open spec fn shown_for(change: ChangeView, context: int, first: bool, last: bool) -> Seq<
    LineView,
> {
    match change {
        ChangeView::Same(text) => {
            let lines = lines_of(text);
            let count = lines.len() as int;
            tagged(LineKind::Context, lines.take(shown_at_start(count, context, first)))
                + tagged(
                LineKind::Context,
                lines.skip(count - shown_at_end(count, context, first, last)),
            )
        },
        ChangeView::Add(text) => tagged(LineKind::Added, lines_of(text)),
        ChangeView::Rem(text) => tagged(LineKind::Removed, lines_of(text)),
    }
}

/// The lines shown for the first `count` of `changes`.
pub open spec fn shown_upto(changes: Seq<ChangeView>, context: int, count: int) -> Seq<LineView>
    decreases count,
{
    if count <= 0 {
        Seq::empty()
    } else {
        shown_upto(changes, context, count - 1) + shown_for(
            changes[count - 1],
            context,
            count == 1,
            count == changes.len(),
        )
    }
}

/// The lines shown for `changes`, with up to `context` shared lines on either
/// side of what was added or removed.
pub open spec fn shown(changes: Seq<ChangeView>, context: int) -> Seq<LineView> {
    shown_upto(changes, context, changes.len() as int)
}

/// Whether `changes` add or remove anything.
pub open spec fn differs(changes: Seq<ChangeView>) -> bool {
    exists|i: int| 0 <= i < changes.len() && !(#[trigger] changes[i] is Same)
}

/// The texts of `lines`, in order.
pub open spec fn line_texts(lines: Seq<Vec<u8>>) -> Seq<Seq<u8>> {
    Seq::new(lines.len(), |i: int| lines[i]@)
}

/// Splits `text` into its lines.
pub fn split_lines(text: &[u8]) -> (lines: Vec<Vec<u8>>)
    ensures
        line_texts(lines@) == lines_of(text@),
{
    let count = text.len();
    let mut lines: Vec<Vec<u8>> = Vec::new();
    let mut from: usize = 0;
    assert(line_texts(lines@) + lines_from(text@, 0) =~= lines_of(text@));
    while from < count
        invariant
            count == text@.len(),
            0 <= from <= count,
            line_texts(lines@) + lines_from(text@, from as int) == lines_of(text@),
        decreases count - from,
    {
        let mut end: usize = from;
        while end < count && text[end] != LINE_FEED
            invariant
                count == text@.len(),
                from <= end <= count,
                line_end(text@, end as int) == line_end(text@, from as int),
            decreases count - end,
        {
            end = end + 1;
        }
        let ghost before = line_texts(lines@);
        if end < count {
            let stop = if end > from && text[end - 1] == CARRIAGE_RETURN {
                end - 1
            } else {
                end
            };
            let line = copy_range(text, from, stop);
            proof {
                let whole = text@.subrange(from as int, end as int);
                assert(line@ =~= without_return(whole));
                let rest = lines_from(text@, end + 1);
                assert(before.push(line@) + rest =~= before + (seq![line@] + rest));
            }
            lines.push(line);
            assert(line_texts(lines@) =~= before.push(line@));
            from = end + 1;
        } else {
            let line = copy_range(text, from, end);
            proof {
                assert(lines_from(text@, end as int) =~= Seq::<Seq<u8>>::empty());
                assert(before.push(line@) + Seq::<Seq<u8>>::empty() =~= before + seq![line@]);
            }
            lines.push(line);
            assert(line_texts(lines@) =~= before.push(line@));
            from = end;
        }
    }
    assert(line_texts(lines@) + Seq::<Seq<u8>>::empty() =~= line_texts(lines@));
    lines
}

/// Appends the lines of `lines` from `from` up to `to` to `out`, each of
/// `kind`.
fn push_lines(out: &mut Vec<DiffLine>, kind: LineKind, lines: &Vec<Vec<u8>>, from: usize, to: usize)
    requires
        from <= to <= lines@.len(),
    ensures
        line_views(final(out)@) == line_views(old(out)@) + tagged(
            kind,
            line_texts(lines@).subrange(from as int, to as int),
        ),
{
    let ghost texts = line_texts(lines@);
    let mut i: usize = from;
    assert(line_views(out@) =~= line_views(old(out)@) + tagged(
        kind,
        texts.subrange(from as int, from as int),
    ));
    while i < to
        invariant
            texts == line_texts(lines@),
            from <= i <= to <= lines@.len(),
            line_views(out@) == line_views(old(out)@) + tagged(
                kind,
                texts.subrange(from as int, i as int),
            ),
        decreases to - i,
    {
        let ghost before = line_views(out@);
        let text = copy_bytes(lines[i].as_slice());
        out.push(DiffLine { kind, text });
        assert(line_views(out@) =~= before.push(LineView { kind, text: texts[i as int] }));
        assert(tagged(kind, texts.subrange(from as int, i + 1)) =~= tagged(
            kind,
            texts.subrange(from as int, i as int),
        ).push(LineView { kind, text: texts[i as int] }));
        i = i + 1;
    }
}

/// Appends the lines shown for `change` to `out`.
pub fn push_change(out: &mut Vec<DiffLine>, change: &Change, context: usize, first: bool, last: bool)
    ensures
        line_views(final(out)@) == line_views(old(out)@) + shown_for(
            change@,
            context as int,
            first,
            last,
        ),
{
    match change {
        Change::Same(text) => {
            let lines = split_lines(text.as_slice());
            let count = lines.len();
            let head = if first {
                0
            } else if context < count {
                context
            } else {
                count
            };
            let tail = if last {
                0
            } else if context < count - head {
                context
            } else {
                count - head
            };
            let ghost texts = line_texts(lines@);
            push_lines(out, LineKind::Context, &lines, 0, head);
            push_lines(out, LineKind::Context, &lines, count - tail, count);
            proof {
                assert(texts.subrange(0, head as int) =~= texts.take(head as int));
                assert(texts.subrange(count - tail, count as int) =~= texts.skip(count - tail));
                let a = tagged(LineKind::Context, texts.take(head as int));
                let b = tagged(LineKind::Context, texts.skip(count - tail));
                assert(line_views(out@) =~= line_views(old(out)@) + (a + b));
            }
        },
        Change::Add(text) => {
            let lines = split_lines(text.as_slice());
            push_lines(out, LineKind::Added, &lines, 0, lines.len());
            assert(line_texts(lines@).subrange(0, lines@.len() as int) =~= line_texts(lines@));
        },
        Change::Rem(text) => {
            let lines = split_lines(text.as_slice());
            push_lines(out, LineKind::Removed, &lines, 0, lines.len());
            assert(line_texts(lines@).subrange(0, lines@.len() as int) =~= line_texts(lines@));
        },
    }
}

/// The lines to show for `changes`, with up to `context` shared lines on
/// either side of what was added or removed.
pub fn diff_lines(context: usize, changes: &Vec<Change>) -> (lines: Vec<DiffLine>)
    ensures
        line_views(lines@) == shown(change_views(changes@), context as int),
{
    let ghost all = change_views(changes@);
    let count = changes.len();
    let mut lines: Vec<DiffLine> = Vec::new();
    let mut i: usize = 0;
    assert(line_views(lines@) =~= Seq::<LineView>::empty());
    while i < count
        invariant
            all == change_views(changes@),
            count == changes@.len(),
            0 <= i <= count,
            line_views(lines@) == shown_upto(all, context as int, i as int),
        decreases count - i,
    {
        push_change(&mut lines, &changes[i], context, i == 0, i + 1 == count);
        i = i + 1;
    }
    lines
}

/// Whether `changes` add or remove anything.
pub fn has_difference(changes: &Vec<Change>) -> (found: bool)
    ensures
        found == differs(change_views(changes@)),
{
    let mut i: usize = 0;
    while i < changes.len()
        invariant
            0 <= i <= changes@.len(),
            forall|k: int| 0 <= k < i ==> (#[trigger] change_views(changes@)[k]) is Same,
        decreases changes@.len() - i,
    {
        match &changes[i] {
            Change::Same(_) => {},
            _ => {
                assert(!(change_views(changes@)[i as int] is Same));
                return true;
            },
        }
        i = i + 1;
    }
    false
}

/// What there is to show of the difference between two texts: the lines, and
/// whether anything was added or removed at all.
#[derive(Debug)]
pub struct DiffReport {
    pub lines: Vec<DiffLine>,
    pub changed: bool,
}

/// Compares `old` with `new` line by line and reports the lines to show, with
/// up to `context` unchanged lines on either side of each change, and whether
/// the texts differ.
pub fn diff(context: usize, old: &[u8], new: &[u8]) -> (report: DiffReport)
    ensures
        line_views(report.lines@) == shown(
            difference_changes(old@, new@, "\n"@),
            context as int,
        ),
        report.changed == differs(difference_changes(old@, new@, "\n"@)),
{
    let changes = changeset(old, new, "\n");
    DiffReport { lines: diff_lines(context, &changes), changed: has_difference(&changes) }
}

} // verus!
