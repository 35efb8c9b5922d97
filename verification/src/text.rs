//! Byte-level text: line and column arithmetic, comparison and trimming.

use vstd::prelude::*;

verus! {

/// The line feed byte, the only line break this library knows.
pub const LINE_FEED: u8 = 10;

/// The byte of a space.
pub const SPACE: u8 = 32;

/// The byte of `!`.
pub const BANG: u8 = 33;

/// The byte of a double quote.
pub const QUOTE: u8 = 34;

/// The byte of `#`.
pub const HASH: u8 = 35;

/// The byte of `$`.
pub const DOLLAR: u8 = 36;

/// The byte of `%`.
pub const PERCENT: u8 = 37;

/// The byte of `&`.
pub const AMPERSAND: u8 = 38;

/// The byte of an apostrophe.
pub const APOSTROPHE: u8 = 39;

/// The byte of `(`.
pub const PAREN_OPEN: u8 = 40;

/// The byte of `)`.
pub const PAREN_CLOSE: u8 = 41;

/// The byte of `*`.
pub const ASTERISK: u8 = 42;

/// The byte of `+`.
pub const PLUS: u8 = 43;

/// The byte of `,`.
pub const COMMA: u8 = 44;

/// The byte of `-`.
pub const HYPHEN: u8 = 45;

/// The byte of `.`.
pub const FULL_STOP: u8 = 46;

/// The byte of `/`.
pub const SLASH: u8 = 47;

/// The byte of `0`.
pub const DIGIT_0: u8 = 48;

/// The byte of `9`.
pub const DIGIT_9: u8 = 57;

/// The byte of `:`.
pub const COLON: u8 = 58;

/// The byte of `;`.
pub const SEMICOLON: u8 = 59;

/// The byte of `<`.
pub const LESS: u8 = 60;

/// The byte of `=`.
pub const EQUALS: u8 = 61;

/// The byte of `>`.
pub const GREATER: u8 = 62;

/// The byte of `?`.
pub const QUESTION: u8 = 63;

/// The byte of `@`.
pub const AT: u8 = 64;

/// The byte of `M`.
pub const UPPER_M: u8 = 77;

/// The byte of `P`.
pub const UPPER_P: u8 = 80;

/// The byte of `[`.
pub const BRACKET_OPEN: u8 = 91;

/// The byte of a backslash.
pub const BACKSLASH: u8 = 92;

/// The byte of `]`.
pub const BRACKET_CLOSE: u8 = 93;

/// The byte of `^`.
pub const CARET: u8 = 94;

/// The byte of `_`.
pub const UNDERSCORE: u8 = 95;

/// The byte of `a`.
pub const LOWER_A: u8 = 97;

/// The byte of `b`.
pub const LOWER_B: u8 = 98;

/// The byte of `e`.
pub const LOWER_E: u8 = 101;

/// The byte of `f`.
pub const LOWER_F: u8 = 102;

/// The byte of `i`.
pub const LOWER_I: u8 = 105;

/// The byte of `j`.
pub const LOWER_J: u8 = 106;

/// The byte of `l`.
pub const LOWER_L: u8 = 108;

/// The byte of `m`.
pub const LOWER_M: u8 = 109;

/// The byte of `n`.
pub const LOWER_N: u8 = 110;

/// The byte of `o`.
pub const LOWER_O: u8 = 111;

/// The byte of `r`.
pub const LOWER_R: u8 = 114;

/// The byte of `s`.
pub const LOWER_S: u8 = 115;

/// The byte of `t`.
pub const LOWER_T: u8 = 116;

/// The byte of `u`.
pub const LOWER_U: u8 = 117;

/// The byte of `v`.
pub const LOWER_V: u8 = 118;

/// The byte of `{`.
pub const BRACE_OPEN: u8 = 123;

/// The byte of `|`.
pub const BAR: u8 = 124;

/// The byte of `}`.
pub const BRACE_CLOSE: u8 = 125;

/// The byte of `~`.
pub const TILDE: u8 = 126;

/// Whether `byte` begins a character of UTF-8 text, that is, whether it is not
/// a continuation byte.
pub open spec fn starts_char(byte: u8) -> bool {
    byte < 0x80 || byte >= 0xC0
}

/// The number of line breaks in `text`.
pub open spec fn line_breaks(text: Seq<u8>) -> nat
    decreases text.len(),
{
    if text.len() == 0 {
        0
    } else {
        line_breaks(text.drop_last()) + if text.last() == LINE_FEED {
            1nat
        } else {
            0nat
        }
    }
}

/// The number of characters of `text` that follow its last line break, or all
/// of them where it has none.
pub open spec fn trailing_chars(text: Seq<u8>) -> nat
    decreases text.len(),
{
    if text.len() == 0 || text.last() == LINE_FEED {
        0
    } else {
        trailing_chars(text.drop_last()) + if starts_char(text.last()) {
            1nat
        } else {
            0nat
        }
    }
}

/// A cursor over text: how many line breaks lie behind it, and how many
/// characters since the last of them.
#[derive(Clone, Copy, Debug)]
pub struct Cursor {
    pub breaks: usize,
    pub chars: usize,
}

impl Cursor {
    /// Whether the cursor stands behind exactly the bytes of `text`.
    pub open spec fn is_after(self, text: Seq<u8>) -> bool {
        self.breaks == line_breaks(text) && self.chars == trailing_chars(text)
    }

    /// Whether the cursor stands at the 1-based `line` and `column`.
    pub open spec fn is_at(self, line: usize, column: usize) -> bool {
        self.breaks + 1 == line && self.chars + 1 == column
    }

    /// The cursor at the start of a text.
    pub fn origin() -> (cursor: Cursor)
        ensures
            cursor.is_after(Seq::empty()),
    {
        Cursor { breaks: 0, chars: 0 }
    }

    /// The cursor one byte further on.
    pub open spec fn stepped(self, byte: u8) -> Cursor {
        if byte == LINE_FEED {
            Cursor { breaks: (self.breaks + 1) as usize, chars: 0 }
        } else if starts_char(byte) {
            Cursor { breaks: self.breaks, chars: (self.chars + 1) as usize }
        } else {
            self
        }
    }

    /// Moves the cursor over one more byte.
    pub fn step(self, byte: u8) -> (next: Cursor)
        requires
            self.breaks < usize::MAX,
            self.chars < usize::MAX,
        ensures
            next == self.stepped(byte),
    {
        if byte == LINE_FEED {
            Cursor { breaks: self.breaks + 1, chars: 0 }
        } else if byte < 0x80 || byte >= 0xC0 {
            Cursor { breaks: self.breaks, chars: self.chars + 1 }
        } else {
            self
        }
    }

    /// A cursor behind `before` stands, one byte further on, behind `before`
    /// and that byte.
    pub proof fn lemma_stepped(self, before: Seq<u8>, byte: u8)
        requires
            self.is_after(before),
            before.len() < usize::MAX,
        ensures
            self.breaks < usize::MAX,
            self.chars < usize::MAX,
            self.stepped(byte).is_after(before.push(byte)),
    {
        lemma_counts_bounded(before);
        assert(before.push(byte).drop_last() =~= before);
    }

    /// Whether the cursor stands at the 1-based `line` and `column`.
    pub fn at(self, line: usize, column: usize) -> (hit: bool)
        ensures
            hit == self.is_at(line, column),
    {
        line >= 1 && column >= 1 && self.breaks == line - 1 && self.chars == column - 1
    }
}

/// Whether two texts hold the same bytes.
pub fn same_bytes(left: &[u8], right: &[u8]) -> (same: bool)
    ensures
        same == (left@ == right@),
{
    if left.len() != right.len() {
        return false;
    }
    let mut i: usize = 0;
    while i < left.len()
        invariant
            left@.len() == right@.len(),
            0 <= i <= left@.len(),
            left@.take(i as int) =~= right@.take(i as int),
        decreases left@.len() - i,
    {
        if left[i] != right[i] {
            return false;
        }
        assert(left@.take(i + 1) =~= left@.take(i as int).push(left@[i as int]));
        assert(right@.take(i + 1) =~= right@.take(i as int).push(right@[i as int]));
        i = i + 1;
    }
    assert(left@ =~= left@.take(left@.len() as int));
    assert(right@ =~= right@.take(right@.len() as int));
    true
}

/// Appends `bytes` to `out`.
pub fn push_bytes(out: &mut Vec<u8>, bytes: &[u8])
    ensures
        final(out)@ == old(out)@ + bytes@,
{
    let mut i: usize = 0;
    while i < bytes.len()
        invariant
            0 <= i <= bytes@.len(),
            out@ =~= old(out)@ + bytes@.take(i as int),
        decreases bytes@.len() - i,
    {
        out.push(bytes[i]);
        i = i + 1;
    }
    assert(bytes@.take(bytes@.len() as int) =~= bytes@);
}

/// A copy of the bytes of `text` from `from` up to `to`.
pub fn copy_range(text: &[u8], from: usize, to: usize) -> (copy: Vec<u8>)
    requires
        from <= to <= text@.len(),
    ensures
        copy@ == text@.subrange(from as int, to as int),
{
    let mut copy: Vec<u8> = Vec::new();
    let mut i: usize = from;
    while i < to
        invariant
            from <= i <= to <= text@.len(),
            copy@ =~= text@.subrange(from as int, i as int),
        decreases to - i,
    {
        copy.push(text[i]);
        i = i + 1;
    }
    copy
}

/// A copy of `text`.
pub fn copy_bytes(text: &[u8]) -> (copy: Vec<u8>)
    ensures
        copy@ == text@,
{
    let copy = copy_range(text, 0, text.len());
    assert(text@.subrange(0, text@.len() as int) =~= text@);
    copy
}

/// Whether `text` holds a line break.
pub open spec fn has_line_break(text: Seq<u8>) -> bool {
    exists|i: int| 0 <= i < text.len() && text[i] == LINE_FEED
}

/// Whether `text` holds a line break.
pub fn contains_line_break(text: &[u8]) -> (found: bool)
    ensures
        found == has_line_break(text@),
{
    let mut i: usize = 0;
    while i < text.len()
        invariant
            0 <= i <= text@.len(),
            forall|k: int| 0 <= k < i ==> text@[k] != LINE_FEED,
        decreases text@.len() - i,
    {
        if text[i] == LINE_FEED {
            return true;
        }
        i = i + 1;
    }
    false
}

/// `text` without the bytes equal to `byte` that it begins with.
pub open spec fn without_leading(text: Seq<u8>, byte: u8) -> Seq<u8>
    decreases text.len(),
{
    if text.len() > 0 && text[0] == byte {
        without_leading(text.drop_first(), byte)
    } else {
        text
    }
}

/// `text` without the pairs of `first` and `second` that it ends with.
pub open spec fn without_trailing_pairs(text: Seq<u8>, first: u8, second: u8) -> Seq<u8>
    decreases text.len(),
{
    if text.len() >= 2 && text[text.len() - 2] == first && text[text.len() - 1] == second {
        without_trailing_pairs(text.take(text.len() - 2), first, second)
    } else {
        text
    }
}

/// The offset behind the bytes equal to `byte` that `text` begins with.
pub fn leading_run(text: &[u8], byte: u8) -> (offset: usize)
    ensures
        offset <= text@.len(),
        without_leading(text@, byte) == text@.skip(offset as int),
{
    let mut i: usize = 0;
    assert(text@.skip(0) =~= text@);
    while i < text.len() && text[i] == byte
        invariant
            0 <= i <= text@.len(),
            without_leading(text@, byte) == without_leading(text@.skip(i as int), byte),
        decreases text@.len() - i,
    {
        assert(text@.skip(i as int).drop_first() =~= text@.skip(i + 1));
        i = i + 1;
    }
    i
}

/// The offset before the pairs of `first` and `second` that the first `upto`
/// bytes of `text` end with.
pub fn trailing_pairs(text: &[u8], upto: usize, first: u8, second: u8) -> (offset: usize)
    requires
        upto <= text@.len(),
    ensures
        offset <= upto,
        without_trailing_pairs(text@.take(upto as int), first, second) == text@.take(
            offset as int,
        ),
{
    let mut i: usize = upto;
    while i >= 2 && text[i - 2] == first && text[i - 1] == second
        invariant
            0 <= i <= upto <= text@.len(),
            without_trailing_pairs(text@.take(upto as int), first, second)
                == without_trailing_pairs(text@.take(i as int), first, second),
        decreases i,
    {
        assert(text@.take(i as int).take(i - 2) =~= text@.take(i - 2));
        i = i - 2;
    }
    i
}

/// Whether `left` comes before `right` in the order of a dictionary, byte by
/// byte: at the first byte in which they differ `left` has the smaller one, or
/// `left` ends there and `right` goes on.
pub open spec fn text_precedes(left: Seq<u8>, right: Seq<u8>) -> bool
    decreases left.len(),
{
    if right.len() == 0 {
        false
    } else if left.len() == 0 {
        true
    } else if left[0] != right[0] {
        left[0] < right[0]
    } else {
        text_precedes(left.drop_first(), right.drop_first())
    }
}

/// A text that comes before another is not that other and does not come
/// behind it.
pub proof fn lemma_precedes_one_way(left: Seq<u8>, right: Seq<u8>)
    requires
        text_precedes(left, right),
    ensures
        left != right,
        !text_precedes(right, left),
    decreases left.len(),
{
    if left.len() > 0 && right.len() > 0 && left[0] == right[0] {
        lemma_precedes_one_way(left.drop_first(), right.drop_first());
        if left == right {
            assert(left.drop_first() == right.drop_first());
        }
    }
}

/// A text that comes before a second, which comes before a third, comes
/// before the third.
pub proof fn lemma_precedes_chains(first: Seq<u8>, second: Seq<u8>, third: Seq<u8>)
    requires
        text_precedes(first, second),
        text_precedes(second, third),
    ensures
        text_precedes(first, third),
    decreases first.len(),
{
    if first.len() > 0 && second.len() > 0 && third.len() > 0 && first[0] == second[0]
        && second[0] == third[0] {
        lemma_precedes_chains(first.drop_first(), second.drop_first(), third.drop_first());
    }
}

/// Of two texts one comes before the other, or they are the same.
pub proof fn lemma_precedes_or_same(left: Seq<u8>, right: Seq<u8>)
    ensures
        text_precedes(left, right) || text_precedes(right, left) || left == right,
    decreases left.len(),
{
    if left.len() > 0 && right.len() > 0 && left[0] == right[0] {
        lemma_precedes_or_same(left.drop_first(), right.drop_first());
        if left.drop_first() == right.drop_first() {
            assert(left =~= seq![left[0]] + left.drop_first());
            assert(right =~= seq![right[0]] + right.drop_first());
        }
    } else if left.len() == 0 && right.len() == 0 {
        assert(left =~= right);
    }
}

/// Whether `left` comes before `right` in the order of a dictionary.
pub fn precedes(left: &[u8], right: &[u8]) -> (before: bool)
    ensures
        before == text_precedes(left@, right@),
{
    let mut i: usize = 0;
    assert(left@.skip(0) =~= left@);
    assert(right@.skip(0) =~= right@);
    while i < left.len() && i < right.len() && left[i] == right[i]
        invariant
            0 <= i <= left@.len(),
            i <= right@.len(),
            text_precedes(left@, right@) == text_precedes(
                left@.skip(i as int),
                right@.skip(i as int),
            ),
        decreases left@.len() - i,
    {
        assert(left@.skip(i as int).drop_first() =~= left@.skip(i + 1));
        assert(right@.skip(i as int).drop_first() =~= right@.skip(i + 1));
        i = i + 1;
    }
    if i >= right.len() {
        false
    } else if i >= left.len() {
        true
    } else {
        left[i] < right[i]
    }
}

/// Neither count exceeds the length of the text.
pub proof fn lemma_counts_bounded(text: Seq<u8>)
    ensures
        line_breaks(text) <= text.len(),
        trailing_chars(text) <= text.len(),
    decreases text.len(),
{
    if text.len() > 0 {
        lemma_counts_bounded(text.drop_last());
    }
}

} // verus!
