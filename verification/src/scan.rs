//! Whether the tokenizer of `rnix` gets through a source.
//!
//! The tokenizer gives up where a string is left open behind an interpolation.
//! Whether that happens depends on where strings, comments and interpolations
//! begin and end, and so on how the whole source is cut into tokens. This
//! module retraces that cutting on the bytes, token by token, with the
//! interpolations that are open, and says whether the end is reached. Where it
//! would have to know whether a character outside ASCII is white space, it
//! says no as well.

use crate::text::{
    AMPERSAND, APOSTROPHE, ASTERISK, AT, BACKSLASH, BANG, BAR, BRACE_CLOSE, BRACE_OPEN, COLON,
    COMMA, DOLLAR, EQUALS, FULL_STOP, GREATER, HASH, HYPHEN, LESS, LINE_FEED, PERCENT, PLUS,
    QUESTION, QUOTE, SLASH, SPACE, TILDE, UNDERSCORE,
};
use vstd::prelude::*;

verus! {

/// The bytes that a run inside a token is made of.
#[derive(Clone, Copy, Debug, PartialEq, Eq, Structural)]
pub enum ByteClass {
    /// White space.
    Space,
    /// All but the line feed: the rest of a line.
    Line,
    /// All but the asterisk.
    NotStar,
    /// Digits.
    Digit,
    /// What a path is made of.
    Path,
    /// What is skipped to see whether a path, a store path or a URI begins.
    Probe,
    /// The same where the token begins with `<`.
    StoreProbe,
    /// What an identifier is made of behind its first character.
    Name,
    /// What a URI is made of behind its first character.
    Link,
}

/// Whether `byte` is an ASCII letter.
pub open spec fn is_letter(byte: u8) -> bool {
    (65 <= byte <= 90) || (97 <= byte <= 122)
}

/// Whether `byte` is an ASCII digit.
pub open spec fn is_digit(byte: u8) -> bool {
    48 <= byte <= 57
}

/// Whether `byte` is ASCII white space.
pub open spec fn is_space(byte: u8) -> bool {
    (9 <= byte <= 13) || byte == SPACE
}

/// Whether `byte` is a letter, a digit or one of `_ . + -`.
pub open spec fn is_probe(byte: u8) -> bool {
    is_letter(byte) || is_digit(byte) || byte == UNDERSCORE || byte == FULL_STOP || byte == PLUS
        || byte == HYPHEN
}

/// Whether `byte` is a letter, a digit, `_`, `-` or an apostrophe.
pub open spec fn is_name(byte: u8) -> bool {
    is_letter(byte) || is_digit(byte) || byte == UNDERSCORE || byte == HYPHEN || byte == APOSTROPHE
}

/// Whether `byte` may stand in a URI.
pub open spec fn is_link(byte: u8) -> bool {
    ||| is_name(byte)
    ||| is_probe(byte)
    ||| byte == SLASH
    ||| byte == COLON
    ||| byte == QUESTION
    ||| byte == AT
    ||| byte == AMPERSAND
    ||| byte == EQUALS
    ||| byte == DOLLAR
    ||| byte == COMMA
    ||| byte == BANG
    ||| byte == TILDE
    ||| byte == ASTERISK
    ||| byte == PERCENT
}

/// Whether `byte` belongs to `class`.
pub open spec fn in_class(class: ByteClass, byte: u8) -> bool {
    match class {
        ByteClass::Space => is_space(byte),
        ByteClass::Line => byte != LINE_FEED,
        ByteClass::NotStar => byte != ASTERISK,
        ByteClass::Digit => is_digit(byte),
        ByteClass::Path => is_probe(byte) || byte == SLASH,
        ByteClass::Probe => is_probe(byte),
        ByteClass::StoreProbe => is_probe(byte) || byte == LESS || byte == SLASH,
        ByteClass::Name => is_name(byte),
        ByteClass::Link => is_link(byte),
    }
}

/// The offset behind the bytes of `class` that stand at `from`.
pub open spec fn run_end(source: Seq<u8>, from: int, class: ByteClass) -> int
    decreases source.len() - from,
{
    if 0 <= from < source.len() && in_class(class, source[from]) {
        run_end(source, from + 1, class)
    } else {
        from
    }
}

/// The byte at `at`, if the source reaches that far.
pub open spec fn byte_at(source: Seq<u8>, at: int) -> Option<u8> {
    if 0 <= at < source.len() {
        Some(source[at])
    } else {
        None
    }
}

/// How the scan of a string ends: at its closing quote, at a `${` that opens
/// an interpolation, or with the source.
pub enum Scan {
    Closed(int),
    Opened(int),
    Unclosed,
}

/// How the string that goes on at `from` ends, and where. In a plain string a
/// backslash takes the character behind it along. In a multiline string an
/// apostrophe does, and two apostrophes close the string unless an apostrophe,
/// a backslash or a dollar sign follows. A dollar sign takes a second one
/// along, and opens an interpolation before a brace.
pub open spec fn string_scan(source: Seq<u8>, from: int, multiline: bool) -> Scan
    decreases source.len() - from,
{
    if from < 0 || from >= source.len() {
        Scan::Unclosed
    } else {
        let byte = source[from];
        let ahead = byte_at(source, from + 1);
        if !multiline && byte == QUOTE {
            Scan::Closed(from + 1)
        } else if !multiline && byte == BACKSLASH {
            if ahead is None {
                Scan::Unclosed
            } else {
                string_scan(source, from + 2, multiline)
            }
        } else if multiline && byte == APOSTROPHE {
            if ahead is None {
                Scan::Unclosed
            } else if ahead == Some(APOSTROPHE) {
                let third = byte_at(source, from + 2);
                if third == Some(APOSTROPHE) || third == Some(BACKSLASH) || third == Some(DOLLAR) {
                    string_scan(source, from + 3, multiline)
                } else {
                    Scan::Closed(from + 2)
                }
            } else {
                string_scan(source, from + 2, multiline)
            }
        } else if byte == DOLLAR && ahead == Some(DOLLAR) {
            string_scan(source, from + 2, multiline)
        } else if byte == DOLLAR && ahead == Some(BRACE_OPEN) {
            Scan::Opened(from + 2)
        } else {
            string_scan(source, from + 1, multiline)
        }
    }
}

/// The offset behind the block comment whose text begins at `from`: behind the
/// first `*/` that is found by going from asterisk to asterisk, or the end of
/// the source.
pub open spec fn block_comment_end(source: Seq<u8>, from: int) -> int
    decreases source.len() - from,
{
    let star = run_end(source, from, ByteClass::NotStar);
    if from < 0 || star < from || star + 1 >= source.len() {
        source.len() as int
    } else if source[star + 1] == SLASH {
        star + 2
    } else {
        block_comment_end(source, star + 1)
    }
}

/// What begins at a token: nothing special, a path, a store path or a URI; or
/// it cannot be told without knowing a character outside ASCII.
#[derive(Clone, Copy, Debug, PartialEq, Eq, Structural)]
pub enum Shape {
    Plain,
    PathLike,
    Store,
    Link,
    Unsure,
}

/// Whether `byte` is known not to be white space.
pub open spec fn is_solid(byte: u8) -> bool {
    byte < 0x80 && !is_space(byte)
}

/// What begins at `at`, told by what follows the letters, digits and `_ . + -`
/// that stand there: a slash before anything but a slash, an asterisk or white
/// space makes a path, `>` a store path, and a colon before anything but white
/// space a URI.
pub open spec fn probe(source: Seq<u8>, at: int) -> Shape {
    let class = if byte_at(source, at) == Some(LESS) {
        ByteClass::StoreProbe
    } else {
        ByteClass::Probe
    };
    let end = run_end(source, at, class);
    let first = byte_at(source, end);
    let second = byte_at(source, end + 1);
    if first == Some(SLASH) {
        match second {
            Some(byte) => if byte == SLASH || byte == ASTERISK {
                Shape::Plain
            } else if byte >= 0x80 {
                Shape::Unsure
            } else if is_space(byte) {
                Shape::Plain
            } else {
                Shape::PathLike
            },
            None => Shape::Plain,
        }
    } else if first == Some(GREATER) {
        Shape::Store
    } else if first == Some(COLON) {
        match second {
            Some(byte) => if byte >= 0x80 {
                Shape::Unsure
            } else if is_space(byte) {
                Shape::Plain
            } else {
                Shape::Link
            },
            None => Shape::Plain,
        }
    } else {
        Shape::Plain
    }
}

/// An interpolation that is open: how many braces were opened inside it and
/// not closed, whether it stands in a string, and whether that string is a
/// multiline string.
#[derive(Clone, Copy, Debug, PartialEq, Eq, Structural)]
pub struct Frame {
    pub braces: u32,
    pub string: bool,
    pub multiline: bool,
}

/// Where the tokenizer stands behind one token.
pub struct Step {
    pub next: int,
    pub frames: Seq<Frame>,
}

/// Where the tokenizer stands behind a string whose text begins at `from`.
/// A string that is left open is a token up to the end of the source.
pub open spec fn after_string(source: Seq<u8>, from: int, multiline: bool, frames: Seq<Frame>) -> Step {
    match string_scan(source, from, multiline) {
        Scan::Closed(end) => Step { next: end, frames },
        Scan::Opened(end) => Step {
            next: end,
            frames: frames.push(Frame { braces: 0, string: true, multiline }),
        },
        Scan::Unclosed => Step { next: source.len() as int, frames },
    }
}

/// Where the tokenizer stands behind the `}` at `at`. Inside an interpolation
/// it closes a brace that was opened there or, where there is none, the
/// interpolation; behind an interpolation in a string the string goes on, and
/// there the tokenizer gives up if the string is left open.
pub open spec fn after_closing(source: Seq<u8>, at: int, frames: Seq<Frame>) -> Option<Step> {
    if frames.len() == 0 {
        Some(Step { next: at + 1, frames })
    } else {
        let top = frames.last();
        let rest = frames.drop_last();
        if top.braces > 0 {
            Some(
                Step {
                    next: at + 1,
                    frames: rest.push(
                        Frame {
                            braces: (top.braces - 1) as u32,
                            string: top.string,
                            multiline: top.multiline,
                        },
                    ),
                },
            )
        } else if top.string {
            match string_scan(source, at + 1, top.multiline) {
                Scan::Closed(end) => Some(Step { next: end, frames: rest }),
                Scan::Opened(end) => Some(
                    Step {
                        next: end,
                        frames: rest.push(
                            Frame { braces: 0, string: true, multiline: top.multiline },
                        ),
                    },
                ),
                Scan::Unclosed => None,
            }
        } else {
            Some(Step { next: at + 1, frames: rest })
        }
    }
}

/// Where the tokenizer stands behind the `{` at `at`: inside an interpolation
/// it counts the brace. More braces than a `u32` counts are not gone into.
pub open spec fn after_opening(at: int, frames: Seq<Frame>) -> Option<Step> {
    if frames.len() == 0 {
        Some(Step { next: at + 1, frames })
    } else {
        let top = frames.last();
        if top.braces == u32::MAX {
            None
        } else {
            Some(
                Step {
                    next: at + 1,
                    frames: frames.drop_last().push(
                        Frame {
                            braces: (top.braces + 1) as u32,
                            string: top.string,
                            multiline: top.multiline,
                        },
                    ),
                },
            )
        }
    }
}

/// Whether `first` and `second` make one operator of two characters.
pub open spec fn is_pair(first: u8, second: u8) -> bool {
    ||| first == EQUALS && second == EQUALS
    ||| first == BANG && second == EQUALS
    ||| first == PLUS && second == PLUS
    ||| first == HYPHEN && second == GREATER
    ||| first == SLASH && second == SLASH
    ||| first == AMPERSAND && second == AMPERSAND
    ||| first == BAR && second == BAR
    ||| first == LESS && second == EQUALS
    ||| first == GREATER && second == EQUALS
}

/// The offset behind the number whose first digit stands before `from`:
/// behind its digits and, where a full stop follows them, behind that and the
/// digits after it.
pub open spec fn number_end(source: Seq<u8>, from: int) -> int {
    let whole = run_end(source, from, ByteClass::Digit);
    if byte_at(source, whole) == Some(FULL_STOP) {
        run_end(source, whole + 1, ByteClass::Digit)
    } else {
        whole
    }
}

/// Where the tokenizer stands behind the token that begins at `at`, with the
/// interpolations that are open; nothing where it gives up or where that
/// depends on a character outside ASCII.
pub open spec fn lex_step(source: Seq<u8>, at: int, frames: Seq<Frame>) -> Option<Step> {
    let byte = source[at];
    let ahead = byte_at(source, at + 1);
    let shape = probe(source, at);
    if is_space(byte) {
        Some(Step { next: run_end(source, at, ByteClass::Space), frames })
    } else if byte == HASH {
        Some(Step { next: run_end(source, at, ByteClass::Line), frames })
    } else if byte == SLASH && ahead == Some(ASTERISK) {
        Some(Step { next: block_comment_end(source, at + 2), frames })
    } else if byte == FULL_STOP && ahead == Some(FULL_STOP) && byte_at(source, at + 2) == Some(
        FULL_STOP,
    ) {
        Some(Step { next: at + 3, frames })
    } else if byte >= 0x80 || shape == Shape::Unsure {
        None
    } else if byte == TILDE {
        match ahead {
            None => Some(Step { next: at + 1, frames }),
            Some(second) => if second >= 0x80 {
                None
            } else if second == SLASH {
                Some(Step { next: run_end(source, at + 2, ByteClass::Path), frames })
            } else {
                Some(Step { next: at + 2, frames })
            },
        }
    } else if shape == Shape::PathLike {
        Some(Step { next: run_end(source, at + 1, ByteClass::Path), frames })
    } else if byte == BRACE_OPEN {
        after_opening(at, frames)
    } else if byte == BRACE_CLOSE {
        after_closing(source, at, frames)
    } else if byte == DOLLAR && ahead == Some(BRACE_OPEN) {
        Some(
            Step {
                next: at + 2,
                frames: frames.push(Frame { braces: 0, string: false, multiline: false }),
            },
        )
    } else if byte == QUOTE {
        Some(after_string(source, at + 1, false, frames))
    } else if byte == APOSTROPHE && ahead == Some(APOSTROPHE) {
        Some(after_string(source, at + 2, true, frames))
    } else if byte == LESS && shape == Shape::Store {
        let end = run_end(source, at + 1, ByteClass::Path);
        match byte_at(source, end) {
            None => Some(Step { next: end, frames }),
            Some(last) => if last >= 0x80 {
                None
            } else {
                Some(Step { next: end + 1, frames })
            },
        }
    } else if is_letter(byte) || byte == UNDERSCORE {
        let class = if shape == Shape::Link {
            ByteClass::Link
        } else {
            ByteClass::Name
        };
        Some(Step { next: run_end(source, at + 1, class), frames })
    } else if is_digit(byte) {
        Some(Step { next: number_end(source, at + 1), frames })
    } else if ahead matches Some(second) && is_pair(byte, second) {
        Some(Step { next: at + 2, frames })
    } else {
        Some(Step { next: at + 1, frames })
    }
}

/// Whether the tokenizer gets from `at` to the end of the source.
pub open spec fn lexes_from(source: Seq<u8>, at: int, frames: Seq<Frame>) -> bool
    decreases source.len() - at,
{
    if at < 0 || at >= source.len() {
        true
    } else {
        match lex_step(source, at, frames) {
            None => false,
            Some(step) => if at < step.next <= source.len() {
                lexes_from(source, step.next, step.frames)
            } else {
                false
            },
        }
    }
}

/// Whether the tokenizer gets through `source`.
pub open spec fn lexes(source: Seq<u8>) -> bool {
    lexes_from(source, 0, Seq::empty())
}

/// Whether `byte` belongs to `class`.
pub fn byte_in(class: ByteClass, byte: u8) -> (held: bool)
    ensures
        held == in_class(class, byte),
{
    let letter = (65 <= byte && byte <= 90) || (97 <= byte && byte <= 122);
    let digit = 48 <= byte && byte <= 57;
    let probe = letter || digit || byte == UNDERSCORE || byte == FULL_STOP || byte == PLUS
        || byte == HYPHEN;
    let name = letter || digit || byte == UNDERSCORE || byte == HYPHEN || byte == APOSTROPHE;
    match class {
        ByteClass::Space => (9 <= byte && byte <= 13) || byte == SPACE,
        ByteClass::Line => byte != LINE_FEED,
        ByteClass::NotStar => byte != ASTERISK,
        ByteClass::Digit => digit,
        ByteClass::Path => probe || byte == SLASH,
        ByteClass::Probe => probe,
        ByteClass::StoreProbe => probe || byte == LESS || byte == SLASH,
        ByteClass::Name => name,
        ByteClass::Link => name || probe || byte == SLASH || byte == COLON || byte == QUESTION
            || byte == AT || byte == AMPERSAND || byte == EQUALS || byte == DOLLAR
            || byte == COMMA || byte == BANG || byte == TILDE || byte == ASTERISK
            || byte == PERCENT,
    }
}

/// The offset behind the bytes of `class` that stand at `from`.
pub fn run(source: &[u8], from: usize, class: ByteClass) -> (end: usize)
    requires
        from <= source@.len(),
    ensures
        end == run_end(source@, from as int, class),
        from <= end <= source@.len(),
{
    let mut end = from;
    while end < source.len() && byte_in(class, source[end])
        invariant
            from <= end <= source@.len(),
            run_end(source@, end as int, class) == run_end(source@, from as int, class),
        decreases source@.len() - end,
    {
        end = end + 1;
    }
    end
}

/// The byte that stands `ahead` bytes behind `at`, if the source reaches that
/// far.
pub fn peek(source: &[u8], at: usize, ahead: usize) -> (found: Option<u8>)
    requires
        at <= source@.len(),
    ensures
        found == byte_at(source@, at + ahead),
{
    if ahead < source.len() - at {
        Some(source[at + ahead])
    } else {
        None
    }
}

/// How the scan of a string ends, and where.
#[derive(Clone, Copy, Debug, PartialEq, Eq)]
pub enum StringEnd {
    Closed(usize),
    Opened(usize),
    Unclosed,
}

impl View for StringEnd {
    type V = Scan;

    open spec fn view(&self) -> Scan {
        match *self {
            StringEnd::Closed(end) => Scan::Closed(end as int),
            StringEnd::Opened(end) => Scan::Opened(end as int),
            StringEnd::Unclosed => Scan::Unclosed,
        }
    }
}

/// How the string that goes on at `from` ends, and where.
pub fn scan_string(source: &[u8], from: usize, multiline: bool) -> (found: StringEnd)
    requires
        from <= source@.len(),
    ensures
        found@ == string_scan(source@, from as int, multiline),
        found matches StringEnd::Closed(end) ==> from < end <= source@.len(),
        found matches StringEnd::Opened(end) ==> from < end <= source@.len(),
{
    let count = source.len();
    let mut at = from;
    while at < count
        invariant
            count == source@.len(),
            from <= at <= count,
            string_scan(source@, at as int, multiline) == string_scan(
                source@,
                from as int,
                multiline,
            ),
        decreases count - at,
    {
        let byte = source[at];
        let ahead = peek(source, at, 1);
        if !multiline && byte == QUOTE {
            return StringEnd::Closed(at + 1);
        } else if !multiline && byte == BACKSLASH {
            if ahead.is_none() {
                return StringEnd::Unclosed;
            }
            at = at + 2;
        } else if multiline && byte == APOSTROPHE {
            if ahead.is_none() {
                return StringEnd::Unclosed;
            } else if ahead == Some(APOSTROPHE) {
                let third = peek(source, at, 2);
                if third == Some(APOSTROPHE) || third == Some(BACKSLASH) || third == Some(DOLLAR) {
                    at = at + 3;
                } else {
                    return StringEnd::Closed(at + 2);
                }
            } else {
                at = at + 2;
            }
        } else if byte == DOLLAR && ahead == Some(DOLLAR) {
            at = at + 2;
        } else if byte == DOLLAR && ahead == Some(BRACE_OPEN) {
            return StringEnd::Opened(at + 2);
        } else {
            at = at + 1;
        }
    }
    StringEnd::Unclosed
}

/// The offset behind the block comment whose text begins at `from`.
pub fn comment_end(source: &[u8], from: usize) -> (end: usize)
    requires
        from <= source@.len(),
    ensures
        end == block_comment_end(source@, from as int),
        from <= end <= source@.len(),
{
    let count = source.len();
    let mut at = from;
    loop
        invariant
            count == source@.len(),
            from <= at <= count,
            block_comment_end(source@, at as int) == block_comment_end(source@, from as int),
        decreases count - at,
    {
        let star = run(source, at, ByteClass::NotStar);
        if star >= count || star + 1 >= count {
            return count;
        }
        if source[star + 1] == SLASH {
            return star + 2;
        }
        at = star + 1;
    }
}

/// What begins at `at`.
pub fn probe_at(source: &[u8], at: usize) -> (shape: Shape)
    requires
        at <= source@.len(),
    ensures
        shape == probe(source@, at as int),
{
    let class = if peek(source, at, 0) == Some(LESS) {
        ByteClass::StoreProbe
    } else {
        ByteClass::Probe
    };
    let end = run(source, at, class);
    let first = peek(source, end, 0);
    let second = peek(source, end, 1);
    if first == Some(SLASH) {
        match second {
            Some(byte) => if byte == SLASH || byte == ASTERISK {
                Shape::Plain
            } else if byte >= 0x80 {
                Shape::Unsure
            } else if byte_in(ByteClass::Space, byte) {
                Shape::Plain
            } else {
                Shape::PathLike
            },
            None => Shape::Plain,
        }
    } else if first == Some(GREATER) {
        Shape::Store
    } else if first == Some(COLON) {
        match second {
            Some(byte) => if byte >= 0x80 {
                Shape::Unsure
            } else if byte_in(ByteClass::Space, byte) {
                Shape::Plain
            } else {
                Shape::Link
            },
            None => Shape::Plain,
        }
    } else {
        Shape::Plain
    }
}

/// How the frames and the offset stand behind a step of the tokenizer.
pub open spec fn stepped_to(
    wanted: Option<Step>,
    next: Option<usize>,
    frames: Seq<Frame>,
) -> bool {
    match wanted {
        Some(step) => 0 <= step.next <= usize::MAX && next == Some(step.next as usize)
            && frames == step.frames,
        None => next is None,
    }
}

/// Replaces the last of `frames`.
fn set_top(frames: &mut Vec<Frame>, top: Frame)
    requires
        old(frames)@.len() > 0,
    ensures
        final(frames)@ == old(frames)@.drop_last().push(top),
{
    frames.pop();
    frames.push(top);
}

/// Moves behind the string whose text begins at `from`.
fn pass_string(source: &[u8], from: usize, multiline: bool, frames: &mut Vec<Frame>) -> (next: Option<
    usize,
>)
    requires
        from <= source@.len(),
    ensures
        stepped_to(
            Some(after_string(source@, from as int, multiline, old(frames)@)),
            next,
            final(frames)@,
        ),
        next matches Some(end) ==> end <= source@.len(),
{
    match scan_string(source, from, multiline) {
        StringEnd::Closed(end) => Some(end),
        StringEnd::Opened(end) => {
            frames.push(Frame { braces: 0, string: true, multiline });
            Some(end)
        },
        StringEnd::Unclosed => Some(source.len()),
    }
}

/// Moves behind the `}` at `at`.
fn pass_closing(source: &[u8], at: usize, frames: &mut Vec<Frame>) -> (next: Option<usize>)
    requires
        at < source@.len(),
    ensures
        stepped_to(after_closing(source@, at as int, old(frames)@), next, final(frames)@),
        next matches Some(end) ==> end <= source@.len(),
{
    let count = source.len();
    if frames.len() == 0 {
        return Some(at + 1);
    }
    let top = frames[frames.len() - 1];
    if top.braces > 0 {
        set_top(
            frames,
            Frame { braces: top.braces - 1, string: top.string, multiline: top.multiline },
        );
        Some(at + 1)
    } else if top.string {
        match scan_string(source, at + 1, top.multiline) {
            StringEnd::Closed(end) => {
                frames.pop();
                Some(end)
            },
            StringEnd::Opened(end) => {
                set_top(frames, Frame { braces: 0, string: true, multiline: top.multiline });
                Some(end)
            },
            StringEnd::Unclosed => None,
        }
    } else {
        frames.pop();
        Some(at + 1)
    }
}

/// Moves behind the `{` at `at`.
fn pass_opening(source: &[u8], at: usize, frames: &mut Vec<Frame>) -> (next: Option<usize>)
    requires
        at < source@.len(),
    ensures
        stepped_to(after_opening(at as int, old(frames)@), next, final(frames)@),
        next matches Some(end) ==> end <= source@.len(),
{
    let count = source.len();
    if frames.len() == 0 {
        return Some(at + 1);
    }
    let top = frames[frames.len() - 1];
    if top.braces == u32::MAX {
        None
    } else {
        set_top(
            frames,
            Frame { braces: top.braces + 1, string: top.string, multiline: top.multiline },
        );
        Some(at + 1)
    }
}

/// Whether `first` and `second` make one operator of two characters.
pub fn pairs(first: u8, second: u8) -> (pair: bool)
    ensures
        pair == is_pair(first, second),
{
    (first == EQUALS && second == EQUALS) || (first == BANG && second == EQUALS) || (first == PLUS
        && second == PLUS) || (first == HYPHEN && second == GREATER) || (first == SLASH && second
        == SLASH) || (first == AMPERSAND && second == AMPERSAND) || (first == BAR && second == BAR)
        || (first == LESS && second == EQUALS) || (first == GREATER && second == EQUALS)
}

/// Moves behind the token that begins at `at`.
pub fn step(source: &[u8], at: usize, frames: &mut Vec<Frame>) -> (next: Option<usize>)
    requires
        at < source@.len(),
    ensures
        stepped_to(lex_step(source@, at as int, old(frames)@), next, final(frames)@),
        next matches Some(end) ==> end <= source@.len(),
{
    let count = source.len();
    let byte = source[at];
    let ahead = peek(source, at, 1);
    let shape = probe_at(source, at);
    let letter = (65 <= byte && byte <= 90) || (97 <= byte && byte <= 122);
    if byte_in(ByteClass::Space, byte) {
        Some(run(source, at, ByteClass::Space))
    } else if byte == HASH {
        Some(run(source, at, ByteClass::Line))
    } else if byte == SLASH && ahead == Some(ASTERISK) {
        Some(comment_end(source, at + 2))
    } else if byte == FULL_STOP && ahead == Some(FULL_STOP) && peek(source, at, 2) == Some(
        FULL_STOP,
    ) {
        Some(at + 3)
    } else if byte >= 0x80 || shape == Shape::Unsure {
        None
    } else if byte == TILDE {
        match ahead {
            None => Some(at + 1),
            Some(second) => if second >= 0x80 {
                None
            } else if second == SLASH {
                Some(run(source, at + 2, ByteClass::Path))
            } else {
                Some(at + 2)
            },
        }
    } else if shape == Shape::PathLike {
        Some(run(source, at + 1, ByteClass::Path))
    } else if byte == BRACE_OPEN {
        pass_opening(source, at, frames)
    } else if byte == BRACE_CLOSE {
        pass_closing(source, at, frames)
    } else if byte == DOLLAR && ahead == Some(BRACE_OPEN) {
        frames.push(Frame { braces: 0, string: false, multiline: false });
        Some(at + 2)
    } else if byte == QUOTE {
        pass_string(source, at + 1, false, frames)
    } else if byte == APOSTROPHE && ahead == Some(APOSTROPHE) {
        pass_string(source, at + 2, true, frames)
    } else if byte == LESS && shape == Shape::Store {
        let end = run(source, at + 1, ByteClass::Path);
        match peek(source, end, 0) {
            None => Some(end),
            Some(last) => if last >= 0x80 {
                None
            } else {
                Some(end + 1)
            },
        }
    } else if letter || byte == UNDERSCORE {
        let class = if shape == Shape::Link {
            ByteClass::Link
        } else {
            ByteClass::Name
        };
        Some(run(source, at + 1, class))
    } else if 48 <= byte && byte <= 57 {
        let whole = run(source, at + 1, ByteClass::Digit);
        if peek(source, whole, 0) == Some(FULL_STOP) {
            Some(run(source, whole + 1, ByteClass::Digit))
        } else {
            Some(whole)
        }
    } else {
        match ahead {
            Some(second) => if pairs(byte, second) {
                Some(at + 2)
            } else {
                Some(at + 1)
            },
            None => Some(at + 1),
        }
    }
}

/// Whether the tokenizer of `rnix` gets through `source` without giving up.
pub fn can_tokenize(source: &[u8]) -> (ok: bool)
    ensures
        ok == lexes(source@),
{
    let count = source.len();
    let mut frames: Vec<Frame> = Vec::new();
    let mut at: usize = 0;
    while at < count
        invariant
            count == source@.len(),
            0 <= at <= count,
            lexes_from(source@, at as int, frames@) == lexes(source@),
        decreases count - at,
    {
        let ghost before = frames@;
        match step(source, at, &mut frames) {
            None => {
                return false;
            },
            Some(next) => {
                if next <= at {
                    return false;
                }
                assert(lexes_from(source@, at as int, before) == lexes_from(
                    source@,
                    next as int,
                    frames@,
                )) by {
                    assert(lex_step(source@, at as int, before) matches Some(to) && to.next
                        == next && to.frames == frames@);
                }
                at = next;
            },
        }
    }
    true
}

} // verus!
