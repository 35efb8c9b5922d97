//! Writing a value as a Nix string literal.

use crate::text::{
    BACKSLASH, DIGIT_0, DOLLAR, LOWER_A, LOWER_B, LOWER_F, LOWER_N, LOWER_R, LOWER_T, LOWER_U, QUOTE,
};
use vstd::string::StringSliceAdditionalSpecFns;
use vstd::utf8::{encode_utf8, valid_utf8};
use vstd::prelude::*;

verus! {

/// `bytes` read as UTF-8 the way `String::from_utf8_lossy` reads them: what
/// is not UTF-8 is replaced.
pub uninterp spec fn utf8_lossy(bytes: Seq<u8>) -> Seq<u8>;

/// Reads `bytes` as text with `String::from_utf8_lossy`. The text is named;
/// as the documentation of that function says, bytes that are UTF-8 are kept
/// as they are.
#[verifier::external_body]
fn to_text(bytes: &[u8]) -> (text: String)
    ensures
        encode_utf8(text@) == utf8_lossy(bytes@),
        valid_utf8(bytes@) ==> encode_utf8(text@) == bytes@,
{
    String::from_utf8_lossy(bytes).into_owned()
}

/// The digit for `value` in base 16, in lower case.
pub open spec fn hex_digit(value: u8) -> u8 {
    if value < 10 {
        (DIGIT_0 + value) as u8
    } else {
        (LOWER_A + value - 10) as u8
    }
}

/// How one byte stands in a JSON string: a quote and a backslash behind a
/// backslash, a control character as a backslash and its letter or as
/// `\u00` and two digits, and any other byte as it is.
pub open spec fn json_escape(byte: u8) -> Seq<u8> {
    if byte == QUOTE || byte == BACKSLASH {
        seq![BACKSLASH, byte]
    } else if byte == 8 {
        seq![BACKSLASH, LOWER_B]
    } else if byte == 9 {
        seq![BACKSLASH, LOWER_T]
    } else if byte == 10 {
        seq![BACKSLASH, LOWER_N]
    } else if byte == 12 {
        seq![BACKSLASH, LOWER_F]
    } else if byte == 13 {
        seq![BACKSLASH, LOWER_R]
    } else if byte < 32 {
        seq![
            BACKSLASH,
            LOWER_U,
            DIGIT_0,
            DIGIT_0,
            hex_digit(byte / 16),
            hex_digit(byte % 16),
        ]
    } else {
        seq![byte]
    }
}

/// The bytes of `text`, each as it stands in a JSON string.
pub open spec fn json_escaped(text: Seq<u8>) -> Seq<u8>
    decreases text.len(),
{
    if text.len() == 0 {
        Seq::empty()
    } else {
        json_escaped(text.drop_last()) + json_escape(text.last())
    }
}

/// `text` as a JSON string: its bytes, escaped, between two quotes.
pub open spec fn json_quoted(text: Seq<u8>) -> Seq<u8> {
    seq![QUOTE] + json_escaped(text) + seq![QUOTE]
}

/// Has `serde_json` write `value` as a JSON string: builds a
/// `serde_json::Value::String` and formats it with its `Display`. As the
/// source of `serde_json` shows, the string stands between two quotes, quote
/// and backslash get a backslash, the control characters their escape, and
/// every other byte is copied.
#[verifier::external_body]
fn json_string(value: &str) -> (text: String)
    ensures
        encode_utf8(text@) == json_quoted(encode_utf8(value@)),
{
    serde_json::Value::String(value.to_owned()).to_string()
}

/// `text` with a backslash before each dollar sign.
pub open spec fn escape_dollars(text: Seq<u8>) -> Seq<u8>
    decreases text.len(),
{
    if text.len() == 0 {
        Seq::empty()
    } else if text.last() == DOLLAR {
        escape_dollars(text.drop_last()).push(BACKSLASH).push(DOLLAR)
    } else {
        escape_dollars(text.drop_last()).push(text.last())
    }
}

/// `value` as a Nix string literal: its text as a JSON string with every
/// dollar sign escaped, so that none opens an interpolation.
pub open spec fn nix_string(value: Seq<u8>) -> Seq<u8> {
    escape_dollars(json_quoted(utf8_lossy(value)))
}

/// Puts a backslash before each dollar sign of `text`.
pub fn protect_dollars(text: &[u8]) -> (escaped: Vec<u8>)
    ensures
        escaped@ == escape_dollars(text@),
{
    let mut escaped: Vec<u8> = Vec::new();
    let mut i: usize = 0;
    while i < text.len()
        invariant
            0 <= i <= text@.len(),
            escaped@ == escape_dollars(text@.take(i as int)),
        decreases text@.len() - i,
    {
        assert(text@.take(i + 1).drop_last() =~= text@.take(i as int));
        if text[i] == DOLLAR {
            escaped.push(BACKSLASH);
        }
        escaped.push(text[i]);
        i = i + 1;
    }
    assert(text@.take(text@.len() as int) =~= text@);
    escaped
}

/// Writes `value` as a Nix string literal.
pub fn escape_nix_string(value: &[u8]) -> (literal: Vec<u8>)
    ensures
        literal@ == nix_string(value@),
{
    let text = to_text(value);
    let quoted = json_string(text.as_str());
    protect_dollars(quoted.as_str().as_bytes())
}

/// Whether the byte at `at` is escaped: the byte before it is a backslash that
/// is not escaped itself. So a byte is escaped where the backslashes before it
/// are odd in number.
pub open spec fn is_escaped(text: Seq<u8>, at: int) -> bool
    decreases at,
{
    if at <= 0 || at > text.len() {
        false
    } else {
        text[at - 1] == BACKSLASH && !is_escaped(text, at - 1)
    }
}

/// Whether a byte is escaped depends on the bytes before it alone.
proof fn lemma_escaped_in_prefix(text: Seq<u8>, more: Seq<u8>, at: int)
    requires
        0 <= at <= text.len(),
    ensures
        is_escaped(text + more, at) == is_escaped(text, at),
    decreases at,
{
    if at > 0 {
        lemma_escaped_in_prefix(text, more, at - 1);
    }
}

/// Text without a dollar sign is left as it is.
proof fn lemma_no_dollar_no_change(text: Seq<u8>)
    requires
        forall|i: int| 0 <= i < text.len() ==> text[i] != DOLLAR,
    ensures
        escape_dollars(text) == text,
    decreases text.len(),
{
    if text.len() > 0 {
        lemma_no_dollar_no_change(text.drop_last());
        assert(text.drop_last().push(text.last()) =~= text);
    } else {
        assert(text =~= Seq::<u8>::empty());
    }
}

/// Escaping the dollar signs of two texts one behind the other is escaping
/// them in each.
proof fn lemma_dollars_in_parts(first: Seq<u8>, second: Seq<u8>)
    ensures
        escape_dollars(first + second) == escape_dollars(first) + escape_dollars(second),
    decreases second.len(),
{
    if second.len() == 0 {
        assert(first + second =~= first);
        assert(escape_dollars(first) + escape_dollars(second) =~= escape_dollars(first));
    } else {
        let shorter = second.drop_last();
        lemma_dollars_in_parts(first, shorter);
        assert((first + second).drop_last() =~= first + shorter);
        assert((first + second).last() == second.last());
        if second.last() == DOLLAR {
            assert(escape_dollars(first + second) =~= escape_dollars(first) + escape_dollars(
                second,
            ));
        } else {
            assert(escape_dollars(first + second) =~= escape_dollars(first) + escape_dollars(
                second,
            ));
        }
    }
}

/// How one byte of a value stands in the literal: as in a JSON string, but a
/// dollar sign behind a backslash.
pub open spec fn literal_escape(byte: u8) -> Seq<u8> {
    if byte == DOLLAR {
        seq![BACKSLASH, DOLLAR]
    } else {
        json_escape(byte)
    }
}

/// Escaping the dollar signs in the JSON form of a byte gives its form in the
/// literal.
proof fn lemma_literal_escape(byte: u8)
    ensures
        escape_dollars(json_escape(byte)) == literal_escape(byte),
{
    if byte == DOLLAR {
        let one = seq![DOLLAR];
        assert(one.drop_last() =~= Seq::<u8>::empty());
        assert(escape_dollars(one.drop_last()) =~= Seq::<u8>::empty());
        assert(escape_dollars(one) =~= seq![BACKSLASH, DOLLAR]);
    } else {
        lemma_no_dollar_no_change(json_escape(byte));
    }
}

/// Whether `text` is the sound beginning of a literal: it opens with a quote,
/// does not end in the middle of an escape, holds no control character, and
/// every further quote and every dollar sign in it is escaped.
pub open spec fn begins_literal(text: Seq<u8>) -> bool {
    &&& text.len() > 0
    &&& text[0] == QUOTE
    &&& !is_escaped(text, text.len() as int)
    &&& forall|i: int| 0 <= i < text.len() ==> #[trigger] text[i] >= 32
    &&& forall|i: int|
        0 < i < text.len() && (#[trigger] text[i] == QUOTE || text[i] == DOLLAR) ==> is_escaped(
            text,
            i,
        )
}

/// A sound beginning of a literal stays one when the form of one more byte is
/// added.
proof fn lemma_literal_grows(text: Seq<u8>, byte: u8)
    requires
        begins_literal(text),
    ensures
        begins_literal(text + literal_escape(byte)),
{
    let unit = literal_escape(byte);
    let whole = text + unit;
    let start = text.len() as int;
    assert forall|i: int| 0 <= i <= start implies is_escaped(whole, i) == is_escaped(text, i) by {
        lemma_escaped_in_prefix(text, unit, i);
    }
    assert(whole[0] == text[0]);
    assert(forall|i: int| 0 <= i < start ==> whole[i] == text[i]);
    if unit.len() == 1 {
        assert(whole[start] == byte);
        assert(is_escaped(whole, start + 1) == (whole[start] == BACKSLASH && !is_escaped(
            whole,
            start,
        )));
    } else {
        assert(whole[start] == BACKSLASH);
        assert(whole[start + 1] == unit[1]);
        assert(is_escaped(whole, start + 1));
        assert(!is_escaped(whole, start + 2));
        if unit.len() == 6 {
            assert(whole[start + 2] == unit[2]);
            assert(whole[start + 3] == unit[3]);
            assert(whole[start + 4] == unit[4]);
            assert(whole[start + 5] == unit[5]);
            assert(!is_escaped(whole, start + 3));
            assert(!is_escaped(whole, start + 4));
            assert(!is_escaped(whole, start + 5));
            assert(!is_escaped(whole, start + 6));
        }
    }
}

/// The opening quote and the escaped bytes of a text are a sound beginning of
/// a literal.
proof fn lemma_literal_begins(text: Seq<u8>)
    ensures
        begins_literal(seq![QUOTE] + escape_dollars(json_escaped(text))),
    decreases text.len(),
{
    let open = seq![QUOTE];
    if text.len() == 0 {
        assert(escape_dollars(json_escaped(text)) =~= Seq::<u8>::empty());
        assert(open + Seq::<u8>::empty() =~= open);
        assert(!is_escaped(open, 1)) by {
            assert(open[0] == QUOTE);
        }
    } else {
        let shorter = text.drop_last();
        lemma_literal_begins(shorter);
        lemma_dollars_in_parts(json_escaped(shorter), json_escape(text.last()));
        lemma_literal_escape(text.last());
        lemma_literal_grows(open + escape_dollars(json_escaped(shorter)), text.last());
        assert(open + escape_dollars(json_escaped(text)) =~= (open + escape_dollars(
            json_escaped(shorter),
        )) + literal_escape(text.last()));
    }
}

/// A value written as a literal is sound: it stands between two quotes that
/// are not escaped, every quote between them and every dollar sign is escaped,
/// so that the string ends where it should and no interpolation opens in it,
/// and it holds no control character, so no line break either.
pub proof fn lemma_literal_is_sound(value: Seq<u8>)
    ensures
        ({
            let literal = nix_string(value);
            &&& literal.len() >= 2
            &&& literal[0] == QUOTE
            &&& literal.last() == QUOTE
            &&& !is_escaped(literal, literal.len() - 1)
            &&& forall|i: int| 0 <= i < literal.len() ==> #[trigger] literal[i] >= 32
            &&& forall|i: int|
                0 < i < literal.len() - 1 && (#[trigger] literal[i] == QUOTE || literal[i]
                    == DOLLAR) ==> is_escaped(literal, i)
        }),
{
    let text = utf8_lossy(value);
    let open = seq![QUOTE];
    let inner = escape_dollars(json_escaped(text));
    let begun = open + inner;
    let literal = nix_string(value);
    lemma_dollars_in_parts(open + json_escaped(text), open);
    lemma_dollars_in_parts(open, json_escaped(text));
    lemma_no_dollar_no_change(open);
    assert(literal == begun + open);
    lemma_literal_begins(text);
    assert forall|i: int| 0 <= i <= begun.len() implies is_escaped(literal, i) == is_escaped(
        begun,
        i,
    ) by {
        lemma_escaped_in_prefix(begun, open, i);
    }
    assert(forall|i: int| 0 <= i < begun.len() ==> literal[i] == begun[i]);
    assert(literal[begun.len() as int] == QUOTE);
}

/// The value of the digit `digit` in base 16.
pub open spec fn hex_value(digit: u8) -> int {
    if digit < LOWER_A {
        digit - DIGIT_0
    } else {
        digit - LOWER_A + 10
    }
}

/// The byte that the escape at the start of `text` stands for.
pub open spec fn unescaped_byte(text: Seq<u8>) -> u8 {
    if text[0] != BACKSLASH {
        text[0]
    } else if text[1] == LOWER_B {
        8
    } else if text[1] == LOWER_T {
        9
    } else if text[1] == LOWER_N {
        10
    } else if text[1] == LOWER_F {
        12
    } else if text[1] == LOWER_R {
        13
    } else if text[1] == LOWER_U {
        (hex_value(text[4]) * 16 + hex_value(text[5])) as u8
    } else {
        text[1]
    }
}

/// How many bytes the escape at the start of `text` takes.
pub open spec fn escape_length(text: Seq<u8>) -> int {
    if text[0] != BACKSLASH {
        1
    } else if text[1] == LOWER_U {
        6
    } else {
        2
    }
}

/// The bytes that the inside of a literal stands for, read escape by escape.
pub open spec fn unescaped(text: Seq<u8>) -> Seq<u8>
    decreases text.len(),
{
    if text.len() == 0 || escape_length(text) > text.len() {
        Seq::empty()
    } else {
        seq![unescaped_byte(text)] + unescaped(text.skip(escape_length(text)))
    }
}

/// The escaped bytes of two texts one behind the other are those of each.
proof fn lemma_json_in_parts(first: Seq<u8>, second: Seq<u8>)
    ensures
        json_escaped(first + second) == json_escaped(first) + json_escaped(second),
    decreases second.len(),
{
    if second.len() == 0 {
        assert(first + second =~= first);
        assert(json_escaped(first) + json_escaped(second) =~= json_escaped(first));
    } else {
        lemma_json_in_parts(first, second.drop_last());
        assert((first + second).drop_last() =~= first + second.drop_last());
        assert(json_escaped(first + second) =~= json_escaped(first) + json_escaped(second));
    }
}

/// The inside of the literal of a text is the escape of its first byte and
/// the inside of the literal of the rest.
proof fn lemma_literal_from_the_front(text: Seq<u8>)
    requires
        text.len() > 0,
    ensures
        escape_dollars(json_escaped(text)) == literal_escape(text[0]) + escape_dollars(
            json_escaped(text.drop_first()),
        ),
{
    let first = seq![text[0]];
    assert(first + text.drop_first() =~= text);
    lemma_json_in_parts(first, text.drop_first());
    lemma_dollars_in_parts(json_escaped(first), json_escaped(text.drop_first()));
    assert(first.drop_last() =~= Seq::<u8>::empty());
    assert(json_escaped(first.drop_last()) =~= Seq::<u8>::empty());
    assert(json_escaped(first) =~= json_escape(text[0]));
    lemma_literal_escape(text[0]);
}

/// Reading the escape of a byte gives the byte back and goes on behind it.
proof fn lemma_unescape_one(byte: u8, rest: Seq<u8>)
    ensures
        unescaped(literal_escape(byte) + rest) == seq![byte] + unescaped(rest),
{
    let unit = literal_escape(byte);
    let whole = unit + rest;
    assert(whole[0] == unit[0]);
    if unit.len() > 1 {
        assert(whole[1] == unit[1]);
    }
    if unit.len() == 6 {
        assert(whole[4] == unit[4]);
        assert(whole[5] == unit[5]);
        assert(byte < 32);
        assert(hex_value(hex_digit(byte / 16)) == byte / 16);
        assert(hex_value(hex_digit(byte % 16)) == byte % 16);
    }
    assert(escape_length(whole) == unit.len());
    assert(unescaped_byte(whole) == byte);
    assert(whole.skip(unit.len() as int) =~= rest);
}

/// Reading the inside of the literal of a text gives the text back.
proof fn lemma_unescape(text: Seq<u8>)
    ensures
        unescaped(escape_dollars(json_escaped(text))) == text,
    decreases text.len(),
{
    if text.len() == 0 {
        assert(escape_dollars(json_escaped(text)) =~= Seq::<u8>::empty());
        assert(text =~= Seq::<u8>::empty());
    } else {
        lemma_literal_from_the_front(text);
        lemma_unescape(text.drop_first());
        lemma_unescape_one(text[0], escape_dollars(json_escaped(text.drop_first())));
        assert(seq![text[0]] + text.drop_first() =~= text);
    }
}

/// A literal can be read back: what stands between its quotes, read escape by
/// escape, is the text of the value. So two values with different texts have
/// different literals.
pub proof fn lemma_literal_reads_back(value: Seq<u8>)
    ensures
        nix_string(value).len() >= 2,
        unescaped(nix_string(value).subrange(1, nix_string(value).len() - 1)) == utf8_lossy(
            value,
        ),
{
    let text = utf8_lossy(value);
    let open = seq![QUOTE];
    let inner = escape_dollars(json_escaped(text));
    let literal = nix_string(value);
    lemma_dollars_in_parts(open + json_escaped(text), open);
    lemma_dollars_in_parts(open, json_escaped(text));
    lemma_no_dollar_no_change(open);
    assert(literal == (open + inner) + open);
    assert(literal.subrange(1, literal.len() - 1) =~= inner);
    lemma_unescape(text);
}

} // verus!
