//! Text put together for a message: literals, numbers, and paths made safe to print.
use vstd::prelude::*;
use vstd::utf8::*;

use crate::unicode::decode_text;

verus! {

/// `String::push` appends the one character it is given.
pub assume_specification[ String::push ](text: &mut String, ch: char)
    ensures
        final(text)@ == old(text)@.push(ch),
;

/// What `{:?}` writes of a text: its characters between double quotes, where those that would
/// not show, and those the quoting itself uses, are escaped.
pub uninterp spec fn debug_form(text: Seq<char>) -> Seq<char>;

/// Whether `ch` is a letter or a digit of ASCII, or a space.
pub open spec fn is_plain(ch: char) -> bool {
    ||| 'a' <= ch <= 'z'
    ||| 'A' <= ch <= 'Z'
    ||| '0' <= ch <= '9'
    ||| ch == ' '
}

/// Whether a text is letters and digits of ASCII and spaces alone.
pub open spec fn is_plain_text(text: Seq<char>) -> bool {
    forall|i: int| 0 <= i < text.len() ==> is_plain(#[trigger] text[i])
}

/// What `{:?}`, the `core::fmt::Debug` of `str`, writes: a function of the text alone, which
/// puts a text of letters, digits and spaces between double quotes unchanged. Which other
/// characters it escapes goes by its table of what can be shown, and is left unsaid.
#[verifier::external_body]
pub(crate) fn debug_text(text: &str) -> (shown: String)
    ensures
        shown@ == debug_form(text@),
        is_plain_text(text@) ==> shown@ == seq!['"'] + text@ + seq!['"'],
{
    format!("{:?}", text)
}

/// The character of a hexadecimal digit.
pub open spec fn digit_char(d: int) -> char {
    if d == 0 {
        '0'
    } else if d == 1 {
        '1'
    } else if d == 2 {
        '2'
    } else if d == 3 {
        '3'
    } else if d == 4 {
        '4'
    } else if d == 5 {
        '5'
    } else if d == 6 {
        '6'
    } else if d == 7 {
        '7'
    } else if d == 8 {
        '8'
    } else if d == 9 {
        '9'
    } else if d == 10 {
        'a'
    } else if d == 11 {
        'b'
    } else if d == 12 {
        'c'
    } else if d == 13 {
        'd'
    } else if d == 14 {
        'e'
    } else {
        'f'
    }
}

/// `n` in decimal.
pub open spec fn dec(n: nat) -> Seq<char>
    decreases n,
{
    if n < 10 {
        seq![digit_char(n as int)]
    } else {
        dec(n / 10).push(digit_char((n % 10) as int))
    }
}

/// The low `width` hexadecimal digits of `n`.
pub open spec fn hex_digits(n: nat, width: nat) -> Seq<char>
    decreases width,
{
    if width == 0 {
        Seq::empty()
    } else {
        hex_digits(n / 16, (width - 1) as nat).push(digit_char((n % 16) as int))
    }
}

/// `n` in hexadecimal behind `0x`, padded with zeros to `width` digits.
pub open spec fn hex(n: nat, width: nat) -> Seq<char> {
    "0x"@ + hex_digits(n, width)
}

/// Whether a terminal acts on `ch` rather than showing it.
pub open spec fn is_control(ch: char) -> bool {
    (ch as u32) < 0x20 || 0x7F <= (ch as u32) < 0xA0
}

/// `ch` as it may be shown: itself, or an escape where a terminal would act on it.
pub open spec fn shown(ch: char) -> Seq<char> {
    if is_control(ch) {
        "\\u{"@ + hex_digits(ch as u32 as nat, 2) + "}"@
    } else {
        seq![ch]
    }
}

/// Every character of `text` as it may be shown.
pub open spec fn shown_all(text: Seq<char>) -> Seq<char>
    decreases text.len(),
{
    if text.len() == 0 {
        Seq::empty()
    } else {
        shown_all(text.drop_last()) + shown(text.last())
    }
}

/// The characters of a byte string that is not UTF-8: its ASCII, with U+FFFD for the rest.
pub open spec fn ascii_or_replacement(bytes: Seq<u8>) -> Seq<char> {
    Seq::new(
        bytes.len(),
        |i: int| if bytes[i] < 0x80 { bytes[i] as char } else { '\u{FFFD}' },
    )
}

/// A path as a message shows it.
pub open spec fn printable_text(path: Seq<u8>) -> Seq<char> {
    if valid_utf8(path) {
        shown_all(decode_utf8(path))
    } else {
        shown_all(ascii_or_replacement(path))
    }
}

/// The character of a hexadecimal digit.
fn digit(d: u8) -> (ch: char)
    requires
        d < 16,
    ensures
        ch == digit_char(d as int),
{
    match d {
        0 => '0',
        1 => '1',
        2 => '2',
        3 => '3',
        4 => '4',
        5 => '5',
        6 => '6',
        7 => '7',
        8 => '8',
        9 => '9',
        10 => 'a',
        11 => 'b',
        12 => 'c',
        13 => 'd',
        14 => 'e',
        _ => 'f',
    }
}

/// Append `n` in decimal.
pub fn push_dec(out: &mut String, n: u64)
    ensures
        final(out)@ == old(out)@ + dec(n as nat),
    decreases n,
{
    if n >= 10 {
        push_dec(out, n / 10);
    }
    out.push(digit((n % 10) as u8));
    assert(out@ =~= old(out)@ + dec(n as nat));
}

/// Append the low `width` hexadecimal digits of `n`.
pub fn push_hex_digits(out: &mut String, n: u64, width: u8)
    ensures
        final(out)@ == old(out)@ + hex_digits(n as nat, width as nat),
    decreases width,
{
    if width > 0 {
        push_hex_digits(out, n / 16, width - 1);
        out.push(digit((n % 16) as u8));
    }
    assert(out@ =~= old(out)@ + hex_digits(n as nat, width as nat));
}

/// Append `n` in hexadecimal behind `0x`, padded to `width` digits.
pub fn push_hex(out: &mut String, n: u64, width: u8)
    ensures
        final(out)@ == old(out)@ + hex(n as nat, width as nat),
{
    out.append("0x");
    push_hex_digits(out, n, width);
    assert(out@ =~= old(out)@ + hex(n as nat, width as nat));
}

/// Append `ch` as it may be shown.
fn push_shown(out: &mut String, ch: char)
    ensures
        final(out)@ == old(out)@ + shown(ch),
{
    let code: u32 = ch as u32;
    if code < 0x20 || (0x7F <= code && code < 0xA0) {
        out.append("\\u{");
        push_hex_digits(out, code as u64, 2);
        out.append("}");
    } else {
        out.push(ch);
    }
    assert(out@ =~= old(out)@ + shown(ch));
}

/// Append a path as a message shows it: text with anything a terminal acts on escaped, and
/// U+FFFD for a byte that stands for no character.
pub fn push_printable(out: &mut String, path: &[u8])
    ensures
        final(out)@ == old(out)@ + printable_text(path@),
{
    match decode_text(path) {
        Some(chars) => {
            let mut i: usize = 0;
            assert(chars@.take(0) =~= Seq::<char>::empty());
            assert(out@ =~= old(out)@ + shown_all(chars@.take(0)));
            while i < chars.len()
                invariant
                    i <= chars@.len(),
                    out@ == old(out)@ + shown_all(chars@.take(i as int)),
                decreases chars@.len() - i,
            {
                proof {
                    assert(chars@.take(i + 1).drop_last() =~= chars@.take(i as int));
                }
                push_shown(out, chars[i]);
                i += 1;
                assert(out@ =~= old(out)@ + shown_all(chars@.take(i as int)));
            }
            assert(chars@.take(i as int) =~= chars@);
        },
        None => {
            let ghost all = ascii_or_replacement(path@);
            let mut i: usize = 0;
            assert(all.take(0) =~= Seq::<char>::empty());
            assert(out@ =~= old(out)@ + shown_all(all.take(0)));
            while i < path.len()
                invariant
                    i <= path@.len(),
                    all == ascii_or_replacement(path@),
                    out@ == old(out)@ + shown_all(all.take(i as int)),
                decreases path@.len() - i,
            {
                proof {
                    assert(all.take(i + 1).drop_last() =~= all.take(i as int));
                }
                let byte: u8 = path[i];
                let ch: char = if byte < 0x80 {
                    byte as char
                } else {
                    '\u{FFFD}'
                };
                push_shown(out, ch);
                i += 1;
                assert(out@ =~= old(out)@ + shown_all(all.take(i as int)));
            }
            assert(all.take(i as int) =~= all);
        },
    }
}

} // verus!
