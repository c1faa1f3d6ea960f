//! Names as text: UTF-8 on the caller's side of the library, UTF-16 on the volume's.
use vstd::prelude::*;
use vstd::string::*;
use vstd::utf8::*;

verus! {

/// The error of `core::str::from_utf8`, which nothing here looks into.
#[verifier::external_type_specification]
#[verifier::external_body]
pub struct ExUtf8Error(core::str::Utf8Error);

/// `core::str::from_utf8` accepts exactly the byte strings that are UTF-8, and the text it
/// returns is made of the same bytes.
pub assume_specification<'a>[ core::str::from_utf8 ](bytes: &'a [u8]) -> (text: Result<
    &'a str,
    core::str::Utf8Error,
>)
    ensures
        text is Ok <==> valid_utf8(bytes@),
        text is Ok ==> text->Ok_0.spec_bytes() == bytes@,
;

/// The UTF-16 code units of one scalar value.
pub open spec fn units_of(scalar: u32) -> Seq<u16> {
    if scalar < 0x1_0000 {
        seq![scalar as u16]
    } else {
        seq![
            (0xD800 + (scalar - 0x1_0000) / 0x400) as u16,
            (0xDC00 + (scalar - 0x1_0000) % 0x400) as u16,
        ]
    }
}

/// The UTF-16 code units of a text.
pub open spec fn utf16(text: Seq<char>) -> Seq<u16>
    decreases text.len(),
{
    if text.len() == 0 {
        Seq::empty()
    } else {
        units_of(text[0] as u32) + utf16(text.drop_first())
    }
}

/// Whether `unit` is the first half of a surrogate pair.
pub open spec fn is_high(unit: u16) -> bool {
    0xD800 <= unit < 0xDC00
}

/// Whether `unit` is the second half of a surrogate pair.
pub open spec fn is_low(unit: u16) -> bool {
    0xDC00 <= unit < 0xE000
}

/// Whether `units` begin with a surrogate pair.
pub open spec fn begins_with_pair(units: Seq<u16>) -> bool {
    units.len() >= 2 && is_high(units[0]) && is_low(units[1])
}

/// Whether the first of `units` stands for no character: half a surrogate pair without the
/// other half.
pub open spec fn begins_unpaired(units: Seq<u16>) -> bool {
    (is_high(units[0]) || is_low(units[0])) && !begins_with_pair(units)
}

/// The scalar value `units` begin with, U+FFFD where the first unit stands for none.
pub open spec fn first_scalar(units: Seq<u16>) -> u32 {
    if begins_with_pair(units) {
        (0x1_0000 + (units[0] - 0xD800) * 0x400 + (units[1] - 0xDC00)) as u32
    } else if begins_unpaired(units) {
        0xFFFD
    } else {
        units[0] as u32
    }
}

/// How many units the first scalar value takes.
pub open spec fn first_width(units: Seq<u16>) -> int {
    if begins_with_pair(units) {
        2
    } else {
        1
    }
}

/// The UTF-8 bytes of the text `units` spell.
pub open spec fn utf8_of_units(units: Seq<u16>) -> Seq<u8>
    decreases units.len(),
{
    if units.len() == 0 {
        Seq::empty()
    } else {
        encode_scalar(first_scalar(units)) + utf8_of_units(units.skip(first_width(units)))
    }
}

/// The text `units` spell, with U+FFFD for a unit standing for no character.
pub open spec fn text_of_units(units: Seq<u16>) -> Seq<char>
    decreases units.len(),
{
    if units.len() == 0 {
        Seq::empty()
    } else {
        seq![first_scalar(units) as char] + text_of_units(units.skip(first_width(units)))
    }
}

/// Whether every unit of `units` belongs to a character.
pub open spec fn well_formed_units(units: Seq<u16>) -> bool
    decreases units.len(),
{
    units.len() == 0 || (!begins_unpaired(units) && well_formed_units(
        units.skip(first_width(units)),
    ))
}

/// The text units spell has the UTF-8 bytes they spell.
pub proof fn lemma_text_of_units(units: Seq<u16>)
    ensures
        encode_utf8(text_of_units(units)) == utf8_of_units(units),
    decreases units.len(),
{
    if units.len() > 0 {
        let text = text_of_units(units);
        let rest = units.skip(first_width(units));
        lemma_text_of_units(rest);
        assert(is_scalar(first_scalar(units)));
        assert(text[0] as u32 == first_scalar(units));
        assert(text.drop_first() =~= text_of_units(rest));
    }
}

/// A text written as UTF-16 is well formed, and spells that text and the UTF-8 it came from.
pub proof fn lemma_utf16_round_trip(text: Seq<char>)
    ensures
        well_formed_units(utf16(text)),
        utf8_of_units(utf16(text)) == encode_utf8(text),
        text_of_units(utf16(text)) == text,
    decreases text.len(),
{
    if text.len() > 0 {
        let rest = text.drop_first();
        lemma_utf16_round_trip(rest);
        let scalar = text[0] as u32;
        let first = units_of(scalar);
        let units = utf16(text);
        char_is_scalar(text[0]);
        assert(units == first + utf16(rest));
        assert(units.skip(first.len() as int) =~= utf16(rest));
        assert(units[0] == first[0]);
        if scalar >= 0x1_0000 {
            assert(units[1] == first[1]);
        }
        assert(first_width(units) == first.len());
        assert(first_scalar(units) == scalar);
        char_u32_cast(text[0], scalar);
        assert(seq![text[0]] + rest =~= text);
    }
}

/// Append the UTF-8 bytes of one scalar value.
pub fn push_scalar(out: &mut Vec<u8>, scalar: u32)
    requires
        is_scalar(scalar),
    ensures
        final(out)@ == old(out)@ + encode_scalar(scalar),
{
    if scalar < 0x80 {
        out.push((scalar & 0x7F) as u8);
    } else if scalar < 0x800 {
        out.push(0xC0 | ((scalar >> 6) & 0x1F) as u8);
        out.push(0x80 | (scalar & 0x3F) as u8);
    } else if scalar < 0x1_0000 {
        out.push(0xE0 | ((scalar >> 12) & 0x0F) as u8);
        out.push(0x80 | ((scalar >> 6) & 0x3F) as u8);
        out.push(0x80 | (scalar & 0x3F) as u8);
    } else {
        out.push(0xF0 | ((scalar >> 18) & 0x7) as u8);
        out.push(0x80 | ((scalar >> 12) & 0x3F) as u8);
        out.push(0x80 | ((scalar >> 6) & 0x3F) as u8);
        out.push(0x80 | (scalar & 0x3F) as u8);
    }
    assert(out@ =~= old(out)@ + encode_scalar(scalar));
}

/// The text `units` spell as UTF-8, with U+FFFD for a unit standing for no character, and
/// whether there was no such unit.
pub fn decode_utf16(units: &[u16]) -> (decoded: (Vec<u8>, bool))
    ensures
        decoded.0@ == utf8_of_units(units@),
        decoded.1 == well_formed_units(units@),
{
    let mut out: Vec<u8> = Vec::new();
    let mut well_formed: bool = true;
    let mut at: usize = 0;
    assert(units@.skip(0) =~= units@);
    while at < units.len()
        invariant
            at <= units@.len(),
            out@ + utf8_of_units(units@.skip(at as int)) == utf8_of_units(units@),
            (well_formed && well_formed_units(units@.skip(at as int))) == well_formed_units(
                units@,
            ),
        decreases units@.len() - at,
    {
        let ghost rest = units@.skip(at as int);
        let ghost before = out@;
        let first: u16 = units[at];
        assert(first == rest[0]);
        let high: bool = 0xD800 <= first && first < 0xDC00;
        let low: bool = 0xDC00 <= first && first < 0xE000;
        let mut width: usize = 1;
        let scalar: u32;
        if high && at + 1 < units.len() && 0xDC00 <= units[at + 1] && units[at + 1] < 0xE000 {
            assert(units@[at + 1] == rest[1]);
            scalar = 0x1_0000 + (first as u32 - 0xD800) * 0x400 + (units[at + 1] as u32 - 0xDC00);
            width = 2;
        } else {
            assert(rest.len() >= 2 ==> rest[1] == units@[at + 1]);
            if high || low {
                scalar = 0xFFFD;
                well_formed = false;
            } else {
                scalar = first as u32;
            }
        }
        assert(width == first_width(rest));
        assert(scalar == first_scalar(rest));
        push_scalar(&mut out, scalar);
        at += width;
        proof {
            assert(rest.skip(width as int) =~= units@.skip(at as int));
            assert(out@ + utf8_of_units(units@.skip(at as int)) =~= before + (encode_scalar(scalar)
                + utf8_of_units(units@.skip(at as int))));
        }
    }
    assert(out@ + utf8_of_units(units@.skip(at as int)) =~= out@);
    (out, well_formed)
}

/// The characters of `bytes`, or nothing where they are not UTF-8.
pub fn decode_text(bytes: &[u8]) -> (text: Option<Vec<char>>)
    ensures
        text is Some <==> valid_utf8(bytes@),
        text is Some ==> text->Some_0@ == decode_utf8(bytes@),
{
    match core::str::from_utf8(bytes) {
        Ok(text) => {
            proof {
                encode_utf8_decode_utf8(text@);
            }
            Some(chars_of(text))
        },
        Err(_) => None,
    }
}

/// The text `units` spell, with U+FFFD for a unit standing for no character.
pub fn spell(units: &[u16]) -> (text: String)
    ensures
        text@ == text_of_units(units@),
{
    let (bytes, _) = decode_utf16(units);
    proof {
        lemma_text_of_units(units@);
        encode_utf8_valid_utf8(text_of_units(units@));
        encode_utf8_decode_utf8(text_of_units(units@));
    }
    let mut out = String::new();
    match core::str::from_utf8(bytes.as_slice()) {
        Ok(text) => {
            proof {
                encode_utf8_decode_utf8(text@);
            }
            out.append(text);
        },
        Err(_) => {},
    }
    assert(out@ =~= text_of_units(units@));
    out
}

/// The characters of `text`.
pub fn chars_of(text: &str) -> (chars: Vec<char>)
    ensures
        chars@ == text@,
{
    let count: usize = text.unicode_len();
    let mut chars: Vec<char> = Vec::new();
    let mut i: usize = 0;
    while i < count
        invariant
            i <= count,
            count == text@.len(),
            chars@ =~= text@.take(i as int),
        decreases count - i,
    {
        chars.push(text.get_char(i));
        i += 1;
    }
    assert(chars@ =~= text@);
    chars
}

/// The UTF-16 code units of `text`.
pub fn encode_utf16(text: &[char]) -> (units: Vec<u16>)
    ensures
        units@ == utf16(text@),
{
    let mut units: Vec<u16> = Vec::new();
    let mut i: usize = 0;
    assert(text@.skip(0) =~= text@);
    while i < text.len()
        invariant
            i <= text@.len(),
            units@ + utf16(text@.skip(i as int)) == utf16(text@),
        decreases text@.len() - i,
    {
        let ghost before = units@;
        let ghost rest = text@.skip(i as int);
        let scalar: u32 = text[i] as u32;
        if scalar < 0x1_0000 {
            units.push(scalar as u16);
        } else {
            units.push((0xD800 + (scalar - 0x1_0000) / 0x400) as u16);
            units.push((0xDC00 + (scalar - 0x1_0000) % 0x400) as u16);
        }
        i += 1;
        proof {
            assert(rest.drop_first() =~= text@.skip(i as int));
            assert(units@ =~= before + units_of(scalar));
            assert(units@ + utf16(text@.skip(i as int)) =~= before + (units_of(scalar) + utf16(
                text@.skip(i as int),
            )));
        }
    }
    assert(units@ + utf16(text@.skip(i as int)) =~= units@);
    units
}

/// Units spell a text one character after another: two that are the halves of a pair, an upper half
/// first, the character past the first 65536 that they encode; half a pair alone the character that
/// stands for an unknown one; and any other unit the character of its number.
pub proof fn lemma_units_are_spelled_in_turn(units: Seq<u16>)
    requires
        units.len() > 0,
    ensures
        ({
            let a = units[0] as int;
            let paired = units.len() >= 2 && 0xD800 <= a < 0xDC00 && 0xDC00 <= units[1] < 0xE000;
            let half = 0xD800 <= a < 0xE000;
            &&& paired ==> {
                let number = 0x1_0000 + (a - 0xD800) * 0x400 + (units[1] - 0xDC00);
                &&& utf8_of_units(units) == encode_scalar(number as u32) + utf8_of_units(
                    units.skip(2),
                )
                &&& well_formed_units(units) == well_formed_units(units.skip(2))
            }
            &&& half && !paired ==> {
                &&& utf8_of_units(units) == encode_scalar(0xFFFD) + utf8_of_units(units.skip(1))
                &&& !well_formed_units(units)
            }
            &&& !half ==> {
                &&& utf8_of_units(units) == encode_scalar(units[0] as u32) + utf8_of_units(
                    units.skip(1),
                )
                &&& well_formed_units(units) == well_formed_units(units.skip(1))
            }
        }),
        utf8_of_units(Seq::empty()) == Seq::<u8>::empty(),
        well_formed_units(Seq::empty()),
{
}

/// A text is put into units one character after another: a character of the first 65536 is the unit
/// of its number, and any other a pair of halves that encode it.
pub proof fn lemma_a_text_is_put_into_units_in_turn(ch: char, rest: Seq<char>)
    ensures
        (ch as u32) < 0x1_0000 ==> utf16(seq![ch] + rest) == seq![(ch as u32) as u16] + utf16(rest),
        (ch as u32) >= 0x1_0000 ==> {
            let all = utf16(seq![ch] + rest);
            &&& all.len() == 2 + utf16(rest).len()
            &&& 0xD800 <= all[0] < 0xDC00
            &&& 0xDC00 <= all[1] < 0xE000
            &&& ch as u32 == 0x1_0000 + (all[0] - 0xD800) * 0x400 + (all[1] - 0xDC00)
            &&& all.skip(2) == utf16(rest)
        },
        utf16(Seq::empty()) == Seq::<u16>::empty(),
{
    let text = seq![ch] + rest;
    assert(text.drop_first() =~= rest);
    assert(text[0] == ch);
    let scalar = ch as u32;
    assert(utf16(text) == units_of(scalar) + utf16(rest));
    if scalar >= 0x1_0000 {
        assert(scalar <= 0x10_FFFF);
        assert(utf16(text).skip(2) =~= utf16(rest));
    }
}

} // verus!
