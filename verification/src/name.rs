//! Placing a name: what the format stores for it, or why it cannot.
use vstd::prelude::*;
use vstd::utf8::*;

use crate::csum::{hash_of, name_hash};
use crate::dirent::{MAX_NAME_UNITS, NAME_UNITS_PER_ENTRY};
use crate::number::ceil_div;
use crate::path::{is_hostile, is_reserved, is_reserved_name_char, DOT, SLASH};
use crate::text::{dec, hex_digits, is_control, push_dec, push_hex_digits};
use crate::unicode::{
    decode_text, encode_utf16, lemma_utf16_round_trip, utf16, utf8_of_units, well_formed_units,
};
use crate::upcase::UpcaseTable;

verus! {

/// A name the format cannot hold.
#[derive(Clone, Copy, PartialEq, Eq, Debug, Structural)]
pub enum NameError {
    /// The name is not text, so it has no UTF-16 form.
    NotUtf8,
    /// The name is empty.
    Empty,
    /// The name has more units than the format holds.
    TooLong {
        /// Units it has.
        units: usize,
        /// Units the format holds.
        limit: usize,
    },
    /// The name has a character the format does not allow.
    ForbiddenCharacter {
        /// The first such character.
        ch: char,
    },
    /// The name ends in a dot or a space, which drivers drop.
    TrailingDotOrSpace,
}

/// A character as a message quotes it: those that would not show, and those the quoting itself
/// uses, are escaped.
pub open spec fn quoted(ch: char) -> Seq<char> {
    if ch == '\0' {
        "'\\0'"@
    } else if ch == '\\' {
        "'\\\\'"@
    } else if ch == '\'' {
        "'\\''"@
    } else if ch == '\t' {
        "'\\t'"@
    } else if ch == '\n' {
        "'\\n'"@
    } else if ch == '\r' {
        "'\\r'"@
    } else if is_control(ch) {
        "'\\u{"@ + hex_digits(
            ch as u32 as nat,
            if (ch as u32) < 0x10 {
                1
            } else {
                2
            },
        ) + "}'"@
    } else {
        seq!['\'', ch, '\'']
    }
}

/// Append a character as a message quotes it.
fn push_quoted(out: &mut String, ch: char)
    ensures
        final(out)@ == old(out)@ + quoted(ch),
{
    let code: u32 = ch as u32;
    if ch == '\0' {
        out.append("'\\0'");
    } else if ch == '\\' {
        out.append("'\\\\'");
    } else if ch == '\'' {
        out.append("'\\''");
    } else if ch == '\t' {
        out.append("'\\t'");
    } else if ch == '\n' {
        out.append("'\\n'");
    } else if ch == '\r' {
        out.append("'\\r'");
    } else if code < 0x20 || (0x7F <= code && code < 0xA0) {
        out.append("'\\u{");
        let width: u8 = if code < 0x10 {
            1
        } else {
            2
        };
        push_hex_digits(out, code as u64, width);
        out.append("}'");
    } else {
        out.push('\'');
        out.push(ch);
        out.push('\'');
    }
    assert(out@ =~= old(out)@ + quoted(ch));
}

impl NameError {
    /// The message of the error.
    pub open spec fn text(self) -> Seq<char> {
        match self {
            NameError::NotUtf8 =>
                "the name is not valid UTF-8, so it has no UTF-16 form a name entry holds"@,
            NameError::Empty => "the name is empty"@,
            NameError::TooLong { units, limit } => "a name of "@ + dec(units as nat)
                + " UTF-16 code units exceeds the "@ + dec(limit as nat) + " the format holds"@,
            NameError::ForbiddenCharacter { ch } => quoted(ch)
                + " is not a character an exFAT name may contain"@,
            NameError::TrailingDotOrSpace =>
                "a name ending in a dot or a space is not one a driver reads back unchanged"@,
        }
    }

    /// Append the message of the error.
    pub fn push_message(&self, out: &mut String)
        ensures
            final(out)@ == old(out)@ + self.text(),
    {
        match *self {
            NameError::NotUtf8 => out.append(
                "the name is not valid UTF-8, so it has no UTF-16 form a name entry holds",
            ),
            NameError::Empty => out.append("the name is empty"),
            NameError::TooLong { units, limit } => {
                out.append("a name of ");
                push_dec(out, units as u64);
                out.append(" UTF-16 code units exceeds the ");
                push_dec(out, limit as u64);
                out.append(" the format holds");
            },
            NameError::ForbiddenCharacter { ch } => {
                push_quoted(out, ch);
                out.append(" is not a character an exFAT name may contain");
            },
            NameError::TrailingDotOrSpace => out.append(
                "a name ending in a dot or a space is not one a driver reads back unchanged",
            ),
        }
        assert(out@ =~= old(out)@ + self.text());
    }
}

/// A name as an entry set stores it.
#[derive(Clone, PartialEq, Eq, Debug)]
pub struct PlacedName {
    /// The name's units.
    pub units: Vec<u16>,
    /// The hash of the folded units.
    pub hash: u16,
}

impl PlacedName {
    /// Slots the entry set of a name of `units` units takes: two, and one for each fifteen.
    pub open spec fn slots_of(units: int) -> int {
        2 + ceil_div(units, NAME_UNITS_PER_ENTRY as int)
    }

    /// Slots the entry set of the name takes.
    #[must_use]
    pub fn slots(&self) -> (slots: u32)
        requires
            self.units@.len() <= MAX_NAME_UNITS,
        ensures
            slots == Self::slots_of(self.units@.len() as int),
            2 <= slots <= 19,
    {
        let units: usize = self.units.len();
        let entries: usize = if units % NAME_UNITS_PER_ENTRY == 0 {
            units / NAME_UNITS_PER_ENTRY
        } else {
            units / NAME_UNITS_PER_ENTRY + 1
        };
        2 + entries as u32
    }

    /// Slots of the set behind its first.
    #[must_use]
    pub fn secondary_count(&self) -> (count: u8)
        requires
            self.units@.len() <= MAX_NAME_UNITS,
        ensures
            count == Self::slots_of(self.units@.len() as int) - 1,
    {
        (self.slots() - 1) as u8
    }
}

/// The first character of `text` a name may not contain.
pub open spec fn first_reserved(text: Seq<char>) -> Option<char>
    decreases text.len(),
{
    if text.len() == 0 {
        None
    } else if is_reserved(text[0]) {
        Some(text[0])
    } else {
        first_reserved(text.drop_first())
    }
}

/// Why the format cannot hold a name, where it cannot.
pub open spec fn name_fault(name: Seq<u8>) -> Option<NameError> {
    let text = decode_utf8(name);
    if !valid_utf8(name) {
        Some(NameError::NotUtf8)
    } else if text.len() == 0 {
        Some(NameError::Empty)
    } else if first_reserved(text) is Some {
        Some(NameError::ForbiddenCharacter { ch: first_reserved(text)->Some_0 })
    } else if text.last() == '.' || text.last() == ' ' {
        Some(NameError::TrailingDotOrSpace)
    } else if utf16(text).len() > MAX_NAME_UNITS {
        Some(
            NameError::TooLong { units: utf16(text).len() as usize, limit: MAX_NAME_UNITS },
        )
    } else {
        None
    }
}

/// The units a name is stored as.
pub open spec fn name_units(name: Seq<u8>) -> Seq<u16> {
    utf16(decode_utf8(name))
}

/// `units` folded through a table's mapping.
pub open spec fn folded_by(mapping: Seq<u16>, units: Seq<u16>) -> Seq<u16> {
    Seq::new(units.len(), |i: int| mapping[units[i] as int])
}

/// The name as an entry set stores it, and its folded units, which no two names of a directory
/// may share.
pub fn place(name: &[u8], upcase: &UpcaseTable) -> (r: Result<(PlacedName, Vec<u16>), NameError>)
    requires
        upcase.wf(),
    ensures
        match r {
            Ok((placed, folded)) => {
                &&& name_fault(name@) is None
                &&& placed.units@ == name_units(name@)
                &&& 1 <= placed.units@.len() <= MAX_NAME_UNITS
                &&& folded@ == folded_by(upcase.mapping(), name_units(name@))
                &&& placed.hash == hash_of(folded@)
            },
            Err(e) => name_fault(name@) == Some(e),
        },
{
    let text = match decode_text(name) {
        Some(text) => text,
        None => return Err(NameError::NotUtf8),
    };
    if text.len() == 0 {
        return Err(NameError::Empty);
    }
    let mut i: usize = 0;
    assert(text@.skip(0) =~= text@);
    while i < text.len()
        invariant
            i <= text@.len(),
            valid_utf8(name@),
            text@ == decode_utf8(name@),
            text@.len() > 0,
            first_reserved(text@.skip(i as int)) == first_reserved(text@),
        decreases text@.len() - i,
    {
        if is_reserved_name_char(text[i]) {
            return Err(NameError::ForbiddenCharacter { ch: text[i] });
        }
        assert(text@.skip(i as int).drop_first() =~= text@.skip(i + 1));
        i += 1;
    }
    let last: char = text[text.len() - 1];
    if last == '.' || last == ' ' {
        return Err(NameError::TrailingDotOrSpace);
    }
    let units = encode_utf16(&text);
    if units.len() > MAX_NAME_UNITS {
        return Err(NameError::TooLong { units: units.len(), limit: MAX_NAME_UNITS });
    }
    proof {
        lemma_utf16_not_empty(text@);
    }
    let folded = upcase.fold(&units);
    assert(folded@ =~= folded_by(upcase.mapping(), units@));
    let hash: u16 = name_hash(&folded);
    Ok((PlacedName { units, hash }, folded))
}

/// A text that is not empty has a unit.
pub proof fn lemma_utf16_not_empty(text: Seq<char>)
    requires
        text.len() > 0,
    ensures
        utf16(text).len() > 0,
{
}

/// The bytes of a character: the character itself where it is an ASCII one, and bytes above
/// every ASCII character where it is not.
proof fn lemma_scalar_bytes(scalar: u32)
    requires
        is_scalar(scalar),
    ensures
        1 <= encode_scalar(scalar).len(),
        scalar < 0x80 ==> encode_scalar(scalar) == seq![scalar as u8],
        scalar >= 0x80 ==> forall|i: int|
            0 <= i < encode_scalar(scalar).len() ==> #[trigger] encode_scalar(scalar)[i] >= 0x80,
{
    assert(scalar < 0x80 ==> (scalar & 0x7F) as u8 == scalar as u8) by (bit_vector);
    assert(forall|b: u8| (0x80u8 | b) >= 0x80 && (0xC0u8 | b) >= 0x80 && (0xE0u8 | b) >= 0x80 && (
    0xF0u8 | b) >= 0x80) by (bit_vector);
}

/// A slash, a dot and a control character are the characters of their numbers.
proof fn lemma_scalar_of(ch: char)
    ensures
        ch == '/' <==> ch as u32 == SLASH,
        ch == '.' <==> ch as u32 == DOT,
{
}

/// The bytes of a text without a reserved character have no slash and no zero, and the last of
/// them is a dot only where the last character is.
proof fn lemma_text_bytes(text: Seq<char>)
    requires
        first_reserved(text) is None,
        text.len() > 0,
    ensures
        encode_utf8(text).len() > 0,
        forall|i: int|
            0 <= i < encode_utf8(text).len() ==> #[trigger] encode_utf8(text)[i] != SLASH
                && encode_utf8(text)[i] != 0,
        encode_utf8(text).last() == DOT ==> text.last() == '.',
    decreases text.len(),
{
    let rest = text.drop_first();
    let first = encode_scalar(text[0] as u32);
    char_is_scalar(text[0]);
    lemma_scalar_bytes(text[0] as u32);
    let all = encode_utf8(text);
    assert(all == first + encode_utf8(rest));
    assert(!is_reserved(text[0]));
    lemma_scalar_of(text[0]);
    assert forall|i: int| 0 <= i < first.len() implies #[trigger] first[i] != SLASH && first[i]
        != 0 by {}
    if rest.len() > 0 {
        lemma_text_bytes(rest);
        assert(text.last() == rest.last());
        assert(all.last() == encode_utf8(rest).last());
        assert forall|i: int| 0 <= i < all.len() implies #[trigger] all[i] != SLASH && all[i] != 0 by {
            if i < first.len() {
                assert(all[i] == first[i]);
            } else {
                assert(all[i] == encode_utf8(rest)[i - first.len()]);
            }
        }
    } else {
        assert(all =~= first);
        assert(all.last() == first[first.len() - 1]);
    }
}

/// A name the format holds reads back as it was written, well formed, and never names anything
/// but an entry of its directory.
pub proof fn lemma_held_name_reads_back(name: Seq<u8>)
    requires
        name_fault(name) is None,
    ensures
        well_formed_units(name_units(name)),
        utf8_of_units(name_units(name)) == name,
        !is_hostile(name),
{
    let text = decode_utf8(name);
    lemma_utf16_round_trip(text);
    decode_utf8_encode_utf8(name);
    lemma_text_bytes(text);
    assert(name == encode_utf8(text));
    assert(seq![DOT].last() == DOT && seq![DOT, DOT].last() == DOT);
}

/// The first character a name may not contain is one of those of the text, where there is any.
proof fn lemma_first_reserved(text: Seq<char>)
    ensures
        match first_reserved(text) {
            None => forall|i: int| 0 <= i < text.len() ==> !is_reserved(#[trigger] text[i]),
            Some(ch) => exists|at: int|
                0 <= at < text.len() && #[trigger] text[at] == ch && is_reserved(ch) && forall|
                    i: int,
                |
                    0 <= i < at ==> !is_reserved(#[trigger] text[i]),
        },
    decreases text.len(),
{
    if text.len() > 0 && !is_reserved(text[0]) {
        let rest = text.drop_first();
        lemma_first_reserved(rest);
        match first_reserved(rest) {
            None => {
                assert forall|i: int| 0 <= i < text.len() implies !is_reserved(
                    #[trigger] text[i],
                ) by {
                    if i > 0 {
                        assert(rest[i - 1] == text[i]);
                    }
                }
            },
            Some(ch) => {
                let at = choose|at: int|
                    0 <= at < rest.len() && #[trigger] rest[at] == ch && is_reserved(ch)
                        && forall|i: int| 0 <= i < at ==> !is_reserved(#[trigger] rest[i]);
                assert(text[at + 1] == ch);
                assert forall|i: int| 0 <= i < at + 1 implies !is_reserved(#[trigger] text[i]) by {
                    if i > 0 {
                        assert(rest[i - 1] == text[i]);
                    }
                }
            },
        }
    } else if text.len() > 0 {
        assert(text[0] == first_reserved(text)->Some_0);
    }
}

/// The format holds a name exactly where it is UTF-8, not empty, no longer than 255 UTF-16 units,
/// ends with neither a dot nor a space, and has no control character and none of the nine the
/// format gives a meaning elsewhere.
pub proof fn lemma_which_names_the_format_holds(name: Seq<u8>)
    ensures
        name_fault(name) is None <==> {
            let text = decode_utf8(name);
            &&& valid_utf8(name)
            &&& text.len() > 0
            &&& utf16(text).len() <= 255
            &&& text.last() != '.'
            &&& text.last() != ' '
            &&& forall|i: int|
                0 <= i < text.len() ==> (#[trigger] text[i]) as u32 >= 0x20 && text[i] != '"'
                    && text[i] != '*' && text[i] != '/' && text[i] != ':' && text[i] != '<'
                    && text[i] != '>' && text[i] != '?' && text[i] != '\\' && text[i] != '|'
        },
        name_fault(name) matches Some(e) ==> match e {
            NameError::NotUtf8 => !valid_utf8(name),
            NameError::Empty => valid_utf8(name) && decode_utf8(name).len() == 0,
            NameError::ForbiddenCharacter { ch } => valid_utf8(name) && decode_utf8(name).contains(
                ch,
            ) && ((ch as u32) < 0x20 || ch == '"' || ch == '*' || ch == '/' || ch == ':' || ch
                == '<' || ch == '>' || ch == '?' || ch == '\\' || ch == '|'),
            NameError::TrailingDotOrSpace => decode_utf8(name).last() == '.' || decode_utf8(
                name,
            ).last() == ' ',
            NameError::TooLong { limit, .. } => utf16(decode_utf8(name)).len() > 255 && limit
                == 255,
        },
{
    let text = decode_utf8(name);
    lemma_first_reserved(text);
    if first_reserved(text) is None {
        assert forall|i: int| 0 <= i < text.len() implies (#[trigger] text[i]) as u32 >= 0x20
            && text[i] != '"' && text[i] != '*' && text[i] != '/' && text[i] != ':' && text[i]
            != '<' && text[i] != '>' && text[i] != '?' && text[i] != '\\' && text[i] != '|' by {
            assert(!is_reserved(text[i]));
        }
    }
}

} // verus!
