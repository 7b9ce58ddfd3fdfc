//! Unicode Bidirectional Algorithm metadata for prepared text.
//!
//! Bidi classification and paragraph-level resolution are those of
//! `unicode-bidi`. [`compute_bidi_levels`] returns the resolved embedding
//! level at the start of each Unicode scalar value. [`compute_segment_levels`]
//! projects those levels onto segments, whose starts are expressed as
//! Unicode scalar indices rather than UTF-8 byte offsets.
//!
//! These levels are logical-order metadata, not a rendered visual order. A
//! renderer must first choose line boundaries, then apply the line-specific
//! UAX #9 L1 resets and L2 reordering. The line-breaking engine itself does
//! not reorder text.
use crate::error::Error;
use crate::text::chars_of;
use vstd::prelude::*;
use vstd::utf8::{encode_scalar, encode_utf8};

verus! {

/// A character's Unicode `Bidi_Class` property.
#[derive(Debug, Clone, Copy, PartialEq, Eq, Structural)]
pub enum BidiType {
    AL,
    AN,
    B,
    BN,
    CS,
    EN,
    ES,
    ET,
    FSI,
    L,
    LRE,
    LRI,
    LRO,
    NSM,
    ON,
    PDF,
    PDI,
    R,
    RLE,
    RLI,
    RLO,
    S,
    WS,
}

/// The position of a character's `Bidi_Class` among the classes in
/// alphabetical order.
pub uninterp spec fn bidi_class_position(character: char) -> u8;

/// The resolved embedding level of each byte of a text.
pub uninterp spec fn byte_levels(text: Seq<char>) -> Seq<u8>;

/// `unicode_bidi::bidi_class`, as the position of the class in the enum.
///
/// Claimed of it: the class depends on the character alone, and it is one of
/// the twenty-three that `BidiClass` declares.
#[verifier::external_body]
fn class_position(character: char) -> (r: u8)
    ensures
        r == bidi_class_position(character),
        r < 23,
{
    unicode_bidi::bidi_class(character) as u8
}

/// `unicode_bidi::BidiInfo::new` with the paragraph direction detected: the
/// levels of its result.
///
/// Claimed of it: the levels depend on the text alone, and there is one for
/// each byte of the text in UTF-8.
#[verifier::external_body]
fn resolve_levels(text: &str) -> (r: Vec<u8>)
    ensures
        r@ == byte_levels(text@),
        r@.len() == encode_utf8(text@).len(),
{
    unicode_bidi::BidiInfo::new(text, None).levels.iter().map(|level| level.number()).collect()
}

/// The class at a position in alphabetical order.
pub open spec fn class_at(position: u8) -> BidiType {
    if position == 0 {
        BidiType::AL
    } else if position == 1 {
        BidiType::AN
    } else if position == 2 {
        BidiType::B
    } else if position == 3 {
        BidiType::BN
    } else if position == 4 {
        BidiType::CS
    } else if position == 5 {
        BidiType::EN
    } else if position == 6 {
        BidiType::ES
    } else if position == 7 {
        BidiType::ET
    } else if position == 8 {
        BidiType::FSI
    } else if position == 9 {
        BidiType::L
    } else if position == 10 {
        BidiType::LRE
    } else if position == 11 {
        BidiType::LRI
    } else if position == 12 {
        BidiType::LRO
    } else if position == 13 {
        BidiType::NSM
    } else if position == 14 {
        BidiType::ON
    } else if position == 15 {
        BidiType::PDF
    } else if position == 16 {
        BidiType::PDI
    } else if position == 17 {
        BidiType::R
    } else if position == 18 {
        BidiType::RLE
    } else if position == 19 {
        BidiType::RLI
    } else if position == 20 {
        BidiType::RLO
    } else if position == 21 {
        BidiType::S
    } else {
        BidiType::WS
    }
}

/// The class at a position in alphabetical order.
#[must_use]
pub fn bidi_type_at(position: u8) -> (r: BidiType)
    requires
        position < 23,
    ensures
        r == class_at(position),
{
    match position {
        0 => BidiType::AL,
        1 => BidiType::AN,
        2 => BidiType::B,
        3 => BidiType::BN,
        4 => BidiType::CS,
        5 => BidiType::EN,
        6 => BidiType::ES,
        7 => BidiType::ET,
        8 => BidiType::FSI,
        9 => BidiType::L,
        10 => BidiType::LRE,
        11 => BidiType::LRI,
        12 => BidiType::LRO,
        13 => BidiType::NSM,
        14 => BidiType::ON,
        15 => BidiType::PDF,
        16 => BidiType::PDI,
        17 => BidiType::R,
        18 => BidiType::RLE,
        19 => BidiType::RLI,
        20 => BidiType::RLO,
        21 => BidiType::S,
        _ => BidiType::WS,
    }
}

/// Classify one Unicode scalar using the bundled Unicode bidi data.
#[must_use]
pub fn classify_char(character: char) -> (r: BidiType)
    ensures
        r == class_at(bidi_class_position(character)),
{
    bidi_type_at(class_position(character))
}

/// The byte at which a scalar starts.
pub open spec fn scalar_offset(text: Seq<char>, index: int) -> int {
    encode_utf8(text.take(index)).len() as int
}

/// Whether the byte levels give a level in range for each of the first
/// `count` scalars.
pub open spec fn levels_known(text: Seq<char>, levels: Seq<u8>, count: int) -> bool {
    forall|i: int|
        0 <= i < count ==> #[trigger] scalar_offset(text, i) < levels.len()
            && levels[scalar_offset(text, i)] <= 127
}

/// The level at the start of each scalar.
pub open spec fn start_levels(text: Seq<char>, levels: Seq<u8>) -> Seq<i8> {
    Seq::new(text.len(), |i: int| levels[scalar_offset(text, i)] as i8)
}

/// Whether every level is the base left-to-right level.
pub open spec fn all_base(levels: Seq<i8>) -> bool {
    forall|i: int| 0 <= i < levels.len() ==> #[trigger] levels[i] == 0
}

/// The levels of a text, where some scalar is not at the base level.
pub open spec fn directional_levels(text: Seq<char>, levels: Seq<u8>) -> Option<Seq<i8>> {
    if levels_known(text, levels, text.len() as int) && !all_base(start_levels(text, levels)) {
        Some(start_levels(text, levels))
    } else {
        None
    }
}

/// The number of bytes of a character in UTF-8.
fn utf8_length(c: char) -> (r: usize)
    ensures
        r == encode_scalar(c as u32).len(),
        r <= 4,
{
    let cp: u32 = c as u32;
    if cp < 0x80 {
        1
    } else if cp < 0x800 {
        2
    } else if cp < 0x10000 {
        3
    } else {
        4
    }
}

proof fn lemma_encode_push(text: Seq<char>, c: char)
    ensures
        encode_utf8(text.push(c)) == encode_utf8(text) + encode_scalar(c as u32),
    decreases text.len(),
{
    let longer = text.push(c);
    if text.len() == 0 {
        assert(longer.drop_first() =~= Seq::empty());
        assert(encode_utf8(longer.drop_first()) =~= Seq::empty());
        assert(encode_utf8(longer) =~= encode_utf8(text) + encode_scalar(c as u32));
    } else {
        assert(longer.drop_first() =~= text.drop_first().push(c));
        assert(longer[0] == text[0]);
        lemma_encode_push(text.drop_first(), c);
        assert(encode_utf8(longer) =~= encode_utf8(text) + encode_scalar(c as u32));
    }
}

/// Take the level at the start of each Unicode scalar out of the level of each
/// byte.
///
/// Returns `None` where a level is missing or out of range, and where all are
/// the base left-to-right level.
#[must_use]
pub fn scalar_levels(text: &str, byte_levels: &Vec<u8>) -> (r: Option<Vec<i8>>)
    ensures
        match directional_levels(text@, byte_levels@) {
            Some(expected) => r matches Some(levels) && levels@ == expected,
            None => r is None,
        },
{
    let chars = chars_of(text);
    let mut levels: Vec<i8> = Vec::new();
    let mut base = true;
    let mut offset: usize = 0;
    let mut index: usize = 0;
    proof {
        assert(chars@.take(0) =~= Seq::empty());
    }
    while index < chars.len()
        invariant
            index <= chars@.len(),
            chars@ == text@,
            levels@ == start_levels(text@, byte_levels@).take(index as int),
            levels_known(text@, byte_levels@, index as int),
            base == all_base(levels@),
            offset == if scalar_offset(text@, index as int) <= usize::MAX {
                scalar_offset(text@, index as int)
            } else {
                usize::MAX as int
            },
        decreases chars@.len() - index,
    {
        if offset >= byte_levels.len() {
            proof {
                assert(scalar_offset(text@, index as int) >= byte_levels@.len());
            }
            return None;
        }
        let level = byte_levels[offset];
        if level > 127 {
            return None;
        }
        let ghost before = levels@;
        levels.push(level as i8);
        base = base && level == 0;
        proof {
            assert(text@.take(index + 1) =~= text@.take(index as int).push(text@[index as int]));
            lemma_encode_push(text@.take(index as int), text@[index as int]);
            assert(levels@ =~= start_levels(text@, byte_levels@).take(index + 1));
            assert(levels@[index as int] == level as i8);
            assert(forall|i: int| 0 <= i < before.len() ==> before[i] == #[trigger] levels@[i]);
        }
        offset = offset.saturating_add(utf8_length(chars[index]));
        index += 1;
    }
    proof {
        assert(levels@ =~= start_levels(text@, byte_levels@));
    }
    if base {
        None
    } else {
        Some(levels)
    }
}

/// Resolve bidi embedding levels for every Unicode scalar in `text`.
///
/// Paragraph direction is detected independently for each paragraph by the
/// Unicode Bidirectional Algorithm. The returned vector is indexed by Unicode
/// scalar position, not by UTF-8 byte offset. Its values are resolved logical
/// embedding levels; line-specific L1 resets have not been applied.
///
/// Returns `None` for empty text and text whose scalar-start levels all resolve
/// to the base left-to-right level.
#[must_use]
pub fn compute_bidi_levels(text: &str) -> (r: Option<Vec<i8>>)
    ensures
        match directional_levels(text@, byte_levels(text@)) {
            Some(expected) => r matches Some(levels) && levels@ == expected,
            None => r is None,
        },
        r matches Some(levels) ==> levels@.len() == text@.len(),
{
    let levels = resolve_levels(text);
    scalar_levels(text, &levels)
}

/// The levels at segment starts.
pub open spec fn levels_at(levels: Seq<i8>, starts: Seq<usize>) -> Seq<i8> {
    starts.map_values(|start: usize| levels[start as int])
}

/// The first start that is no scalar of a text.
pub open spec fn first_outside(starts: Seq<usize>, char_count: nat, index: int) -> bool {
    &&& 0 <= index < starts.len()
    &&& starts[index] >= char_count
    &&& forall|k: int| 0 <= k < index ==> #[trigger] starts[k] < char_count
}

/// Resolve one embedding level per segment start.
///
/// `seg_starts` contains Unicode scalar indices into `normalized`, not UTF-8
/// byte offsets. Levels remain in logical order and require line-specific UAX
/// #9 processing before a renderer can use them as a visual order.
///
/// Returns `Ok(None)` when [`compute_bidi_levels`] takes the pure-LTR path.
///
/// # Errors
///
/// Returns [`Error::InvalidBidiStart`] if any start does not identify a Unicode
/// scalar in `normalized`. Every start is validated before bidi resolution.
pub fn compute_segment_levels(normalized: &str, seg_starts: &[usize]) -> (r: Result<
    Option<Vec<i8>>,
    Error,
>)
    ensures
        match r {
            Ok(levels) => {
                &&& forall|k: int|
                    0 <= k < seg_starts@.len() ==> #[trigger] seg_starts@[k] < normalized@.len()
                &&& match directional_levels(normalized@, byte_levels(normalized@)) {
                    Some(all) => levels matches Some(found) && found@ == levels_at(
                        all,
                        seg_starts@,
                    ),
                    None => levels is None,
                }
            },
            Err(error) => exists|k: int|
                #[trigger] first_outside(seg_starts@, normalized@.len(), k) && error
                    == (Error::InvalidBidiStart {
                    start: seg_starts@[k],
                    char_count: normalized@.len() as usize,
                }),
        },
{
    let chars = chars_of(normalized);
    let char_count: usize = chars.len();
    let mut index: usize = 0;
    while index < seg_starts.len()
        invariant
            index <= seg_starts@.len(),
            char_count == normalized@.len(),
            forall|k: int| 0 <= k < index ==> #[trigger] seg_starts@[k] < normalized@.len(),
        decreases seg_starts@.len() - index,
    {
        if seg_starts[index] >= char_count {
            proof {
                assert(first_outside(seg_starts@, normalized@.len(), index as int));
            }
            return Err(Error::InvalidBidiStart { start: seg_starts[index], char_count });
        }
        index += 1;
    }
    match compute_bidi_levels(normalized) {
        None => Ok(None),
        Some(all) => {
            let mut levels: Vec<i8> = Vec::new();
            let mut position: usize = 0;
            while position < seg_starts.len()
                invariant
                    position <= seg_starts@.len(),
                    all@.len() == normalized@.len(),
                    forall|k: int|
                        0 <= k < seg_starts@.len() ==> #[trigger] seg_starts@[k]
                            < normalized@.len(),
                    levels@ == levels_at(all@, seg_starts@.take(position as int)),
                decreases seg_starts@.len() - position,
            {
                let start: usize = seg_starts[position];
                levels.push(all[start]);
                position += 1;
                proof {
                    assert(levels@ =~= levels_at(all@, seg_starts@.take(position as int)));
                }
            }
            proof {
                assert(seg_starts@.take(position as int) =~= seg_starts@);
            }
            Ok(Some(levels))
        },
    }
}

} // verus!
