//! What holds of CSS font specifications: a size and a list of families are
//! read as they are written.
use crate::backend::font::{
    component_end, families_from, families_of, family_of, family_source, find_char, find_size,
    generic_name, is_quote, names_generic, parsed_font, positive, size_token,
    Family, FoundSize, SeenPrefixes,
};
use crate::backend::FontView;
use crate::scalar::Scalar;
use crate::text::{
    has_suffix, skip_white, trimmed, trimmed_start, white_end, white_from, without_last,
};
use crate::unicode::{ascii_lower, ascii_lowered, white_space};
use vstd::prelude::*;

verus! {

/// Whether a text can be written as a number before a unit: it is not empty and
/// holds no white space, no slash and no capital letter.
pub open spec fn writes_a_number(text: Seq<char>) -> bool {
    &&& text.len() > 0
    &&& forall|i: int|
        0 <= i < text.len() ==> !white_space(#[trigger] text[i]) && text[i] != '/' && !('A'
            <= text[i] && text[i] <= 'Z')
}

/// Whether a text is a family name as it stands: it neither starts nor ends with
/// white space, and holds no quote and no comma.
pub open spec fn is_plain_name(text: Seq<char>) -> bool {
    &&& text.len() > 0
    &&& !white_space(text[0])
    &&& !white_space(text.last())
    &&& forall|i: int|
        0 <= i < text.len() ==> #[trigger] text[i] != ',' && text[i] != '\'' && text[i] != '"'
}

/// The units that a size can have: a pixel, or a point, three quarters of which
/// are a pixel.
pub enum Unit {
    Pixels,
    Points,
}

/// A unit as it is written.
pub open spec fn unit_text(unit: Unit) -> Seq<char> {
    match unit {
        Unit::Pixels => seq!['p', 'x'],
        Unit::Points => seq!['p', 't'],
    }
}

/// The pixels of a unit.
pub open spec fn unit_scale<W: Scalar>(unit: Unit) -> W {
    match unit {
        Unit::Pixels => W::ratio_value(1, 1),
        Unit::Points => W::ratio_value(4, 3),
    }
}

/// A specification of a size and a list of families.
pub open spec fn specification(number: Seq<char>, unit: Unit, families: Seq<char>) -> Seq<char> {
    number + unit_text(unit) + seq![' '] + families
}

proof fn lemma_trimmed(text: Seq<char>)
    requires
        text.len() > 0,
        !white_space(text[0]),
        !white_space(text.last()),
    ensures
        trimmed(text) == text,
{
    assert(skip_white(text, 0) == 0);
    assert(white_end(text, 0, text.len() as int) == text.len());
    assert(text.subrange(0, text.len() as int) =~= text);
}

proof fn lemma_word_end(text: Seq<char>, from: int, end: int)
    requires
        0 <= from <= end < text.len(),
        forall|i: int| from <= i < end ==> !white_space(#[trigger] text[i]),
        white_space(text[end]),
    ensures
        white_from(text, from) == end,
    decreases end - from,
{
    if from < end {
        lemma_word_end(text, from + 1, end);
    }
}

proof fn lemma_no_char(text: Seq<char>, c: char, from: int)
    requires
        0 <= from <= text.len(),
        forall|i: int| from <= i < text.len() ==> #[trigger] text[i] != c,
    ensures
        find_char(text, c, from) == text.len(),
    decreases text.len() - from,
{
    if from < text.len() {
        lemma_no_char(text, c, from + 1);
    }
}

proof fn lemma_size<W: Scalar>(number: Seq<char>, unit: Unit, value: W)
    requires
        writes_a_number(number),
        W::parsed(number) == Some(value),
        positive(value.times(unit_scale::<W>(unit))),
    ensures
        size_token::<W>(number + unit_text(unit)) == Some(
            Ok::<(W, bool), Seq<char>>((value.times(unit_scale::<W>(unit)), false)),
        ),
{
    let token = number + unit_text(unit);
    reveal_strlit("px");
    reveal_strlit("pt");
    assert forall|i: int| 0 <= i < token.len() implies #[trigger] token[i] != '/' && ascii_lower(
        token[i],
    ) == token[i] by {
        if i < number.len() {
            assert(token[i] == number[i]);
        }
    }
    lemma_no_char(token, '/', 0);
    let lower = ascii_lowered(token);
    assert(lower =~= token);
    assert(without_last(lower, 2) =~= number);
    let tail = lower.skip(lower.len() - 2);
    assert(tail =~= unit_text(unit));
    assert("px"@ =~= seq!['p', 'x']);
    assert("pt"@ =~= seq!['p', 't']);
    assert(seq!['p', 'x'][1] != seq!['p', 't'][1]);
    assert(has_suffix(lower, "px"@) == (unit is Pixels));
    assert(has_suffix(lower, "pt"@) == (unit is Points));
}

/// The families of a specification are those behind its size.
#[verifier::rlimit(40)]
proof fn lemma_specification<W: Scalar>(
    number: Seq<char>,
    unit: Unit,
    families: Seq<char>,
    value: W,
)
    requires
        writes_a_number(number),
        W::parsed(number) == Some(value),
        positive(value.times(unit_scale::<W>(unit))),
        families.len() > 0,
        !white_space(families[0]),
        !white_space(families.last()),
        families[0] != '/',
    ensures
        parsed_font::<W>(specification(number, unit, families)) == match families_from(
            families,
            0,
        ) {
            Err(fault) => Err::<FontView<W>, Seq<char>>(fault),
            Ok(list) => Ok(
                FontView {
                    css: specification(number, unit, families),
                    size_px: value.times(unit_scale::<W>(unit)),
                    family: list[0].name,
                    has_generic_family: names_generic(list),
                },
            ),
        },
{
    let css = specification(number, unit, families);
    let token = number + unit_text(unit);
    let end = token.len() as int;
    assert(css[0] == number[0]);
    assert(css.last() == families.last());
    lemma_trimmed(css);
    assert(white_space(' '));
    assert(css[end] == ' ');
    assert forall|i: int| 0 <= i < end implies !white_space(#[trigger] css[i]) by {
        if i < number.len() {
            assert(css[i] == number[i]);
        } else {
            assert(css[i] == unit_text(unit)[i - number.len()]);
        }
    }
    lemma_word_end(css, 0, end);
    assert(skip_white(css, 0) == 0);
    assert(css.subrange(0, end) =~= token);
    lemma_size(number, unit, value);
    let found = FoundSize {
        size: value.times(unit_scale::<W>(unit)),
        end,
        with_line_height: false,
    };
    assert(find_size::<W>(css, 0, SeenPrefixes::none()) == Ok::<FoundSize<W>, Seq<char>>(found));
    let behind = css.skip(end);
    assert(behind =~= seq![' '] + families);
    assert(skip_white(behind, 1) == 1) by {
        assert(behind[1] == families[0]);
    }
    assert(skip_white(behind, 0) == 1) by {
        assert(behind[0] == ' ');
    }
    assert(trimmed_start(behind) =~= families);
    assert(family_source(css, found) == Ok::<Seq<char>, Seq<char>>(families));
    lemma_trimmed(families);
    assert(families_of(families) == families_from(families, 0));
}

/// A name without quotes and commas goes on to where it ends.
proof fn lemma_name_end(source: Seq<char>, from: int, end: int)
    requires
        0 <= from <= end <= source.len(),
        forall|i: int|
            from <= i < end ==> #[trigger] source[i] != ',' && source[i] != '\'' && source[i]
                != '"',
        end == source.len() || source[end] == ',',
    ensures
        component_end(source, from, None, false) == (end, false),
    decreases end - from,
{
    if from < end {
        lemma_name_end(source, from + 1, end);
    }
}

proof fn lemma_plain_family(name: Seq<char>)
    requires
        is_plain_name(name),
    ensures
        family_of(name) == Ok::<Family, Seq<char>>(Family { name, quoted: false }),
{
    lemma_trimmed(name);
    assert(name[0] != '\'' && name[0] != '"');
    assert(name[name.len() - 1] != '\'' && name[name.len() - 1] != '"');
    if crate::backend::font::holds_quote(name) {
        let i = choose|i: int| 0 <= i < name.len() && is_quote(#[trigger] name[i]);
        assert(name[i] != '\'' && name[i] != '"');
    }
}

proof fn lemma_one_generic(family: Family)
    ensures
        names_generic(seq![family]) == (!family.quoted && generic_name(family.name)),
{
    let list = seq![family];
    assert(list[0] == family);
    if !family.quoted && generic_name(family.name) {
        assert(!list[0].quoted && generic_name(list[0].name));
    }
}

/// A size and a family are read as they are written: the size in pixels, a point
/// being four thirds of one, and the family letter for letter; it is generic
/// where it is one of the CSS generic names.
pub proof fn a_size_and_a_family_are_read<W: Scalar>(
    number: Seq<char>,
    unit: Unit,
    name: Seq<char>,
    value: W,
)
    requires
        writes_a_number(number),
        W::parsed(number) == Some(value),
        positive(value.times(unit_scale::<W>(unit))),
        is_plain_name(name),
        name[0] != '/',
    ensures
        parsed_font::<W>(specification(number, unit, name)) == Ok::<FontView<W>, Seq<char>>(
            FontView {
                css: specification(number, unit, name),
                size_px: value.times(unit_scale::<W>(unit)),
                family: name,
                has_generic_family: generic_name(name),
            },
        ),
{
    lemma_specification(number, unit, name, value);
    lemma_name_end(name, 0, name.len() as int);
    assert(name.subrange(0, name.len() as int) =~= name);
    lemma_plain_family(name);
    lemma_one_generic(Family { name, quoted: false });
}

/// The family of a list is its first name, whatever stands behind it; the list
/// is generic where one of its names is.
#[verifier::rlimit(40)]
pub proof fn the_first_family_of_a_list_counts<W: Scalar>(
    number: Seq<char>,
    unit: Unit,
    first: Seq<char>,
    second: Seq<char>,
    value: W,
)
    requires
        writes_a_number(number),
        W::parsed(number) == Some(value),
        positive(value.times(unit_scale::<W>(unit))),
        is_plain_name(first),
        is_plain_name(second),
        first[0] != '/',
    ensures
        ({
            let css = specification(number, unit, first + seq![','] + second);
            parsed_font::<W>(css) == Ok::<FontView<W>, Seq<char>>(
                FontView {
                    css,
                    size_px: value.times(unit_scale::<W>(unit)),
                    family: first,
                    has_generic_family: generic_name(first) || generic_name(second),
                },
            )
        }),
{
    let list = first + seq![','] + second;
    let comma = first.len() as int;
    assert(list[0] == first[0] && list.last() == second.last());
    lemma_specification(number, unit, list, value);
    assert(list[comma] == ',');
    assert forall|i: int| 0 <= i < comma implies #[trigger] list[i] != ',' && list[i] != '\''
        && list[i] != '"' by {
        assert(list[i] == first[i]);
    }
    lemma_name_end(list, 0, comma);
    assert forall|i: int| comma + 1 <= i < list.len() implies #[trigger] list[i] != ',' && list[i]
        != '\'' && list[i] != '"' by {
        assert(list[i] == second[i - comma - 1]);
    }
    lemma_name_end(list, comma + 1, list.len() as int);
    assert(list.subrange(0, comma) =~= first);
    assert(list.subrange(comma + 1, list.len() as int) =~= second);
    lemma_plain_family(first);
    lemma_plain_family(second);
    let a = Family { name: first, quoted: false };
    let b = Family { name: second, quoted: false };
    assert(families_from(list, comma + 1) == Ok::<Seq<Family>, Seq<char>>(seq![b]));
    let families = seq![a] + seq![b];
    assert(families_from(list, 0) == Ok::<Seq<Family>, Seq<char>>(families));
    assert(families[0] == a && families[1] == b);
    if generic_name(first) {
        assert(!families[0].quoted && generic_name(families[0].name));
    }
    if generic_name(second) {
        assert(!families[1].quoted && generic_name(families[1].name));
    }
}

proof fn lemma_quoted_end(source: Seq<char>, from: int, quote: char)
    requires
        source.len() >= 2,
        1 <= from <= source.len() - 1,
        quote == '\'' || quote == '"',
        source.last() == quote,
        forall|i: int|
            from <= i < source.len() - 1 ==> #[trigger] source[i] != quote && source[i] != '\\',
    ensures
        component_end(source, from, Some(quote), false) == (source.len() as int, false),
    decreases source.len() - from,
{
    if from < source.len() - 1 {
        lemma_quoted_end(source, from + 1, quote);
    } else {
        assert(source[from] == quote);
        assert(component_end(source, from + 1, None, false) == (source.len() as int, false));
    }
}

/// A family in quotes is what stands between them, commas and all, and it is
/// never a generic one.
#[verifier::rlimit(40)]
pub proof fn a_quoted_family_is_read<W: Scalar>(
    number: Seq<char>,
    unit: Unit,
    quote: char,
    name: Seq<char>,
    value: W,
)
    requires
        writes_a_number(number),
        W::parsed(number) == Some(value),
        positive(value.times(unit_scale::<W>(unit))),
        quote == '\'' || quote == '"',
        name.len() > 0,
        !white_space(name[0]) && !white_space(name.last()),
        forall|i: int|
            0 <= i < name.len() ==> #[trigger] name[i] != quote && name[i] != '\\',
    ensures
        ({
            let css = specification(number, unit, seq![quote] + name + seq![quote]);
            parsed_font::<W>(css) == Ok::<FontView<W>, Seq<char>>(
                FontView {
                    css,
                    size_px: value.times(unit_scale::<W>(unit)),
                    family: name,
                    has_generic_family: false,
                },
            )
        }),
{
    let source = seq![quote] + name + seq![quote];
    assert(source[0] == quote && source.last() == quote);
    assert(!white_space('\'') && !white_space('"'));
    lemma_specification(number, unit, source, value);
    assert forall|i: int| 1 <= i < source.len() - 1 implies #[trigger] source[i] != quote
        && source[i] != '\\' by {
        assert(source[i] == name[i - 1]);
    }
    lemma_quoted_end(source, 1, quote);
    assert(component_end(source, 0, None, false) == (source.len() as int, false));
    assert(source.subrange(0, source.len() as int) =~= source);
    lemma_trimmed(source);
    assert(source.subrange(1, source.len() - 1) =~= name);
    lemma_trimmed(name);
    let family = Family { name, quoted: true };
    assert(family_of(source) == Ok::<Family, Seq<char>>(family));
    lemma_one_generic(family);
}

/// The generic families of CSS, in lower case.
pub open spec fn is_generic(lower: Seq<char>) -> bool {
    ||| lower == "serif"@
    ||| lower == "sans-serif"@
    ||| lower == "monospace"@
    ||| lower == "cursive"@
    ||| lower == "fantasy"@
    ||| lower == "system-ui"@
    ||| lower == "ui-serif"@
    ||| lower == "ui-sans-serif"@
    ||| lower == "ui-monospace"@
    ||| lower == "ui-rounded"@
    ||| lower == "emoji"@
    ||| lower == "math"@
    ||| lower == "fangsong"@
}

/// A family is generic where its name is one of the generic names of CSS, however
/// its letters are written.
pub proof fn generic_families_are_those_of_css(name: Seq<char>)
    ensures
        generic_name(name) == is_generic(
            Seq::new(
                name.len(),
                |i: int|
                    if 'A' <= name[i] && name[i] <= 'Z' {
                        (name[i] as u8 + 32) as u8 as char
                    } else {
                        name[i]
                    },
            ),
        ),
{
    let lower = Seq::new(
        name.len(),
        |i: int|
            if 'A' <= name[i] && name[i] <= 'Z' {
                (name[i] as u8 + 32) as u8 as char
            } else {
                name[i]
            },
    );
    assert(ascii_lowered(name) =~= lower);
}

} // verus!
