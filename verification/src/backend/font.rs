//! CSS-style font specifications.
use crate::decimal::{read_unsigned, unsigned_literal};
use crate::error::Error;
use crate::format::{quote, quoted};
use crate::scalar::Scalar;
use crate::text::{
    chars_of, find_whitespace, has_suffix, skip_white, skip_whitespace, slice_of, spells, string_of,
    strip_suffix, trim_chars, trimmed, trimmed_start, white_from, without_last,
};
use crate::unicode::{ascii_lowered, lower_chars};
use vstd::prelude::*;
use vstd::string::*;

verus! {

/// Parsed and validated font specification for measurement.
///
/// The accepted syntax is a practical subset of the CSS `font` shorthand:
/// optional style/weight tokens, a required positive `px` or `pt` size,
/// an optional `/line-height`, and a required family. The first family in a
/// comma-separated fallback list is used by native backends, while
/// [`Self::as_css_str`] preserves the complete expression for canvas.
#[derive(Debug, Clone, PartialEq, Eq, Hash)]
pub struct FontSpec<W> {
    css: String,
    size_px: W,
    family: String,
    has_generic_family: bool,
}

/// A font specification as a value.
pub struct FontView<W> {
    pub css: Seq<char>,
    pub size_px: W,
    pub family: Seq<char>,
    pub has_generic_family: bool,
}

impl<W> View for FontSpec<W> {
    type V = FontView<W>;

    closed spec fn view(&self) -> FontView<W> {
        FontView {
            css: self.css@,
            size_px: self.size_px,
            family: self.family@,
            has_generic_family: self.has_generic_family,
        }
    }
}

// ---- The grammar -----------------------------------------------------------------

/// The categories of tokens before the size.
#[derive(Debug, Clone, Copy, PartialEq, Eq, Structural)]
pub enum FontPrefixKind {
    Normal,
    Style,
    Variant,
    Weight,
    Stretch,
}

/// The categories that were seen.
#[derive(Debug, Clone, Copy, PartialEq, Eq, Structural)]
pub struct SeenPrefixes {
    pub normal: bool,
    pub style: bool,
    pub variant: bool,
    pub weight: bool,
    pub stretch: bool,
}

impl SeenPrefixes {
    /// Nothing seen.
    pub open spec fn none() -> Self {
        SeenPrefixes {
            normal: false,
            style: false,
            variant: false,
            weight: false,
            stretch: false,
        }
    }

    /// Whether a category was seen.
    pub open spec fn has(self, kind: FontPrefixKind) -> bool {
        match kind {
            FontPrefixKind::Normal => self.normal,
            FontPrefixKind::Style => self.style,
            FontPrefixKind::Variant => self.variant,
            FontPrefixKind::Weight => self.weight,
            FontPrefixKind::Stretch => self.stretch,
        }
    }

    /// What was seen once a category is added.
    pub open spec fn with(self, kind: FontPrefixKind) -> Self {
        match kind {
            FontPrefixKind::Normal => SeenPrefixes { normal: true, ..self },
            FontPrefixKind::Style => SeenPrefixes { style: true, ..self },
            FontPrefixKind::Variant => SeenPrefixes { variant: true, ..self },
            FontPrefixKind::Weight => SeenPrefixes { weight: true, ..self },
            FontPrefixKind::Stretch => SeenPrefixes { stretch: true, ..self },
        }
    }

    /// The number of categories not seen yet.
    pub open spec fn unseen(self) -> int {
        (if self.normal { 0int } else { 1 }) + (if self.style { 0int } else { 1 }) + (
        if self.variant { 0int } else { 1 }) + (if self.weight { 0int } else { 1 }) + (
        if self.stretch { 0int } else { 1 })
    }
}

/// Whether a value is finite and greater than zero.
pub open spec fn positive<W: Scalar>(value: W) -> bool {
    value.finite() && W::zero_value().below(value)
}

/// Whether a token is a percentage from 50% to 200%.
pub open spec fn stretch_percentage<W: Scalar>(lower: Seq<char>) -> bool {
    has_suffix(lower, "%"@) && (W::parsed(without_last(lower, 1)) matches Some(stretch)
        && stretch.finite() && W::ratio_value(50, 1).at_most(stretch) && stretch.at_most(
        W::ratio_value(200, 1),
    ))
}

/// The category of a token before the size.
pub open spec fn prefix_kind<W: Scalar>(token: Seq<char>) -> Option<FontPrefixKind> {
    let lower = ascii_lowered(token);
    if lower == "normal"@ {
        Some(FontPrefixKind::Normal)
    } else if lower == "italic"@ || lower == "oblique"@ {
        Some(FontPrefixKind::Style)
    } else if lower == "small-caps"@ {
        Some(FontPrefixKind::Variant)
    } else if lower == "bold"@ || lower == "bolder"@ || lower == "lighter"@ {
        Some(FontPrefixKind::Weight)
    } else if lower == "ultra-condensed"@ || lower == "extra-condensed"@ || lower == "condensed"@
        || lower == "semi-condensed"@ || lower == "semi-expanded"@ || lower == "expanded"@ || lower
        == "extra-expanded"@ || lower == "ultra-expanded"@ {
        Some(FontPrefixKind::Stretch)
    } else if unsigned_literal(lower, 1000) matches Some(weight) && weight >= 1 {
        Some(FontPrefixKind::Weight)
    } else if stretch_percentage::<W>(lower) {
        Some(FontPrefixKind::Stretch)
    } else {
        None
    }
}

/// The number in front of a line height's unit.
pub open spec fn line_height_number(lower: Seq<char>) -> Seq<char> {
    if has_suffix(lower, "rem"@) {
        without_last(lower, 3)
    } else if has_suffix(lower, "px"@) || has_suffix(lower, "pt"@) || has_suffix(lower, "em"@) {
        without_last(lower, 2)
    } else if has_suffix(lower, "%"@) {
        without_last(lower, 1)
    } else {
        lower
    }
}

/// What is wrong with a line height, if anything.
pub open spec fn line_height_fault<W: Scalar>(text: Seq<char>) -> Option<Seq<char>> {
    let lower = ascii_lowered(trimmed(text));
    if lower.len() == 0 {
        Some("line height is missing after '/'"@)
    } else if lower == "normal"@ {
        None
    } else {
        match W::parsed(line_height_number(lower)) {
            None => Some("line height is not a supported number"@),
            Some(value) => if positive(value) {
                None
            } else {
                Some("line height must be finite and positive"@)
            },
        }
    }
}

/// The first index of a character from `from` on, or the length.
pub open spec fn find_char(text: Seq<char>, c: char, from: int) -> int
    decreases text.len() - from,
{
    if 0 <= from < text.len() && text[from] != c {
        find_char(text, c, from + 1)
    } else {
        from
    }
}

/// The size that a token gives in pixels, `None` where it is no size.
pub open spec fn size_in_pixels<W: Scalar>(component: Seq<char>) -> Option<Result<W, Seq<char>>> {
    let lower = ascii_lowered(component);
    let scale = if has_suffix(lower, "px"@) {
        Some(W::ratio_value(1, 1))
    } else if has_suffix(lower, "pt"@) {
        Some(W::ratio_value(4, 3))
    } else {
        None
    };
    match scale {
        None => None,
        Some(scale) => Some(
            match W::parsed(without_last(lower, 2)) {
                None => Err("font size is not a number"@),
                Some(value) => if positive(value.times(scale)) {
                    Ok(value.times(scale))
                } else {
                    Err("font size must be finite and positive"@)
                },
            },
        ),
    }
}

/// The size that a token gives, and whether a line height is part of it.
pub open spec fn size_token<W: Scalar>(token: Seq<char>) -> Option<Result<(W, bool), Seq<char>>> {
    let slash = find_char(token, '/', 0);
    if slash < token.len() {
        match line_height_fault::<W>(token.skip(slash + 1)) {
            Some(fault) => Some(Err(fault)),
            None => match size_in_pixels::<W>(token.take(slash)) {
                None => None,
                Some(Ok(size)) => Some(Ok((size, true))),
                Some(Err(fault)) => Some(Err(fault)),
            },
        }
    } else {
        match size_in_pixels::<W>(token) {
            None => None,
            Some(Ok(size)) => Some(Ok((size, false))),
            Some(Err(fault)) => Some(Err(fault)),
        }
    }
}

/// A size with the place after it and whether it came with a line height.
pub struct FoundSize<W> {
    pub size: W,
    pub end: int,
    pub with_line_height: bool,
}

/// The size after the prefixes from `from` on.
pub open spec fn find_size<W: Scalar>(css: Seq<char>, from: int, seen: SeenPrefixes) -> Result<
    FoundSize<W>,
    Seq<char>,
>
    decreases seen.unseen(),
{
    let start = skip_white(css, from);
    let end = white_from(css, start);
    let token = css.subrange(start, end);
    if start >= css.len() {
        Err("expected a size using px or pt units"@)
    } else {
        match size_token::<W>(token) {
            Some(Ok((size, with_line_height))) => Ok(FoundSize { size, end, with_line_height }),
            Some(Err(fault)) => Err(fault),
            None => match prefix_kind::<W>(token) {
                None => Err("unsupported token before font size: "@ + quoted(token)),
                Some(kind) => if seen.has(kind) {
                    Err("duplicate font prefix category at "@ + quoted(token))
                } else {
                    find_size(css, end, seen.with(kind))
                },
            },
        }
    }
}

/// The family list after a size, past a line height that stands on its own.
pub open spec fn family_source<W: Scalar>(css: Seq<char>, found: FoundSize<W>) -> Result<
    Seq<char>,
    Seq<char>,
> {
    let source = trimmed_start(css.skip(found.end));
    if !found.with_line_height && source.len() > 0 && source[0] == '/' {
        let after = trimmed_start(source.skip(1));
        let end = white_from(after, 0);
        if end >= after.len() {
            Err("font family is missing"@)
        } else {
            match line_height_fault::<W>(after.take(end)) {
                Some(fault) => Err(fault),
                None => Ok(trimmed_start(after.skip(end))),
            }
        }
    } else {
        Ok(source)
    }
}

/// Whether a character opens or closes a quoted family.
pub open spec fn is_quote(c: char) -> bool {
    c == '\'' || c == '"'
}

/// The end of the component that `index` is in, and whether a quote is still
/// open there. A comma ends a component unless it is quoted; in quotes a
/// backslash takes the next character with it.
pub open spec fn component_end(
    source: Seq<char>,
    index: int,
    quote: Option<char>,
    escaped: bool,
) -> (int, bool)
    decreases source.len() - index,
{
    if index < 0 || index >= source.len() {
        (index, quote is Some)
    } else if escaped {
        component_end(source, index + 1, quote, false)
    } else {
        let c = source[index];
        match quote {
            Some(active) => if c == '\\' {
                component_end(source, index + 1, quote, true)
            } else if c == active {
                component_end(source, index + 1, None, false)
            } else {
                component_end(source, index + 1, quote, false)
            },
            None => if is_quote(c) {
                component_end(source, index + 1, Some(c), false)
            } else if c == ',' {
                (index, false)
            } else {
                component_end(source, index + 1, None, false)
            },
        }
    }
}

/// A family name and whether it was quoted.
pub struct Family {
    pub name: Seq<char>,
    pub quoted: bool,
}

/// Whether a text holds a quote.
pub open spec fn holds_quote(text: Seq<char>) -> bool {
    exists|i: int| 0 <= i < text.len() && is_quote(#[trigger] text[i])
}

/// The family that one component of the list names.
pub open spec fn family_of(component: Seq<char>) -> Result<Family, Seq<char>> {
    let text = trimmed(component);
    if text.len() == 0 {
        Err("font family is empty"@)
    } else if is_quote(text[0]) && text[0] == text.last() {
        if text.len() < 2 {
            Err("invalid quoted family boundary"@)
        } else {
            let name = trimmed(text.subrange(1, text.len() - 1));
            if name.len() == 0 {
                Err("font family is empty"@)
            } else {
                Ok(Family { name, quoted: true })
            }
        }
    } else if is_quote(text[0]) || is_quote(text.last()) {
        Err("font family has mismatched quotes"@)
    } else if holds_quote(text) {
        Err("quotes must surround a complete font family"@)
    } else {
        Ok(Family { name: text, quoted: false })
    }
}

/// The families that a list names from `from` on.
pub open spec fn families_from(source: Seq<char>, from: int) -> Result<Seq<Family>, Seq<char>>
    decreases source.len() - from,
{
    let (end, open) = component_end(source, from, None, false);
    if from <= end < source.len() {
        match family_of(source.subrange(from, end)) {
            Err(fault) => Err(fault),
            Ok(family) => match families_from(source, end + 1) {
                Err(fault) => Err(fault),
                Ok(rest) => Ok(seq![family] + rest),
            },
        }
    } else if open {
        Err("font family quote is not closed"@)
    } else {
        match family_of(source.subrange(from, source.len() as int)) {
            Err(fault) => Err(fault),
            Ok(family) => Ok(seq![family]),
        }
    }
}

/// The families of a list that must not be blank.
pub open spec fn families_of(source: Seq<char>) -> Result<Seq<Family>, Seq<char>> {
    let list = trimmed(source);
    if list.len() == 0 {
        Err("font family is missing"@)
    } else {
        families_from(list, 0)
    }
}

/// Whether a name is a CSS generic family.
pub open spec fn generic_name(name: Seq<char>) -> bool {
    let lower = ascii_lowered(name);
    lower == "serif"@ || lower == "sans-serif"@ || lower == "monospace"@ || lower == "cursive"@
        || lower == "fantasy"@ || lower == "system-ui"@ || lower == "ui-serif"@ || lower
        == "ui-sans-serif"@ || lower == "ui-monospace"@ || lower == "ui-rounded"@ || lower
        == "emoji"@ || lower == "math"@ || lower == "fangsong"@
}

/// Whether a list names a generic family, unquoted.
pub open spec fn names_generic(families: Seq<Family>) -> bool {
    exists|i: int|
        0 <= i < families.len() && !(#[trigger] families[i]).quoted && generic_name(
            families[i].name,
        )
}

/// The font that a specification describes, or what is wrong with it.
pub open spec fn parsed_font<W: Scalar>(input: Seq<char>) -> Result<FontView<W>, Seq<char>> {
    let css = trimmed(input);
    if css.len() == 0 {
        Err("font specification is empty"@)
    } else {
        match find_size::<W>(css, 0, SeenPrefixes::none()) {
            Err(fault) => Err(fault),
            Ok(found) => match family_source(css, found) {
                Err(fault) => Err(fault),
                Ok(source) => match families_of(source) {
                    Err(fault) => Err(fault),
                    Ok(families) => Ok(
                        FontView {
                            css,
                            size_px: found.size,
                            family: families[0].name,
                            has_generic_family: names_generic(families),
                        },
                    ),
                },
            },
        }
    }
}

/// Whether an error rejects a specification for a reason. The specification is
/// quoted without whitespace around it, unless there is nothing else.
pub open spec fn rejects_font(error: Error, input: Seq<char>, reason: Seq<char>) -> bool {
    let css = trimmed(input);
    error matches Error::InvalidFontSpec { spec, reason: r } && r@ == reason && spec@ == if css.len()
        == 0 {
        input
    } else {
        css
    }
}

proof fn lemma_found_size_is_positive<W: Scalar>(css: Seq<char>, from: int, seen: SeenPrefixes)
    ensures
        find_size::<W>(css, from, seen) matches Ok(found) ==> positive(found.size),
    decreases seen.unseen(),
{
    let start = skip_white(css, from);
    let end = white_from(css, start);
    let token = css.subrange(start, end);
    if start < css.len() && size_token::<W>(token) is None {
        if let Some(kind) = prefix_kind::<W>(token) {
            if !seen.has(kind) {
                lemma_found_size_is_positive::<W>(css, end, seen.with(kind));
            }
        }
    }
}

/// A specification that is accepted has a positive finite size and a family,
/// and keeps its expression as it was written, up to whitespace around it.
pub proof fn accepted_fonts_are_usable<W: Scalar>(input: Seq<char>)
    ensures
        parsed_font::<W>(input) matches Ok(font) ==> {
            &&& positive(font.size_px)
            &&& font.family.len() > 0
            &&& font.css == trimmed(input)
        },
{
    let css = trimmed(input);
    lemma_found_size_is_positive::<W>(css, 0, SeenPrefixes::none());
    if let Ok(found) = find_size::<W>(css, 0, SeenPrefixes::none()) {
        if let Ok(source) = family_source(css, found) {
            let list = trimmed(source);
            if list.len() > 0 {
                let (end, open) = component_end(list, 0, None, false);
                if let Ok(families) = families_from(list, 0) {
                    let first = if 0 <= end < list.len() {
                        list.subrange(0, end)
                    } else {
                        list.subrange(0, list.len() as int)
                    };
                    assert(family_of(first) is Ok);
                    assert(families[0] == family_of(first)->Ok_0);
                }
            }
        }
    }
}

// ---- The parser ------------------------------------------------------------------

fn is_generic_family(name: &Vec<char>) -> (r: bool)
    ensures
        r == generic_name(name@),
{
    let lower = lower_chars(name);
    spells(&lower, "serif") || spells(&lower, "sans-serif") || spells(&lower, "monospace")
        || spells(&lower, "cursive") || spells(&lower, "fantasy") || spells(&lower, "system-ui")
        || spells(&lower, "ui-serif") || spells(&lower, "ui-sans-serif") || spells(
        &lower,
        "ui-monospace",
    ) || spells(&lower, "ui-rounded") || spells(&lower, "emoji") || spells(&lower, "math")
        || spells(&lower, "fangsong")
}

fn is_stretch_percentage<W: Scalar>(lower: &Vec<char>) -> (r: bool)
    ensures
        r == stretch_percentage::<W>(lower@),
{
    proof {
        reveal_strlit("%");
    }
    match strip_suffix(lower, "%") {
        Some(number) => match W::parse(string_of(&number, 0, number.len()).as_str()) {
            Some(stretch) => {
                proof {
                    assert(number@.subrange(0, number@.len() as int) =~= number@);
                }
                stretch.is_finite() && W::ratio(50, 1).le(stretch) && stretch.le(W::ratio(200, 1))
            },
            None => {
                proof {
                    assert(number@.subrange(0, number@.len() as int) =~= number@);
                }
                false
            },
        },
        None => false,
    }
}

fn classify_font_prefix<W: Scalar>(token: &Vec<char>) -> (r: Option<FontPrefixKind>)
    ensures
        r == prefix_kind::<W>(token@),
{
    let lower = lower_chars(token);
    if spells(&lower, "normal") {
        return Some(FontPrefixKind::Normal);
    }
    if spells(&lower, "italic") || spells(&lower, "oblique") {
        return Some(FontPrefixKind::Style);
    }
    if spells(&lower, "small-caps") {
        return Some(FontPrefixKind::Variant);
    }
    if spells(&lower, "bold") || spells(&lower, "bolder") || spells(&lower, "lighter") {
        return Some(FontPrefixKind::Weight);
    }
    if spells(&lower, "ultra-condensed") || spells(&lower, "extra-condensed") || spells(
        &lower,
        "condensed",
    ) || spells(&lower, "semi-condensed") || spells(&lower, "semi-expanded") || spells(
        &lower,
        "expanded",
    ) || spells(&lower, "extra-expanded") || spells(&lower, "ultra-expanded") {
        return Some(FontPrefixKind::Stretch);
    }
    let weight = read_unsigned(&lower, 0, lower.len(), 1000);
    proof {
        assert(lower@.subrange(0, lower@.len() as int) =~= lower@);
    }
    if let Some(weight) = weight {
        if weight >= 1 {
            return Some(FontPrefixKind::Weight);
        }
    }
    if is_stretch_percentage::<W>(&lower) {
        Some(FontPrefixKind::Stretch)
    } else {
        None
    }
}

fn line_height_digits(lower: &Vec<char>) -> (r: Vec<char>)
    ensures
        r@ == line_height_number(lower@),
{
    proof {
        reveal_strlit("rem");
        reveal_strlit("px");
        reveal_strlit("pt");
        reveal_strlit("em");
        reveal_strlit("%");
    }
    if let Some(number) = strip_suffix(lower, "rem") {
        return number;
    }
    if let Some(number) = strip_suffix(lower, "px") {
        return number;
    }
    if let Some(number) = strip_suffix(lower, "pt") {
        return number;
    }
    if let Some(number) = strip_suffix(lower, "em") {
        return number;
    }
    if let Some(number) = strip_suffix(lower, "%") {
        return number;
    }
    let number = slice_of(lower, 0, lower.len());
    proof {
        assert(number@ =~= lower@);
    }
    number
}

/// Read a number from characters.
fn parse_chars<W: Scalar>(chars: &Vec<char>) -> (r: Option<W>)
    ensures
        r == W::parsed(chars@),
{
    let text = string_of(chars, 0, chars.len());
    proof {
        assert(text@ =~= chars@);
    }
    W::parse(text.as_str())
}

fn validate_line_height<W: Scalar>(line_height: &Vec<char>) -> (r: Result<(), String>)
    ensures
        match line_height_fault::<W>(line_height@) {
            Some(fault) => r matches Err(e) && e@ == fault,
            None => r is Ok,
        },
{
    let lower = lower_chars(&trim_chars(line_height));
    if lower.len() == 0 {
        return Err("line height is missing after '/'".to_string());
    }
    if spells(&lower, "normal") {
        return Ok(());
    }
    let number = line_height_digits(&lower);
    match parse_chars::<W>(&number) {
        None => Err("line height is not a supported number".to_string()),
        Some(value) => if value.is_finite() && W::zero().lt(value) {
            Ok(())
        } else {
            Err("line height must be finite and positive".to_string())
        },
    }
}

fn find_character(chars: &Vec<char>, c: char) -> (r: usize)
    ensures
        r == find_char(chars@, c, 0),
        r <= chars@.len(),
{
    let mut index: usize = 0;
    while index < chars.len() && chars[index] != c
        invariant
            index <= chars@.len(),
            find_char(chars@, c, 0) == find_char(chars@, c, index as int),
        decreases chars@.len() - index,
    {
        index += 1;
    }
    index
}

fn parse_size_component<W: Scalar>(component: &Vec<char>) -> (r: Option<Result<W, String>>)
    ensures
        match size_in_pixels::<W>(component@) {
            None => r is None,
            Some(Ok(size)) => r == Some(Ok::<W, String>(size)),
            Some(Err(fault)) => r matches Some(Err(e)) && e@ == fault,
        },
{
    proof {
        reveal_strlit("px");
        reveal_strlit("pt");
    }
    let lower = lower_chars(component);
    let (number, scale) = if let Some(number) = strip_suffix(&lower, "px") {
        (number, W::ratio(1, 1))
    } else if let Some(number) = strip_suffix(&lower, "pt") {
        (number, W::ratio(4, 3))
    } else {
        return None;
    };
    match parse_chars::<W>(&number) {
        None => Some(Err("font size is not a number".to_string())),
        Some(value) => {
            let size = value.mul(scale);
            if size.is_finite() && W::zero().lt(size) {
                Some(Ok(size))
            } else {
                Some(Err("font size must be finite and positive".to_string()))
            }
        },
    }
}

fn parse_size_token<W: Scalar>(token: &Vec<char>) -> (r: Option<Result<(W, bool), String>>)
    ensures
        match size_token::<W>(token@) {
            None => r is None,
            Some(Ok(size)) => r == Some(Ok::<(W, bool), String>(size)),
            Some(Err(fault)) => r matches Some(Err(e)) && e@ == fault,
        },
{
    let slash = find_character(token, '/');
    let with_line_height = slash < token.len();
    if with_line_height {
        let line_height = slice_of(token, slash + 1, token.len());
        proof {
            assert(line_height@ =~= token@.skip(slash + 1));
        }
        if let Err(fault) = validate_line_height::<W>(&line_height) {
            return Some(Err(fault));
        }
    }
    let component = slice_of(token, 0, slash);
    proof {
        assert(component@ =~= token@.take(slash as int));
        assert(slash == token@.len() ==> component@ =~= token@);
    }
    match parse_size_component::<W>(&component) {
        None => None,
        Some(Ok(size)) => Some(Ok((size, with_line_height))),
        Some(Err(fault)) => Some(Err(fault)),
    }
}

/// A message with a quoted token at its end.
fn quote_onto(message: &str, token: &Vec<char>) -> (r: String)
    ensures
        r@ == message@ + quoted(token@),
{
    let mut text = message.to_string();
    let word = string_of(token, 0, token.len());
    proof {
        assert(word@ =~= token@);
    }
    text.append(quote(word.as_str()).as_str());
    text
}

/// Find the size behind the prefixes.
fn find_font_size<W: Scalar>(css: &Vec<char>) -> (r: Result<(W, usize, bool), String>)
    ensures
        match find_size::<W>(css@, 0, SeenPrefixes::none()) {
            Ok(found) => r == Ok::<(W, usize, bool), String>(
                (found.size, found.end as usize, found.with_line_height),
            ) && 0 <= found.end <= css@.len(),
            Err(fault) => r matches Err(e) && e@ == fault,
        },
{
    let mut from: usize = 0;
    let mut seen = SeenPrefixes {
        normal: false,
        style: false,
        variant: false,
        weight: false,
        stretch: false,
    };
    loop
        invariant
            from <= css@.len(),
            find_size::<W>(css@, 0, SeenPrefixes::none()) == find_size::<W>(
                css@,
                from as int,
                seen,
            ),
        decreases seen.unseen(),
    {
        let start = skip_whitespace(css, from);
        if start >= css.len() {
            return Err("expected a size using px or pt units".to_string());
        }
        let end = find_whitespace(css, start);
        let token = slice_of(css, start, end);
        match parse_size_token::<W>(&token) {
            Some(Ok((size, with_line_height))) => {
                return Ok((size, end, with_line_height));
            },
            Some(Err(fault)) => {
                return Err(fault);
            },
            None => {},
        }
        let kind = match classify_font_prefix::<W>(&token) {
            Some(kind) => kind,
            None => {
                return Err(quote_onto("unsupported token before font size: ", &token));
            },
        };
        let duplicate = match kind {
            FontPrefixKind::Normal => seen.normal,
            FontPrefixKind::Style => seen.style,
            FontPrefixKind::Variant => seen.variant,
            FontPrefixKind::Weight => seen.weight,
            FontPrefixKind::Stretch => seen.stretch,
        };
        if duplicate {
            return Err(quote_onto("duplicate font prefix category at ", &token));
        }
        match kind {
            FontPrefixKind::Normal => {
                seen.normal = true;
            },
            FontPrefixKind::Style => {
                seen.style = true;
            },
            FontPrefixKind::Variant => {
                seen.variant = true;
            },
            FontPrefixKind::Weight => {
                seen.weight = true;
            },
            FontPrefixKind::Stretch => {
                seen.stretch = true;
            },
        }
        from = end;
    }
}

/// The characters after leading whitespace.
fn trim_start_from(chars: &Vec<char>, from: usize) -> (r: Vec<char>)
    requires
        from <= chars@.len(),
    ensures
        r@ == trimmed_start(chars@.skip(from as int)),
{
    let rest = slice_of(chars, from, chars.len());
    proof {
        assert(rest@ =~= chars@.skip(from as int));
    }
    let start = skip_whitespace(&rest, 0);
    let result = slice_of(&rest, start, rest.len());
    proof {
        assert(result@ =~= rest@.skip(start as int));
    }
    result
}

/// Skip a line height that stands between size and family.
fn find_family_source<W: Scalar>(css: &Vec<char>, size: W, end: usize, with_line_height: bool) -> (r:
    Result<Vec<char>, String>)
    requires
        end <= css@.len(),
    ensures
        match family_source::<W>(
            css@,
            (FoundSize { size, end: end as int, with_line_height }),
        ) {
            Ok(source) => r matches Ok(chars) && chars@ == source,
            Err(fault) => r matches Err(e) && e@ == fault,
        },
{
    let source = trim_start_from(css, end);
    if !with_line_height && source.len() > 0 && source[0] == '/' {
        let after = trim_start_from(&source, 1);
        let height_end = find_whitespace(&after, 0);
        if height_end >= after.len() {
            return Err("font family is missing".to_string());
        }
        let line_height = slice_of(&after, 0, height_end);
        proof {
            assert(line_height@ =~= after@.take(height_end as int));
        }
        if let Err(fault) = validate_line_height::<W>(&line_height) {
            return Err(fault);
        }
        Ok(trim_start_from(&after, height_end))
    } else {
        Ok(source)
    }
}

/// Find the end of a component, and whether a quote is open there.
fn find_component_end(source: &Vec<char>, from: usize) -> (r: (usize, bool))
    requires
        from <= source@.len(),
    ensures
        (r.0 as int, r.1) == component_end(source@, from as int, None, false),
        from <= r.0 <= source@.len(),
{
    let mut active: Option<char> = None;
    let mut escaped = false;
    let mut index: usize = from;
    while index < source.len()
        invariant
            from <= index <= source@.len(),
            component_end(source@, from as int, None, false) == component_end(
                source@,
                index as int,
                active,
                escaped,
            ),
        decreases source@.len() - index,
    {
        let c = source[index];
        if escaped {
            escaped = false;
        } else {
            match active {
                Some(open) => {
                    if c == '\\' {
                        escaped = true;
                    } else if c == open {
                        active = None;
                    }
                },
                None => {
                    if c == '\'' || c == '"' {
                        active = Some(c);
                    } else if c == ',' {
                        return (index, false);
                    }
                },
            }
        }
        index += 1;
    }
    (index, active.is_some())
}

fn contains_quote(chars: &Vec<char>) -> (r: bool)
    ensures
        r == holds_quote(chars@),
{
    let mut index: usize = 0;
    while index < chars.len()
        invariant
            index <= chars@.len(),
            forall|k: int| 0 <= k < index ==> !is_quote(#[trigger] chars@[k]),
        decreases chars@.len() - index,
    {
        if chars[index] == '\'' || chars[index] == '"' {
            proof {
                assert(is_quote(chars@[index as int]));
            }
            return true;
        }
        index += 1;
    }
    false
}

fn parse_family_component(component: &Vec<char>) -> (r: Result<(Vec<char>, bool), String>)
    ensures
        match family_of(component@) {
            Ok(family) => r matches Ok(parsed) && parsed.0@ == family.name && parsed.1
                == family.quoted,
            Err(fault) => r matches Err(e) && e@ == fault,
        },
{
    let text = trim_chars(component);
    if text.len() == 0 {
        return Err("font family is empty".to_string());
    }
    let first = text[0];
    let last = text[text.len() - 1];
    let opens = first == '\'' || first == '"';
    let closes = last == '\'' || last == '"';
    if opens && first == last {
        if text.len() < 2 {
            return Err("invalid quoted family boundary".to_string());
        }
        let inner = slice_of(&text, 1, text.len() - 1);
        let name = trim_chars(&inner);
        if name.len() == 0 {
            return Err("font family is empty".to_string());
        }
        return Ok((name, true));
    }
    if opens || closes {
        return Err("font family has mismatched quotes".to_string());
    }
    if contains_quote(&text) {
        return Err("quotes must surround a complete font family".to_string());
    }
    Ok((text, false))
}

/// Parse a family list: the primary family, and whether a generic one is
/// named.
fn parse_font_families(family_source: &Vec<char>) -> (r: Result<(Vec<char>, bool), String>)
    ensures
        match families_of(family_source@) {
            Ok(families) => r matches Ok(parsed) && parsed.0@ == families[0].name && parsed.1
                == names_generic(families),
            Err(fault) => r matches Err(e) && e@ == fault,
        },
{
    let source = trim_chars(family_source);
    if source.len() == 0 {
        return Err("font family is missing".to_string());
    }
    let mut primary: Option<Vec<char>> = None;
    let mut has_generic_family = false;
    let mut from: usize = 0;
    let mut known: Ghost<Seq<Family>> = Ghost(Seq::empty());
    loop
        invariant
            from <= source@.len(),
            source@ == trimmed(family_source@),
            source@.len() > 0,
            families_of(family_source@) == match families_from(source@, from as int) {
                Ok(rest) => Ok::<Seq<Family>, Seq<char>>(known@ + rest),
                Err(fault) => Err(fault),
            },
            has_generic_family == names_generic(known@),
            match primary {
                Some(name) => known@.len() > 0 && name@ == known@[0].name,
                None => known@.len() == 0,
            },
        decreases source@.len() - from,
    {
        let (end, open) = find_component_end(&source, from);
        if end == source.len() && open {
            return Err("font family quote is not closed".to_string());
        }
        let component = slice_of(&source, from, end);
        let (name, quoted) = match parse_family_component(&component) {
            Ok(parsed) => parsed,
            Err(fault) => {
                return Err(fault);
            },
        };
        let ghost family = Family { name: name@, quoted };
        let ghost before = known@;
        has_generic_family = has_generic_family || (!quoted && is_generic_family(&name));
        if primary.is_none() {
            primary = Some(name);
        }
        proof {
            known@ = known@.push(family);
            lemma_names_generic_push(before, family);
        }
        if end == source.len() {
            let primary = match primary {
                Some(name) => name,
                None => component,
            };
            proof {
                assert(before + seq![family] =~= known@);
            }
            return Ok((primary, has_generic_family));
        }
        proof {
            if let Ok(rest) = families_from(source@, end + 1) {
                assert(before + (seq![family] + rest) =~= known@ + rest);
            }
        }
        from = end + 1;
    }
}

proof fn lemma_names_generic_push(families: Seq<Family>, family: Family)
    ensures
        names_generic(families.push(family)) == (names_generic(families) || (!family.quoted
            && generic_name(family.name))),
{
    let longer = families.push(family);
    if names_generic(families) {
        let i = choose|i: int|
            0 <= i < families.len() && !(#[trigger] families[i]).quoted && generic_name(
                families[i].name,
            );
        assert(longer[i] == families[i]);
    }
    if !family.quoted && generic_name(family.name) {
        assert(longer[families.len() as int] == family);
    }
    if names_generic(longer) {
        let i = choose|i: int|
            0 <= i < longer.len() && !(#[trigger] longer[i]).quoted && generic_name(longer[i].name);
        if i < families.len() {
            assert(families[i] == longer[i]);
        }
    }
}

/// The error for a specification.
fn invalid_font_spec(spec: &Vec<char>, reason: String) -> (r: Error)
    ensures
        r matches Error::InvalidFontSpec { spec: s, reason: why } && s@ == spec@ && why@ == reason@,
{
    let spec_text = string_of(spec, 0, spec.len());
    proof {
        assert(spec_text@ =~= spec@);
    }
    Error::InvalidFontSpec { spec: spec_text, reason }
}

impl<W: Scalar> FontSpec<W> {
    /// Parse and validate a CSS-style font specification.
    ///
    /// Examples are `"16px Inter"`, `"14px/1.5 monospace"`, and
    /// `"italic 12pt 'Noto Sans'"`.
    ///
    /// # Errors
    ///
    /// Returns [`Error::InvalidFontSpec`] when the specification has no
    /// supported size or family, contains malformed quoting, or resolves to a
    /// non-finite or non-positive pixel size.
    pub fn new(font: &str) -> (r: Result<Self, Error>)
        ensures
            match parsed_font::<W>(font@) {
                Ok(parsed) => r matches Ok(spec) && spec@ == parsed,
                Err(reason) => r matches Err(e) && rejects_font(e, font@, reason),
            },
    {
        let input = chars_of(font);
        let css = trim_chars(&input);
        if css.len() == 0 {
            return Err(invalid_font_spec(&input, "font specification is empty".to_string()));
        }
        let (size_px, size_end, with_line_height) = match find_font_size::<W>(&css) {
            Ok(found) => found,
            Err(fault) => {
                return Err(invalid_font_spec(&css, fault));
            },
        };
        let family_source = match find_family_source(&css, size_px, size_end, with_line_height) {
            Ok(source) => source,
            Err(fault) => {
                return Err(invalid_font_spec(&css, fault));
            },
        };
        let (family, has_generic_family) = match parse_font_families(&family_source) {
            Ok(parsed) => parsed,
            Err(fault) => {
                return Err(invalid_font_spec(&css, fault));
            },
        };
        let spec = FontSpec {
            css: string_of(&css, 0, css.len()),
            size_px,
            family: string_of(&family, 0, family.len()),
            has_generic_family,
        };
        proof {
            assert(spec.css@ =~= css@);
            assert(spec.family@ =~= family@);
        }
        Ok(spec)
    }

    /// Complete validated CSS expression used by browser canvas backends.
    #[must_use]
    pub fn as_css_str(&self) -> (r: &str)
        ensures
            r@ == self@.css,
    {
        self.css.as_str()
    }

    /// Validated font size in CSS pixels.
    #[must_use]
    pub fn size_px(&self) -> (r: W)
        ensures
            r == self@.size_px,
    {
        self.size_px
    }

    /// Primary font family, with matching surrounding quotes removed.
    #[must_use]
    pub fn family(&self) -> (r: &str)
        ensures
            r@ == self@.family,
    {
        self.family.as_str()
    }

    /// Whether the family list explicitly contains a CSS generic family.
    ///
    /// Browser canvas measurement requires this acknowledgement because CSS
    /// falls back when a named face is unavailable. Native backends may use a
    /// concrete family without a generic fallback.
    #[must_use]
    pub fn has_generic_family(&self) -> (r: bool)
        ensures
            r == self@.has_generic_family,
    {
        self.has_generic_family
    }
}

} // verus!
