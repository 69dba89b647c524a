//! The command line: colours, positive numbers, and the options that make
//! up a `Config`.

use vstd::prelude::*;
use vstd::slice::slice_subrange;
use vstd::string::StringExecFns;
use crate::color::{lemma_opaque_is_identity, pack_argb, Rgba};
use crate::config::{texts, Config, ConfigView};
use crate::text::{
    all_hex_digits, chars_of, decimal_digits, hex_digit, hex_pair, hex_value, is_digit,
    is_hex_digit, is_space, lemma_decimal_digits, lemma_digits_are_a_number, lemma_first_piece,
    lemma_foreign_character, lemma_hex_pair, lemma_number_characters, lemma_number_fits,
    lemma_one_piece, lemma_trimmed_characters, parse_unsigned, pieces, spells, split, trim,
    trim_end, trim_start, trimmed, unsigned_number, NumberError,
};

verus! {

/// Why a command line was refused.
#[derive(Debug, Clone, PartialEq, Eq)]
pub enum CliError {
    /// The named option stands last, without the value it needs.
    MissingValue(String),
    /// The argument is no option of this program.
    UnknownArgument(String),
    /// The named option was given zero.
    NotPositive(String),
    /// The named option was given an empty value.
    EmptyValue(String),
    /// A number, or a colour channel, is no number of its range.
    InvalidNumber(NumberError),
    /// A `#` colour with neither six nor eight characters after the `#`.
    HexLength,
    /// A colour that is neither `#` hex nor four parts between commas.
    ColorFormat,
}

/// A `CliError` with its strings as character sequences.
pub enum CliErrorView {
    MissingValue(Seq<char>),
    UnknownArgument(Seq<char>),
    NotPositive(Seq<char>),
    EmptyValue(Seq<char>),
    InvalidNumber(NumberError),
    HexLength,
    ColorFormat,
}

impl View for CliError {
    type V = CliErrorView;

    open spec fn view(&self) -> CliErrorView {
        match self {
            CliError::MissingValue(name) => CliErrorView::MissingValue(name@),
            CliError::UnknownArgument(arg) => CliErrorView::UnknownArgument(arg@),
            CliError::NotPositive(name) => CliErrorView::NotPositive(name@),
            CliError::EmptyValue(name) => CliErrorView::EmptyValue(name@),
            CliError::InvalidNumber(e) => CliErrorView::InvalidNumber(*e),
            CliError::HexLength => CliErrorView::HexLength,
            CliError::ColorFormat => CliErrorView::ColorFormat,
        }
    }
}

impl NumberError {
    /// The sentence that tells a user of this fault.
    pub open spec fn sentence(self) -> Seq<char> {
        match self {
            NumberError::Empty => "cannot parse integer from empty string"@,
            NumberError::InvalidDigit => "invalid digit found in string"@,
            NumberError::TooLarge => "number too large to fit in target type"@,
        }
    }

    /// The sentence that tells a user of this fault.
    pub fn message(&self) -> (text: String)
        ensures
            text@ == self.sentence(),
    {
        match self {
            NumberError::Empty => String::from_str("cannot parse integer from empty string"),
            NumberError::InvalidDigit => String::from_str("invalid digit found in string"),
            NumberError::TooLarge => String::from_str("number too large to fit in target type"),
        }
    }
}

impl CliErrorView {
    /// The sentence that tells a user of this fault.
    pub open spec fn sentence(self) -> Seq<char> {
        match self {
            CliErrorView::MissingValue(name) => "missing value for "@ + name,
            CliErrorView::UnknownArgument(arg) => "unknown argument: "@ + arg,
            CliErrorView::NotPositive(name) => name + " must be > 0"@,
            CliErrorView::EmptyValue(name) => name + " must not be empty"@,
            CliErrorView::InvalidNumber(e) => e.sentence(),
            CliErrorView::HexLength => "hex color must be #RRGGBB or #RRGGBBAA"@,
            CliErrorView::ColorFormat => "color must be #RRGGBB[#AA] or r,g,b,a (0-255)"@,
        }
    }
}

impl CliError {
    /// The sentence that tells a user of this fault.
    pub fn message(&self) -> (text: String)
        ensures
            text@ == self@.sentence(),
    {
        match self {
            CliError::MissingValue(name) => String::from_str("missing value for ").concat(
                name.as_str(),
            ),
            CliError::UnknownArgument(arg) => String::from_str("unknown argument: ").concat(
                arg.as_str(),
            ),
            CliError::NotPositive(name) => name.clone().concat(" must be > 0"),
            CliError::EmptyValue(name) => name.clone().concat(" must not be empty"),
            CliError::InvalidNumber(e) => e.message(),
            CliError::HexLength => String::from_str("hex color must be #RRGGBB or #RRGGBBAA"),
            CliError::ColorFormat => String::from_str(
                "color must be #RRGGBB[#AA] or r,g,b,a (0-255)",
            ),
        }
    }
}

/// The colour channel that `text` spells: a number from 0 to 255, with
/// white space allowed around it.
pub open spec fn component(text: Seq<char>) -> Result<u8, NumberError> {
    match unsigned_number(trimmed(text), 255) {
        Ok(n) => Ok(n as u8),
        Err(e) => Err(e),
    }
}

/// The value of an option that must be a positive number: the number that
/// `raw` spells, refused where it is missing, no number of 32 bits, or zero.
pub open spec fn positive_number(raw: Option<Seq<char>>, name: Seq<char>) -> Result<
    u32,
    CliErrorView,
> {
    match raw {
        None => Err(CliErrorView::MissingValue(name)),
        Some(text) => match unsigned_number(text, u32::MAX as nat) {
            Err(e) => Err(CliErrorView::InvalidNumber(e)),
            Ok(n) => if n == 0 {
                Err(CliErrorView::NotPositive(name))
            } else {
                Ok(n as u32)
            },
        },
    }
}

/// Channel `k` of a colour written as hexadecimal digits, two for each
/// channel: the value of its digits, or 255 where the text does not reach
/// that far, and always 255 for the fourth channel of three.
pub open spec fn hex_channel(input: Seq<char>, components: int, k: int) -> u8 {
    if (k == 3 && components == 3) || 2 * k >= input.len() {
        255
    } else if 2 * k + 2 <= input.len() {
        hex_value(input.subrange(2 * k, 2 * k + 2)) as u8
    } else {
        hex_value(input.subrange(2 * k, 2 * k + 1)) as u8
    }
}

/// The four channels of a colour written as hexadecimal digits: refused
/// where there are more digits than four channels take, and where a
/// character is no hexadecimal digit.
pub open spec fn hex_channels(input: Seq<char>, components: int) -> Result<Seq<u8>, CliErrorView> {
    if input.len() > 8 {
        Err(CliErrorView::HexLength)
    } else if all_hex_digits(input) {
        Ok(Seq::new(4, |k: int| hex_channel(input, components, k)))
    } else {
        Err(CliErrorView::InvalidNumber(NumberError::InvalidDigit))
    }
}

/// The colour of four channels in the order red, green, blue, alpha.
pub open spec fn rgba_of(channels: Seq<u8>) -> Rgba {
    Rgba { r: channels[0], g: channels[1], b: channels[2], a: channels[3] }
}

/// The colour that four decimal parts spell, or the fault of the first part
/// that spells none.
pub open spec fn decimal_color(parts: Seq<Seq<char>>) -> Result<Rgba, CliErrorView> {
    match component(parts[0]) {
        Err(e) => Err(CliErrorView::InvalidNumber(e)),
        Ok(r) => match component(parts[1]) {
            Err(e) => Err(CliErrorView::InvalidNumber(e)),
            Ok(g) => match component(parts[2]) {
                Err(e) => Err(CliErrorView::InvalidNumber(e)),
                Ok(b) => match component(parts[3]) {
                    Err(e) => Err(CliErrorView::InvalidNumber(e)),
                    Ok(a) => Ok(Rgba { r, g, b, a }),
                },
            },
        },
    }
}

/// The colour that `text` spells.
///
/// After a `#` come six hexadecimal digits (red, green, blue; alpha is 255)
/// or eight (with alpha). Any other text is four decimal channels between
/// commas: red, green, blue, alpha.
pub open spec fn color_of(text: Seq<char>) -> Result<Rgba, CliErrorView> {
    if text.len() > 0 && text[0] == '#' {
        let hex = text.skip(1);
        if hex.len() != 6 && hex.len() != 8 {
            Err(CliErrorView::HexLength)
        } else {
            match hex_channels(hex, hex.len() as int / 2) {
                Ok(channels) => Ok(rgba_of(channels)),
                Err(e) => Err(e),
            }
        }
    } else {
        let parts = pieces(text, ',');
        if parts.len() != 4 {
            Err(CliErrorView::ColorFormat)
        } else {
            decimal_color(parts)
        }
    }
}

/// A colour written as `#` and six digits is opaque, and so its pixel word
/// carries its three channels as they were written.
pub proof fn lemma_six_digits_are_opaque(text: Seq<char>)
    requires
        text.len() == 7,
        text[0] == '#',
    ensures
        color_of(text) matches Ok(c) ==> c.a == 255 && c.premultiplied() == pack_argb(
            255,
            c.r as int,
            c.g as int,
            c.b as int,
        ),
{
    if let Ok(c) = color_of(text) {
        lemma_opaque_is_identity(c);
    }
}

/// What is no colour is refused: after a `#`, a text of the wrong length or
/// with a character that is no hexadecimal digit; without a `#`, a text
/// that does not fall into exactly four parts at its commas, or with a part
/// that is no number from 0 to 255.
pub proof fn lemma_malformed_colors_are_refused(text: Seq<char>)
    ensures
        text.len() > 0 && text[0] == '#' && text.len() != 7 && text.len() != 9 ==> color_of(text)
            == Err::<Rgba, CliErrorView>(CliErrorView::HexLength),
        text.len() > 0 && text[0] == '#' && !all_hex_digits(text.skip(1)) ==> color_of(text) is Err,
        (text.len() == 0 || text[0] != '#') && pieces(text, ',').len() != 4 ==> color_of(text)
            == Err::<Rgba, CliErrorView>(CliErrorView::ColorFormat),
        (text.len() == 0 || text[0] != '#') && (exists|k: int|
            0 <= k < 4 && component(#[trigger] pieces(text, ',')[k]) is Err) ==> color_of(
            text,
        ) is Err,
{
}

/// A positive number of 32 bits, written the usual way, is accepted as
/// itself.
pub proof fn lemma_positive_numbers_are_kept(n: u32, name: Seq<char>)
    requires
        n > 0,
    ensures
        positive_number(Some(decimal_digits(n as nat)), name) == Ok::<u32, CliErrorView>(n),
{
    lemma_decimal_digits(n as nat);
    lemma_digits_are_a_number(decimal_digits(n as nat), u32::MAX as nat);
}

/// Zero is refused, however it is written.
pub proof fn lemma_zero_is_refused(text: Seq<char>, name: Seq<char>)
    requires
        unsigned_number(text, u32::MAX as nat) == Ok::<nat, NumberError>(0),
    ensures
        positive_number(Some(text), name) == Err::<u32, CliErrorView>(
            CliErrorView::NotPositive(name),
        ),
        positive_number(Some(decimal_digits(0)), name) == Err::<u32, CliErrorView>(
            CliErrorView::NotPositive(name),
        ),
{
    lemma_decimal_digits(0);
    lemma_digits_are_a_number(decimal_digits(0), u32::MAX as nat);
}

/// A text with a character that is neither a digit nor a `+` in front is
/// refused as no number, and so is the empty text.
pub proof fn lemma_non_numbers_are_refused(text: Seq<char>, name: Seq<char>, at: int)
    requires
        0 <= at < text.len(),
        !is_digit(text[at]),
        at > 0 || text[at] != '+',
    ensures
        positive_number(Some(text), name) matches Err(CliErrorView::InvalidNumber(_)),
        positive_number(Some(Seq::<char>::empty()), name) == Err::<u32, CliErrorView>(
            CliErrorView::InvalidNumber(NumberError::Empty),
        ),
{
    lemma_foreign_character(text, u32::MAX as nat, at);
}

/// No character of a colour channel is a comma or a `#`.
proof fn lemma_component_characters(part: Seq<char>)
    requires
        component(part) is Ok,
    ensures
        part.len() > 0,
        !part.contains(','),
        !part.contains('#'),
{
    let inner = trimmed(part);
    lemma_number_characters(inner, 255);
    assert forall|i: int| 0 <= i < part.len() implies part[i] != ',' && part[i] != '#' by {
        lemma_trimmed_characters(part, i);
        if !is_space(part[i]) {
            let k = choose|k: int| 0 <= k < inner.len() && inner[k] == part[i];
            assert(is_digit(inner[k]) || inner[k] == '+');
        }
    }
    if part.len() == 0 {
        assert(inner =~= part);
    }
}

/// The text of four channels with commas between them.
pub open spec fn joined(r: Seq<char>, g: Seq<char>, b: Seq<char>, a: Seq<char>) -> Seq<char> {
    r + seq![','] + (g + seq![','] + (b + seq![','] + a))
}

/// Four decimal channels between commas are read as the colour of those
/// channels.
pub proof fn lemma_decimal_form(r: Seq<char>, g: Seq<char>, b: Seq<char>, a: Seq<char>)
    requires
        component(r) is Ok,
        component(g) is Ok,
        component(b) is Ok,
        component(a) is Ok,
    ensures
        color_of(joined(r, g, b, a)) == Ok::<Rgba, CliErrorView>(
            Rgba {
                r: component(r)->Ok_0,
                g: component(g)->Ok_0,
                b: component(b)->Ok_0,
                a: component(a)->Ok_0,
            },
        ),
{
    lemma_component_characters(r);
    lemma_component_characters(g);
    lemma_component_characters(b);
    lemma_component_characters(a);
    let text = joined(r, g, b, a);
    assert(text[0] == r[0]);
    assert(r.contains(r[0]));
    lemma_one_piece(a, ',');
    lemma_first_piece(b, a, ',');
    lemma_first_piece(g, b + seq![','] + a, ',');
    lemma_first_piece(r, g + seq![','] + (b + seq![','] + a), ',');
    assert(pieces(text, ',') =~= seq![r, g, b, a]);
}

/// A `#` and eight hexadecimal digits are read as the colour whose
/// channels are the values of the four pairs of digits.
pub proof fn lemma_hex_form(hex: Seq<char>)
    requires
        hex.len() == 8,
        all_hex_digits(hex),
    ensures
        color_of(seq!['#'] + hex) == Ok::<Rgba, CliErrorView>(
            Rgba {
                r: hex_value(hex.subrange(0, 2)) as u8,
                g: hex_value(hex.subrange(2, 4)) as u8,
                b: hex_value(hex.subrange(4, 6)) as u8,
                a: hex_value(hex.subrange(6, 8)) as u8,
            },
        ),
{
    let text = seq!['#'] + hex;
    assert(text.skip(1) =~= hex);
}

/// The same colour written as `#RRGGBBAA` and as `r,g,b,a` is read as the
/// same colour: where each decimal channel is the number that the matching
/// pair of hexadecimal digits denotes, both texts give one result.
pub proof fn lemma_hex_and_decimal_agree(
    hex: Seq<char>,
    r: Seq<char>,
    g: Seq<char>,
    b: Seq<char>,
    a: Seq<char>,
)
    requires
        hex.len() == 8,
        all_hex_digits(hex),
        component(r) == Ok::<u8, NumberError>(hex_value(hex.subrange(0, 2)) as u8),
        component(g) == Ok::<u8, NumberError>(hex_value(hex.subrange(2, 4)) as u8),
        component(b) == Ok::<u8, NumberError>(hex_value(hex.subrange(4, 6)) as u8),
        component(a) == Ok::<u8, NumberError>(hex_value(hex.subrange(6, 8)) as u8),
    ensures
        color_of(seq!['#'] + hex) is Ok,
        color_of(seq!['#'] + hex) == color_of(joined(r, g, b, a)),
{
    lemma_hex_form(hex);
    lemma_decimal_form(r, g, b, a);
}

/// Every colour can be written in both forms, and both are read back as
/// that colour: `#` with two hexadecimal digits for each channel, and the
/// four channels in decimal with commas between them.
pub proof fn lemma_both_forms_read_back(color: Rgba)
    ensures
        color_of(
            seq!['#'] + (hex_pair(color.r) + hex_pair(color.g) + hex_pair(color.b) + hex_pair(
                color.a,
            )),
        ) == Ok::<Rgba, CliErrorView>(color),
        color_of(
            joined(
                decimal_digits(color.r as nat),
                decimal_digits(color.g as nat),
                decimal_digits(color.b as nat),
                decimal_digits(color.a as nat),
            ),
        ) == Ok::<Rgba, CliErrorView>(color),
{
    let hex = hex_pair(color.r) + hex_pair(color.g) + hex_pair(color.b) + hex_pair(color.a);
    lemma_hex_pair(color.r);
    lemma_hex_pair(color.g);
    lemma_hex_pair(color.b);
    lemma_hex_pair(color.a);
    assert(hex.subrange(0, 2) =~= hex_pair(color.r));
    assert(hex.subrange(2, 4) =~= hex_pair(color.g));
    assert(hex.subrange(4, 6) =~= hex_pair(color.b));
    assert(hex.subrange(6, 8) =~= hex_pair(color.a));
    assert forall|i: int| 0 <= i < hex.len() implies is_hex_digit(#[trigger] hex[i]) by {
        if i < 2 {
            assert(hex[i] == hex_pair(color.r)[i]);
        } else if i < 4 {
            assert(hex[i] == hex_pair(color.g)[i - 2]);
        } else if i < 6 {
            assert(hex[i] == hex_pair(color.b)[i - 4]);
        } else {
            assert(hex[i] == hex_pair(color.a)[i - 6]);
        }
    }
    lemma_hex_form(hex);
    lemma_channel_reads_back(color.r);
    lemma_channel_reads_back(color.g);
    lemma_channel_reads_back(color.b);
    lemma_channel_reads_back(color.a);
    lemma_decimal_form(
        decimal_digits(color.r as nat),
        decimal_digits(color.g as nat),
        decimal_digits(color.b as nat),
        decimal_digits(color.a as nat),
    );
}

/// A channel written the usual way in decimal reads back as itself.
pub proof fn lemma_channel_reads_back(value: u8)
    ensures
        component(decimal_digits(value as nat)) == Ok::<u8, NumberError>(value),
{
    let digits = decimal_digits(value as nat);
    lemma_decimal_digits(value as nat);
    assert(is_digit(digits[0]) && is_digit(digits.last()));
    assert(trim_start(digits) == digits);
    assert(trim_end(digits) == digits);
    lemma_digits_are_a_number(digits, 255);
}

fn component_of(text: &[char]) -> (channel: Result<u8, NumberError>)
    ensures
        channel == component(text@),
{
    let (from, to) = trim(text);
    match parse_unsigned(slice_subrange(text, from, to), 255) {
        Ok(n) => Ok(n as u8),
        Err(e) => Err(e),
    }
}

/// Reads one colour channel: a number from 0 to 255, with white space
/// allowed around it.
pub fn parse_component(raw: &str) -> (channel: Result<u8, NumberError>)
    ensures
        channel == component(raw@),
{
    let chars = chars_of(raw);
    component_of(chars.as_slice())
}

/// Reads the value of an option that must be a positive number. `raw` is
/// the argument that follows the option, if there is one; `name` is how the
/// option is called in a fault.
pub fn parse_u32(raw: Option<&str>, name: &str) -> (number: Result<u32, CliError>)
    ensures
        match number {
            Ok(n) => positive_number(spelled(raw), name@) == Ok::<u32, CliErrorView>(n),
            Err(e) => positive_number(spelled(raw), name@) == Err::<u32, CliErrorView>(e@),
        },
        number matches Ok(n) ==> n > 0,
{
    let text = match raw {
        None => {
            return Err(CliError::MissingValue(name.to_owned()));
        },
        Some(text) => text,
    };
    let chars = chars_of(text);
    match parse_unsigned(chars.as_slice(), u32::MAX) {
        Err(e) => Err(CliError::InvalidNumber(e)),
        Ok(n) => {
            if n == 0 {
                Err(CliError::NotPositive(name.to_owned()))
            } else {
                Ok(n)
            }
        },
    }
}

/// The characters of an optional string.
pub open spec fn spelled(raw: Option<&str>) -> Option<Seq<char>> {
    match raw {
        None => None,
        Some(text) => Some(text@),
    }
}

fn channels_of(input: &[char], components: usize) -> (bytes: Result<[u8; 4], CliError>)
    ensures
        match bytes {
            Ok(b) => hex_channels(input@, components as int) == Ok::<Seq<u8>, CliErrorView>(b@),
            Err(e) => hex_channels(input@, components as int) == Err::<Seq<u8>, CliErrorView>(e@),
        },
{
    let len = input.len();
    if len > 8 {
        return Err(CliError::HexLength);
    }
    let mut bytes: [u8; 4] = [255u8;4];
    let mut at: usize = 0;
    while at < len
        invariant
            len == input@.len(),
            len <= 8,
            at <= len,
            at % 2 == 0 || at == len,
            all_hex_digits(input@.take(at as int)),
            forall|j: int|
                0 <= j < 4 && 2 * j < at ==> #[trigger] bytes@[j] == hex_channel(input@, 4, j),
            forall|j: int| 0 <= j < 4 && 2 * j >= at ==> #[trigger] bytes@[j] == 255u8,
        decreases len - at,
    {
        let next: usize = if len - at >= 2 {
            at + 2
        } else {
            len
        };
        let ghost chunk = input@.subrange(at as int, next as int);
        let high = match hex_digit(input[at]) {
            Some(d) => d,
            None => {
                return Err(CliError::InvalidNumber(NumberError::InvalidDigit));
            },
        };
        let value: u8 = if next - at == 2 {
            let low = match hex_digit(input[at + 1]) {
                Some(d) => d,
                None => {
                    return Err(CliError::InvalidNumber(NumberError::InvalidDigit));
                },
            };
            high * 16 + low
        } else {
            high
        };
        proof {
            reveal_with_fuel(hex_value, 3);
            if next - at == 2 {
                assert(chunk.drop_last().drop_last() =~= Seq::<char>::empty());
                assert(chunk.drop_last().last() == input@[at as int]);
                assert(chunk.last() == input@[at + 1]);
            } else {
                assert(chunk.drop_last() =~= Seq::<char>::empty());
                assert(chunk.last() == input@[at as int]);
            }
            assert(hex_value(chunk) == value);
            assert forall|i: int| 0 <= i < next implies is_hex_digit(
                #[trigger] input@.take(next as int)[i],
            ) by {
                if i < at {
                    assert(input@.take(at as int)[i] == input@[i]);
                }
            }
        }
        bytes[at / 2] = value;
        at = next;
    }
    assert(input@.take(at as int) =~= input@);
    if components == 3 {
        bytes[3] = 255;
    }
    assert(bytes@ =~= Seq::new(4, |j: int| hex_channel(input@, components as int, j)));
    Ok(bytes)
}

/// Reads the channels of a colour written as hexadecimal digits, two for
/// each channel. A channel that the text does not reach is 255, and so is
/// the fourth of three. More than eight characters are refused.
pub fn hex_to_bytes(input: &str, components: usize) -> (bytes: Result<[u8; 4], CliError>)
    ensures
        match bytes {
            Ok(b) => hex_channels(input@, components as int) == Ok::<Seq<u8>, CliErrorView>(b@),
            Err(e) => hex_channels(input@, components as int) == Err::<Seq<u8>, CliErrorView>(e@),
        },
{
    let chars = chars_of(input);
    channels_of(chars.as_slice(), components)
}

/// Reads a colour: `#RRGGBB`, `#RRGGBBAA`, or `r,g,b,a` with each channel
/// from 0 to 255.
pub fn parse_color(raw: &str) -> (color: Result<Rgba, CliError>)
    ensures
        match color {
            Ok(c) => color_of(raw@) == Ok::<Rgba, CliErrorView>(c),
            Err(e) => color_of(raw@) == Err::<Rgba, CliErrorView>(e@),
        },
{
    let chars = chars_of(raw);
    let text = chars.as_slice();
    if text.len() > 0 && text[0] == '#' {
        let hex = slice_subrange(text, 1, text.len());
        assert(hex@ =~= raw@.skip(1));
        let bytes = if hex.len() == 6 {
            channels_of(hex, 3)
        } else if hex.len() == 8 {
            channels_of(hex, 4)
        } else {
            return Err(CliError::HexLength);
        };
        return match bytes {
            Ok(b) => Ok(Rgba { r: b[0], g: b[1], b: b[2], a: b[3] }),
            Err(e) => Err(e),
        };
    }
    let parts = split(text, ',');
    if parts.len() != 4 {
        return Err(CliError::ColorFormat);
    }
    let ghost spelled_parts = pieces(raw@, ',');
    let r = match component_of(slice_subrange(text, parts[0].0, parts[0].1)) {
        Ok(v) => v,
        Err(e) => {
            return Err(CliError::InvalidNumber(e));
        },
    };
    let g = match component_of(slice_subrange(text, parts[1].0, parts[1].1)) {
        Ok(v) => v,
        Err(e) => {
            return Err(CliError::InvalidNumber(e));
        },
    };
    let b = match component_of(slice_subrange(text, parts[2].0, parts[2].1)) {
        Ok(v) => v,
        Err(e) => {
            return Err(CliError::InvalidNumber(e));
        },
    };
    let a = match component_of(slice_subrange(text, parts[3].0, parts[3].1)) {
        Ok(v) => v,
        Err(e) => {
            return Err(CliError::InvalidNumber(e));
        },
    };
    Ok(Rgba { r, g, b, a })
}

/// The options of the command line.
#[derive(Debug, Clone, Copy, PartialEq, Eq, Structural)]
pub enum Flag {
    Output,
    Color,
    Thickness,
    Length,
    Gap,
    Help,
}

impl Flag {
    /// The long form of the option, by which faults call it.
    pub open spec fn name(self) -> Seq<char> {
        match self {
            Flag::Output => "--output"@,
            Flag::Color => "--color"@,
            Flag::Thickness => "--thickness"@,
            Flag::Length => "--length"@,
            Flag::Gap => "--gap"@,
            Flag::Help => "--help"@,
        }
    }

    /// The long form of the option, by which faults call it.
    pub fn long_name(self) -> (name: &'static str)
        ensures
            name@ == self.name(),
    {
        match self {
            Flag::Output => "--output",
            Flag::Color => "--color",
            Flag::Thickness => "--thickness",
            Flag::Length => "--length",
            Flag::Gap => "--gap",
            Flag::Help => "--help",
        }
    }
}

/// The option that an argument names, in its long or its short form.
pub open spec fn flag_of(arg: Seq<char>) -> Option<Flag> {
    if arg == "--output"@ || arg == "-o"@ {
        Some(Flag::Output)
    } else if arg == "--color"@ || arg == "-c"@ {
        Some(Flag::Color)
    } else if arg == "--thickness"@ || arg == "-t"@ {
        Some(Flag::Thickness)
    } else if arg == "--length"@ || arg == "-l"@ {
        Some(Flag::Length)
    } else if arg == "--gap"@ || arg == "-g"@ {
        Some(Flag::Gap)
    } else if arg == "--help"@ || arg == "-h"@ {
        Some(Flag::Help)
    } else {
        None
    }
}

/// `config` after an option was given `value`.
///
/// `--output` adds a display name, which must not be empty; `--color` sets
/// the colour; `--thickness`, `--length` and `--gap` set a positive number.
pub open spec fn with_value(config: ConfigView, flag: Flag, value: Seq<char>) -> Result<
    ConfigView,
    CliErrorView,
> {
    match flag {
        Flag::Output => if value.len() == 0 {
            Err(CliErrorView::EmptyValue(flag.name()))
        } else {
            Ok(ConfigView { outputs: config.outputs.push(value), ..config })
        },
        Flag::Color => match color_of(value) {
            Ok(color) => Ok(ConfigView { color, ..config }),
            Err(e) => Err(e),
        },
        Flag::Thickness => match positive_number(Some(value), flag.name()) {
            Ok(thickness) => Ok(ConfigView { thickness, ..config }),
            Err(e) => Err(e),
        },
        Flag::Length => match positive_number(Some(value), flag.name()) {
            Ok(length) => Ok(ConfigView { length, ..config }),
            Err(e) => Err(e),
        },
        Flag::Gap => match positive_number(Some(value), flag.name()) {
            Ok(gap) => Ok(ConfigView { gap, ..config }),
            Err(e) => Err(e),
        },
        Flag::Help => Ok(config),
    }
}

/// What a command line asks for: a run with some settings, or the help
/// text.
#[derive(Debug, Clone, PartialEq, Eq)]
pub enum Invocation {
    Run(Config),
    Help,
}

/// An `Invocation` with its settings as a `ConfigView`.
pub enum InvocationView {
    Run(ConfigView),
    Help,
}

impl View for Invocation {
    type V = InvocationView;

    open spec fn view(&self) -> InvocationView {
        match self {
            Invocation::Run(config) => InvocationView::Run(config@),
            Invocation::Help => InvocationView::Help,
        }
    }
}

/// What the arguments `args` ask for, starting from the settings `config`.
///
/// Arguments are read from the left. Each is an option, and every option
/// but the help option takes the argument after it as its value. The first
/// fault ends the reading, and so does the help option: what follows it is
/// not looked at.
pub open spec fn invocation(args: Seq<Seq<char>>, config: ConfigView) -> Result<
    InvocationView,
    CliErrorView,
>
    decreases args.len(),
{
    if args.len() == 0 {
        Ok(InvocationView::Run(config))
    } else {
        match flag_of(args[0]) {
            None => Err(CliErrorView::UnknownArgument(args[0])),
            Some(Flag::Help) => Ok(InvocationView::Help),
            Some(flag) => if args.len() < 2 {
                Err(CliErrorView::MissingValue(flag.name()))
            } else {
                match with_value(config, flag, args[1]) {
                    Err(e) => Err(e),
                    Ok(next) => invocation(args.skip(2), next),
                }
            },
        }
    }
}

/// The option that an argument names, in its long or its short form.
pub fn parse_flag(arg: &str) -> (flag: Option<Flag>)
    ensures
        flag == flag_of(arg@),
{
    let chars = chars_of(arg);
    let text = chars.as_slice();
    if spells(text, "--output") || spells(text, "-o") {
        Some(Flag::Output)
    } else if spells(text, "--color") || spells(text, "-c") {
        Some(Flag::Color)
    } else if spells(text, "--thickness") || spells(text, "-t") {
        Some(Flag::Thickness)
    } else if spells(text, "--length") || spells(text, "-l") {
        Some(Flag::Length)
    } else if spells(text, "--gap") || spells(text, "-g") {
        Some(Flag::Gap)
    } else if spells(text, "--help") || spells(text, "-h") {
        Some(Flag::Help)
    } else {
        None
    }
}

/// Settings that are positive stay positive, whatever the command line
/// asks for: no run has a thickness, a length or a gap of zero.
pub proof fn lemma_settings_stay_positive(args: Seq<Seq<char>>, config: ConfigView)
    requires
        config.positive(),
    ensures
        invocation(args, config) matches Ok(InvocationView::Run(settings)) ==> settings.positive(),
    decreases args.len(),
{
    if args.len() >= 2 {
        if let Some(flag) = flag_of(args[0]) {
            if let Ok(next) = with_value(config, flag, args[1]) {
                lemma_number_fits(args[1], u32::MAX as nat);
                lemma_settings_stay_positive(args.skip(2), next);
            }
        }
    }
}

impl Config {
    /// Reads the settings from the arguments of the command line, the
    /// program's own name left out.
    pub fn from_args(args: &Vec<String>) -> (asked: Result<Invocation, CliError>)
        ensures
            match asked {
                Ok(i) => invocation(texts(args@), ConfigView::initial()) == Ok::<
                    InvocationView,
                    CliErrorView,
                >(i@),
                Err(e) => invocation(texts(args@), ConfigView::initial()) == Err::<
                    InvocationView,
                    CliErrorView,
                >(e@),
            },
            asked matches Ok(Invocation::Run(config)) ==> config@.positive(),
    {
        let mut config = Config::initial();
        let mut i: usize = 0;
        let ghost all = texts(args@);
        assert(all.skip(0) =~= all);
        while i < args.len()
            invariant
                i <= args.len(),
                all == texts(args@),
                config@.positive(),
                invocation(all, ConfigView::initial()) == invocation(all.skip(i as int), config@),
            decreases args.len() - i,
        {
            let ghost rest = all.skip(i as int);
            assert(rest[0] == args@[i as int]@);
            let flag = match parse_flag(args[i].as_str()) {
                None => {
                    return Err(CliError::UnknownArgument(args[i].clone()));
                },
                Some(flag) => flag,
            };
            if let Flag::Help = flag {
                return Ok(Invocation::Help);
            }
            if args.len() - i < 2 {
                return Err(CliError::MissingValue(flag.long_name().to_owned()));
            }
            assert(rest[1] == args@[i + 1]@);
            assert(rest.skip(2) =~= all.skip(i + 2));
            let value = args[i + 1].as_str();
            let ghost before = config@;
            match flag {
                Flag::Output => {
                    if value.is_empty() {
                        return Err(CliError::EmptyValue(flag.long_name().to_owned()));
                    }
                    config.outputs.push(args[i + 1].clone());
                    assert(config@.outputs =~= before.outputs.push(value@));
                },
                Flag::Color => {
                    match parse_color(value) {
                        Ok(color) => {
                            config.color = color;
                        },
                        Err(e) => {
                            return Err(e);
                        },
                    }
                },
                Flag::Thickness => {
                    match parse_u32(Some(value), flag.long_name()) {
                        Ok(n) => {
                            config.thickness = n;
                        },
                        Err(e) => {
                            return Err(e);
                        },
                    }
                },
                Flag::Length => {
                    match parse_u32(Some(value), flag.long_name()) {
                        Ok(n) => {
                            config.length = n;
                        },
                        Err(e) => {
                            return Err(e);
                        },
                    }
                },
                Flag::Gap => {
                    match parse_u32(Some(value), flag.long_name()) {
                        Ok(n) => {
                            config.gap = n;
                        },
                        Err(e) => {
                            return Err(e);
                        },
                    }
                },
                Flag::Help => {},
            }
            i += 2;
        }
        Ok(Invocation::Run(config))
    }
}

} // verus!
