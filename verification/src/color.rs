//! Colors: whether to print them, hex codes, and truecolor terminal escapes.
use vstd::prelude::*;
use vstd::utf8::encode_utf8;
use crate::text::string_from_chars;
use base16_color_scheme::scheme::{RgbColor, RgbColorFormatter};
use base16_color_scheme::template::color_field::{Format, Hex};

verus! {

/// Whether colored (truecolor) output should be produced, given the value of the
/// `NO_COLOR` environment variable (if set) and whether standard output is a terminal.
///
/// Colors are disabled when `NO_COLOR` is present and non-empty (see <https://no-color.org>),
/// or when standard output is not a terminal.
pub fn colors_enabled(no_color: Option<String>, stdout_is_terminal: bool) -> (res: bool)
    ensures
        res == (!(no_color matches Some(v) && v@.len() > 0) && stdout_is_terminal),
{
    let disabled = match &no_color {
        Some(v) => v.as_str().unicode_len() > 0,
        None => false,
    };
    !disabled && stdout_is_terminal
}

/// `c` is a hexadecimal digit, in either case.
pub open spec fn is_hex_digit(c: char) -> bool {
    ||| ('0' <= c && c <= '9')
    ||| ('a' <= c && c <= 'f')
    ||| ('A' <= c && c <= 'F')
}

/// The value of a hexadecimal digit.
pub open spec fn hex_value(c: char) -> int {
    if '0' <= c && c <= '9' {
        c as int - '0' as int
    } else if 'a' <= c && c <= 'f' {
        c as int - 'a' as int + 10
    } else {
        c as int - 'A' as int + 10
    }
}

/// `s` is an even number of hexadecimal digits.
pub open spec fn hex_decodes(s: Seq<char>) -> bool {
    &&& s.len() % 2 == 0
    &&& forall|i: int| 0 <= i < s.len() ==> is_hex_digit(#[trigger] s[i])
}

/// The bytes that a string of hexadecimal digit pairs stands for.
pub open spec fn hex_decoded(s: Seq<char>) -> Seq<u8> {
    Seq::new(
        (s.len() / 2) as nat,
        |i: int| (hex_value(s[2 * i]) * 16 + hex_value(s[2 * i + 1])) as u8,
    )
}

/// `b` is the byte of a hexadecimal digit, in either case.
pub open spec fn is_hex_byte(b: u8) -> bool {
    ||| (48 <= b && b <= 57)
    ||| (97 <= b && b <= 102)
    ||| (65 <= b && b <= 70)
}

/// The first index at or after `from` of a byte that is no hexadecimal digit, or -1.
pub open spec fn first_non_hex_byte_from(bytes: Seq<u8>, from: int) -> int
    decreases bytes.len() - from,
{
    if from < 0 || from >= bytes.len() {
        -1
    } else if !is_hex_byte(bytes[from]) {
        from
    } else {
        first_non_hex_byte_from(bytes, from + 1)
    }
}

/// The error for the first byte that is no hexadecimal digit: the byte, read as the
/// character of that number, and its index.
pub open spec fn invalid_byte_error(bytes: Seq<u8>) -> HexError {
    let k = first_non_hex_byte_from(bytes, 0);
    HexError::InvalidHexCharacter { c: bytes[k] as char, index: k as usize }
}

/// Why a string is no hex encoding (the errors of the `hex` crate).
#[derive(Debug, PartialEq, Eq, Structural)]
pub enum HexError {
    InvalidHexCharacter { c: char, index: usize },
    OddLength,
    InvalidStringLength,
}

/// The bytes that a hexadecimal string encodes (`hex::decode`).
///
/// Trusted: `hex::decode` reads the string's UTF-8 bytes. It checks that there is an even
/// number of them (`OddLength` otherwise), then decodes byte pairs in order, failing with
/// `InvalidHexCharacter` at the first byte that is not `0-9`, `a-f` or `A-F`, reporting
/// that byte cast to `char` and its byte index. A string of hexadecimal digits is ASCII, so
/// success is stated over its characters.
#[verifier::external_body]
fn decode_hex(s: &str) -> (res: Result<Vec<u8>, HexError>)
    ensures
        res is Ok <==> hex_decodes(s@),
        res matches Ok(v) ==> v@ == hex_decoded(s@),
        res matches Err(e) ==> e == hex_decode_error(s@),
{
    match hex::decode(s) {
        Ok(v) => Ok(v),
        Err(hex::FromHexError::InvalidHexCharacter { c, index }) => Err(
            HexError::InvalidHexCharacter { c, index },
        ),
        Err(hex::FromHexError::OddLength) => Err(HexError::OddLength),
        Err(hex::FromHexError::InvalidStringLength) => Err(HexError::InvalidStringLength),
    }
}

/// The decimal digit character for `d`.
pub open spec fn digit_char(d: nat) -> char {
    (48 + d) as char
}

/// The decimal writing of `n`, without leading zeros.
pub open spec fn decimal(n: nat) -> Seq<char>
    decreases n,
{
    if n < 10 {
        seq![digit_char(n)]
    } else {
        decimal(n / 10) + seq![digit_char(n % 10)]
    }
}

/// The number that a string of decimal digits denotes, read in base ten.
pub open spec fn decimal_value(s: Seq<char>) -> int
    decreases s.len(),
{
    if s.len() == 0 {
        0
    } else {
        decimal_value(s.drop_last()) * 10 + (s.last() as int - '0' as int)
    }
}

/// The digit character for `d` stands for `d`.
proof fn lemma_digit_char(d: nat)
    requires
        d < 10,
    ensures
        digit_char(d) as int == 48 + d,
{
}

/// Law: the decimal writing of `n` is a non-empty string of the digits `0`-`9`, with no
/// leading zero unless `n` is zero, and read in base ten it denotes `n`.
pub proof fn lemma_decimal_denotes(n: nat)
    ensures
        decimal(n).len() >= 1,
        forall|i: int| 0 <= i < decimal(n).len() ==> '0' <= #[trigger] decimal(n)[i] <= '9',
        decimal(n)[0] != '0' || n == 0,
        decimal_value(decimal(n)) == n,
    decreases n,
{
    if n < 10 {
        let d = decimal(n);
        assert(d =~= seq![digit_char(n)]);
        assert(d.drop_last() =~= Seq::<char>::empty());
        assert(decimal_value(d.drop_last()) == 0);
        assert('0' as int == 48);
        lemma_digit_char(n);
    } else {
        lemma_decimal_denotes(n / 10);
        let h = decimal(n / 10);
        let d = decimal(n);
        assert(d =~= h + seq![digit_char(n % 10)]);
        assert(d.drop_last() =~= h);
        assert(d[0] == h[0]);
        assert forall|i: int| 0 <= i < d.len() implies '0' <= #[trigger] d[i] <= '9' by {
            if i < h.len() {
                assert(d[i] == h[i]);
            }
        }
        lemma_digit_char(n % 10);
        assert('0' as int == 48);
        assert(d.last() == digit_char(n % 10));
        assert(decimal_value(d) == decimal_value(h) * 10 + (n % 10));
        assert(n == (n / 10) * 10 + n % 10);
    }
}

fn digit(d: u8) -> (c: char)
    requires
        d < 10,
    ensures
        c == digit_char(d as nat),
{
    match d {
        0 => '0',
        1 => '1',
        2 => '2',
        3 => '3',
        4 => '4',
        5 => '5',
        6 => '6',
        7 => '7',
        8 => '8',
        _ => '9',
    }
}

/// Append the decimal writing of `n`.
fn push_decimal(out: &mut Vec<char>, n: u8)
    ensures
        final(out)@ == old(out)@ + decimal(n as nat),
{
    reveal_with_fuel(decimal, 3);
    if n >= 100 {
        out.push(digit(n / 100));
        out.push(digit((n / 10) % 10));
        out.push(digit(n % 10));
        assert(decimal(n as nat) =~= seq![digit_char((n / 100) as nat), digit_char(((n / 10) % 10) as nat), digit_char((n % 10) as nat)]);
    } else if n >= 10 {
        out.push(digit(n / 10));
        out.push(digit(n % 10));
        assert(decimal(n as nat) =~= seq![digit_char((n / 10) as nat), digit_char((n % 10) as nat)]);
    } else {
        out.push(digit(n));
    }
    assert(final(out)@ =~= old(out)@ + decimal(n as nat));
}

/// Append all of `s`.
fn push_all(out: &mut Vec<char>, s: &Vec<char>)
    ensures
        final(out)@ == old(out)@ + s@,
{
    let mut k: usize = 0;
    while k < s.len()
        invariant
            k <= s.len(),
            out@ == old(out)@ + s@.subrange(0, k as int),
        decreases s.len() - k,
    {
        out.push(s[k]);
        k = k + 1;
        assert(out@ =~= old(out)@ + s@.subrange(0, k as int));
    }
    assert(s@.subrange(0, s.len() as int) =~= s@);
}

/// The truecolor escape that sets the background (`48`) or foreground (`38`) color.
pub open spec fn truecolor_escape(background: bool, r: u8, g: u8, b: u8) -> Seq<char> {
    seq!['\u{1b}', '['] + (if background {
        seq!['4', '8']
    } else {
        seq!['3', '8']
    }) + seq![';', '2', ';'] + decimal(r as nat) + seq![';'] + decimal(g as nat) + seq![';']
        + decimal(b as nat) + seq!['m']
}

/// The escape that resets colors.
pub open spec fn reset_escape() -> Seq<char> {
    seq!['\u{1b}', '[', '0', 'm']
}

fn push_escape(out: &mut Vec<char>, background: bool, r: u8, g: u8, b: u8)
    ensures
        final(out)@ == old(out)@ + truecolor_escape(background, r, g, b),
{
    out.push('\u{1b}');
    out.push('[');
    if background {
        out.push('4');
    } else {
        out.push('3');
    }
    out.push('8');
    out.push(';');
    out.push('2');
    out.push(';');
    push_decimal(out, r);
    out.push(';');
    push_decimal(out, g);
    out.push(';');
    push_decimal(out, b);
    out.push('m');
    assert(final(out)@ =~= old(out)@ + truecolor_escape(background, r, g, b));
}

/// The truecolor escape for the color that a hexadecimal string encodes (its first three
/// bytes), as background or foreground color.
pub fn true_color(hex_color: &str, background: bool) -> (res: Result<String, HexError>)
    requires
        hex_decodes(hex_color@) ==> hex_color@.len() >= 6,
    ensures
        res is Ok <==> hex_decodes(hex_color@),
        res matches Ok(s) ==> s@ == truecolor_escape(
            background,
            hex_decoded(hex_color@)[0],
            hex_decoded(hex_color@)[1],
            hex_decoded(hex_color@)[2],
        ),
        res matches Err(e) ==> e == hex_decode_error(hex_color@),
{
    let rgb = match decode_hex(hex_color) {
        Ok(v) => v,
        Err(e) => {
            return Err(e);
        },
    };
    let mut out: Vec<char> = Vec::new();
    push_escape(&mut out, background, rgb[0], rgb[1], rgb[2]);
    assert(out@ =~= truecolor_escape(background, rgb@[0], rgb@[1], rgb@[2]));
    Ok(string_from_chars(&out))
}

/// The error of `hex::decode` for a string that is no hex encoding, from its UTF-8 bytes:
/// `OddLength` for an odd number of bytes, else the first byte that is no hex digit.
pub open spec fn hex_decode_error(s: Seq<char>) -> HexError {
    let bytes = encode_utf8(s);
    if bytes.len() % 2 == 1 {
        HexError::OddLength
    } else {
        invalid_byte_error(bytes)
    }
}

/// A colored line showing a color: on its own background, then in its own foreground, each
/// time labelled `#` and `shown`.
pub open spec fn color_line_text(r: u8, g: u8, b: u8, shown: Seq<char>) -> Seq<char> {
    truecolor_escape(true, r, g, b) + seq![' ', '#'] + shown + seq![' '] + reset_escape() + seq![
        ' ',
        ' ',
    ] + truecolor_escape(false, r, g, b) + seq!['#'] + shown + reset_escape()
}

fn push_reset(out: &mut Vec<char>)
    ensures
        final(out)@ == old(out)@ + reset_escape(),
{
    out.push('\u{1b}');
    out.push('[');
    out.push('0');
    out.push('m');
    assert(final(out)@ =~= old(out)@ + reset_escape());
}

fn color_line_chars(r: u8, g: u8, b: u8, shown: &Vec<char>) -> (res: String)
    ensures
        res@ == color_line_text(r, g, b, shown@),
{
    let mut out: Vec<char> = Vec::new();
    push_escape(&mut out, true, r, g, b);
    out.push(' ');
    out.push('#');
    push_all(&mut out, shown);
    out.push(' ');
    push_reset(&mut out);
    out.push(' ');
    out.push(' ');
    push_escape(&mut out, false, r, g, b);
    out.push('#');
    push_all(&mut out, shown);
    push_reset(&mut out);
    assert(out@ =~= color_line_text(r, g, b, shown@));
    string_from_chars(&out)
}

/// The line that shows the color a hexadecimal string encodes, labelled with that string.
pub fn color_line(color: &str) -> (res: Result<String, HexError>)
    requires
        hex_decodes(color@) ==> color@.len() >= 6,
    ensures
        res is Ok <==> hex_decodes(color@),
        res matches Ok(s) ==> s@ == color_line_text(
            hex_decoded(color@)[0],
            hex_decoded(color@)[1],
            hex_decoded(color@)[2],
            color@,
        ),
        res matches Err(e) ==> e == hex_decode_error(color@),
{
    let rgb = match decode_hex(color) {
        Ok(v) => v,
        Err(e) => {
            return Err(e);
        },
    };
    let shown = crate::text::chars_of(color);
    Ok(color_line_chars(rgb[0], rgb[1], rgb[2], &shown))
}

/// The lower-case hexadecimal digit for `d`.
pub open spec fn hex_digit_char(d: int) -> char {
    if d < 10 {
        (48 + d) as char
    } else {
        (87 + d) as char
    }
}

/// Two lower-case hexadecimal digits for a byte.
pub open spec fn hex_byte(b: u8) -> Seq<char> {
    seq![hex_digit_char(b as int / 16), hex_digit_char(b as int % 16)]
}

/// The six lower-case hexadecimal digits of a color.
pub open spec fn hex_rgb(color: [u8; 3]) -> Seq<char> {
    hex_byte(color[0]) + hex_byte(color[1]) + hex_byte(color[2])
}

/// The hex digits of a color, as base16_color_scheme formats it
/// (`RgbColorFormatter` with `Format::Hex(Hex::Rgb)`).
///
/// Trusted: the formatter writes `{r:02x}{g:02x}{b:02x}`, each component as two lower-case
/// hexadecimal digits.
#[verifier::external_body]
fn format_hex_rgb(color: [u8; 3]) -> (res: String)
    ensures
        res@ == hex_rgb(color),
{
    format!("{}", RgbColorFormatter { color: RgbColor(color), format: Format::Hex(Hex::Rgb) })
}

/// Format a color as a `#rrggbb` string.
pub fn hex_color(color: [u8; 3]) -> (res: String)
    ensures
        res@ == seq!['#'] + hex_rgb(color),
{
    let digits = format_hex_rgb(color);
    let mut res = String::from_str("#");
    proof {
        reveal_strlit("#");
    }
    res.append(digits.as_str());
    res
}

/// The colored line that shows a color, labelled with its hex digits.
pub fn rgb_color_line(color: [u8; 3]) -> (res: String)
    ensures
        res@ == color_line_text(color[0], color[1], color[2], hex_rgb(color)),
{
    let digits = format_hex_rgb(color);
    let shown = crate::text::chars_of(digits.as_str());
    color_line_chars(color[0], color[1], color[2], &shown)
}

} // verus!
