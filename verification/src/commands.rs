//! Decisions of the command line: default patterns, `apply --mode`, and generated colors.
use vstd::prelude::*;
use crate::color::{hex_decoded, hex_decodes, invalid_byte_error, HexError};
use vstd::utf8::encode_utf8;
use crate::operations::partner::{has_no_partner, is_first_partner, resolve_partner, NoPartner};
use crate::slugs::{stem_listing, views, SchemeName};
use crate::variant::{family, spec_family, spec_variant, variant, Variant};

verus! {

/// The patterns given on the command line, or the wildcard `*` when none were given.
pub fn patterns_or_wildcard(given: Option<Vec<String>>) -> (res: Vec<String>)
    ensures
        match given {
            Some(v) => res@ == v@,
            None => views(res@) == seq![seq!['*']],
        },
{
    match given {
        Some(v) => v,
        None => {
            let star = String::from_str("*");
            proof {
                reveal_strlit("*");
            }
            let mut res: Vec<String> = Vec::new();
            res.push(star);
            assert(views(res@)[0] == res@[0]@);
            assert("*"@ =~= seq!['*']);
            assert(views(res@) =~= seq![seq!['*']]);
            res
        },
    }
}

/// Which variant `apply --mode` asks for.
#[derive(Debug, Clone, Copy, PartialEq, Eq, Structural)]
pub enum ApplyMode {
    Dark,
    Light,
    Toggle,
}

impl ApplyMode {
    /// The mode named on the command line (`dark`, `light` or `toggle`).
    pub fn from_name(name: &str) -> (res: Option<ApplyMode>)
        ensures
            name@ == "dark"@ ==> res == Some(ApplyMode::Dark),
            name@ == "light"@ ==> res == Some(ApplyMode::Light),
            name@ == "toggle"@ ==> res == Some(ApplyMode::Toggle),
            res is None <==> (name@ != "dark"@ && name@ != "light"@ && name@ != "toggle"@),
    {
        proof {
            reveal_strlit("dark");
            reveal_strlit("light");
            reveal_strlit("toggle");
            assert("dark"@.len() == 4 && "light"@.len() == 5 && "toggle"@.len() == 6);
        }
        let given = String::from_str(name);
        if given == String::from_str("dark") {
            Some(ApplyMode::Dark)
        } else if given == String::from_str("light") {
            Some(ApplyMode::Light)
        } else if given == String::from_str("toggle") {
            Some(ApplyMode::Toggle)
        } else {
            None
        }
    }
}

/// The variant that a mode asks for, starting from the current scheme.
pub open spec fn target_variant(mode: ApplyMode, current: Seq<char>) -> Variant {
    match mode {
        ApplyMode::Dark => Variant::Dark,
        ApplyMode::Light => Variant::Light,
        ApplyMode::Toggle => spec_variant(current).spec_opposite(),
    }
}

/// Law: the variant that a mode asks for. `dark` asks for a dark scheme and `light` for a
/// light one, whatever is applied; `toggle` asks for the variant the current scheme lacks.
pub proof fn lemma_mode_requests(current: Seq<char>)
    ensures
        target_variant(ApplyMode::Dark, current) == Variant::Dark,
        target_variant(ApplyMode::Light, current) == Variant::Light,
        target_variant(ApplyMode::Toggle, current) != spec_variant(current),
{
}

/// The scheme that `apply --mode` applies: the current scheme when it already has the
/// requested variant (so that applying is idempotent), else its partner among the installed
/// schemes (given as the names of the scheme files found).
pub fn mode_target(mode: ApplyMode, current: &str, found: &Vec<SchemeName>) -> (res: Result<
    String,
    NoPartner,
>)
    ensures
        spec_variant(current@) == target_variant(mode, current@) ==> (res matches Ok(t) && t@
            == current@),
        spec_variant(current@) != target_variant(mode, current@) ==> match res {
            Ok(p) => is_first_partner(current@, stem_listing(found@), p@),
            Err(e) => {
                &&& has_no_partner(current@, stem_listing(found@))
                &&& e.slug@ == current@
                &&& e.family@ == spec_family(current@)
                &&& e.wanted == spec_variant(current@).spec_opposite()
            },
        },
        res matches Ok(t) ==> spec_variant(t@) == target_variant(mode, current@),
{
    if !needs_partner(mode, current) {
        Ok(String::from_str(current))
    } else {
        resolve_partner(current, found)
    }
}

/// Whether `apply --mode` has to look for a partner: the current scheme does not have the
/// variant that the mode asks for.
pub fn needs_partner(mode: ApplyMode, current: &str) -> (res: bool)
    ensures
        res == (spec_variant(current@) != target_variant(mode, current@)),
{
    let now = variant(current);
    let target = match mode {
        ApplyMode::Dark => Variant::Dark,
        ApplyMode::Light => Variant::Light,
        ApplyMode::Toggle => now.opposite(),
    };
    now != target
}

/// The error of `hex::decode_to_slice` into three bytes, for a string that is no six hex
/// digits, from its UTF-8 bytes: `OddLength` for an odd number of bytes, `InvalidStringLength`
/// for an even number other than six, else the first byte that is no hex digit.
pub open spec fn rgb_decode_error(s: Seq<char>) -> HexError {
    let bytes = encode_utf8(s);
    if bytes.len() % 2 == 1 {
        HexError::OddLength
    } else if bytes.len() != 6 {
        HexError::InvalidStringLength
    } else {
        invalid_byte_error(bytes)
    }
}

/// Decode six hexadecimal digits into the three bytes of a color
/// (`hex::decode_to_slice` into a three-byte buffer).
///
/// Trusted: `hex::decode_to_slice` reads the string's UTF-8 bytes. It fails with `OddLength`
/// on an odd number of bytes, with `InvalidStringLength` unless there are twice as many
/// bytes as the buffer holds, and with `InvalidHexCharacter` at the first byte that is no
/// hex digit (that byte cast to `char`, and its byte index); else it fills the buffer with
/// the decoded pairs.
#[verifier::external_body]
fn decode_rgb(s: &str) -> (res: Result<[u8; 3], HexError>)
    ensures
        res is Ok <==> (s@.len() == 6 && hex_decodes(s@)),
        res matches Ok(c) ==> c@ == hex_decoded(s@),
        res matches Err(e) ==> e == rgb_decode_error(s@),
{
    let mut rgb = [0u8; 3];
    match hex::decode_to_slice(s, &mut rgb) {
        Ok(()) => Ok(rgb),
        Err(hex::FromHexError::InvalidHexCharacter { c, index }) => Err(
            HexError::InvalidHexCharacter { c, index },
        ),
        Err(hex::FromHexError::OddLength) => Err(HexError::OddLength),
        Err(hex::FromHexError::InvalidStringLength) => Err(HexError::InvalidStringLength),
    }
}

/// Why generated colors do not make a scheme.
#[derive(Debug, PartialEq, Eq, Structural)]
pub enum GeneratedColorError {
    /// A color is not six hexadecimal digits.
    Hex(HexError),
    /// There are more colors than base indices (256).
    IndexOutOfRange,
}

/// The colour code is six hexadecimal digits.
pub open spec fn is_rgb_code(s: Seq<char>) -> bool {
    s.len() == 6 && hex_decodes(s)
}

/// Converting the colors stops at color `i` with error `e`: every earlier color is a valid
/// code with a base index, and color `i` is not a valid code (a hex error, checked first) or
/// has no base index (256 or more).
pub open spec fn generated_color_fails_at(colors: Seq<String>, i: int, e: GeneratedColorError) -> bool {
    &&& forall|j: int| 0 <= j < i ==> j < 256 && is_rgb_code(#[trigger] colors[j]@)
    &&& match e {
        GeneratedColorError::Hex(h) => !is_rgb_code(colors[i]@) && h == rgb_decode_error(colors[i]@),
        GeneratedColorError::IndexOutOfRange => is_rgb_code(colors[i]@) && i >= 256,
    }
}

/// The base-indexed colors of a generated scheme, from their hexadecimal codes in order:
/// color `i` gets base index `i`.
pub fn generated_colors(colors: &Vec<String>) -> (res: Result<Vec<(u8, [u8; 3])>, GeneratedColorError>)
    ensures
        res matches Ok(v) ==> {
            &&& v.len() == colors.len()
            &&& colors.len() <= 256
            &&& forall|i: int|
                0 <= i < v.len() ==> {
                    &&& (#[trigger] v@[i]).0 == i
                    &&& colors@[i]@.len() == 6
                    &&& hex_decodes(colors@[i]@)
                    &&& v@[i].1@ == hex_decoded(colors@[i]@)
                }
        },
        res matches Err(e) ==> exists|i: int|
            0 <= i < colors.len() && generated_color_fails_at(colors@, i, e),
{
    let mut res: Vec<(u8, [u8; 3])> = Vec::new();
    let mut i: usize = 0;
    while i < colors.len()
        invariant
            i <= colors.len(),
            i <= 256,
            res.len() == i,
            forall|j: int|
                0 <= j < i ==> {
                    &&& (#[trigger] res@[j]).0 == j
                    &&& colors@[j]@.len() == 6
                    &&& hex_decodes(colors@[j]@)
                    &&& res@[j].1@ == hex_decoded(colors@[j]@)
                },
        decreases colors.len() - i,
    {
        assert forall|j: int| 0 <= j < i implies j < 256 && is_rgb_code(#[trigger] colors@[j]@) by {
            assert(res@[j].0 == j);
        }
        let rgb = match decode_rgb(colors[i].as_str()) {
            Ok(c) => c,
            Err(e) => {
                assert(generated_color_fails_at(colors@, i as int, GeneratedColorError::Hex(e)));
                return Err(GeneratedColorError::Hex(e));
            },
        };
        if i > 255 {
            assert(generated_color_fails_at(colors@, i as int, GeneratedColorError::IndexOutOfRange));
            return Err(GeneratedColorError::IndexOutOfRange);
        }
        res.push((i as u8, rgb));
        i = i + 1;
    }
    Ok(res)
}

} // verus!
