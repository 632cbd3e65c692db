//! Reading delimiter, quote and header arguments written with backslash
//! escapes.
use vstd::prelude::*;
use vstd::string::StringExecFns;
use vstd::utf8::encode_utf8;

verus! {

/// The text that `s` spells with its backslash escapes resolved, or `None`
/// where an escape in it is malformed.
pub uninterp spec fn unescaped(s: Seq<char>) -> Option<Seq<char>>;

/// Relies on `unescape::unescape`, which resolves the backslash escapes of
/// `s`, or gives `None` where one of them is malformed.
#[verifier::external_body]
fn unescape_text(s: &str) -> (r: Option<String>)
    ensures
        match r {
            Some(t) => unescaped(s@) == Some(t@),
            None => unescaped(s@) is None,
        },
{
    unescape::unescape(s)
}

/// The message for an argument whose escapes are malformed.
pub open spec fn invalid_escape_message(s: Seq<char>) -> Seq<char> {
    "`"@ + s + "` is not a valid escape string."@
}

/// The message for a character argument that is not one byte long.
pub open spec fn not_one_byte_message() -> Seq<char> {
    "Specified by ASCII characters."@
}

/// The byte that argument `s` stands for, given what its escapes resolve to.
pub open spec fn escaped_byte(s: Seq<char>, resolved: Option<Seq<char>>) -> Result<u8, Seq<char>> {
    match resolved {
        None => Err(invalid_escape_message(s)),
        Some(t) => if encode_utf8(t).len() == 1 {
            Ok(encode_utf8(t)[0])
        } else {
            Err(not_one_byte_message())
        },
    }
}

/// The text that argument `s` stands for, given what its escapes resolve to.
pub open spec fn escaped_text(s: Seq<char>, resolved: Option<Seq<char>>) -> Result<
    Seq<char>,
    Seq<char>,
> {
    match resolved {
        None => Err(invalid_escape_message(s)),
        Some(t) => Ok(t),
    }
}

/// An optional string as an optional text.
pub open spec fn option_text(o: Option<String>) -> Option<Seq<char>> {
    match o {
        Some(t) => Some(t@),
        None => None,
    }
}

/// A result with its strings as texts.
pub open spec fn result_view<T>(r: Result<T, String>) -> Result<T, Seq<char>> {
    match r {
        Ok(v) => Ok(v),
        Err(m) => Err(m@),
    }
}

fn invalid_escape(s: &str) -> (m: String)
    ensures
        m@ == invalid_escape_message(s@),
{
    String::from_str("`").concat(s).concat("` is not a valid escape string.")
}

/// The byte for argument `s` once its escapes are resolved to `resolved`:
/// the single UTF-8 byte of the resolved text, or an error message.
pub fn escaped_u8_from(s: &str, resolved: Option<String>) -> (r: Result<u8, String>)
    ensures
        result_view(r) == escaped_byte(s@, option_text(resolved)),
{
    match resolved {
        None => Err(invalid_escape(s)),
        Some(t) => {
            let d = t.as_str().as_bytes();
            if d.len() != 1 {
                return Err(String::from_str("Specified by ASCII characters."));
            }
            Ok(d[0])
        },
    }
}

/// The text for argument `s` once its escapes are resolved to `resolved`,
/// or an error message.
pub fn escaped_string_from(s: &str, resolved: Option<String>) -> (r: Result<String, String>)
    ensures
        match r {
            Ok(t) => escaped_text(s@, option_text(resolved)) == Ok::<Seq<char>, Seq<char>>(t@),
            Err(m) => escaped_text(s@, option_text(resolved)) == Err::<Seq<char>, Seq<char>>(m@),
        },
{
    match resolved {
        None => Err(invalid_escape(s)),
        Some(t) => Ok(t),
    }
}

/// Parses a one-byte argument written with backslash escapes (`\t`, `\x1f`).
pub fn escaped_u8(s: &str) -> (r: Result<u8, String>)
    ensures
        result_view(r) == escaped_byte(s@, unescaped(s@)),
{
    escaped_u8_from(s, unescape_text(s))
}

/// Parses a text argument written with backslash escapes.
pub fn escaped_string(s: &str) -> (r: Result<String, String>)
    ensures
        match r {
            Ok(t) => escaped_text(s@, unescaped(s@)) == Ok::<Seq<char>, Seq<char>>(t@),
            Err(m) => escaped_text(s@, unescaped(s@)) == Err::<Seq<char>, Seq<char>>(m@),
        },
{
    escaped_string_from(s, unescape_text(s))
}

} // verus!
