//! The font to draw with.

use vstd::prelude::*;

use crate::filepath::{bytes_of, FilePath};
use crate::protocol::ErrorKind;
use crate::text::{chars_of, decoded, from_utf8, opt_str_view, string_of, trim, trimmed};

verus! {

/// Why no font was found.
#[derive(Clone, Copy, Debug, PartialEq, Eq, Structural)]
pub enum FontError {
    /// `fc-match` failed.
    MatchFailed,
    /// What `fc-match` printed is not valid text.
    NotText,
    /// `fc-match` printed nothing.
    EmptyPath,
}

impl FontError {
    pub fn kind(self) -> (r: ErrorKind)
        ensures
            r == (if self == FontError::NotText {
                ErrorKind::InvalidData
            } else {
                ErrorKind::NotFound
            }),
    {
        match self {
            FontError::NotText => ErrorKind::InvalidData,
            FontError::MatchFailed | FontError::EmptyPath => ErrorKind::NotFound,
        }
    }

    /// The words for the error. Output that is not valid text has none of its own: there the
    /// words are those of the error that decoding it gives.
    pub fn message(self) -> (r: Option<&'static str>)
        ensures
            opt_str_view(r) == (match self {
                FontError::MatchFailed => Some("fc-match failed"@),
                FontError::NotText => None,
                FontError::EmptyPath => Some("fc-match returned empty path"@),
            }),
    {
        match self {
            FontError::MatchFailed => Some("fc-match failed"),
            FontError::NotText => None,
            FontError::EmptyPath => Some("fc-match returned empty path"),
        }
    }
}

/// The path of the font, given whether `fc-match` succeeded and what it printed.
pub open spec fn found(success: bool, stdout: Seq<u8>) -> Result<Seq<u8>, FontError> {
    if !success {
        Err(FontError::MatchFailed)
    } else {
        match decoded(stdout) {
            None => Err(FontError::NotText),
            Some(text) => if trimmed(text).len() == 0 {
                Err(FontError::EmptyPath)
            } else {
                Ok(bytes_of(trimmed(text)))
            },
        }
    }
}

/// The path of the font, given whether `fc-match` succeeded and what it printed.
pub fn find(success: bool, stdout: Vec<u8>) -> (r: Result<FilePath, FontError>)
    ensures
        found(success, stdout@) == (match r {
            Ok(path) => Ok::<Seq<u8>, FontError>(path@),
            Err(e) => Err(e),
        }),
{
    if !success {
        return Err(FontError::MatchFailed);
    }
    let text = match from_utf8(stdout) {
        Some(text) => text,
        None => return Err(FontError::NotText),
    };
    let chars = chars_of(text.as_str());
    let name = trim(chars.as_slice());
    if name.len() == 0 {
        return Err(FontError::EmptyPath);
    }
    Ok(FilePath::new(string_of(name).as_str()))
}

/// A font is found if and only if `fc-match` succeeds and prints text that is not blank: what
/// is left of the text without the white space at its ends. A failure counts before all else.
pub proof fn law_found(success: bool, stdout: Seq<u8>, text: Seq<char>)
    ensures
        !success ==> found(success, stdout) == Err::<Seq<u8>, FontError>(FontError::MatchFailed),
        success && !vstd::utf8::valid_utf8(stdout) ==> found(success, stdout) == Err::<
            Seq<u8>,
            FontError,
        >(FontError::NotText),
        success && stdout == bytes_of(text) ==> {
            &&& trimmed(text).len() == 0 ==> found(success, stdout) == Err::<Seq<u8>, FontError>(
                FontError::EmptyPath,
            )
            &&& trimmed(text).len() > 0 ==> found(success, stdout) == Ok::<Seq<u8>, FontError>(
                bytes_of(trimmed(text)),
            )
        },
{
    vstd::utf8::encode_utf8_decode_utf8(text);
    vstd::utf8::encode_utf8_valid_utf8(text);
}

} // verus!
