//! Validation of caller-supplied values: model names and chat message
//! content.

use vstd::prelude::*;
use vstd::string::StrSliceExecFns;
use vstd::string::StringSliceAdditionalSpecFns;
use crate::chars::{is_control_spec, is_control_char, trim_spec, trim_str};
use crate::errors::{AppError, AppResult};

verus! {

/// Stands for what `char::is_alphanumeric` returns: whether the character is
/// in one of the Unicode `Alphabetic` or numeric general categories.
pub uninterp spec fn is_alphanumeric_spec(c: char) -> bool;

/// Relies on `char::is_alphanumeric`: a deterministic Unicode classification
/// depending on the character alone.
pub assume_specification[ char::is_alphanumeric ](c: char) -> (r: bool)
    ensures
        r == is_alphanumeric_spec(c),
;

/// A character a model name may contain.
pub open spec fn model_name_char_ok(c: char) -> bool {
    is_alphanumeric_spec(c) || c == ':' || c == '-' || c == '_' || c == '.'
}

/// A well-formed model name: non-empty, at most 100 bytes, only alphanumeric
/// characters, colons, hyphens, underscores and dots, and starting and ending
/// with an alphanumeric character.
pub open spec fn valid_model_name(s: Seq<char>, byte_len: int) -> bool {
    &&& s.len() > 0
    &&& byte_len <= 100
    &&& forall|i: int| 0 <= i < s.len() ==> model_name_char_ok(#[trigger] s[i])
    &&& is_alphanumeric_spec(s[0])
    &&& is_alphanumeric_spec(s[s.len() - 1])
}

/// Accepts exactly the well-formed model names; every rejection is a
/// configuration error.
pub fn validate_model_name(name: &str) -> (r: AppResult<()>)
    ensures
        r is Ok <==> valid_model_name(name@, name.spec_bytes().len() as usize as int),
        r matches Err(e) ==> e is ConfigError,
{
    let n = name.unicode_len();
    if n == 0 {
        return Err(AppError::ConfigError("Model name cannot be empty".to_owned()));
    }
    if name.len() > 100 {
        return Err(
            AppError::ConfigError("Model name too long (maximum 100 characters)".to_owned()),
        );
    }
    let mut i: usize = 0;
    while i < n
        invariant
            n == name@.len(),
            i <= n,
            forall|t: int| 0 <= t < i ==> model_name_char_ok(#[trigger] name@[t]),
        decreases n - i,
    {
        let c = name.get_char(i);
        let ok = c.is_alphanumeric() || c == ':' || c == '-' || c == '_' || c == '.';
        if !ok {
            return Err(
                AppError::ConfigError(
                    "Model name contains invalid characters. Only letters, numbers, colons (:), hyphens (-), underscores (_), and dots (.) are allowed".to_owned(),
                ),
            );
        }
        i = i + 1;
    }
    if !name.get_char(0).is_alphanumeric() {
        return Err(
            AppError::ConfigError("Model name must start with a letter or number".to_owned()),
        );
    }
    if !name.get_char(n - 1).is_alphanumeric() {
        return Err(
            AppError::ConfigError("Model name must end with a letter or number".to_owned()),
        );
    }
    Ok(())
}

/// A character a chat message may contain: anything but a control character,
/// except the usual newline, carriage-return and tab.
pub open spec fn message_char_ok(c: char) -> bool {
    !is_control_spec(c) || c == '\n' || c == '\r' || c == '\t'
}

/// Well-formed message content: not whitespace-only, at most 10000 bytes, and
/// free of disallowed control characters.
pub open spec fn valid_message_content(s: Seq<char>, byte_len: int) -> bool {
    &&& trim_spec(s).len() > 0
    &&& byte_len <= 10000
    &&& forall|i: int| 0 <= i < s.len() ==> message_char_ok(#[trigger] s[i])
}

/// Accepts exactly the well-formed message contents; every rejection is a
/// configuration error.
pub fn validate_message_content(content: &str) -> (r: AppResult<()>)
    ensures
        r is Ok <==> valid_message_content(content@, content.spec_bytes().len() as usize as int),
        r matches Err(e) ==> e is ConfigError,
{
    let trimmed = trim_str(content);
    if trimmed.as_str().unicode_len() == 0 {
        return Err(
            AppError::ConfigError(
                "Message cannot be empty or contain only whitespace".to_owned(),
            ),
        );
    }
    if content.len() > 10000 {
        return Err(
            AppError::ConfigError("Message too long (maximum 10,000 characters)".to_owned()),
        );
    }
    let n = content.unicode_len();
    let mut i: usize = 0;
    while i < n
        invariant
            n == content@.len(),
            i <= n,
            forall|t: int| 0 <= t < i ==> message_char_ok(#[trigger] content@[t]),
        decreases n - i,
    {
        let c = content.get_char(i);
        if is_control_char(c) && !(c == '\n' || c == '\r' || c == '\t') {
            return Err(
                AppError::ConfigError("Message contains invalid control characters".to_owned()),
            );
        }
        i = i + 1;
    }
    Ok(())
}

} // verus!
