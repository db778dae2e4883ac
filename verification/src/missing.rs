//! Turning an absent value into an error.
use vstd::prelude::*;
use vstd::string::StringExecFns;

verus! {

/// A value was absent.
#[derive(Clone, Copy, Debug, PartialEq, Eq, Structural)]
pub struct MissingValue;

/// The text that reports the absence of a value of the type that goes by the given name.
pub open spec fn missing_value_text(of_type: Seq<char>) -> Seq<char> {
    "Value is missing (type `"@ + of_type + "`)"@
}

impl MissingValue {
    /// The text that reports the absence of a value of the type that goes by the given name.
    pub fn message(&self, of_type: &str) -> (text: String)
        ensures
            text@ == missing_value_text(of_type@),
    {
        "Value is missing (type `".to_owned().concat(of_type).concat("`)")
    }
}

/// The name of the type stands in the text as it is, between the same words whatever it is.
pub proof fn law_text_names_type(of_type: Seq<char>)
    ensures
        ({
            let start = "Value is missing (type `"@;
            let text = missing_value_text(of_type);
            let past = start.len() + of_type.len();
            &&& start.is_prefix_of(text)
            &&& text.subrange(start.len() as int, past as int) == of_type
            &&& text.skip(past as int) == "`)"@
        }),
{
    let start = "Value is missing (type `"@;
    let text = missing_value_text(of_type);
    let past = start.len() + of_type.len();
    assert(text.subrange(0, start.len() as int) =~= start);
    assert(text.subrange(start.len() as int, past as int) =~= of_type);
    assert(text.skip(past as int) =~= "`)"@);
}

/// Optional values that can be turned into results.
pub trait OptionToResultExt<T> {
    /// The value, or the error that it is missing.
    fn to_result(self) -> Result<T, MissingValue>;
}

impl<T> OptionToResultExt<T> for Option<T> {
    /// The value, or the error that it is missing. The name of its type, which belongs in the
    /// text of the error, is for the caller to supply.
    fn to_result(self) -> (result: Result<T, MissingValue>)
        ensures
            match self {
                Some(value) => result == Ok::<T, MissingValue>(value),
                None => result == Err::<T, MissingValue>(MissingValue),
            },
    {
        match self {
            Some(value) => Ok(value),
            None => Err(MissingValue),
        }
    }
}

} // verus!
