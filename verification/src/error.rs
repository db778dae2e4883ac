//! Why the program gives up.
use crate::missing::{law_text_names_type, missing_value_text, MissingValue};
use vstd::prelude::*;

verus! {

/// What is wrong with the report on one channel of a sink.
#[derive(Clone, Copy, Debug, PartialEq, Eq, Structural)]
pub enum ChannelFault {
    /// The report is not an object.
    NotAnObject,
    /// The report has no volume value.
    NoValue,
    /// The volume value is not an integer that fits in 64 bits without sign.
    NotUnsigned,
}

/// Why the program gives up.
#[derive(Clone, Copy, Debug, PartialEq, Eq, Structural)]
pub enum Error {
    /// The report on a channel of the default output sink lacks something.
    Channel(ChannelFault),
    /// No sinks were listed, however often they were asked for.
    NoSinks,
    /// None of the listed sinks is the default output sink.
    NoDefaultSink,
    /// The stream of events came to its end.
    SubscriptionEnded,
    /// The volume is no number that an icon could stand for.
    NoIcon,
}

impl Error {
    /// The text that reports this error. Where it is that a value is missing, `of_type` is the
    /// name of that value's type.
    pub open spec fn text(self, of_type: Seq<char>) -> Seq<char> {
        match self {
            Error::Channel(_) => missing_value_text(of_type),
            Error::NoSinks => "Could not list sinks"@,
            Error::NoDefaultSink => "Could not identify default output sink"@,
            Error::SubscriptionEnded => "\"pactl subscribe\" stdout signalled EOF"@,
            Error::NoIcon => "This should be unreachable"@,
        }
    }

    /// The text that reports this error. Where it is that a value is missing, `of_type` is the
    /// name of that value's type.
    pub fn message(&self, of_type: &str) -> (text: String)
        ensures
            text@ == self.text(of_type@),
    {
        match *self {
            Error::Channel(_) => MissingValue.message(of_type),
            Error::NoSinks => "Could not list sinks".to_owned(),
            Error::NoDefaultSink => "Could not identify default output sink".to_owned(),
            Error::SubscriptionEnded => "\"pactl subscribe\" stdout signalled EOF".to_owned(),
            Error::NoIcon => "This should be unreachable".to_owned(),
        }
    }
}

/// Every error has the words that are its own: a fault in the report on a channel is told as a
/// missing value that names its type, and the other errors do not speak of a type at all.
pub proof fn law_texts_of_errors(fault: ChannelFault, of_type: Seq<char>)
    ensures
        ({
            let start = "Value is missing (type `"@;
            let text = Error::Channel(fault).text(of_type);
            let past = start.len() + of_type.len();
            &&& start.is_prefix_of(text)
            &&& text.subrange(start.len() as int, past as int) == of_type
            &&& text.skip(past as int) == "`)"@
        }),
        Error::NoSinks.text(of_type) == "Could not list sinks"@,
        Error::NoDefaultSink.text(of_type) == "Could not identify default output sink"@,
        Error::SubscriptionEnded.text(of_type) == "\"pactl subscribe\" stdout signalled EOF"@,
        Error::NoIcon.text(of_type) == "This should be unreachable"@,
{
    law_text_names_type(of_type);
}

} // verus!
