//! What the program says about itself: where it logs, and how it ended.
use crate::text::{decimal, decimal_text, is_numeral, law_decimal_reads_back, value_of};
use vstd::prelude::*;
use vstd::string::StringExecFns;

verus! {

/// The name of the log file of a program that was started so many nanoseconds after the epoch.
pub open spec fn log_name(nanos: nat) -> Seq<char> {
    "vosd---6f983a64f4c2705fb802aa8ed3942f23---"@ + decimal(nanos)
}

/// The name of the log file of a program that was started so many nanoseconds after the epoch.
pub fn log_file_name(nanos: u128) -> (name: String)
    ensures
        name@ == log_name(nanos as nat),
        "vosd---6f983a64f4c2705fb802aa8ed3942f23---"@.is_prefix_of(name@),
        is_numeral(name@.skip("vosd---6f983a64f4c2705fb802aa8ed3942f23---"@.len() as int)),
        value_of(name@.skip("vosd---6f983a64f4c2705fb802aa8ed3942f23---"@.len() as int)) == nanos,
{
    proof {
        law_log_name_reads_back(nanos as nat);
    }
    "vosd---6f983a64f4c2705fb802aa8ed3942f23---".to_owned().concat(decimal_text(nanos).as_str())
}

/// The time of the start reads back from the name of the log file.
pub proof fn law_log_name_reads_back(nanos: nat)
    ensures
        ({
            let start = "vosd---6f983a64f4c2705fb802aa8ed3942f23---"@;
            let numeral = log_name(nanos).skip(start.len() as int);
            &&& start.is_prefix_of(log_name(nanos))
            &&& is_numeral(numeral)
            &&& value_of(numeral) == nanos
        }),
{
    let start = "vosd---6f983a64f4c2705fb802aa8ed3942f23---"@;
    law_decimal_reads_back(nanos);
    assert(log_name(nanos).skip(start.len() as int) =~= decimal(nanos));
    assert(log_name(nanos).subrange(0, start.len() as int) =~= start);
}

/// The line that stands above and below the text of an error.
pub open spec fn separator() -> Seq<char> {
    "================================================================================"@
}

/// What is said at the end of a program that met with an error, or with none.
pub open spec fn closing_words(error: Option<Seq<char>>) -> Seq<char> {
    match error {
        Some(text) => "(vosd) >>>\nError occurred, program exiting\n"@ + separator() + "\n"@ + text
            + "\n"@ + separator(),
        None => "(vosd) No error occurred, program exiting"@,
    }
}

/// What is said at the end of a program that met with an error, or with none, and the result it
/// ends with.
pub fn exit_report(error: Option<&str>) -> (report: (String, Result<(), i32>))
    ensures
        report.0@ == closing_words(
            match error {
                Some(text) => Some(text@),
                None => None,
            },
        ),
        report.1 == (if error is Some {
            Err::<(), i32>(1)
        } else {
            Ok::<(), i32>(())
        }),
{
    match error {
        Some(text) => {
            let separator = "================================================================================";
            let words = "(vosd) >>>\nError occurred, program exiting\n".to_owned().concat(
                separator,
            ).concat("\n").concat(text).concat("\n").concat(separator);
            (words, Err(1))
        },
        None => ("(vosd) No error occurred, program exiting".to_owned(), Ok(())),
    }
}

/// The text of an error stands in the closing words as it is, on lines of its own between two
/// lines of eighty equals signs, after the first words. Without an error there is one line.
pub proof fn law_closing_words_hold_error(text: Seq<char>)
    ensures
        ({
            let first = "(vosd) >>>\nError occurred, program exiting\n"@;
            let words = closing_words(Some(text));
            let below = first.len() + 81;
            &&& words.len() == first.len() + text.len() + 162
            &&& first.is_prefix_of(words)
            &&& forall|i: int|
                0 <= i < 80 ==> #[trigger] words[first.len() + i] == '=' && words[below + text.len()
                    + 1 + i] == '='
            &&& words[below - 1] == '\n'
            &&& words.subrange(below as int, (below + text.len()) as int) == text
            &&& words[(below + text.len()) as int] == '\n'
        }),
        closing_words(None) == "(vosd) No error occurred, program exiting"@,
{
    let first = "(vosd) >>>\nError occurred, program exiting\n"@;
    let words = closing_words(Some(text));
    let below = first.len() + 81;
    reveal_strlit(
        "================================================================================",
    );
    reveal_strlit("\n");
    assert(words.subrange(0, first.len() as int) =~= first);
    assert(words.subrange(below as int, (below + text.len()) as int) =~= text);
    assert forall|i: int| 0 <= i < 80 implies #[trigger] words[first.len() + i] == '='
        && words[below + text.len() + 1 + i] == '=' by {
        assert(words[first.len() + i] == separator()[i]);
        assert(words[below + text.len() + 1 + i] == separator()[i]);
    }
}

} // verus!
