use vstd::prelude::*;

use crate::configuration::Configuration;

verus! {

/// The verbosity levels, from the least detailed to the most detailed.
#[derive(Debug, Clone, Copy, PartialEq, Eq, Structural)]
pub enum LogLevel {
    Error,
    Warn,
    Info,
    Debug,
    Trace,
}

/// `c` with an ASCII capital letter turned into its small letter.
pub open spec fn ascii_lower(c: char) -> char {
    if 65 <= (c as int) <= 90 {
        ((c as int) + 32) as char
    } else {
        c
    }
}

/// `a` and `b` are equal up to the case of ASCII letters
/// (`str::eq_ignore_ascii_case`).
pub open spec fn same_ignoring_ascii_case(a: Seq<char>, b: Seq<char>) -> bool {
    &&& a.len() == b.len()
    &&& forall|i: int| 0 <= i < a.len() ==> ascii_lower(#[trigger] a[i]) == ascii_lower(b[i])
}

/// The level number that a text names as a number: an optional `+`, then
/// only digits, whose value is 1 to 5 (so any leading zeros, then one digit
/// from 1 to 5). This is how `usize` parsing reads a number, restricted to
/// the values that name a level.
pub open spec fn level_number_text(text: Seq<char>) -> Option<u8> {
    let digits = if text.len() > 0 && text[0] == '+' {
        text.drop_first()
    } else {
        text
    };
    if digits.len() > 0 && (forall|i: int| 0 <= i < digits.len() - 1 ==> #[trigger] digits[i]
        == '0') && 49 <= (digits.last() as int) <= 53 {
        Some(((digits.last() as int) - 48) as u8)
    } else {
        None
    }
}

/// The level number that a text names by name, ignoring ASCII case.
pub open spec fn level_name_text(text: Seq<char>) -> Option<u8> {
    if same_ignoring_ascii_case(text, "error"@) {
        Some(1)
    } else if same_ignoring_ascii_case(text, "warn"@) {
        Some(2)
    } else if same_ignoring_ascii_case(text, "info"@) {
        Some(3)
    } else if same_ignoring_ascii_case(text, "debug"@) {
        Some(4)
    } else if same_ignoring_ascii_case(text, "trace"@) {
        Some(5)
    } else {
        None
    }
}

/// The level that `tracing` reads from a text, by its own numbering
/// (1 error, 2 warn, 3 info, 4 debug, 5 trace): first as a number, then as a
/// name; `None` when it reads neither.
pub open spec fn level_from_text(text: Seq<char>) -> Option<u8> {
    match level_number_text(text) {
        Some(n) => Some(n),
        None => level_name_text(text),
    }
}

/// `<tracing::Level as FromStr>::from_str`, with the level it returns given by
/// number. Its source first parses the text as a `usize` (std documents the
/// accepted form: an optional `+` followed by digits only) and accepts the
/// values 1 to 5, then compares the text with the five level names by
/// `eq_ignore_ascii_case`; everything else is refused.
#[verifier::external_body]
fn parse_level(text: &str) -> (r: Option<u8>)
    ensures
        r == level_from_text(text@),
{
    match text.parse::<tracing::Level>() {
        Ok(tracing::Level::ERROR) => Some(1),
        Ok(tracing::Level::WARN) => Some(2),
        Ok(tracing::Level::INFO) => Some(3),
        Ok(tracing::Level::DEBUG) => Some(4),
        Ok(_) => Some(5),
        Err(_) => None,
    }
}

/// The level that a parse result selects: the level with that number, and
/// `Info` when nothing was read.
pub open spec fn level_for(parsed: Option<u8>) -> LogLevel {
    match parsed {
        Some(1) => LogLevel::Error,
        Some(2) => LogLevel::Warn,
        Some(4) => LogLevel::Debug,
        Some(5) => LogLevel::Trace,
        _ => LogLevel::Info,
    }
}

/// Turns the result of reading a level into the level to log at; an
/// unreadable level falls back to `Info`.
pub fn level_or_info(parsed: Option<u8>) -> (r: LogLevel)
    ensures
        r == level_for(parsed),
{
    match parsed {
        Some(1) => LogLevel::Error,
        Some(2) => LogLevel::Warn,
        Some(4) => LogLevel::Debug,
        Some(5) => LogLevel::Trace,
        _ => LogLevel::Info,
    }
}

/// The default verbosity of the log: the level named in the configuration,
/// or `Info` when it names none.
pub fn default_level(cfg: &Configuration) -> (r: LogLevel)
    ensures
        r == level_for(level_from_text(cfg.logging.level@)),
        same_ignoring_ascii_case(cfg.logging.level@, "error"@) ==> r == LogLevel::Error,
        same_ignoring_ascii_case(cfg.logging.level@, "warn"@) ==> r == LogLevel::Warn,
        same_ignoring_ascii_case(cfg.logging.level@, "info"@) ==> r == LogLevel::Info,
        same_ignoring_ascii_case(cfg.logging.level@, "debug"@) ==> r == LogLevel::Debug,
        same_ignoring_ascii_case(cfg.logging.level@, "trace"@) ==> r == LogLevel::Trace,
{
    proof {
        let text = cfg.logging.level@;
        reveal_strlit("error");
        reveal_strlit("warn");
        reveal_strlit("info");
        reveal_strlit("debug");
        reveal_strlit("trace");
        if text.len() > 0 {
            assert(ascii_lower(text[0]) == ascii_lower(text[0]));
            assert(ascii_lower(text[text.len() - 1]) == ascii_lower(text[text.len() - 1]));
        }
        lemma_name_is_not_number(text, "error"@);
        lemma_name_is_not_number(text, "warn"@);
        lemma_name_is_not_number(text, "info"@);
        lemma_name_is_not_number(text, "debug"@);
        lemma_name_is_not_number(text, "trace"@);
    }
    level_or_info(parse_level(cfg.logging.level.as_str()))
}

/// A text that spells a name ending in a small letter is not a number.
proof fn lemma_name_is_not_number(text: Seq<char>, name: Seq<char>)
    ensures
        same_ignoring_ascii_case(text, name) && name.len() > 0 && 97 <= (name.last() as int)
            <= 122 ==> level_number_text(text) is None,
{
    if same_ignoring_ascii_case(text, name) && name.len() > 0 && 97 <= (name.last() as int)
        <= 122 {
        let last = text.len() - 1;
        assert(ascii_lower(text[last]) == ascii_lower(name[last]));
        let digits = if text.len() > 0 && text[0] == '+' {
            text.drop_first()
        } else {
            text
        };
        if digits.len() > 0 {
            assert(digits.last() == text[last]);
        }
    }
}

/// The level chosen from a text is the level that `tracing` reads from it,
/// with `tracing`'s numbering (1 error, 2 warn, 3 info, 4 debug, 5 trace), and
/// `Info` when it reads none.
pub proof fn lemma_level_choice(text: Seq<char>)
    ensures
        level_from_text(text) is None ==> level_for(level_from_text(text)) == LogLevel::Info,
        level_from_text(text) == Some(1u8) ==> level_for(level_from_text(text)) == LogLevel::Error,
        level_from_text(text) == Some(2u8) ==> level_for(level_from_text(text)) == LogLevel::Warn,
        level_from_text(text) == Some(3u8) ==> level_for(level_from_text(text)) == LogLevel::Info,
        level_from_text(text) == Some(4u8) ==> level_for(level_from_text(text)) == LogLevel::Debug,
        level_from_text(text) == Some(5u8) ==> level_for(level_from_text(text)) == LogLevel::Trace,
{
}

} // verus!
