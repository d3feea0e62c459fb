use chrono::{DateTime, NaiveDateTime, Utc};
use vstd::prelude::*;

verus! {

/// A point in time as the services exchange it: whole seconds since the
/// Unix epoch and the nanoseconds past that second.
#[derive(Debug, Clone, Copy, PartialEq, Eq, Structural)]
pub struct Timestamp {
    pub seconds: i64,
    pub nanos: i32,
}

/// The first second that chrono can represent (1 January of year -262143).
pub open spec fn earliest_second() -> int {
    -8_334_601_228_800
}

/// The last second that chrono can represent (31 December of year 262142).
pub open spec fn latest_second() -> int {
    8_210_266_876_799
}

/// Whether chrono accepts `seconds` and `nanos` as a point in time: the
/// second lies in its range, the nanoseconds stay under two seconds, and
/// nanoseconds of a second or more (a leap second) only come after the
/// 59th second of a minute.
pub open spec fn chrono_accepts(seconds: int, nanos: int) -> bool {
    &&& earliest_second() <= seconds <= latest_second()
    &&& nanos < 2_000_000_000
    &&& nanos >= 1_000_000_000 ==> seconds % 60 == 59
}

/// The RFC 3339 text that chrono gives for the UTC point in time `seconds`
/// and `nanos` after the Unix epoch.
pub uninterp spec fn utc_rfc3339(seconds: i64, nanos: u32) -> Seq<char>;

/// chrono's `NaiveDateTime::from_timestamp_opt`, with the result put in UTC
/// by `DateTime::<Utc>::from_utc` and written by `DateTime::to_rfc3339`.
/// Trusted: chrono gives a value exactly when its `DateTime::from_timestamp`
/// range and nanosecond checks pass (as `chrono_accepts` states them), and
/// that the text is a function of the two numbers alone. What the text is
/// is not stated.
#[allow(deprecated)]
#[verifier::external_body]
fn rfc3339_from_unix(seconds: i64, nanos: u32) -> (text: Option<String>)
    ensures
        text.is_some() <==> chrono_accepts(seconds as int, nanos as int),
        text matches Some(t) ==> t@ == utc_rfc3339(seconds, nanos),
{
    match NaiveDateTime::from_timestamp_opt(seconds, nanos) {
        Some(naive) => Some(DateTime::<Utc>::from_utc(naive, Utc).to_rfc3339()),
        None => None,
    }
}

/// The text for a timestamp that chrono rendered as `rendered`, or that it
/// refused (`None`).
pub open spec fn rendering_text(rendered: Option<Seq<char>>) -> Seq<char> {
    match rendered {
        Some(text) => text,
        None => "Invalid timestamp"@,
    }
}

/// The text that describes an optional timestamp.
pub open spec fn timestamp_text(timestamp: Option<Timestamp>) -> Seq<char> {
    match timestamp {
        None => "No timestamp provided"@,
        Some(ts) => rendering_text(
            if chrono_accepts(ts.seconds as int, ts.nanos as u32 as int) {
                Some(utc_rfc3339(ts.seconds, ts.nanos as u32))
            } else {
                None
            },
        ),
    }
}

/// The text for a timestamp once chrono has rendered it, or refused it.
pub fn describe_rendering(rendered: Option<String>) -> (text: String)
    ensures
        text@ == rendering_text(
            match rendered {
                Some(r) => Some(r@),
                None => None,
            },
        ),
{
    match rendered {
        Some(text) => text,
        None => "Invalid timestamp".to_owned(),
    }
}

/// Describes an optional timestamp: its RFC 3339 form in UTC, or a note
/// that it is missing or out of chrono's range. The nanoseconds are read
/// as an unsigned number, so a negative count is out of range.
pub fn timestamp_to_string(timestamp: Option<Timestamp>) -> (text: String)
    ensures
        text@ == timestamp_text(timestamp),
        timestamp is None ==> text@ == "No timestamp provided"@,
        timestamp matches Some(ts) ==> (chrono_accepts(ts.seconds as int, ts.nanos as u32 as int)
            ==> text@ == utc_rfc3339(ts.seconds, ts.nanos as u32)),
        timestamp matches Some(ts) ==> (!chrono_accepts(ts.seconds as int, ts.nanos as u32 as int)
            ==> text@ == "Invalid timestamp"@),
{
    match timestamp {
        Some(ts) => describe_rendering(rfc3339_from_unix(ts.seconds, ts.nanos as u32)),
        None => "No timestamp provided".to_owned(),
    }
}

/// The character for the decimal digit `d`.
pub open spec fn digit_char(d: int) -> char {
    (d + 48) as char
}

/// The decimal digits of `n`, most significant first, without leading
/// zeros.
pub open spec fn decimal_digits(n: nat) -> Seq<char>
    decreases n,
{
    if n < 10 {
        seq![digit_char(n as int)]
    } else {
        decimal_digits(n / 10).push(digit_char((n % 10) as int))
    }
}

/// The decimal text of `n`, with a leading `-` when it is negative.
pub open spec fn decimal_text(n: int) -> Seq<char> {
    if n < 0 {
        seq!['-'] + decimal_digits((-n) as nat)
    } else {
        decimal_digits(n as nat)
    }
}

/// The text of the decimal digit `d`.
fn digit_text(d: u32) -> (text: &'static str)
    requires
        d < 10,
    ensures
        text@ == seq![digit_char(d as int)],
{
    proof {
        reveal_strlit("0");
        reveal_strlit("1");
        reveal_strlit("2");
        reveal_strlit("3");
        reveal_strlit("4");
        reveal_strlit("5");
        reveal_strlit("6");
        reveal_strlit("7");
        reveal_strlit("8");
        reveal_strlit("9");
    }
    let text = match d {
        0 => "0",
        1 => "1",
        2 => "2",
        3 => "3",
        4 => "4",
        5 => "5",
        6 => "6",
        7 => "7",
        8 => "8",
        _ => "9",
    };
    assert(text@ =~= seq![digit_char(d as int)]);
    text
}

/// The decimal digits of `n`.
fn natural_decimal(n: u32) -> (text: String)
    ensures
        text@ == decimal_digits(n as nat),
    decreases n,
{
    if n < 10 {
        digit_text(n).to_owned()
    } else {
        let mut text = natural_decimal(n / 10);
        text.append(digit_text(n % 10));
        assert(text@ =~= decimal_digits((n / 10) as nat).push(digit_char((n % 10) as int)));
        text
    }
}

/// The decimal text of `n`, as `i32::to_string` writes it.
fn i32_to_decimal(n: i32) -> (text: String)
    ensures
        text@ == decimal_text(n as int),
{
    if n < 0 {
        let magnitude = (-(n as i64)) as u32;
        proof { reveal_strlit("-"); }
        let mut text = "-".to_owned();
        let digits = natural_decimal(magnitude);
        text.append(digits.as_str());
        assert(text@ =~= seq!['-'] + decimal_digits((-n) as nat));
        text
    } else {
        natural_decimal(n as u32)
    }
}

/// The acknowledgement that the broker sends back for a published event.
pub open spec fn publish_ack_text(event_name: Seq<char>, timestamp: Option<Timestamp>, number: i32) -> Seq<char> {
    "successfully rx event with name "@ + event_name + " and timestamp "@ + timestamp_text(timestamp)
        + " and number "@ + decimal_text(number as int)
}

/// The acknowledgement for a published event with this name, timestamp
/// and number.
pub fn publish_ack_message(event_name: &String, timestamp: Option<Timestamp>, number: i32) -> (text: String)
    ensures
        text@ == publish_ack_text(event_name@, timestamp, number),
{
    let mut text = "successfully rx event with name ".to_owned();
    text.append(event_name.as_str());
    text.append(" and timestamp ");
    let when = timestamp_to_string(timestamp);
    text.append(when.as_str());
    text.append(" and number ");
    let digits = i32_to_decimal(number);
    text.append(digits.as_str());
    text
}

/// The value of a text of decimal digits, read most significant first,
/// each character counting as its code minus the code of `0`.
pub open spec fn digits_value(text: Seq<char>) -> int
    decreases text.len(),
{
    if text.len() == 0 {
        0
    } else {
        digits_value(text.drop_last()) * 10 + ((text.last() as u32) as int - 48)
    }
}

/// Whether every character of `text` is one of `0` to `9`.
pub open spec fn all_digits(text: Seq<char>) -> bool {
    forall|i: int| 0 <= i < text.len() ==> 48 <= #[trigger] (text[i] as u32) <= 57
}

/// The decimal digits of `n` name `n`: they are all digits `0` to `9`,
/// there is at least one, read back in base 10 they give `n`, and they
/// have no leading zero (the only text that starts with `0` is `0` itself).
pub proof fn lemma_decimal_digits_name_the_number(n: nat)
    ensures
        decimal_digits(n).len() >= 1,
        all_digits(decimal_digits(n)),
        digits_value(decimal_digits(n)) == n,
        n > 0 ==> (decimal_digits(n)[0] as u32) != 48,
        n == 0 ==> decimal_digits(n) == seq!['0'],
    decreases n,
{
    if n < 10 {
        let c = digit_char(n as int);
        assert((c as u32) == n + 48);
        assert(decimal_digits(n) =~= seq![c]);
        assert(decimal_digits(n).drop_last() =~= Seq::<char>::empty());
        assert(digits_value(Seq::<char>::empty()) == 0);
        assert(digits_value(decimal_digits(n)) == digits_value(Seq::<char>::empty()) * 10 + ((c as u32) as int - 48));
        if n == 0 {
            assert(c == '0');
        }
    } else {
        lemma_decimal_digits_name_the_number(n / 10);
        let prefix = decimal_digits(n / 10);
        let c = digit_char((n % 10) as int);
        assert((c as u32) == n % 10 + 48);
        assert(decimal_digits(n) == prefix.push(c));
        assert(decimal_digits(n).drop_last() =~= prefix);
        assert(decimal_digits(n)[0] == prefix[0]);
        assert forall|i: int| 0 <= i < decimal_digits(n).len() implies 48 <= #[trigger] (decimal_digits(n)[i] as u32) <= 57 by {
            if i < prefix.len() {
                assert(decimal_digits(n)[i] == prefix[i]);
            }
        }
        assert(n == (n / 10) * 10 + n % 10) by {
            vstd::arithmetic::div_mod::lemma_fundamental_div_mod(n as int, 10);
        }
        assert(digits_value(decimal_digits(n)) == digits_value(prefix) * 10 + ((c as u32) as int - 48));
    }
}

/// The decimal text of a number names it: a non-negative number is its
/// decimal digits; a negative one is `-` followed by the digits of its
/// magnitude.
pub proof fn lemma_decimal_text_names_the_number(n: int)
    ensures
        n >= 0 ==> all_digits(decimal_text(n)) && digits_value(decimal_text(n)) == n,
        n < 0 ==> {
            &&& decimal_text(n)[0] == '-'
            &&& all_digits(decimal_text(n).drop_first())
            &&& digits_value(decimal_text(n).drop_first()) == -n
            &&& (decimal_text(n)[1] as u32) != 48
        },
{
    if n >= 0 {
        lemma_decimal_digits_name_the_number(n as nat);
    } else {
        lemma_decimal_digits_name_the_number((-n) as nat);
        assert(decimal_text(n).drop_first() =~= decimal_digits((-n) as nat));
    }
}

/// How a timestamp is described: a missing one says so, one that chrono
/// accepts is chrono's RFC 3339 text for exactly its seconds and
/// nanoseconds, and only one that chrono refuses is called invalid.
pub proof fn lemma_timestamp_text_cases(ts: Timestamp)
    ensures
        timestamp_text(None) == "No timestamp provided"@,
        chrono_accepts(ts.seconds as int, ts.nanos as u32 as int) ==> timestamp_text(Some(ts)) == utc_rfc3339(
            ts.seconds,
            ts.nanos as u32,
        ),
        !chrono_accepts(ts.seconds as int, ts.nanos as u32 as int) ==> timestamp_text(Some(ts)) == "Invalid timestamp"@,
{
}

} // verus!
