//! The texts and the weather symbol that are drawn on the board.

use chrono::Timelike;
use substring::Substring;
use vstd::prelude::*;
use vstd::utf8::{encode_utf8, is_char_boundary};
use crate::text::{
    chars_of, decimal, decimal_of, has_infix, lemma_replaced_len, lemma_replaced_without_match,
    replace_all, replaced, string_of,
    two_digits, two_digits_of, utf8_byte_len,
};

verus! {

broadcast use vstd::utf8::encode_utf8_valid_utf8;

/// Longest station name, in bytes, that is drawn as it is.
pub const STATION_MAX_BYTES: usize = 13;

/// Bytes that are kept of a station name still too long after shortening.
pub const STATION_CLIP_BYTES: usize = 12;

/// Bytes of the UTF-8 encoding of `s`.
pub open spec fn utf8_len(s: Seq<char>) -> int {
    encode_utf8(s).len() as int
}

/// A station name with the usual abbreviations applied, in this order:
/// "Straße" to "Str", "straße" to "str", "Platz" to "Pl", "platz" to "pl",
/// "Hauptbahnhof" to "Hbf", "Bahnhof" to "Bf".
pub open spec fn abbreviated(s: Seq<char>) -> Seq<char> {
    replaced(
        replaced(
            replaced(
                replaced(replaced(replaced(s, "Straße"@, "Str"@), "straße"@, "str"@), "Platz"@, "Pl"@),
                "platz"@,
                "pl"@,
            ),
            "Hauptbahnhof"@,
            "Hbf"@,
        ),
        "Bahnhof"@,
        "Bf"@,
    )
}

/// The station name after the abbreviations, which only apply to names
/// longer than `STATION_MAX_BYTES` bytes.
pub open spec fn shortened_station(s: Seq<char>) -> Seq<char> {
    if utf8_len(s) > STATION_MAX_BYTES {
        abbreviated(s)
    } else {
        s
    }
}

/// Whether the station label can be made: a name still too long after the
/// abbreviations is cut after `STATION_CLIP_BYTES` bytes, which must end a
/// character.
pub open spec fn station_label_defined(s: Seq<char>) -> bool {
    utf8_len(shortened_station(s)) > STATION_MAX_BYTES ==> is_char_boundary(
        encode_utf8(shortened_station(s)),
        STATION_CLIP_BYTES as int,
    )
}

/// UTF-8 bytes of the station label: the shortened name, cut to its first
/// `STATION_CLIP_BYTES` bytes when it is still longer than
/// `STATION_MAX_BYTES` bytes.
pub open spec fn station_label_bytes(s: Seq<char>) -> Seq<u8> {
    let short = shortened_station(s);
    if utf8_len(short) > STATION_MAX_BYTES {
        encode_utf8(short).take(STATION_CLIP_BYTES as int)
    } else {
        encode_utf8(short)
    }
}

/// Whether the label of this station name can be made, see
/// `station_label_defined`.
pub fn station_label_is_defined(station: &str) -> (r: bool)
    ensures
        r == station_label_defined(station@),
{
    let short = shorten_station(station);
    let s = string_of(&short);
    if utf8_byte_len(&short) > STATION_MAX_BYTES as u128 {
        s.as_str().is_char_boundary(STATION_CLIP_BYTES)
    } else {
        true
    }
}

/// The characters of `shortened_station(station@)`.
fn shorten_station(station: &str) -> (r: Vec<char>)
    ensures
        r@ == shortened_station(station@),
{
    let chars = chars_of(station);
    if utf8_byte_len(&chars) <= STATION_MAX_BYTES as u128 {
        return chars;
    }
    proof {
        reveal_strlit("Straße");
        reveal_strlit("straße");
        reveal_strlit("Platz");
        reveal_strlit("platz");
        reveal_strlit("Hauptbahnhof");
        reveal_strlit("Bahnhof");
    }
    let s1 = replace_all(&chars, &chars_of("Straße"), &chars_of("Str"));
    let s2 = replace_all(&s1, &chars_of("straße"), &chars_of("str"));
    let s3 = replace_all(&s2, &chars_of("Platz"), &chars_of("Pl"));
    let s4 = replace_all(&s3, &chars_of("platz"), &chars_of("pl"));
    let s5 = replace_all(&s4, &chars_of("Hauptbahnhof"), &chars_of("Hbf"));
    replace_all(&s5, &chars_of("Bahnhof"), &chars_of("Bf"))
}

/// The station name as it is drawn beside a departure time.
pub fn station_label(station: &str) -> (r: String)
    requires
        station_label_defined(station@),
    ensures
        encode_utf8(r@) == station_label_bytes(station@),
        utf8_len(r@) <= STATION_MAX_BYTES,
{
    let short = shorten_station(station);
    let s = string_of(&short);
    if utf8_byte_len(&short) > STATION_MAX_BYTES as u128 {
        let (head, _tail) = s.as_str().split_at(STATION_CLIP_BYTES);
        head.to_owned()
    } else {
        s
    }
}

/// The text for the time until a departure `diff` seconds away: "sofort"
/// under a minute, else the whole minutes followed by "min".
pub open spec fn departure_text(diff: int) -> Seq<char> {
    if diff < 60 {
        "sofort"@
    } else {
        decimal((diff / 60) as nat) + "min"@
    }
}

/// The text drawn for a departure `diff` seconds away.
pub fn departure_label(diff: i64) -> (r: String)
    ensures
        r@ == departure_text(diff as int),
{
    if diff < 60 {
        return string_of(&chars_of("sofort"));
    }
    let mut v = decimal_of((diff / 60) as u64);
    let mut unit = chars_of("min");
    v.append(&mut unit);
    string_of(&v)
}

/// The clock text for a time of day: hours, minutes and seconds, two digits
/// each, separated by ':'.
pub open spec fn clock_text(hour: nat, minute: nat, second: nat) -> Seq<char> {
    two_digits(hour) + ":"@ + two_digits(minute) + ":"@ + two_digits(second)
}

/// The clock text for a time of day ("HH:MM:SS").
pub fn format_clock(hour: u32, minute: u32, second: u32) -> (r: String)
    ensures
        r@ == clock_text(hour as nat, minute as nat, second as nat),
{
    let mut v = two_digits_of(hour as u64);
    let mut colon = chars_of(":");
    let mut m = two_digits_of(minute as u64);
    let mut colon2 = chars_of(":");
    let mut s = two_digits_of(second as u64);
    v.append(&mut colon);
    v.append(&mut m);
    v.append(&mut colon2);
    v.append(&mut s);
    string_of(&v)
}

/// Hour, minute and second on the wall clocks of Berlin at the UNIX time
/// `timestamp`, if chrono can represent that time.
pub uninterp spec fn berlin_time_of_day(timestamp: i64) -> Option<(u32, u32, u32)>;

/// chrono's `DateTime::from_timestamp(timestamp, 0)`, taken to the time zone
/// `chrono_tz::Europe::Berlin` with `with_timezone`, read with
/// `Timelike::hour`, `minute` and `second`. chrono documents the ranges
/// 0 to 23, 0 to 59 and 0 to 59 of these three; `from_timestamp` gives
/// `None` outside the dates that chrono represents. Which hour the time zone
/// rules give is not stated: it is named by `berlin_time_of_day`.
#[verifier::external_body]
fn berlin_clock(timestamp: i64) -> (r: Option<(u32, u32, u32)>)
    ensures
        r == berlin_time_of_day(timestamp),
        r matches Some(t) ==> t.0 < 24 && t.1 < 60 && t.2 < 60,
{
    match chrono::DateTime::from_timestamp(timestamp, 0) {
        Some(utc) => {
            let local = utc.with_timezone(&chrono_tz::Europe::Berlin);
            Some((local.hour(), local.minute(), local.second()))
        },
        None => None,
    }
}

/// The clock text that the board shows at the UNIX time `timestamp`, in
/// Berlin time; `None` where chrono cannot represent the time.
pub fn clock_label(timestamp: i64) -> (r: Option<String>)
    ensures
        r matches Some(s) ==> berlin_time_of_day(timestamp) matches Some(t) && s@ == clock_text(
            t.0 as nat,
            t.1 as nat,
            t.2 as nat,
        ),
        r is None <==> berlin_time_of_day(timestamp) is None,
        r matches Some(s) ==> s@.len() == 8,
{
    match berlin_clock(timestamp) {
        Some(t) => {
            proof {
                lemma_clock_text_len(t.0 as nat, t.1 as nat, t.2 as nat);
            }
            Some(format_clock(t.0, t.1, t.2))
        },
        None => None,
    }
}

/// The weather symbols that the board can show.
#[derive(Clone, Copy, Debug, PartialEq, Eq, Structural)]
pub enum WeatherIcon {
    Sun,
    FewClouds,
    ScatteredClouds,
    BrokenClouds,
    Shower,
    Rain,
    Thunderstorm,
    Snow,
    Mist,
}

/// What `Substring::substring(start, end)` of the `substring` crate gives:
/// the characters from index `start` up to `end`, both cut to the length
/// of the text, and nothing where `end <= start`.
pub open spec fn char_substring(s: Seq<char>, start: int, end: int) -> Seq<char> {
    if end <= start {
        Seq::empty()
    } else {
        let lo = if start < s.len() { start } else { s.len() as int };
        let hi = if end < s.len() { end } else { s.len() as int };
        s.subrange(lo, hi)
    }
}

/// `Substring::substring` of the `substring` crate: the characters of `s`
/// from index `start` up to index `end`, clamped to the end of `s`, and the
/// empty string where `end <= start` (the crate's source walks
/// `char_indices` to the two positions).
#[verifier::external_body]
fn substring_chars(s: &str, start: usize, end: usize) -> (r: &str)
    ensures
        r@ == char_substring(s@, start as int, end as int),
{
    s.substring(start, end)
}

/// The symbol for a weather icon code of the weather service; only its
/// first two characters count ("01" sun, "02" few clouds, "03" scattered
/// clouds, "04" broken clouds, "09" shower, "10" rain, "11" thunderstorm,
/// "13" snow, "50" mist), any other code has none.
pub open spec fn icon_of_code(code: Seq<char>) -> Option<WeatherIcon> {
    let c = char_substring(code, 0, 2);
    if c == seq!['0', '1'] {
        Some(WeatherIcon::Sun)
    } else if c == seq!['0', '2'] {
        Some(WeatherIcon::FewClouds)
    } else if c == seq!['0', '3'] {
        Some(WeatherIcon::ScatteredClouds)
    } else if c == seq!['0', '4'] {
        Some(WeatherIcon::BrokenClouds)
    } else if c == seq!['0', '9'] {
        Some(WeatherIcon::Shower)
    } else if c == seq!['1', '0'] {
        Some(WeatherIcon::Rain)
    } else if c == seq!['1', '1'] {
        Some(WeatherIcon::Thunderstorm)
    } else if c == seq!['1', '3'] {
        Some(WeatherIcon::Snow)
    } else if c == seq!['5', '0'] {
        Some(WeatherIcon::Mist)
    } else {
        None
    }
}

/// The symbol for a weather icon code, `None` where the board has no symbol
/// for it (the board then shows the weather description instead).
pub fn weather_icon(icon: &str) -> (r: Option<WeatherIcon>)
    ensures
        r == icon_of_code(icon@),
{
    let code = chars_of(substring_chars(icon, 0, 2));
    if code.len() != 2 {
        return None;
    }
    let a = code[0];
    let b = code[1];
    proof {
        assert(code@ =~= seq![a, b]);
    }
    if a == '0' && b == '1' {
        Some(WeatherIcon::Sun)
    } else if a == '0' && b == '2' {
        Some(WeatherIcon::FewClouds)
    } else if a == '0' && b == '3' {
        Some(WeatherIcon::ScatteredClouds)
    } else if a == '0' && b == '4' {
        Some(WeatherIcon::BrokenClouds)
    } else if a == '0' && b == '9' {
        Some(WeatherIcon::Shower)
    } else if a == '1' && b == '0' {
        Some(WeatherIcon::Rain)
    } else if a == '1' && b == '1' {
        Some(WeatherIcon::Thunderstorm)
    } else if a == '1' && b == '3' {
        Some(WeatherIcon::Snow)
    } else if a == '5' && b == '0' {
        Some(WeatherIcon::Mist)
    } else {
        None
    }
}

/// A number below 100 takes exactly two characters when padded to two.
pub proof fn lemma_two_digits_len(n: nat)
    requires
        n < 100,
    ensures
        two_digits(n).len() == 2,
{
    if n >= 10 {
        assert(decimal(n / 10).len() == 1);
    }
}

/// The clock text of a time of day has the fixed form "HH:MM:SS": eight
/// characters.
pub proof fn lemma_clock_text_len(hour: nat, minute: nat, second: nat)
    requires
        hour < 100,
        minute < 100,
        second < 100,
    ensures
        clock_text(hour, minute, second).len() == 8,
{
    reveal_strlit(":");
    lemma_two_digits_len(hour);
    lemma_two_digits_len(minute);
    lemma_two_digits_len(second);
}

/// One step of the abbreviation: never longer, and shorter where the word
/// occurs.
proof fn lemma_abbreviation_step(s: Seq<char>, word: Seq<char>, short: Seq<char>)
    requires
        word.len() > short.len(),
    ensures
        replaced(s, word, short).len() <= s.len(),
        has_infix(s, word) ==> replaced(s, word, short).len() < s.len(),
        !has_infix(s, word) ==> replaced(s, word, short) == s,
{
    lemma_replaced_len(s, word, short);
    if !has_infix(s, word) {
        lemma_replaced_without_match(s, word, short);
    }
}

/// A station name longer than `STATION_MAX_BYTES` bytes is never made
/// longer by the abbreviations, and is made shorter where it holds one of
/// the words "Straße", "straße", "Platz", "platz", "Hauptbahnhof",
/// "Bahnhof" and none of the words before it in this list.
pub proof fn lemma_abbreviation_shortens(s: Seq<char>)
    requires
        utf8_len(s) > STATION_MAX_BYTES,
    ensures
        shortened_station(s).len() <= s.len(),
        has_infix(s, "Straße"@) ==> shortened_station(s).len() < s.len(),
        !has_infix(s, "Straße"@) && has_infix(s, "straße"@) ==> shortened_station(s).len() < s.len(),
        !has_infix(s, "Straße"@) && !has_infix(s, "straße"@) && has_infix(s, "Platz"@)
            ==> shortened_station(s).len() < s.len(),
        !has_infix(s, "Straße"@) && !has_infix(s, "straße"@) && !has_infix(s, "Platz"@) && has_infix(
            s,
            "platz"@,
        ) ==> shortened_station(s).len() < s.len(),
        !has_infix(s, "Straße"@) && !has_infix(s, "straße"@) && !has_infix(s, "Platz"@) && !has_infix(
            s,
            "platz"@,
        ) && has_infix(s, "Hauptbahnhof"@) ==> shortened_station(s).len() < s.len(),
        !has_infix(s, "Straße"@) && !has_infix(s, "straße"@) && !has_infix(s, "Platz"@) && !has_infix(
            s,
            "platz"@,
        ) && !has_infix(s, "Hauptbahnhof"@) && has_infix(s, "Bahnhof"@) ==> shortened_station(s).len()
            < s.len(),
{
    reveal_strlit("Straße");
    reveal_strlit("Str");
    reveal_strlit("straße");
    reveal_strlit("str");
    reveal_strlit("Platz");
    reveal_strlit("Pl");
    reveal_strlit("platz");
    reveal_strlit("pl");
    reveal_strlit("Hauptbahnhof");
    reveal_strlit("Hbf");
    reveal_strlit("Bahnhof");
    reveal_strlit("Bf");
    let s1 = replaced(s, "Straße"@, "Str"@);
    let s2 = replaced(s1, "straße"@, "str"@);
    let s3 = replaced(s2, "Platz"@, "Pl"@);
    let s4 = replaced(s3, "platz"@, "pl"@);
    let s5 = replaced(s4, "Hauptbahnhof"@, "Hbf"@);
    lemma_abbreviation_step(s, "Straße"@, "Str"@);
    lemma_abbreviation_step(s1, "straße"@, "str"@);
    lemma_abbreviation_step(s2, "Platz"@, "Pl"@);
    lemma_abbreviation_step(s3, "platz"@, "pl"@);
    lemma_abbreviation_step(s4, "Hauptbahnhof"@, "Hbf"@);
    lemma_abbreviation_step(s5, "Bahnhof"@, "Bf"@);
}

/// The weather symbol depends on nothing but the first two characters of
/// the code: codes that agree in them get the same symbol, whatever
/// follows (day or night, for example).
pub proof fn lemma_icon_depends_on_first_two(a: Seq<char>, b: Seq<char>)
    requires
        a.len() >= 2,
        b.len() >= 2,
        a[0] == b[0],
        a[1] == b[1],
    ensures
        icon_of_code(a) == icon_of_code(b),
{
    assert(char_substring(a, 0, 2) =~= seq![a[0], a[1]]);
    assert(char_substring(b, 0, 2) =~= seq![b[0], b[1]]);
}

/// Every code that starts with "01" (clear sky, by day or by night) shows
/// the sun; a code shorter than two characters shows no symbol.
pub proof fn lemma_icon_clear_sky_and_short_codes(code: Seq<char>)
    ensures
        code.len() >= 2 && code[0] == '0' && code[1] == '1' ==> icon_of_code(code) == Some(
            WeatherIcon::Sun,
        ),
        code.len() < 2 ==> icon_of_code(code) is None,
{
    if code.len() >= 2 {
        assert(char_substring(code, 0, 2) =~= seq![code[0], code[1]]);
    } else {
        assert(char_substring(code, 0, 2).len() < 2);
    }
}

/// A station name of at most `STATION_MAX_BYTES` bytes is drawn exactly as
/// it is.
pub proof fn lemma_short_names_stay(s: Seq<char>)
    requires
        utf8_len(s) <= STATION_MAX_BYTES,
    ensures
        shortened_station(s) == s,
        station_label_defined(s),
        station_label_bytes(s) == encode_utf8(s),
{
}

} // verus!
