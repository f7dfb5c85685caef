//! Events that report what became of a pod.

use crate::error::SchedulerError;
use crate::json::{Json, JsonView};
use crate::order;
use crate::status;
use crate::text::{self, write_numeral, write_padded};
use vstd::prelude::*;
use vstd::string::*;

verus! {

/// The name of an event for `pod_name`: the pod's name, a point and `nanos`
/// in base 16. Clients find the events of a pod by this prefix.
pub fn scheduling_event_name(pod_name: &str, nanos: u128) -> (name: String)
    ensures
        name@ == pod_name@ + "."@ + text::numeral(nanos as nat, 16),
{
    let mut name = pod_name.to_owned();
    name.append(".");
    name.append(write_numeral(nanos, 16).as_str());
    name
}

/// The year has 366 days.
pub open spec fn is_leap(year: int) -> bool {
    year % 4 == 0 && (year % 100 != 0 || year % 400 == 0)
}

/// The number of days of a month.
pub open spec fn days_in_month(year: int, month: int) -> int {
    if month == 2 {
        if is_leap(year) {
            29
        } else {
            28
        }
    } else if month == 4 || month == 6 || month == 9 || month == 11 {
        30
    } else {
        31
    }
}

/// The number of days of the years from 1 to `year`.
pub open spec fn days_to_year_end(year: int) -> int {
    365 * year + year / 4 - year / 100 + year / 400
}

/// The number of days of a year before `month`.
pub open spec fn days_before_month(year: int, month: int) -> int
    decreases month,
{
    if month <= 1 {
        0
    } else {
        days_before_month(year, month - 1) + days_in_month(year, month - 1)
    }
}

/// A day of the calendar.
pub open spec fn is_date(year: int, month: int, day: int) -> bool {
    1 <= month <= 12 && 1 <= day <= days_in_month(year, month)
}

/// The number of a day, counted from 1 on the first of January of year 1.
pub open spec fn day_number(year: int, month: int, day: int) -> int {
    days_to_year_end(year - 1) + days_before_month(year, month) + day
}

/// The number of a day, counted from 0 on the first of January 1970.
pub open spec fn days_since_1970(year: int, month: int, day: int) -> int {
    day_number(year, month, day) - day_number(1970, 1, 1)
}

/// A year in at least four characters, its sign among them.
pub open spec fn year_text(year: int) -> Seq<char> {
    if year < 0 {
        "-"@ + text::padded((-year) as nat, 3)
    } else {
        text::padded(year as nat, 4)
    }
}

/// A date and a time of day as `YYYY-MM-DDThh:mm:ssZ`.
pub open spec fn timestamp_text(
    year: int,
    month: int,
    day: int,
    secs_of_day: int,
) -> Seq<char> {
    year_text(year) + "-"@ + text::padded(month as nat, 2) + "-"@ + text::padded(day as nat, 2)
        + "T"@ + text::padded((secs_of_day / 3600) as nat, 2) + ":"@ + text::padded(
        ((secs_of_day / 60) % 60) as nat,
        2,
    ) + ":"@ + text::padded((secs_of_day % 60) as nat, 2) + "Z"@
}

/// The seconds that `nanos` come to, in 64 bits.
pub open spec fn seconds_of(nanos: u128) -> int {
    ((nanos / 1_000_000_000) as i64) as int
}

/// `s` is the second that `nanos` fall into, written as a date and a time of
/// day.
pub open spec fn is_timestamp(nanos: u128, s: Seq<char>) -> bool {
    exists|year: int, month: int, day: int| #[trigger]
        is_date(year, month, day) && days_since_1970(year, month, day) == seconds_of(nanos) / 86400
            && s == timestamp_text(year, month, day, seconds_of(nanos) % 86400)
}

/// 400 years that come before any date that is written here.
const ERAS: u128 = 1_000_000_000;

proof fn lemma_year_end(e: int, c: int, q: int, a: int)
    requires
        0 <= c <= 3,
        0 <= q <= 24,
        0 <= a <= 3,
    ensures
        days_to_year_end(400 * e + 100 * c + 4 * q + a) == 146097 * e + 36524 * c + 1461 * q
            + 365 * a,
        is_leap(400 * e + 100 * c + 4 * q + a + 1) == (a == 3 && (q != 24 || c == 3)),
{
    let y = 400 * e + 100 * c + 4 * q + a;
    assert(y / 4 == 100 * e + 25 * c + q);
    assert(y / 100 == 4 * e + c);
    assert(y / 400 == e);
    let z = y + 1;
    assert((z % 4 == 0) == (a == 3));
    assert((z % 100 == 0) == (a == 3 && q == 24));
    assert((z % 400 == 0) == (a == 3 && q == 24 && c == 3));
}

proof fn lemma_year_length(year: int)
    ensures
        days_before_month(year, 13) == if is_leap(year) {
            366int
        } else {
            365
        },
{
    reveal_with_fuel(days_before_month, 14);
}

/// The year, month and day of a day, with the year counted from 400-year
/// periods that come before all of them.
fn civil(n: u128) -> (r: (u128, u128, u128))
    requires
        n <= 1_000_000_000_000_000_000_000,
    ensures
        1 <= r.1 <= 12,
        1 <= r.2 <= 31,
        is_date(r.0 - 400 * ERAS, r.1 as int, r.2 as int),
        day_number(r.0 - 400 * ERAS, r.1 as int, r.2 as int) == n - 146097 * ERAS + 1,
        r.0 <= 400 * (n / 146097) + 400,
{
    let e: u128 = n / 146097;
    let r0: u128 = n % 146097;
    let c: u128 = if r0 / 36524 > 3 {
        3
    } else {
        r0 / 36524
    };
    let r1: u128 = r0 - c * 36524;
    assert(r1 <= 36524);
    let q: u128 = r1 / 1461;
    assert(q <= 24);
    let r2: u128 = r1 % 1461;
    let a: u128 = if r2 / 365 > 3 {
        3
    } else {
        r2 / 365
    };
    let mut left: u128 = r2 - a * 365;
    let year: u128 = 400 * e + 100 * c + 4 * q + a + 1;
    let ghost y = year - 400 * ERAS;
    let ghost before = y - 1;
    proof {
        lemma_year_end(e - ERAS, c as int, q as int, a as int);
        assert(before == 400 * (e - ERAS) + 100 * c + 4 * q + a);
        lemma_year_length(y);
    }
    let leap = a == 3 && (q != 24 || c == 3);
    assert(leap == is_leap(y));
    assert(left < 365 || (left == 365 && leap));
    let ghost doy = left as int;
    let mut month: u128 = 1;
    proof {
        assert(days_before_month(y, 1) == 0);
    }
    while left >= month_days(leap, month)
        invariant
            leap == is_leap(y),
            1 <= month <= 12,
            left + days_before_month(y, month as int) == doy,
            doy < days_before_month(y, 13),
        decreases 13 - month,
    {
        proof {
            assert(left >= days_in_month(y, month as int));
            if month == 12 {
                assert(days_before_month(y, 13) == days_before_month(y, 12) + days_in_month(
                    y,
                    12,
                ));
            }
        }
        left = left - month_days(leap, month);
        month += 1;
    }
    (year, month, left + 1)
}

fn month_days(leap: bool, month: u128) -> (n: u128)
    ensures
        forall|year: int| is_leap(year) == leap ==> n == #[trigger] days_in_month(
            year,
            month as int,
        ),
        n <= 31,
{
    if month == 2 {
        if leap {
            29
        } else {
            28
        }
    } else if month == 4 || month == 6 || month == 9 || month == 11 {
        30
    } else {
        31
    }
}

fn write_year(shifted: u128) -> (s: String)
    requires
        shifted <= 1_000_000_000_000_000_000_000,
    ensures
        s@ == year_text(shifted - 400 * ERAS),
{
    if shifted < 400 * ERAS {
        let mut s = "-".to_owned();
        s.append(write_padded(400 * ERAS - shifted, 3).as_str());
        s
    } else {
        write_padded(shifted - 400 * ERAS, 4)
    }
}

/// Nanoseconds since the first of January 1970 as a time in the form
/// `YYYY-MM-DDThh:mm:ssZ`.
pub fn scheduling_event_timestamp(nanos: u128) -> (s: String)
    ensures
        is_timestamp(nanos, s@),
{
    let secs: i64 = #[verifier::truncate]
    ((nanos / 1_000_000_000) as i64);
    assert(secs == seconds_of(nanos));
    let shifted: u128 = (secs as i128 + 12_622_780_800_000_000_000) as u128;
    let days: u128 = shifted / 86400;
    let secs_of_day: u128 = shifted % 86400;
    proof {
        assert(12_622_780_800_000_000_000int == 86400 * (146097 * ERAS));
        assert(days == secs as int / 86400 + 146097 * ERAS);
        assert(secs_of_day == secs as int % 86400);
    }
    let (year, month, day) = civil(days + 719_162);
    proof {
        let y = year - 400 * ERAS;
        assert(day_number(1970, 1, 1) == 719_163) by {
            assert(days_before_month(1970, 1) == 0);
        }
        assert(is_date(y, month as int, day as int));
        assert(days_since_1970(y, month as int, day as int) == secs as int / 86400);
    }
    let mut s = write_year(year);
    s.append("-");
    s.append(write_padded(month, 2).as_str());
    s.append("-");
    s.append(write_padded(day, 2).as_str());
    s.append("T");
    s.append(write_padded(secs_of_day / 3600, 2).as_str());
    s.append(":");
    s.append(write_padded((secs_of_day / 60) % 60, 2).as_str());
    s.append(":");
    s.append(write_padded(secs_of_day % 60, 2).as_str());
    s.append("Z");
    assert(s@ == timestamp_text(
        year - 400 * ERAS,
        month as int,
        day as int,
        secs as int % 86400,
    ));
    s
}

/// What is sent to record an event for a pod.
pub open spec fn event_object(
    namespace: Seq<char>,
    pod_name: Seq<char>,
    event_name: Seq<char>,
    reason: Seq<char>,
    message: Seq<char>,
    event_type: Seq<char>,
    timestamp: Seq<char>,
) -> JsonView {
    JsonView::object().with("apiVersion"@, JsonView::Text("v1"@)).with(
        "kind"@,
        JsonView::Text("Event"@),
    ).with(
        "metadata"@,
        JsonView::object().with("name"@, JsonView::Text(event_name)).with(
            "namespace"@,
            JsonView::Text(namespace),
        ),
    ).with(
        "involvedObject"@,
        JsonView::object().with("apiVersion"@, JsonView::Text("v1"@)).with(
            "kind"@,
            JsonView::Text("Pod"@),
        ).with("namespace"@, JsonView::Text(namespace)).with("name"@, JsonView::Text(pod_name)),
    ).with("reason"@, JsonView::Text(reason)).with("message"@, JsonView::Text(message)).with(
        "type"@,
        JsonView::Text(event_type),
    ).with("count"@, JsonView::Number(1)).with(
        "source"@,
        JsonView::object().with("component"@, JsonView::Text("u7s-scheduler"@)),
    ).with("firstTimestamp"@, JsonView::Text(timestamp)).with(
        "lastTimestamp"@,
        JsonView::Text(timestamp),
    )
}

/// What is sent to record an event for a pod. It happened once, at
/// `timestamp`.
pub fn scheduling_event_payload(
    namespace: &str,
    pod_name: &str,
    event_name: &str,
    reason: &str,
    message: &str,
    event_type: &str,
    timestamp: &str,
) -> (payload: Json)
    ensures
        payload@ == event_object(
            namespace@,
            pod_name@,
            event_name@,
            reason@,
            message@,
            event_type@,
            timestamp@,
        ),
{
    let metadata = Json::object().with("name", Json::text(event_name)).with(
        "namespace",
        Json::text(namespace),
    );
    let involved = Json::object().with("apiVersion", Json::text("v1")).with(
        "kind",
        Json::text("Pod"),
    ).with("namespace", Json::text(namespace)).with("name", Json::text(pod_name));
    let source = Json::object().with("component", Json::text("u7s-scheduler"));
    Json::object().with("apiVersion", Json::text("v1")).with("kind", Json::text("Event")).with(
        "metadata",
        metadata,
    ).with("involvedObject", involved).with("reason", Json::text(reason)).with(
        "message",
        Json::text(message),
    ).with("type", Json::text(event_type)).with("count", Json::Number(1)).with("source", source).with(
        "firstTimestamp",
        Json::text(timestamp),
    ).with("lastTimestamp", Json::text(timestamp))
}

/// The path of the events of a namespace.
pub fn events_path(namespace: &str) -> (path: String)
    ensures
        path@ == "/api/v1/namespaces/"@ + namespace@ + "/events"@,
{
    let mut path = "/api/v1/namespaces/".to_owned();
    path.append(namespace);
    path.append("/events");
    path
}

/// What the answer to a posted event means. `status_text` is the status as it
/// is written in the message.
pub fn check_event_response(status: u16, status_text: &str, body: &str) -> (r: Result<
    (),
    SchedulerError,
>)
    ensures
        r is Ok <==> 200 <= status < 300,
        r matches Err(e) ==> e@ == "POST event failed with HTTP "@ + status_text@ + ": "@ + body@,
{
    if 200 <= status && status < 300 {
        return Ok(());
    }
    let mut message = "POST event failed with HTTP ".to_owned();
    message.append(status_text);
    message.append(": ");
    message.append(body);
    Err(SchedulerError { message })
}

proof fn lemma_year_grows(a: int, b: int)
    requires
        a <= b,
    ensures
        days_to_year_end(a) <= days_to_year_end(b),
    decreases b - a,
{
    if a < b {
        lemma_year_grows(a, b - 1);
        lemma_next_year(b);
    }
}

proof fn lemma_next_year(year: int)
    ensures
        days_to_year_end(year) == days_to_year_end(year - 1) + if is_leap(year) {
            366int
        } else {
            365
        },
{
    let y = year - 1;
    let e = y / 400;
    let r = y % 400;
    let c = r / 100;
    let q = (r % 100) / 4;
    let a = r % 4;
    assert(r % 100 == 4 * q + a) by {
        assert((r % 100) % 4 == r % 4);
    }
    lemma_year_end(e, c, q, a);
    if a < 3 {
        lemma_year_end(e, c, q, a + 1);
    } else if q < 24 {
        lemma_year_end(e, c, q + 1, 0);
    } else if c < 3 {
        lemma_year_end(e, c + 1, 0, 0);
    } else {
        lemma_year_end(e + 1, 0, 0, 0);
    }
}

proof fn lemma_month_grows(year: int, a: int, b: int)
    requires
        1 <= a <= b,
    ensures
        days_before_month(year, a) <= days_before_month(year, b),
    decreases b - a,
{
    if a < b {
        lemma_month_grows(year, a, b - 1);
    }
}

/// Every day has one date: a timestamp cannot be written in two ways.
pub proof fn law_date_is_unique(y1: int, m1: int, d1: int, y2: int, m2: int, d2: int)
    requires
        is_date(y1, m1, d1),
        is_date(y2, m2, d2),
        days_since_1970(y1, m1, d1) == days_since_1970(y2, m2, d2),
    ensures
        y1 == y2,
        m1 == m2,
        d1 == d2,
{
    lemma_within_year(y1, m1, d1);
    lemma_within_year(y2, m2, d2);
    if y1 < y2 {
        lemma_year_grows(y1, y2 - 1);
    } else if y2 < y1 {
        lemma_year_grows(y2, y1 - 1);
    } else if m1 < m2 {
        lemma_month_grows(y1, m1 + 1, m2);
    } else if m2 < m1 {
        lemma_month_grows(y1, m2 + 1, m1);
    }
}

proof fn lemma_within_year(y: int, m: int, d: int)
    requires
        is_date(y, m, d),
    ensures
        days_to_year_end(y - 1) < day_number(y, m, d) <= days_to_year_end(y),
{
    lemma_month_grows(y, 1, m);
    lemma_month_grows(y, m + 1, 13);
    lemma_year_length(y);
    lemma_next_year(y);
}

proof fn lemma_two_digits(n: nat)
    requires
        n < 100,
    ensures
        text::padded(n, 2) == seq![text::digit_char(n / 10), text::digit_char(n % 10)],
{
    reveal_with_fuel(text::numeral, 3);
    assert(text::padded(n, 2) =~= seq![text::digit_char(n / 10), text::digit_char(n % 10)]);
}

proof fn lemma_four_digits(n: nat)
    requires
        1000 <= n < 10000,
    ensures
        text::padded(n, 4) == seq![
            text::digit_char(n / 1000),
            text::digit_char(n / 100 % 10),
            text::digit_char(n / 10 % 10),
            text::digit_char(n % 10),
        ],
{
    reveal_with_fuel(text::numeral, 5);
    assert(n / 10 / 10 == n / 100);
    assert(n / 100 / 10 == n / 1000);
    assert(text::padded(n, 4) =~= seq![
        text::digit_char(n / 1000),
        text::digit_char(n / 100 % 10),
        text::digit_char(n / 10 % 10),
        text::digit_char(n % 10),
    ]);
}

/// The characters of a timestamp of a year with four digits.
#[verifier::opaque]
spec fn stamp(year: nat, month: nat, day: nat, hour: nat, minute: nat, second: nat) -> Seq<char> {
    seq![
        text::digit_char(year / 1000),
        text::digit_char(year / 100 % 10),
        text::digit_char(year / 10 % 10),
        text::digit_char(year % 10),
        '-',
        text::digit_char(month / 10),
        text::digit_char(month % 10),
        '-',
        text::digit_char(day / 10),
        text::digit_char(day % 10),
        'T',
        text::digit_char(hour / 10),
        text::digit_char(hour % 10),
        ':',
        text::digit_char(minute / 10),
        text::digit_char(minute % 10),
        ':',
        text::digit_char(second / 10),
        text::digit_char(second % 10),
        'Z',
    ]
}

proof fn lemma_stamp(year: nat, month: nat, day: nat, secs: nat)
    requires
        1000 <= year < 10000,
        month < 100,
        day < 100,
        secs < 86400,
    ensures
        timestamp_text(year as int, month as int, day as int, secs as int) == stamp(
            year,
            month,
            day,
            secs / 3600,
            secs / 60 % 60,
            secs % 60,
        ),
{
    reveal(stamp);
    reveal_strlit("-");
    reveal_strlit("T");
    reveal_strlit(":");
    reveal_strlit("Z");
    lemma_four_digits(year);
    lemma_two_digits(month);
    lemma_two_digits(day);
    lemma_two_digits(secs / 3600);
    lemma_two_digits(secs / 60 % 60);
    lemma_two_digits(secs % 60);
    assert(timestamp_text(year as int, month as int, day as int, secs as int) =~= stamp(
        year,
        month,
        day,
        secs / 3600,
        secs / 60 % 60,
        secs % 60,
    ));
}

proof fn lemma_stamp_chars(
    year: nat,
    month: nat,
    day: nat,
    hour: nat,
    minute: nat,
    second: nat,
)
    requires
        year < 10000,
        month < 100,
        day < 100,
        hour < 100,
        minute < 100,
        second < 100,
    ensures
        stamp(year, month, day, hour, minute, second).len() == 20,
        vstd::utf8::is_ascii_chars(stamp(year, month, day, hour, minute, second)),
        ({
            let s = stamp(year, month, day, hour, minute, second);
            &&& s[0] == text::digit_char(year / 1000)
            &&& s[1] == text::digit_char(year / 100 % 10)
            &&& s[2] == text::digit_char(year / 10 % 10)
            &&& s[3] == text::digit_char(year % 10)
            &&& s[4] == '-'
            &&& s[5] == text::digit_char(month / 10)
            &&& s[6] == text::digit_char(month % 10)
            &&& s[7] == '-'
            &&& s[8] == text::digit_char(day / 10)
            &&& s[9] == text::digit_char(day % 10)
            &&& s[10] == 'T'
            &&& s[11] == text::digit_char(hour / 10)
            &&& s[12] == text::digit_char(hour % 10)
            &&& s[13] == ':'
            &&& s[14] == text::digit_char(minute / 10)
            &&& s[15] == text::digit_char(minute % 10)
            &&& s[16] == ':'
            &&& s[17] == text::digit_char(second / 10)
            &&& s[18] == text::digit_char(second % 10)
            &&& s[19] == 'Z'
        }),
{
    reveal(stamp);
}

/// Of two numbers of two digits the smaller one has the smaller digit where
/// they first differ.
proof fn lemma_digits_are_ordered(n: nat, m: nat)
    requires
        n < m < 100,
    ensures
        n / 10 != m / 10 ==> (text::digit_char(n / 10) as u8) < (text::digit_char(m / 10) as u8),
        n / 10 == m / 10 ==> (text::digit_char(n % 10) as u8) < (text::digit_char(m % 10) as u8),
{
}

/// Texts of ASCII characters are ordered by the first in which they differ.
proof fn lemma_first_difference(s: Seq<char>, t: Seq<char>, i: int)
    requires
        vstd::utf8::is_ascii_chars(s),
        vstd::utf8::is_ascii_chars(t),
        0 <= i < s.len(),
        i < t.len(),
        forall|j: int| 0 <= j < i ==> s[j] == t[j],
        (s[i] as u8) < (t[i] as u8),
    ensures
        order::text_precedes(s, t),
{
    vstd::utf8::is_ascii_chars_encode_utf8(s);
    vstd::utf8::is_ascii_chars_encode_utf8(t);
    let a = vstd::utf8::encode_utf8(s);
    let b = vstd::utf8::encode_utf8(t);
    assert forall|j: int| 0 <= j < i implies a[j] == b[j] by {
        assert(s[j] == t[j]);
    }
    assert(s[i] as u8 == a[i] && t[i] as u8 == b[i]);
    assert(order::precedes_at(a, b, i));
}

/// Texts that agree before position `i` are ordered by the numbers of two
/// digits that stand there.
proof fn lemma_pairs_are_ordered(s: Seq<char>, t: Seq<char>, i: int, n: nat, m: nat)
    requires
        vstd::utf8::is_ascii_chars(s),
        vstd::utf8::is_ascii_chars(t),
        0 <= i,
        i + 1 < s.len(),
        i + 1 < t.len(),
        s.take(i) == t.take(i),
        n < m < 100,
        s[i] == text::digit_char(n / 10),
        s[i + 1] == text::digit_char(n % 10),
        t[i] == text::digit_char(m / 10),
        t[i + 1] == text::digit_char(m % 10),
    ensures
        order::text_precedes(s, t),
{
    lemma_digits_are_ordered(n, m);
    assert forall|j: int| 0 <= j < i implies s[j] == t[j] by {
        assert(s.take(i)[j] == s[j] && t.take(i)[j] == t[j]);
    }
    if n / 10 != m / 10 {
        lemma_first_difference(s, t, i);
    } else {
        lemma_first_difference(s, t, i + 1);
    }
}

proof fn lemma_year_digits(y: nat)
    ensures
        y / 100 / 10 == y / 1000,
        y / 10 % 10 == y % 100 / 10,
        y % 100 % 10 == y % 10,
        y == 100 * (y / 100) + y % 100,
        y % 100 < 100,
{
}

/// A timestamp whose fields come first in their order comes first as text.
proof fn lemma_stamps_are_ordered(
    y1: nat,
    m1: nat,
    d1: nat,
    h1: nat,
    n1: nat,
    s1: nat,
    y2: nat,
    m2: nat,
    d2: nat,
    h2: nat,
    n2: nat,
    s2: nat,
)
    requires
        y1 < 10000 && m1 < 100 && d1 < 100 && h1 < 100 && n1 < 100 && s1 < 100,
        y2 < 10000 && m2 < 100 && d2 < 100 && h2 < 100 && n2 < 100 && s2 < 100,
        y1 < y2 || (y1 == y2 && (m1 < m2 || (m1 == m2 && (d1 < d2 || (d1 == d2 && (h1 < h2 || (h1
            == h2 && (n1 < n2 || (n1 == n2 && s1 < s2))))))))),
    ensures
        order::text_precedes(stamp(y1, m1, d1, h1, n1, s1), stamp(y2, m2, d2, h2, n2, s2)),
{
    let s = stamp(y1, m1, d1, h1, n1, s1);
    let t = stamp(y2, m2, d2, h2, n2, s2);
    lemma_stamp_chars(y1, m1, d1, h1, n1, s1);
    lemma_stamp_chars(y2, m2, d2, h2, n2, s2);
    if y1 < y2 {
        lemma_year_digits(y1);
        lemma_year_digits(y2);
        if y1 / 100 < y2 / 100 {
            assert(s.take(0) =~= t.take(0));
            lemma_pairs_are_ordered(s, t, 0, y1 / 100, y2 / 100);
        } else {
            assert(y1 / 100 == y2 / 100);
            assert(s.take(2) =~= t.take(2));
            lemma_pairs_are_ordered(s, t, 2, y1 % 100, y2 % 100);
        }
    } else if m1 < m2 {
        assert(s.take(5) =~= t.take(5));
        lemma_pairs_are_ordered(s, t, 5, m1, m2);
    } else if d1 < d2 {
        assert(s.take(8) =~= t.take(8));
        lemma_pairs_are_ordered(s, t, 8, d1, d2);
    } else if h1 < h2 {
        assert(s.take(11) =~= t.take(11));
        lemma_pairs_are_ordered(s, t, 11, h1, h2);
    } else if n1 < n2 {
        assert(s.take(14) =~= t.take(14));
        lemma_pairs_are_ordered(s, t, 14, n1, n2);
    } else {
        assert(s.take(17) =~= t.take(17));
        lemma_pairs_are_ordered(s, t, 17, s1, s2);
    }
}

proof fn lemma_times_are_ordered(p: nat, q: nat)
    requires
        p < q < 86400,
    ensures
        p / 3600 < q / 3600 || (p / 3600 == q / 3600 && (p / 60 % 60 < q / 60 % 60 || (p / 60 % 60
            == q / 60 % 60 && p % 60 < q % 60))),
{
    assert(p / 60 / 60 == p / 3600 && q / 60 / 60 == q / 3600);
}

/// The later of two days has the later date.
proof fn lemma_dates_are_ordered(y1: int, m1: int, d1: int, y2: int, m2: int, d2: int)
    requires
        is_date(y1, m1, d1),
        is_date(y2, m2, d2),
        days_since_1970(y1, m1, d1) < days_since_1970(y2, m2, d2),
    ensures
        y1 < y2 || (y1 == y2 && (m1 < m2 || (m1 == m2 && d1 < d2))),
{
    lemma_within_year(y1, m1, d1);
    lemma_within_year(y2, m2, d2);
    if y2 < y1 {
        lemma_year_grows(y2, y1 - 1);
    } else if y1 == y2 && m2 < m1 {
        lemma_month_grows(y1, m2 + 1, m1);
    }
}

/// Days from 1970 until the end of the year 9999 have years of four digits.
proof fn lemma_four_digit_year(y: int, m: int, d: int)
    requires
        is_date(y, m, d),
        0 <= days_since_1970(y, m, d) <= 2_932_896,
    ensures
        1970 <= y <= 9999,
{
    lemma_within_year(y, m, d);
    assert(day_number(1970, 1, 1) == 719_163) by {
        assert(days_before_month(1970, 1) == 0);
    }
    if y < 1970 {
        lemma_year_grows(y, 1969);
    } else if y > 9999 {
        lemma_year_grows(9999, y - 1);
    }
}

/// Until the end of the year 9999 timestamps have 20 characters and sort as
/// the times do: two within one second are the same, and else the earlier one
/// comes first as text.
pub proof fn law_timestamps_sort_by_time(a: u128, b: u128, s: Seq<char>, t: Seq<char>)
    requires
        a <= b,
        b < 253_402_300_800_000_000_000,
        is_timestamp(a, s),
        is_timestamp(b, t),
    ensures
        s.len() == 20,
        t.len() == 20,
        a / 1_000_000_000 == b / 1_000_000_000 ==> s == t,
        a / 1_000_000_000 < b / 1_000_000_000 ==> order::text_precedes(s, t),
{
    let x = seconds_of(a);
    let z = seconds_of(b);
    assert(x == a / 1_000_000_000 && z == b / 1_000_000_000);
    let (y1, m1, d1) = choose|y: int, m: int, d: int| #[trigger]
        is_date(y, m, d) && days_since_1970(y, m, d) == x / 86400 && s == timestamp_text(
            y,
            m,
            d,
            x % 86400,
        );
    let (y2, m2, d2) = choose|y: int, m: int, d: int| #[trigger]
        is_date(y, m, d) && days_since_1970(y, m, d) == z / 86400 && t == timestamp_text(
            y,
            m,
            d,
            z % 86400,
        );
    lemma_four_digit_year(y1, m1, d1);
    lemma_four_digit_year(y2, m2, d2);
    let p = (x % 86400) as nat;
    let q = (z % 86400) as nat;
    lemma_stamp(y1 as nat, m1 as nat, d1 as nat, p);
    lemma_stamp(y2 as nat, m2 as nat, d2 as nat, q);
    if x / 86400 == z / 86400 {
        law_date_is_unique(y1, m1, d1, y2, m2, d2);
    } else {
        lemma_dates_are_ordered(y1, m1, d1, y2, m2, d2);
    }
    lemma_stamp_chars(y1 as nat, m1 as nat, d1 as nat, p / 3600, p / 60 % 60, p % 60);
    lemma_stamp_chars(y2 as nat, m2 as nat, d2 as nat, q / 3600, q / 60 % 60, q % 60);
    if x < z {
        if x / 86400 == z / 86400 {
            lemma_times_are_ordered(p, q);
        }
        lemma_stamps_are_ordered(
            y1 as nat,
            m1 as nat,
            d1 as nat,
            p / 3600,
            p / 60 % 60,
            p % 60,
            y2 as nat,
            m2 as nat,
            d2 as nat,
            q / 3600,
            q / 60 % 60,
            q % 60,
        );
    }
}

/// Events of one pod at different times have different names.
pub proof fn law_event_names_are_distinct(pod_name: Seq<char>, a: u128, b: u128)
    requires
        a != b,
    ensures
        pod_name + "."@ + text::numeral(a as nat, 16) != pod_name + "."@ + text::numeral(
            b as nat,
            16,
        ),
{
    let x = text::numeral(a as nat, 16);
    let y = text::numeral(b as nat, 16);
    let start = pod_name + "."@;
    if start + x == start + y {
        assert((start + x).skip(start.len() as int) =~= x);
        assert((start + y).skip(start.len() as int) =~= y);
        text::law_numerals_are_distinct(a as nat, b as nat, 16);
    }
}

/// The name of an event starts with the name of its pod.
pub proof fn law_event_name_starts_with_pod_name(
    pod_name: Seq<char>,
    nanos: u128,
    name: Seq<char>,
)
    requires
        name == pod_name + "."@ + text::numeral(nanos as nat, 16),
    ensures
        pod_name.is_prefix_of(name),
{
    assert(pod_name =~= name.subrange(0, pod_name.len() as int));
}

/// Every fourth year is a leap year, but of the full centuries only every
/// fourth; February has 29 days then and 28 otherwise, April, June, September
/// and November have 30, and the other months 31.
pub proof fn law_lengths_of_months(year: int, month: int)
    requires
        1 <= month <= 12,
    ensures
        year % 400 == 0 ==> days_in_month(year, 2) == 29,
        year % 100 == 0 && year % 400 != 0 ==> days_in_month(year, 2) == 28,
        year % 4 == 0 && year % 100 != 0 ==> days_in_month(year, 2) == 29,
        year % 4 != 0 ==> days_in_month(year, 2) == 28,
        month == 4 || month == 6 || month == 9 || month == 11 ==> days_in_month(year, month) == 30,
        month == 1 || month == 3 || month == 5 || month == 7 || month == 8 || month == 10 || month
            == 12 ==> days_in_month(year, month) == 31,
{
}

/// Days follow one another: within a month, from the last of a month to the
/// first of the next, and from the last of December to the first of January.
/// The first of January 1970 is day 0.
pub proof fn law_days_follow_one_another(year: int, month: int, day: int)
    requires
        is_date(year, month, day),
    ensures
        day < days_in_month(year, month) ==> days_since_1970(year, month, day + 1)
            == days_since_1970(year, month, day) + 1,
        day == days_in_month(year, month) && month < 12 ==> days_since_1970(year, month + 1, 1)
            == days_since_1970(year, month, day) + 1,
        day == 31 && month == 12 ==> days_since_1970(year + 1, 1, 1) == days_since_1970(
            year,
            month,
            day,
        ) + 1,
        days_since_1970(1970, 1, 1) == 0,
{
    if month == 12 {
        lemma_next_year(year);
        lemma_year_length(year);
        assert(days_before_month(year, 13) == days_before_month(year, 12) + days_in_month(
            year,
            12,
        ));
        assert(days_before_month(year + 1, 1) == 0);
    }
}

proof fn lemma_two_digits_value(a: nat, b: nat)
    requires
        a < 10,
        b < 10,
    ensures
        text::digits_value(seq![text::digit_char(a), text::digit_char(b)]) == 10 * a + b,
{
    let s = seq![text::digit_char(a), text::digit_char(b)];
    let front = s.drop_last();
    assert(front =~= seq![text::digit_char(a)]);
    assert(front.drop_last() =~= Seq::<char>::empty());
    assert(text::digits_value(front.drop_last()) == 0);
    assert(text::digits_value(front) == a);
    assert(s.last() == text::digit_char(b));
}

proof fn lemma_pair_reads_back(s: Seq<char>, i: int, n: nat)
    requires
        0 <= i,
        i + 1 < s.len(),
        n < 100,
        s[i] == text::digit_char(n / 10),
        s[i + 1] == text::digit_char(n % 10),
    ensures
        text::digits_value(s.subrange(i, i + 2)) == n,
{
    assert(s.subrange(i, i + 2) =~= seq![text::digit_char(n / 10), text::digit_char(n % 10)]);
    lemma_two_digits_value(n / 10, n % 10);
}

proof fn lemma_time_of_day(secs: nat)
    ensures
        3600 * (secs / 3600) + 60 * (secs / 60 % 60) + secs % 60 == secs,
{
    assert(secs / 60 / 60 == secs / 3600);
}

/// A timestamp of a year with four digits reads back: the year, the month and
/// the day, a `T`, and the hours, minutes and seconds that the seconds of the
/// day come to, and a `Z`.
pub proof fn law_timestamp_reads_back(year: nat, month: nat, day: nat, secs: nat)
    requires
        1000 <= year < 10000,
        month < 100,
        day < 100,
        secs < 86400,
    ensures
        ({
            let s = timestamp_text(year as int, month as int, day as int, secs as int);
            let hours = text::digits_value(s.subrange(11, 13));
            let minutes = text::digits_value(s.subrange(14, 16));
            let seconds = text::digits_value(s.subrange(17, 19));
            &&& s.len() == 20
            &&& 100 * text::digits_value(s.subrange(0, 2)) + text::digits_value(s.subrange(2, 4))
                == year
            &&& text::digits_value(s.subrange(5, 7)) == month
            &&& text::digits_value(s.subrange(8, 10)) == day
            &&& 3600 * hours + 60 * minutes + seconds == secs
            &&& minutes < 60 && seconds < 60
            &&& s[4] == '-' && s[7] == '-' && s[10] == 'T' && s[13] == ':' && s[16] == ':'
                && s[19] == 'Z'
        }),
{
    let s = timestamp_text(year as int, month as int, day as int, secs as int);
    let (h, m, z) = (secs / 3600, secs / 60 % 60, secs % 60);
    lemma_stamp(year, month, day, secs);
    lemma_stamp_chars(year, month, day, h, m, z);
    lemma_year_digits(year);
    lemma_pair_reads_back(s, 0, year / 100);
    lemma_pair_reads_back(s, 2, year % 100);
    lemma_pair_reads_back(s, 5, month);
    lemma_pair_reads_back(s, 8, day);
    lemma_pair_reads_back(s, 11, h);
    lemma_pair_reads_back(s, 14, m);
    lemma_pair_reads_back(s, 17, z);
    lemma_time_of_day(secs);
}

/// An event says what became of the pod, and when: its reason, message and
/// type, and one time for first and last.
pub proof fn law_event_says_what_happened(
    namespace: Seq<char>,
    pod_name: Seq<char>,
    event_name: Seq<char>,
    reason: Seq<char>,
    message: Seq<char>,
    event_type: Seq<char>,
    timestamp: Seq<char>,
)
    ensures
        ({
            let e = event_object(
                namespace,
                pod_name,
                event_name,
                reason,
                message,
                event_type,
                timestamp,
            );
            &&& status::has_text(e, "kind"@, "Event"@)
            &&& status::has_text(e, "reason"@, reason)
            &&& status::has_text(e, "message"@, message)
            &&& status::has_text(e, "type"@, event_type)
            &&& status::has_text(e, "firstTimestamp"@, timestamp)
            &&& status::has_text(e, "lastTimestamp"@, timestamp)
            &&& exists|i: int|
                0 <= i < e->Object_0.len() && (#[trigger] e->Object_0[i]).name == "metadata"@
                    && status::has_text(e->Object_0[i].value, "name"@, event_name)
                    && status::has_text(e->Object_0[i].value, "namespace"@, namespace)
            &&& exists|i: int|
                0 <= i < e->Object_0.len() && (#[trigger] e->Object_0[i]).name
                    == "involvedObject"@ && status::has_text(
                    e->Object_0[i].value,
                    "kind"@,
                    "Pod"@,
                ) && status::has_text(e->Object_0[i].value, "name"@, pod_name)
                    && status::has_text(e->Object_0[i].value, "namespace"@, namespace)
        }),
{
    let e = event_object(
        namespace,
        pod_name,
        event_name,
        reason,
        message,
        event_type,
        timestamp,
    );
    let f = e->Object_0;
    assert(f.len() == 11);
    assert(f[1].name == "kind"@ && f[1].value == JsonView::Text("Event"@));
    assert(f[2].name == "metadata"@);
    let m = f[2].value->Object_0;
    assert(m[0].name == "name"@ && m[0].value == JsonView::Text(event_name));
    assert(m[1].name == "namespace"@ && m[1].value == JsonView::Text(namespace));
    assert(status::has_text(f[2].value, "name"@, event_name));
    assert(status::has_text(f[2].value, "namespace"@, namespace));
    assert(f[3].name == "involvedObject"@);
    let p = f[3].value->Object_0;
    assert(p[1].name == "kind"@ && p[1].value == JsonView::Text("Pod"@));
    assert(p[2].name == "namespace"@ && p[2].value == JsonView::Text(namespace));
    assert(p[3].name == "name"@ && p[3].value == JsonView::Text(pod_name));
    assert(status::has_text(f[3].value, "kind"@, "Pod"@));
    assert(status::has_text(f[3].value, "name"@, pod_name));
    assert(status::has_text(f[3].value, "namespace"@, namespace));
    assert(f[4].name == "reason"@ && f[4].value == JsonView::Text(reason));
    assert(f[5].name == "message"@ && f[5].value == JsonView::Text(message));
    assert(f[6].name == "type"@ && f[6].value == JsonView::Text(event_type));
    assert(f[9].name == "firstTimestamp"@ && f[9].value == JsonView::Text(timestamp));
    assert(f[10].name == "lastTimestamp"@ && f[10].value == JsonView::Text(timestamp));
}

} // verus!
