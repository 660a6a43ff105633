//! The record grammar: one log line is a single object in the style of
//! newline-delimited structured logs, `{"key": value, ...}`. A line yields a
//! [`Record`] exactly when it carries all eight required fields, each with
//! the right type: `timestamp`, `level`, `method`, `path`, `ip` (strings
//! with the usual one-byte escapes), `status`, `size` (integers of at most
//! 18 digits), and `duration_ms` (a non-negative decimal of at most 15 whole
//! digits; fraction digits beyond the third are read but do not contribute).
//! Unknown keys are allowed and skipped, and their values may be scalars or
//! arbitrarily nested arrays and objects; strings that are only skipped also
//! tolerate `\u` escapes, which the required fields' strings (whose content
//! is decoded) do not. A duplicated required key, a type mismatch, exponent
//! notation, or any trailing text makes the line malformed. Durations are
//! held in thousandths of a millisecond so that no floating point enters
//! the statistics.

use vstd::prelude::*;
use crate::text::is_ws;

verus! {

/// A parsed log record. `duration_micros` is `duration_ms` scaled by 1000.
pub struct Record {
    pub timestamp: Vec<u8>,
    pub level: Vec<u8>,
    pub method: Vec<u8>,
    pub path: Vec<u8>,
    pub status: i64,
    pub duration_micros: u64,
    pub ip: Vec<u8>,
    pub size: i64,
}

/// The mathematical shape of a record.
pub ghost struct RecordView {
    pub timestamp: Seq<u8>,
    pub level: Seq<u8>,
    pub method: Seq<u8>,
    pub path: Seq<u8>,
    pub status: int,
    pub duration_micros: int,
    pub ip: Seq<u8>,
    pub size: int,
}

impl View for Record {
    type V = RecordView;

    open spec fn view(&self) -> RecordView {
        RecordView {
            timestamp: self.timestamp@,
            level: self.level@,
            method: self.method@,
            path: self.path@,
            status: self.status as int,
            duration_micros: self.duration_micros as int,
            ip: self.ip@,
            size: self.size as int,
        }
    }
}

impl DeepView for Record {
    type V = RecordView;

    open spec fn deep_view(&self) -> RecordView {
        self.view()
    }
}

/// A line that is not a well-formed record.
#[derive(Clone, Copy, PartialEq, Eq, Debug)]
pub struct ParseError;

pub open spec fn is_digit(b: u8) -> bool {
    48 <= b && b <= 57
}

/// First index at or after `i` whose byte is not whitespace (or the end).
pub open spec fn skip_ws(s: Seq<u8>, i: int) -> int
    decreases s.len() - i,
{
    if 0 <= i < s.len() && is_ws(s[i]) {
        skip_ws(s, i + 1)
    } else {
        i
    }
}


/// What a one-byte escape stands for; `None` marks an unsupported escape.
pub open spec fn unescape(b: u8) -> Option<u8> {
    if b == '"' as u8 {
        Some('"' as u8)
    } else if b == '\\' as u8 {
        Some('\\' as u8)
    } else if b == '/' as u8 {
        Some('/' as u8)
    } else if b == 'b' as u8 {
        Some(8u8)
    } else if b == 'f' as u8 {
        Some(12u8)
    } else if b == 'n' as u8 {
        Some(10u8)
    } else if b == 'r' as u8 {
        Some(13u8)
    } else if b == 't' as u8 {
        Some(9u8)
    } else {
        None
    }
}

/// The content of a quoted string whose opening quote stands just before `i`,
/// with the index just past the closing quote.
pub open spec fn parse_string_content(s: Seq<u8>, i: int) -> Option<(Seq<u8>, int)>
    decreases s.len() - i,
{
    if i < 0 || i >= s.len() {
        None
    } else if s[i] == '"' as u8 {
        Some((Seq::empty(), i + 1))
    } else if s[i] == '\\' as u8 {
        if i + 1 < s.len() {
            match unescape(s[i + 1]) {
                Some(c) => match parse_string_content(s, i + 2) {
                    Some(p) => Some((seq![c] + p.0, p.1)),
                    None => None,
                },
                None => None,
            }
        } else {
            None
        }
    } else if s[i] < 32 {
        None
    } else {
        match parse_string_content(s, i + 1) {
            Some(p) => Some((seq![s[i]] + p.0, p.1)),
            None => None,
        }
    }
}

pub proof fn lemma_string_content_bounds(s: Seq<u8>, i: int)
    requires
        0 <= i,
    ensures
        parse_string_content(s, i) matches Some(p) ==> i < p.1 <= s.len(),
    decreases s.len() - i,
{
    if i < s.len() {
        if s[i] == '\\' as u8 {
            if i + 1 < s.len() {
                lemma_string_content_bounds(s, i + 2);
            }
        } else if s[i] != '"' as u8 && s[i] >= 32 {
            lemma_string_content_bounds(s, i + 1);
        }
    }
}

/// First index at or after `i` whose byte is not a decimal digit.
pub open spec fn digits_end(s: Seq<u8>, i: int) -> int
    decreases s.len() - i,
{
    if 0 <= i < s.len() && is_digit(s[i]) {
        digits_end(s, i + 1)
    } else {
        i
    }
}


/// Value of the digit run `s[i..j]`, most significant first.
pub open spec fn digits_val(s: Seq<u8>, i: int, j: int) -> int
    decreases j - i,
{
    if j <= i {
        0
    } else {
        digits_val(s, i, j - 1) * 10 + (s[j - 1] - 48)
    }
}

pub open spec fn pow10(n: nat) -> int
    decreases n,
{
    if n == 0 {
        1
    } else {
        10 * pow10((n - 1) as nat)
    }
}

pub proof fn lemma_pow10_vals()
    ensures
        pow10(3) == 1000,
        pow10(15) == 0x38d7ea4c68000,
        pow10(17) == 0x16345785d8a0000,
        pow10(18) == 0xde0b6b3a7640000,
{
    reveal_with_fuel(pow10, 19);
}

pub proof fn lemma_pow10_mono(a: nat, b: nat)
    requires
        a <= b,
    ensures
        pow10(a) <= pow10(b),
        pow10(a) >= 1,
    decreases b,
{
    if a < b {
        lemma_pow10_mono(a, (b - 1) as nat);
    } else if b > 0 {
        lemma_pow10_mono((a - 1) as nat, (b - 1) as nat);
    }
}


/// Micro-units contributed by the fraction digits `s[i..j]`: only the first
/// three count.
pub open spec fn frac3(s: Seq<u8>, i: int, j: int) -> int {
    (if i < j {
        (s[i] - 48) * 100
    } else {
        0
    }) + (if i + 1 < j {
        (s[i + 1] - 48) * 10
    } else {
        0
    }) + (if i + 2 < j {
        (s[i + 2] - 48) as int
    } else {
        0
    })
}

/// A signed integer literal at `i`: optional minus, one to eighteen digits,
/// with the index just past the digits.
pub open spec fn parse_int(s: Seq<u8>, i: int) -> Option<(int, int)> {
    let d = if 0 <= i < s.len() && s[i] == '-' as u8 {
        i + 1
    } else {
        i
    };
    let e = digits_end(s, d);
    if e == d || e - d > 18 {
        None
    } else {
        if d > i {
            Some((-digits_val(s, d, e), e))
        } else {
            Some((digits_val(s, d, e), e))
        }
    }
}

/// A non-negative decimal duration (milliseconds) at `i`, in micro-units:
/// one to fifteen whole digits, optionally a dot and at least one fraction
/// digit, of which the first three contribute.
pub open spec fn parse_duration_micros(s: Seq<u8>, i: int) -> Option<(int, int)> {
    let e = digits_end(s, i);
    if e == i || e - i > 15 {
        None
    } else {
        let whole = digits_val(s, i, e) * 1000;
        if e < s.len() && s[e] == '.' as u8 {
            let f = digits_end(s, e + 1);
            if f == e + 1 {
                None
            } else {
                Some((whole + frac3(s, e + 1, f), f))
            }
        } else {
            Some((whole, e))
        }
    }
}

pub open spec fn is_hex_digit(b: u8) -> bool {
    is_digit(b) || ('a' as u8 <= b && b <= 'f' as u8) || ('A' as u8 <= b && b <= 'F' as u8)
}

/// Walk past a quoted string without decoding it, from just after the
/// opening quote to just past the closing one. Because nothing is decoded,
/// `\u` escapes (four hex digits) are tolerated here, unlike in the
/// required fields' strings.
pub open spec fn skip_string(s: Seq<u8>, i: int) -> Option<int>
    decreases s.len() - i,
{
    if i < 0 || i >= s.len() {
        None
    } else if s[i] == '"' as u8 {
        Some(i + 1)
    } else if s[i] == '\\' as u8 {
        if i + 1 < s.len() {
            if s[i + 1] == 'u' as u8 {
                if i + 6 <= s.len() && is_hex_digit(s[i + 2]) && is_hex_digit(s[i + 3])
                    && is_hex_digit(s[i + 4]) && is_hex_digit(s[i + 5]) {
                    skip_string(s, i + 6)
                } else {
                    None
                }
            } else if unescape(s[i + 1]) is Some {
                skip_string(s, i + 2)
            } else {
                None
            }
        } else {
            None
        }
    } else if s[i] < 32 {
        None
    } else {
        skip_string(s, i + 1)
    }
}

/// Skip one value of an unknown key: a string, a number (optionally negative
/// or with a fraction), `true`, `false`, `null`, or a nested array or
/// object of such values.
pub open spec fn skip_value(s: Seq<u8>, i: int) -> Option<int>
    decreases s.len() - i, 2int,
{
    if i < 0 || i >= s.len() {
        None
    } else if s[i] == '"' as u8 {
        skip_string(s, i + 1)
    } else if s[i] == '-' as u8 || is_digit(s[i]) {
        let d = if s[i] == '-' as u8 {
            i + 1
        } else {
            i
        };
        let e = digits_end(s, d);
        if e == d {
            None
        } else if e < s.len() && s[e] == '.' as u8 {
            let f = digits_end(s, e + 1);
            if f == e + 1 {
                None
            } else {
                Some(f)
            }
        } else {
            Some(e)
        }
    } else if s[i] == 't' as u8 {
        if i + 4 <= s.len() && s[i + 1] == 'r' as u8 && s[i + 2] == 'u' as u8 && s[i + 3]
            == 'e' as u8 {
            Some(i + 4)
        } else {
            None
        }
    } else if s[i] == 'f' as u8 {
        if i + 5 <= s.len() && s[i + 1] == 'a' as u8 && s[i + 2] == 'l' as u8 && s[i + 3]
            == 's' as u8 && s[i + 4] == 'e' as u8 {
            Some(i + 5)
        } else {
            None
        }
    } else if s[i] == 'n' as u8 {
        if i + 4 <= s.len() && s[i + 1] == 'u' as u8 && s[i + 2] == 'l' as u8 && s[i + 3]
            == 'l' as u8 {
            Some(i + 4)
        } else {
            None
        }
    } else if s[i] == '[' as u8 {
        let j = skip_ws(s, i + 1);
        if j < s.len() && s[j] == ']' as u8 {
            Some(j + 1)
        } else if i < j <= s.len() {
            skip_items(s, j)
        } else {
            None
        }
    } else if s[i] == '{' as u8 {
        let j = skip_ws(s, i + 1);
        if j < s.len() && s[j] == '}' as u8 {
            Some(j + 1)
        } else if i < j <= s.len() {
            skip_members(s, j)
        } else {
            None
        }
    } else {
        None
    }
}

/// Skip a nested array's items, from the first item through `]`.
pub open spec fn skip_items(s: Seq<u8>, i: int) -> Option<int>
    decreases s.len() - i, 3int,
{
    match skip_value(s, i) {
        Some(j) => {
            let m = skip_ws(s, j);
            if m < s.len() && s[m] == ',' as u8 {
                let next = skip_ws(s, m + 1);
                if i < next <= s.len() {
                    skip_items(s, next)
                } else {
                    None
                }
            } else if m < s.len() && s[m] == ']' as u8 {
                Some(m + 1)
            } else {
                None
            }
        },
        None => None,
    }
}

/// Skip a nested object's members, from the first key's quote through `}`.
pub open spec fn skip_members(s: Seq<u8>, i: int) -> Option<int>
    decreases s.len() - i, 3int,
{
    if !(0 <= i < s.len() && s[i] == '"' as u8) {
        None
    } else {
        match skip_string(s, i + 1) {
            Some(j) => {
                let c = skip_ws(s, j);
                if c < s.len() && s[c] == ':' as u8 {
                    let v = skip_ws(s, c + 1);
                    if i < v <= s.len() {
                        match skip_value(s, v) {
                            Some(k) => {
                                let m = skip_ws(s, k);
                                if m < s.len() && s[m] == ',' as u8 {
                                    let next = skip_ws(s, m + 1);
                                    if i < next <= s.len() {
                                        skip_members(s, next)
                                    } else {
                                        None
                                    }
                                } else if m < s.len() && s[m] == '}' as u8 {
                                    Some(m + 1)
                                } else {
                                    None
                                }
                            },
                            None => None,
                        }
                    } else {
                        None
                    }
                } else {
                    None
                }
            },
            None => None,
        }
    }
}

/// The eight required keys, plus everything else.
pub enum FieldId {
    Timestamp,
    Level,
    Method,
    Path,
    Status,
    Duration,
    Ip,
    Size,
    Other,
}

pub open spec fn key_timestamp() -> Seq<u8> {
    seq![
        't' as u8,
        'i' as u8,
        'm' as u8,
        'e' as u8,
        's' as u8,
        't' as u8,
        'a' as u8,
        'm' as u8,
        'p' as u8,
    ]
}

pub open spec fn key_level() -> Seq<u8> {
    seq!['l' as u8, 'e' as u8, 'v' as u8, 'e' as u8, 'l' as u8]
}

pub open spec fn key_method() -> Seq<u8> {
    seq!['m' as u8, 'e' as u8, 't' as u8, 'h' as u8, 'o' as u8, 'd' as u8]
}

pub open spec fn key_path() -> Seq<u8> {
    seq!['p' as u8, 'a' as u8, 't' as u8, 'h' as u8]
}

pub open spec fn key_status() -> Seq<u8> {
    seq!['s' as u8, 't' as u8, 'a' as u8, 't' as u8, 'u' as u8, 's' as u8]
}

pub open spec fn key_duration_ms() -> Seq<u8> {
    seq![
        'd' as u8,
        'u' as u8,
        'r' as u8,
        'a' as u8,
        't' as u8,
        'i' as u8,
        'o' as u8,
        'n' as u8,
        '_' as u8,
        'm' as u8,
        's' as u8,
    ]
}

pub open spec fn key_ip() -> Seq<u8> {
    seq!['i' as u8, 'p' as u8]
}

pub open spec fn key_size() -> Seq<u8> {
    seq!['s' as u8, 'i' as u8, 'z' as u8, 'e' as u8]
}

pub open spec fn field_id_of(key: Seq<u8>) -> FieldId {
    if key == key_timestamp() {
        FieldId::Timestamp
    } else if key == key_level() {
        FieldId::Level
    } else if key == key_method() {
        FieldId::Method
    } else if key == key_path() {
        FieldId::Path
    } else if key == key_status() {
        FieldId::Status
    } else if key == key_duration_ms() {
        FieldId::Duration
    } else if key == key_ip() {
        FieldId::Ip
    } else if key == key_size() {
        FieldId::Size
    } else {
        FieldId::Other
    }
}

/// The required fields seen so far while walking one record's members.
pub ghost struct PartialFields {
    pub timestamp: Option<Seq<u8>>,
    pub level: Option<Seq<u8>>,
    pub method: Option<Seq<u8>>,
    pub path: Option<Seq<u8>>,
    pub status: Option<int>,
    pub duration_micros: Option<int>,
    pub ip: Option<Seq<u8>>,
    pub size: Option<int>,
}

pub open spec fn empty_fields() -> PartialFields {
    PartialFields {
        timestamp: None,
        level: None,
        method: None,
        path: None,
        status: None,
        duration_micros: None,
        ip: None,
        size: None,
    }
}

pub open spec fn fields_complete(f: PartialFields) -> bool {
    &&& f.timestamp is Some
    &&& f.level is Some
    &&& f.method is Some
    &&& f.path is Some
    &&& f.status is Some
    &&& f.duration_micros is Some
    &&& f.ip is Some
    &&& f.size is Some
}

pub open spec fn record_of_fields(f: PartialFields) -> RecordView {
    RecordView {
        timestamp: f.timestamp->0,
        level: f.level->0,
        method: f.method->0,
        path: f.path->0,
        status: f.status->0,
        duration_micros: f.duration_micros->0,
        ip: f.ip->0,
        size: f.size->0,
    }
}

/// A quoted string starting (with its quote) at `v`.
pub open spec fn parse_string_at(s: Seq<u8>, v: int) -> Option<(Seq<u8>, int)> {
    if 0 <= v < s.len() && s[v] == '"' as u8 {
        parse_string_content(s, v + 1)
    } else {
        None
    }
}

/// Fold one member's value at `v` under `key` into the fields seen so far.
/// A duplicated required key or a mismatched value type yields `None`.
pub open spec fn apply_field(s: Seq<u8>, v: int, key: Seq<u8>, acc: PartialFields) -> Option<
    (PartialFields, int),
> {
    match field_id_of(key) {
        FieldId::Timestamp => match parse_string_at(s, v) {
            Some(p) => if acc.timestamp is Some {
                None
            } else {
                Some((PartialFields { timestamp: Some(p.0), ..acc }, p.1))
            },
            None => None,
        },
        FieldId::Level => match parse_string_at(s, v) {
            Some(p) => if acc.level is Some {
                None
            } else {
                Some((PartialFields { level: Some(p.0), ..acc }, p.1))
            },
            None => None,
        },
        FieldId::Method => match parse_string_at(s, v) {
            Some(p) => if acc.method is Some {
                None
            } else {
                Some((PartialFields { method: Some(p.0), ..acc }, p.1))
            },
            None => None,
        },
        FieldId::Path => match parse_string_at(s, v) {
            Some(p) => if acc.path is Some {
                None
            } else {
                Some((PartialFields { path: Some(p.0), ..acc }, p.1))
            },
            None => None,
        },
        FieldId::Status => match parse_int(s, v) {
            Some(p) => if acc.status is Some {
                None
            } else {
                Some((PartialFields { status: Some(p.0), ..acc }, p.1))
            },
            None => None,
        },
        FieldId::Duration => match parse_duration_micros(s, v) {
            Some(p) => if acc.duration_micros is Some {
                None
            } else {
                Some((PartialFields { duration_micros: Some(p.0), ..acc }, p.1))
            },
            None => None,
        },
        FieldId::Ip => match parse_string_at(s, v) {
            Some(p) => if acc.ip is Some {
                None
            } else {
                Some((PartialFields { ip: Some(p.0), ..acc }, p.1))
            },
            None => None,
        },
        FieldId::Size => match parse_int(s, v) {
            Some(p) => if acc.size is Some {
                None
            } else {
                Some((PartialFields { size: Some(p.0), ..acc }, p.1))
            },
            None => None,
        },
        FieldId::Other => match skip_value(s, v) {
            Some(j) => Some((acc, j)),
            None => None,
        },
    }
}

/// One `"key" : value` member starting at `i` (at the opening quote).
pub open spec fn parse_member(s: Seq<u8>, i: int, acc: PartialFields) -> Option<
    (PartialFields, int),
> {
    if !(0 <= i < s.len() && s[i] == '"' as u8) {
        None
    } else {
        match parse_string_content(s, i + 1) {
            Some(kp) => {
                let c = skip_ws(s, kp.1);
                if c < s.len() && s[c] == ':' as u8 {
                    apply_field(s, skip_ws(s, c + 1), kp.0, acc)
                } else {
                    None
                }
            },
            None => None,
        }
    }
}




/// The members of a record object, starting at `i` (at the first key's
/// quote), through the closing brace; yields the fields collected and the
/// index just past the brace.
pub open spec fn parse_members(s: Seq<u8>, i: int, acc: PartialFields) -> Option<
    (PartialFields, int),
>
    decreases s.len() - i,
{
    match parse_member(s, i, acc) {
        Some(p) => {
            let m = skip_ws(s, p.1);
            if m < s.len() && s[m] == ',' as u8 {
                let next = skip_ws(s, m + 1);
                if i < next <= s.len() {
                    parse_members(s, next, p.0)
                } else {
                    None
                }
            } else if m < s.len() && s[m] == '}' as u8 {
                Some((p.0, m + 1))
            } else {
                None
            }
        },
        None => None,
    }
}

/// A whole line: optional whitespace, one record object, optional whitespace,
/// end of line. `None` is a malformed line.
pub open spec fn parse_record_spec(s: Seq<u8>) -> Option<RecordView> {
    let i = skip_ws(s, 0);
    if i < s.len() && s[i] == '{' as u8 {
        match parse_members(s, skip_ws(s, i + 1), empty_fields()) {
            Some(p) => if skip_ws(s, p.1) == s.len() && fields_complete(p.0) {
                Some(record_of_fields(p.0))
            } else {
                None
            },
            None => None,
        }
    } else {
        None
    }
}

/// Executable byte-class checks.
fn ws_byte(b: u8) -> (r: bool)
    ensures
        r == is_ws(b),
{
    b == 32 || b == 9 || b == 10 || b == 13
}

fn digit_byte(b: u8) -> (r: bool)
    ensures
        r == is_digit(b),
{
    48 <= b && b <= 57
}

/// Executable `skip_ws`.
fn skip_ws_x(s: &[u8], i: usize) -> (r: usize)
    requires
        i <= s@.len(),
    ensures
        r as int == skip_ws(s@, i as int),
        i <= r <= s@.len(),
{
    let mut cur: usize = i;
    while cur < s.len() && ws_byte(s[cur])
        invariant
            i <= cur <= s@.len(),
            skip_ws(s@, i as int) == skip_ws(s@, cur as int),
        decreases s@.len() - cur,
    {
        cur = cur + 1;
    }
    cur
}

/// Executable `digits_end`, with the digit run's content.
fn scan_digits(s: &[u8], i: usize) -> (e: usize)
    requires
        i <= s@.len(),
    ensures
        e as int == digits_end(s@, i as int),
        i <= e <= s@.len(),
        forall|k: int| i <= k < e ==> is_digit(s@[k]),
{
    let mut cur: usize = i;
    while cur < s.len() && digit_byte(s[cur])
        invariant
            i <= cur <= s@.len(),
            digits_end(s@, i as int) == digits_end(s@, cur as int),
            forall|k: int| i <= k < cur ==> is_digit(s@[k]),
        decreases s@.len() - cur,
    {
        cur = cur + 1;
    }
    cur
}

/// Executable `unescape`.
fn unescape_x(b: u8) -> (r: Option<u8>)
    ensures
        r == unescape(b),
{
    if b == '"' as u8 {
        Some('"' as u8)
    } else if b == '\\' as u8 {
        Some('\\' as u8)
    } else if b == '/' as u8 {
        Some('/' as u8)
    } else if b == 'b' as u8 {
        Some(8u8)
    } else if b == 'f' as u8 {
        Some(12u8)
    } else if b == 'n' as u8 {
        Some(10u8)
    } else if b == 'r' as u8 {
        Some(13u8)
    } else if b == 't' as u8 {
        Some(9u8)
    } else {
        None
    }
}

/// Executable `parse_string_content`.
fn parse_string_content_x(s: &[u8], i: usize) -> (r: Option<(Vec<u8>, usize)>)
    requires
        i <= s@.len(),
    ensures
        match r {
            Some(p) => parse_string_content(s@, i as int) == Some((p.0@, p.1 as int)) && i < p.1
                <= s@.len(),
            None => parse_string_content(s@, i as int) is None,
        },
{
    proof {
        lemma_string_content_bounds(s@, i as int);
    }
    let mut out: Vec<u8> = Vec::new();
    let mut cur: usize = i;
    loop
        invariant
            i <= cur <= s@.len(),
            parse_string_content(s@, i as int) == (match parse_string_content(s@, cur as int) {
                Some(p) => Some((out@ + p.0, p.1)),
                None => None::<(Seq<u8>, int)>,
            }),
        decreases s@.len() - cur,
    {
        if cur >= s.len() {
            return None;
        }
        let b = s[cur];
        if b == '"' as u8 {
            proof {
                assert(out@ + Seq::<u8>::empty() =~= out@);
                lemma_string_content_bounds(s@, i as int);
            }
            return Some((out, cur + 1));
        } else if b == '\\' as u8 {
            if cur + 1 >= s.len() {
                return None;
            }
            match unescape_x(s[cur + 1]) {
                Some(c) => {
                    let ghost prev = out@;
                    out.push(c);
                    proof {
                        match parse_string_content(s@, cur + 2 as int) {
                            Some(p) => {
                                assert(prev + (seq![c] + p.0) =~= out@ + p.0);
                            },
                            None => {},
                        }
                    }
                    cur = cur + 2;
                },
                None => {
                    return None;
                },
            }
        } else if b < 32 {
            return None;
        } else {
            let ghost prev = out@;
            out.push(b);
            proof {
                match parse_string_content(s@, cur + 1 as int) {
                    Some(p) => {
                        assert(prev + (seq![b] + p.0) =~= out@ + p.0);
                    },
                    None => {},
                }
            }
            cur = cur + 1;
        }
    }
}

/// Value of a digit run of at most eighteen digits.
fn digits_value_x(s: &[u8], d: usize, e: usize) -> (val: u64)
    requires
        d <= e <= s@.len(),
        e - d <= 18,
        forall|k: int| d <= k < e ==> is_digit(s@[k]),
    ensures
        val as int == digits_val(s@, d as int, e as int),
        (val as int) < pow10((e - d) as nat),
{
    let mut val: u64 = 0;
    let mut k: usize = d;
    while k < e
        invariant
            d <= k <= e <= s@.len(),
            e - d <= 18,
            forall|k2: int| d <= k2 < e ==> is_digit(s@[k2]),
            val as int == digits_val(s@, d as int, k as int),
            (val as int) < pow10((k - d) as nat),
        decreases e - k,
    {
        proof {
            lemma_pow10_vals();
            lemma_pow10_mono((k - d + 1) as nat, 18);
            assert(pow10((k - d + 1) as nat) == 10 * pow10((k - d) as nat));
        }
        let b = s[k];
        val = val * 10 + (b - 48) as u64;
        k = k + 1;
    }
    val
}

/// Executable `parse_int`.
fn parse_int_x(s: &[u8], i: usize) -> (r: Option<(i64, usize)>)
    requires
        i <= s@.len(),
    ensures
        match r {
            Some(p) => parse_int(s@, i as int) == Some((p.0 as int, p.1 as int)) && i < p.1
                <= s@.len(),
            None => parse_int(s@, i as int) is None,
        },
{
    let neg: bool = i < s.len() && s[i] == '-' as u8;
    let d: usize = if neg {
        i + 1
    } else {
        i
    };
    let e = scan_digits(s, d);
    if e == d || e - d > 18 {
        return None;
    }
    let val = digits_value_x(s, d, e);
    proof {
        lemma_pow10_mono((e - d) as nat, 18);
        lemma_pow10_vals();
    }
    if neg {
        Some((-(val as i64), e))
    } else {
        Some((val as i64, e))
    }
}

/// Executable `parse_duration_micros`.
fn parse_duration_x(s: &[u8], i: usize) -> (r: Option<(u64, usize)>)
    requires
        i <= s@.len(),
    ensures
        match r {
            Some(p) => parse_duration_micros(s@, i as int) == Some((p.0 as int, p.1 as int)) && i
                < p.1 <= s@.len(),
            None => parse_duration_micros(s@, i as int) is None,
        },
{
    let e = scan_digits(s, i);
    if e == i || e - i > 15 {
        return None;
    }
    let val = digits_value_x(s, i, e);
    proof {
        lemma_pow10_mono((e - i) as nat, 15);
        lemma_pow10_vals();
        assert(pow10(16) == 10 * pow10(15));
        assert(pow10(17) == 10 * pow10(16));
        assert(pow10(18) == 10 * pow10(17));
    }
    let whole: u64 = val * 1000;
    if e < s.len() && s[e] == '.' as u8 {
        let f = scan_digits(s, e + 1);
        if f == e + 1 {
            return None;
        }
        let mut fr: u64 = 0;
        if f - e > 1 {
            fr = fr + ((s[e + 1] - 48) as u64) * 100;
        }
        if f - e > 2 {
            fr = fr + ((s[e + 2] - 48) as u64) * 10;
        }
        if f - e > 3 {
            fr = fr + (s[e + 3] - 48) as u64;
        }
        Some((whole + fr, f))
    } else {
        Some((whole, e))
    }
}

/// Executable `is_hex_digit`.
fn hex_digit_x(b: u8) -> (r: bool)
    ensures
        r == is_hex_digit(b),
{
    (48 <= b && b <= 57) || ('a' as u8 <= b && b <= 'f' as u8) || ('A' as u8 <= b && b
        <= 'F' as u8)
}

/// Executable `skip_string`.
fn skip_string_x(s: &[u8], i: usize) -> (r: Option<usize>)
    requires
        i <= s@.len(),
    ensures
        match r {
            Some(j) => skip_string(s@, i as int) == Some(j as int) && i < j <= s@.len(),
            None => skip_string(s@, i as int) is None,
        },
{
    let mut cur: usize = i;
    loop
        invariant
            i <= cur <= s@.len(),
            skip_string(s@, i as int) == skip_string(s@, cur as int),
        decreases s@.len() - cur,
    {
        if cur >= s.len() {
            return None;
        }
        let b = s[cur];
        if b == '"' as u8 {
            return Some(cur + 1);
        } else if b == '\\' as u8 {
            if s.len() - cur < 2 {
                return None;
            }
            let e = s[cur + 1];
            if e == 'u' as u8 {
                if s.len() - cur < 6 {
                    return None;
                }
                if hex_digit_x(s[cur + 2]) && hex_digit_x(s[cur + 3]) && hex_digit_x(s[cur + 4])
                    && hex_digit_x(s[cur + 5]) {
                    cur = cur + 6;
                } else {
                    return None;
                }
            } else if unescape_x(e).is_some() {
                cur = cur + 2;
            } else {
                return None;
            }
        } else if b < 32 {
            return None;
        } else {
            cur = cur + 1;
        }
    }
}

/// Executable `skip_value`.
fn skip_value_x(s: &[u8], i: usize) -> (r: Option<usize>)
    requires
        i <= s@.len(),
    ensures
        match r {
            Some(j) => skip_value(s@, i as int) == Some(j as int) && i < j <= s@.len(),
            None => skip_value(s@, i as int) is None,
        },
    decreases s@.len() - i, 2int,
{
    if i >= s.len() {
        return None;
    }
    let b = s[i];
    if b == '"' as u8 {
        skip_string_x(s, i + 1)
    } else if b == '-' as u8 || digit_byte(b) {
        let d: usize = if b == '-' as u8 {
            i + 1
        } else {
            i
        };
        let e = scan_digits(s, d);
        if e == d {
            return None;
        }
        if e < s.len() && s[e] == '.' as u8 {
            let f = scan_digits(s, e + 1);
            if f == e + 1 {
                None
            } else {
                Some(f)
            }
        } else {
            Some(e)
        }
    } else if b == 't' as u8 {
        if s.len() - i >= 4 && s[i + 1] == 'r' as u8 && s[i + 2] == 'u' as u8 && s[i + 3]
            == 'e' as u8 {
            Some(i + 4)
        } else {
            None
        }
    } else if b == 'f' as u8 {
        if s.len() - i >= 5 && s[i + 1] == 'a' as u8 && s[i + 2] == 'l' as u8 && s[i + 3]
            == 's' as u8 && s[i + 4] == 'e' as u8 {
            Some(i + 5)
        } else {
            None
        }
    } else if b == 'n' as u8 {
        if s.len() - i >= 4 && s[i + 1] == 'u' as u8 && s[i + 2] == 'l' as u8 && s[i + 3]
            == 'l' as u8 {
            Some(i + 4)
        } else {
            None
        }
    } else if b == '[' as u8 {
        let j = skip_ws_x(s, i + 1);
        if j < s.len() && s[j] == ']' as u8 {
            Some(j + 1)
        } else {
            skip_items_x(s, j)
        }
    } else if b == '{' as u8 {
        let j = skip_ws_x(s, i + 1);
        if j < s.len() && s[j] == '}' as u8 {
            Some(j + 1)
        } else {
            skip_members_x(s, j)
        }
    } else {
        None
    }
}

/// Executable `skip_items`.
fn skip_items_x(s: &[u8], i: usize) -> (r: Option<usize>)
    requires
        i <= s@.len(),
    ensures
        match r {
            Some(j) => skip_items(s@, i as int) == Some(j as int) && i < j <= s@.len(),
            None => skip_items(s@, i as int) is None,
        },
    decreases s@.len() - i, 3int,
{
    match skip_value_x(s, i) {
        Some(j) => {
            let m = skip_ws_x(s, j);
            if m < s.len() && s[m] == ',' as u8 {
                let next = skip_ws_x(s, m + 1);
                assert(i < next <= s@.len());
                skip_items_x(s, next)
            } else if m < s.len() && s[m] == ']' as u8 {
                Some(m + 1)
            } else {
                None
            }
        },
        None => None,
    }
}

/// Executable `skip_members`.
fn skip_members_x(s: &[u8], i: usize) -> (r: Option<usize>)
    requires
        i <= s@.len(),
    ensures
        match r {
            Some(j) => skip_members(s@, i as int) == Some(j as int) && i < j <= s@.len(),
            None => skip_members(s@, i as int) is None,
        },
    decreases s@.len() - i, 3int,
{
    if !(i < s.len() && s[i] == '"' as u8) {
        return None;
    }
    match skip_string_x(s, i + 1) {
        Some(j) => {
            let c = skip_ws_x(s, j);
            if c < s.len() && s[c] == ':' as u8 {
                let v = skip_ws_x(s, c + 1);
                assert(i < v <= s@.len());
                match skip_value_x(s, v) {
                    Some(k) => {
                        let m = skip_ws_x(s, k);
                        if m < s.len() && s[m] == ',' as u8 {
                            let next = skip_ws_x(s, m + 1);
                            assert(i < next <= s@.len());
                            skip_members_x(s, next)
                        } else if m < s.len() && s[m] == '}' as u8 {
                            Some(m + 1)
                        } else {
                            None
                        }
                    },
                    None => None,
                }
            } else {
                None
            }
        },
        None => None,
    }
}

/// Executable `field_id_of`.
fn field_id(key: &[u8]) -> (f: FieldId)
    ensures
        f == field_id_of(key@),
{
    let kt: Vec<u8> = vec![
        't' as u8,
        'i' as u8,
        'm' as u8,
        'e' as u8,
        's' as u8,
        't' as u8,
        'a' as u8,
        'm' as u8,
        'p' as u8,
    ];
    assert(kt@ =~= key_timestamp());
    if crate::text::bytes_eq(key, kt.as_slice()) {
        return FieldId::Timestamp;
    }
    let kl: Vec<u8> = vec!['l' as u8, 'e' as u8, 'v' as u8, 'e' as u8, 'l' as u8];
    assert(kl@ =~= key_level());
    if crate::text::bytes_eq(key, kl.as_slice()) {
        return FieldId::Level;
    }
    let km: Vec<u8> = vec!['m' as u8, 'e' as u8, 't' as u8, 'h' as u8, 'o' as u8, 'd' as u8];
    assert(km@ =~= key_method());
    if crate::text::bytes_eq(key, km.as_slice()) {
        return FieldId::Method;
    }
    let kp: Vec<u8> = vec!['p' as u8, 'a' as u8, 't' as u8, 'h' as u8];
    assert(kp@ =~= key_path());
    if crate::text::bytes_eq(key, kp.as_slice()) {
        return FieldId::Path;
    }
    let ks: Vec<u8> = vec!['s' as u8, 't' as u8, 'a' as u8, 't' as u8, 'u' as u8, 's' as u8];
    assert(ks@ =~= key_status());
    if crate::text::bytes_eq(key, ks.as_slice()) {
        return FieldId::Status;
    }
    let kd: Vec<u8> = vec![
        'd' as u8,
        'u' as u8,
        'r' as u8,
        'a' as u8,
        't' as u8,
        'i' as u8,
        'o' as u8,
        'n' as u8,
        '_' as u8,
        'm' as u8,
        's' as u8,
    ];
    assert(kd@ =~= key_duration_ms());
    if crate::text::bytes_eq(key, kd.as_slice()) {
        return FieldId::Duration;
    }
    let ki: Vec<u8> = vec!['i' as u8, 'p' as u8];
    assert(ki@ =~= key_ip());
    if crate::text::bytes_eq(key, ki.as_slice()) {
        return FieldId::Ip;
    }
    let kz: Vec<u8> = vec!['s' as u8, 'i' as u8, 'z' as u8, 'e' as u8];
    assert(kz@ =~= key_size());
    if crate::text::bytes_eq(key, kz.as_slice()) {
        return FieldId::Size;
    }
    FieldId::Other
}

/// The required fields collected so far, executable side.
struct PartialX {
    timestamp: Option<Vec<u8>>,
    level: Option<Vec<u8>>,
    method: Option<Vec<u8>>,
    path: Option<Vec<u8>>,
    status: Option<i64>,
    duration_micros: Option<u64>,
    ip: Option<Vec<u8>>,
    size: Option<i64>,
}

/// The fields a `PartialX` stands for.
spec fn pxv(p: PartialX) -> PartialFields {
        PartialFields {
            timestamp: match p.timestamp {
                Some(v) => Some(v@),
                None => None,
            },
            level: match p.level {
                Some(v) => Some(v@),
                None => None,
            },
            method: match p.method {
                Some(v) => Some(v@),
                None => None,
            },
            path: match p.path {
                Some(v) => Some(v@),
                None => None,
            },
            status: match p.status {
                Some(v) => Some(v as int),
                None => None,
            },
            duration_micros: match p.duration_micros {
                Some(v) => Some(v as int),
                None => None,
            },
            ip: match p.ip {
                Some(v) => Some(v@),
                None => None,
            },
            size: match p.size {
                Some(v) => Some(v as int),
                None => None,
            },
        }
}

/// Executable `parse_string_at`.
fn parse_string_at_x(s: &[u8], v: usize) -> (r: Option<(Vec<u8>, usize)>)
    requires
        v <= s@.len(),
    ensures
        match r {
            Some(p) => parse_string_at(s@, v as int) == Some((p.0@, p.1 as int)) && v < p.1
                <= s@.len(),
            None => parse_string_at(s@, v as int) is None,
        },
{
    if v < s.len() && s[v] == '"' as u8 {
        parse_string_content_x(s, v + 1)
    } else {
        None
    }
}

/// Executable `apply_field`.
fn apply_field_x(s: &[u8], v: usize, key: &[u8], acc: PartialX) -> (r: Option<(PartialX, usize)>)
    requires
        v <= s@.len(),
    ensures
        match r {
            Some(p) => apply_field(s@, v as int, key@, pxv(acc)) == Some((pxv(p.0), p.1 as int)) && v < p.1
                <= s@.len(),
            None => apply_field(s@, v as int, key@, pxv(acc)) is None,
        },
{
    match field_id(key) {
        FieldId::Timestamp => match parse_string_at_x(s, v) {
            Some(p) => {
                if acc.timestamp.is_some() {
                    None
                } else {
                    Some((PartialX { timestamp: Some(p.0), ..acc }, p.1))
                }
            },
            None => None,
        },
        FieldId::Level => match parse_string_at_x(s, v) {
            Some(p) => {
                if acc.level.is_some() {
                    None
                } else {
                    Some((PartialX { level: Some(p.0), ..acc }, p.1))
                }
            },
            None => None,
        },
        FieldId::Method => match parse_string_at_x(s, v) {
            Some(p) => {
                if acc.method.is_some() {
                    None
                } else {
                    Some((PartialX { method: Some(p.0), ..acc }, p.1))
                }
            },
            None => None,
        },
        FieldId::Path => match parse_string_at_x(s, v) {
            Some(p) => {
                if acc.path.is_some() {
                    None
                } else {
                    Some((PartialX { path: Some(p.0), ..acc }, p.1))
                }
            },
            None => None,
        },
        FieldId::Status => match parse_int_x(s, v) {
            Some(p) => {
                if acc.status.is_some() {
                    None
                } else {
                    Some((PartialX { status: Some(p.0), ..acc }, p.1))
                }
            },
            None => None,
        },
        FieldId::Duration => match parse_duration_x(s, v) {
            Some(p) => {
                if acc.duration_micros.is_some() {
                    None
                } else {
                    Some((PartialX { duration_micros: Some(p.0), ..acc }, p.1))
                }
            },
            None => None,
        },
        FieldId::Ip => match parse_string_at_x(s, v) {
            Some(p) => {
                if acc.ip.is_some() {
                    None
                } else {
                    Some((PartialX { ip: Some(p.0), ..acc }, p.1))
                }
            },
            None => None,
        },
        FieldId::Size => match parse_int_x(s, v) {
            Some(p) => {
                if acc.size.is_some() {
                    None
                } else {
                    Some((PartialX { size: Some(p.0), ..acc }, p.1))
                }
            },
            None => None,
        },
        FieldId::Other => match skip_value_x(s, v) {
            Some(j) => Some((acc, j)),
            None => None,
        },
    }
}

/// Executable `parse_member`.
fn parse_member_x(s: &[u8], i: usize, acc: PartialX) -> (r: Option<(PartialX, usize)>)
    requires
        i <= s@.len(),
    ensures
        match r {
            Some(p) => parse_member(s@, i as int, pxv(acc)) == Some((pxv(p.0), p.1 as int)) && i < p.1
                <= s@.len(),
            None => parse_member(s@, i as int, pxv(acc)) is None,
        },
{
    if !(i < s.len() && s[i] == '"' as u8) {
        return None;
    }
    match parse_string_content_x(s, i + 1) {
        Some(kp) => {
            let c = skip_ws_x(s, kp.1);
            if c < s.len() && s[c] == ':' as u8 {
                let v = skip_ws_x(s, c + 1);
                apply_field_x(s, v, kp.0.as_slice(), acc)
            } else {
                None
            }
        },
        None => None,
    }
}

/// Executable `parse_members`.
fn parse_members_x(s: &[u8], start: usize, acc0: PartialX) -> (r: Option<(PartialX, usize)>)
    requires
        start <= s@.len(),
    ensures
        match r {
            Some(p) => parse_members(s@, start as int, pxv(acc0)) == Some((pxv(p.0), p.1 as int)) && p.1
                <= s@.len(),
            None => parse_members(s@, start as int, pxv(acc0)) is None,
        },
{
    let mut i: usize = start;
    let mut acc = acc0;
    loop
        invariant
            i <= s@.len(),
            parse_members(s@, start as int, pxv(acc0)) == parse_members(s@, i as int, pxv(acc)),
        decreases s@.len() - i,
    {
        match parse_member_x(s, i, acc) {
            None => {
                return None;
            },
            Some(p) => {
                let j = p.1;
                let m = skip_ws_x(s, j);
                if m < s.len() && s[m] == ',' as u8 {
                    let next = skip_ws_x(s, m + 1);
                    assert(i < next <= s@.len());
                    acc = p.0;
                    i = next;
                } else if m < s.len() && s[m] == '}' as u8 {
                    return Some((p.0, m + 1));
                } else {
                    return None;
                }
            },
        }
    }
}

/// Parse one line into a record; `Err` exactly when the line does not follow
/// the record grammar (`parse_record_spec` yields nothing).
pub fn parse_record(line: &[u8]) -> (r: Result<Record, ParseError>)
    ensures
        match r {
            Ok(rec) => parse_record_spec(line@) == Some(rec@),
            Err(_) => parse_record_spec(line@) is None,
        },
{
    let i = skip_ws_x(line, 0);
    if !(i < line.len() && line[i] == '{' as u8) {
        return Err(ParseError);
    }
    let j = skip_ws_x(line, i + 1);
    let acc0 = PartialX {
        timestamp: None,
        level: None,
        method: None,
        path: None,
        status: None,
        duration_micros: None,
        ip: None,
        size: None,
    };
    assert(pxv(acc0) == empty_fields());
    match parse_members_x(line, j, acc0) {
        Some(p) => {
            let e = p.1;
            let t = skip_ws_x(line, e);
            if t != line.len() {
                return Err(ParseError);
            }
            let f = p.0;
            match (f.timestamp, f.level, f.method, f.path, f.status, f.duration_micros, f.ip,
            f.size) {
                (
                    Some(ts),
                    Some(lv),
                    Some(me),
                    Some(pa),
                    Some(st),
                    Some(du),
                    Some(ipv),
                    Some(sz),
                ) => {
                    let rec = Record {
                        timestamp: ts,
                        level: lv,
                        method: me,
                        path: pa,
                        status: st,
                        duration_micros: du,
                        ip: ipv,
                        size: sz,
                    };
                    Ok(rec)
                },
                _ => Err(ParseError),
            }
        },
        None => Err(ParseError),
    }
}

} // verus!
