use vstd::prelude::*;

verus! {

/// Unicode White_Space, the set that `char::is_whitespace` tests.
pub open spec fn is_ws(c: char) -> bool {
    ('\u{9}' <= c && c <= '\u{d}') || c == ' ' || c == '\u{85}' || c == '\u{a0}'
        || c == '\u{1680}' || ('\u{2000}' <= c && c <= '\u{200a}') || c == '\u{2028}'
        || c == '\u{2029}' || c == '\u{202f}' || c == '\u{205f}' || c == '\u{3000}'
}

pub open spec fn ws_free(s: Seq<char>) -> bool {
    forall|k: int| 0 <= k < s.len() ==> !is_ws(#[trigger] s[k])
}

/// A category name: a non-empty run of non-whitespace characters.
pub open spec fn is_name(s: Seq<char>) -> bool {
    s.len() > 0 && ws_free(s)
}

pub open spec fn is_digit(c: char) -> bool {
    '0' <= c && c <= '9'
}

/// A timestamp field: a non-empty run of ASCII decimal digits.
pub open spec fn is_digits(s: Seq<char>) -> bool {
    s.len() > 0 && forall|k: int| 0 <= k < s.len() ==> is_digit(#[trigger] s[k])
}

pub open spec fn digit_value(c: char) -> nat {
    (c as int - '0' as int) as nat
}

/// The number that a run of decimal digits denotes (leading zeros allowed).
pub open spec fn digits_value(s: Seq<char>) -> nat
    decreases s.len(),
{
    if s.len() == 0 {
        0
    } else {
        digits_value(s.drop_last()) * 10 + digit_value(s.last())
    }
}

pub open spec fn digit_char(d: nat) -> char {
    seq!['0', '1', '2', '3', '4', '5', '6', '7', '8', '9'][d as int]
}

/// The shortest decimal spelling of `n`.
pub open spec fn decimal(n: nat) -> Seq<char>
    decreases n,
{
    if n < 10 {
        seq![digit_char(n)]
    } else {
        decimal(n / 10) + seq![digit_char(n % 10)]
    }
}

pub open spec fn started_marker() -> Seq<char> {
    seq![' ', 's', 't', 'a', 'r', 't', 'e', 'd', '=']
}

pub open spec fn ended_marker() -> Seq<char> {
    seq![' ', 'e', 'n', 'd', 'e', 'd', '=']
}

/// `<name> started=<start> ended=<end>`, with the fields as given.
pub open spec fn record_line(name: Seq<char>, start: Seq<char>, end: Seq<char>) -> Seq<char> {
    name + started_marker() + start + ended_marker() + end
}

/// `line` is a record line whose three fields are `name`, `start` and `end`.
pub open spec fn is_record(line: Seq<char>, name: Seq<char>, start: Seq<char>, end: Seq<char>) -> bool {
    is_name(name) && is_digits(start) && is_digits(end) && line == record_line(name, start, end)
}

pub open spec fn is_record_line(line: Seq<char>) -> bool {
    exists|f: (Seq<char>, Seq<char>, Seq<char>)| is_record(line, f.0, f.1, f.2)
}

/// The fields of a record line (there is only one way to split one).
pub open spec fn record_fields(line: Seq<char>) -> (Seq<char>, Seq<char>, Seq<char>) {
    choose|f: (Seq<char>, Seq<char>, Seq<char>)| is_record(line, f.0, f.1, f.2)
}

/// What a line denotes: name, start and end, when it is a record line whose
/// timestamps fit in 64 bits; `None` otherwise.
pub open spec fn parse_line(line: Seq<char>) -> Option<(Seq<char>, u64, u64)> {
    if is_record_line(line) {
        let f = record_fields(line);
        if digits_value(f.1) <= u64::MAX && digits_value(f.2) <= u64::MAX {
            Some((f.0, digits_value(f.1) as u64, digits_value(f.2) as u64))
        } else {
            None
        }
    } else {
        None
    }
}

/// The canonical line of an event.
pub open spec fn format_line(name: Seq<char>, start: u64, end: u64) -> Seq<char> {
    record_line(name, decimal(start as nat), decimal(end as nat))
}

/// `r` is where a scan from `from` stops: at the first whitespace, or at the end.
pub open spec fn ws_stop(s: Seq<char>, from: int, r: int) -> bool {
    &&& 0 <= from <= r <= s.len()
    &&& (forall|k: int| from <= k < r ==> !is_ws(#[trigger] s[k]))
    &&& r < s.len() ==> is_ws(s[r])
}

proof fn lemma_is_record_line(line: Seq<char>, name: Seq<char>, start: Seq<char>, end: Seq<char>)
    requires
        is_record(line, name, start, end),
    ensures
        is_record_line(line),
{
    let f = (name, start, end);
    assert(is_record(line, f.0, f.1, f.2));
}

proof fn lemma_ws_stop_unique(s: Seq<char>, from: int, r1: int, r2: int)
    requires
        ws_stop(s, from, r1),
        ws_stop(s, from, r2),
    ensures
        r1 == r2,
{
    if r1 < r2 {
        assert(!is_ws(s[r1]));
    } else if r2 < r1 {
        assert(!is_ws(s[r2]));
    }
}

/// Where the parts of a record line sit in it.
proof fn lemma_record_shape(s: Seq<char>, name: Seq<char>, start: Seq<char>, end: Seq<char>)
    requires
        ws_free(name),
        ws_free(start),
        s == record_line(name, start, end),
    ensures
        ({
            let p = name.len() + 9 as int;
            let q = p + start.len() + 7 as int;
            &&& s.len() == q + end.len()
            &&& ws_stop(s, 0, name.len() as int)
            &&& ws_stop(s, p, p + start.len())
            &&& s.subrange(0, name.len() as int) == name
            &&& s.subrange(name.len() as int, p) == started_marker()
            &&& s.subrange(p, p + start.len()) == start
            &&& s.subrange(p + start.len(), q) == ended_marker()
            &&& s.subrange(q, s.len() as int) == end
        }),
{
    let p = name.len() + 9 as int;
    let q = p + start.len() + 7 as int;
    let a = name + started_marker();
    let b = a + start;
    let c = b + ended_marker();
    assert(s == c + end);
    assert(s.subrange(0, name.len() as int) =~= name);
    assert(s.subrange(name.len() as int, p) =~= started_marker());
    assert(s.subrange(p, p + start.len()) =~= start);
    assert(s.subrange(p + start.len(), q) =~= ended_marker());
    assert(s.subrange(q, s.len() as int) =~= end);
    assert forall|k: int| 0 <= k < name.len() implies !is_ws(#[trigger] s[k]) by {
        assert(s[k] == name[k]);
    }
    assert(s[name.len() as int] == ' ');
    assert forall|k: int| p <= k < p + start.len() implies !is_ws(#[trigger] s[k]) by {
        assert(s[k] == start[k - p]);
    }
    assert(s[p + start.len()] == ' ');
}

/// A line made of whitespace-free parts has exactly those parts as fields.
proof fn lemma_fields_of_line(
    name: Seq<char>,
    start: Seq<char>,
    end: Seq<char>,
    f: (Seq<char>, Seq<char>, Seq<char>),
)
    requires
        ws_free(name),
        ws_free(start),
        is_record(record_line(name, start, end), f.0, f.1, f.2),
    ensures
        f == (name, start, end),
{
    let s = record_line(name, start, end);
    lemma_record_shape(s, name, start, end);
    lemma_record_shape(s, f.0, f.1, f.2);
    lemma_ws_stop_unique(s, 0, name.len() as int, f.0.len() as int);
    let p = name.len() + 9 as int;
    lemma_ws_stop_unique(s, p, p + start.len(), p + f.1.len());
}

proof fn lemma_digits_ws_free(s: Seq<char>)
    requires
        is_digits(s),
    ensures
        ws_free(s),
{
    assert forall|k: int| 0 <= k < s.len() implies !is_ws(#[trigger] s[k]) by {
        assert(is_digit(s[k]));
    }
}

proof fn lemma_decimal(n: nat)
    ensures
        is_digits(decimal(n)),
        digits_value(decimal(n)) == n,
    decreases n,
{
    let digits = seq!['0', '1', '2', '3', '4', '5', '6', '7', '8', '9'];
    let d = n % 10;
    assert(is_digit(digit_char(d)) && digit_value(digit_char(d)) == d) by {
        assert(0 <= d < 10);
        if d == 0 { assert(digits[0] == '0'); }
        else if d == 1 { assert(digits[1] == '1'); }
        else if d == 2 { assert(digits[2] == '2'); }
        else if d == 3 { assert(digits[3] == '3'); }
        else if d == 4 { assert(digits[4] == '4'); }
        else if d == 5 { assert(digits[5] == '5'); }
        else if d == 6 { assert(digits[6] == '6'); }
        else if d == 7 { assert(digits[7] == '7'); }
        else if d == 8 { assert(digits[8] == '8'); }
        else { assert(digits[9] == '9'); }
    }
    if n < 10 {
        assert(decimal(n).drop_last() =~= Seq::<char>::empty());
        assert(decimal(n).last() == digit_char(d));
        assert(digits_value(Seq::<char>::empty()) == 0);
        assert(d == n);
    } else {
        lemma_decimal(n / 10);
        let prev = decimal(n / 10);
        assert(decimal(n).drop_last() =~= prev);
        assert(decimal(n).last() == digit_char(d));
        assert(n == (n / 10) * 10 + d);
        assert forall|k: int| 0 <= k < decimal(n).len() implies is_digit(#[trigger] decimal(n)[k]) by {
            if k < prev.len() {
                assert(decimal(n)[k] == prev[k]);
            }
        }
    }
}

/// Formatting an event as a record line and reading the line back gives the
/// same name, start and end, for every name without whitespace.
pub proof fn lemma_format_parse_round_trip(name: Seq<char>, start: u64, end: u64)
    requires
        is_name(name),
    ensures
        parse_line(format_line(name, start, end)) == Some((name, start, end)),
{
    let ds = decimal(start as nat);
    let de = decimal(end as nat);
    let s = format_line(name, start, end);
    lemma_decimal(start as nat);
    lemma_decimal(end as nat);
    lemma_digits_ws_free(ds);
    lemma_is_record_line(s, name, ds, de);
    lemma_fields_of_line(name, ds, de, record_fields(s));
}

/// A line without ` started=`, or without ` ended=`, is no record line.
pub proof fn lemma_reject_missing_marker(line: Seq<char>)
    requires
        (forall|k: int| 0 <= k && k + 9 <= line.len() ==> #[trigger] line.subrange(k, k + 9) != started_marker())
        || (forall|k: int| 0 <= k && k + 7 <= line.len() ==> #[trigger] line.subrange(k, k + 7) != ended_marker()),
    ensures
        parse_line(line) is None,
{
    if is_record_line(line) {
        let f = record_fields(line);
        lemma_digits_ws_free(f.1);
        lemma_record_shape(line, f.0, f.1, f.2);
        let p = f.0.len() + 9 as int;
        assert(line.subrange(f.0.len() as int, p) == started_marker());
        assert(line.subrange(p + f.1.len(), p + f.1.len() + 7) == ended_marker());
    }
}

proof fn lemma_name_then(s: Seq<char>, name: Seq<char>, rest: Seq<char>)
    requires
        ws_free(name),
        rest.len() > 0,
        is_ws(rest[0]),
        s == name + rest,
    ensures
        ws_stop(s, 0, name.len() as int),
        forall|k: int| 0 <= k < rest.len() ==> s[name.len() + k] == rest[k],
{
    assert forall|k: int| 0 <= k < name.len() implies !is_ws(#[trigger] s[k]) by {
        assert(s[k] == name[k]);
    }
}

/// A line with ` ended=` before ` started=` is no record line.
pub proof fn lemma_reject_swapped_fields(name: Seq<char>, start: Seq<char>, end: Seq<char>)
    requires
        is_name(name),
        is_digits(start),
        is_digits(end),
    ensures
        parse_line(name + ended_marker() + end + started_marker() + start) is None,
{
    let rest = ended_marker() + end + started_marker() + start;
    let s = name + ended_marker() + end + started_marker() + start;
    assert(s =~= name + rest);
    assert(rest[0] == ' ' && rest[1] == 'e');
    lemma_name_then(s, name, rest);
    if is_record_line(s) {
        let f = record_fields(s);
        lemma_digits_ws_free(f.1);
        lemma_record_shape(s, f.0, f.1, f.2);
        lemma_ws_stop_unique(s, 0, name.len() as int, f.0.len() as int);
        assert(s[name.len() + 1 as int] == 'e');
        assert(s.subrange(name.len() as int, name.len() + 9 as int)[1] == 's');
    }
}

/// A line laid out as `<name> started=<start> ended=<end>` with whitespace-free
/// parts, where `start` or `end` is not a run of decimal digits, is no record
/// line.
pub proof fn lemma_reject_non_numeric(name: Seq<char>, start: Seq<char>, end: Seq<char>)
    requires
        ws_free(name),
        ws_free(start),
        !is_digits(start) || !is_digits(end),
    ensures
        parse_line(record_line(name, start, end)) is None,
{
    let s = record_line(name, start, end);
    if is_record_line(s) {
        lemma_fields_of_line(name, start, end, record_fields(s));
    }
}

proof fn lemma_digits_prefix(s: Seq<char>, m: int)
    requires
        0 <= m <= s.len(),
    ensures
        digits_value(s.subrange(0, m)) <= digits_value(s),
    decreases s.len() - m,
{
    if m < s.len() {
        lemma_digits_prefix(s, m + 1);
        assert(s.subrange(0, m + 1).drop_last() =~= s.subrange(0, m));
    } else {
        assert(s.subrange(0, m) =~= s);
    }
}

/// One event: a named interval with start and end in microseconds.
#[derive(Debug, Clone, PartialEq, Eq)]
pub struct Event {
    pub name: String,
    pub start_micro: u64,
    pub end_micro: u64,
}

/// The shortest decimal spelling of `n`.
fn decimal_string(n: u64) -> (r: String)
    ensures
        r@ == decimal(n as nat),
    decreases n,
{
    let digits = "0123456789";
    proof { reveal_strlit("0123456789"); }
    assert(digits@ =~= seq!['0', '1', '2', '3', '4', '5', '6', '7', '8', '9']);
    let d = (n % 10) as usize;
    let last = digits.substring_char(d, d + 1);
    assert(last@ =~= seq![digit_char((n % 10) as nat)]);
    if n < 10 {
        last.to_owned()
    } else {
        let mut r = decimal_string(n / 10);
        r.append(last);
        r
    }
}

impl View for Event {
    type V = (Seq<char>, u64, u64);

    open spec fn view(&self) -> (Seq<char>, u64, u64) {
        (self.name@, self.start_micro, self.end_micro)
    }
}

/// A line that is not `<name> started=<start> ended=<end>`; holds the line.
#[derive(Debug, Clone, PartialEq, Eq)]
pub struct ParseError {
    pub line: String,
}

fn char_is_ws(c: char) -> (r: bool)
    ensures
        r == is_ws(c),
{
    ('\u{9}' <= c && c <= '\u{d}') || c == ' ' || c == '\u{85}' || c == '\u{a0}'
        || c == '\u{1680}' || ('\u{2000}' <= c && c <= '\u{200a}') || c == '\u{2028}'
        || c == '\u{2029}' || c == '\u{202f}' || c == '\u{205f}' || c == '\u{3000}'
}

/// The position of the first whitespace at or after `from`, or `len`.
fn find_ws(line: &str, len: usize, from: usize) -> (r: usize)
    requires
        len == line@.len(),
        from <= len,
    ensures
        ws_stop(line@, from as int, r as int),
{
    let mut i = from;
    while i < len
        invariant
            len == line@.len(),
            from <= i <= len,
            forall|k: int| from <= k < i ==> !is_ws(#[trigger] line@[k]),
        decreases len - i,
    {
        if char_is_ws(line.get_char(i)) {
            return i;
        }
        i = i + 1;
    }
    i
}

/// Whether `m` stands in `line` at `pos`.
fn matches_at(line: &str, len: usize, pos: usize, m: &str) -> (r: bool)
    requires
        len == line@.len(),
        pos <= len,
    ensures
        r == (pos + m@.len() <= len && line@.subrange(pos as int, pos + m@.len()) == m@),
{
    let mlen = m.unicode_len();
    if mlen > len - pos {
        return false;
    }
    let mut k: usize = 0;
    while k < mlen
        invariant
            len == line@.len(),
            mlen == m@.len(),
            pos + mlen <= len,
            k <= mlen,
            forall|j: int| 0 <= j < k ==> line@[pos + j] == m@[j],
        decreases mlen - k,
    {
        if line.get_char(pos + k) != m.get_char(k) {
            assert(line@.subrange(pos as int, pos + m@.len())[k as int] != m@[k as int]);
            return false;
        }
        k = k + 1;
    }
    assert(line@.subrange(pos as int, pos + m@.len()) =~= m@);
    true
}

/// The value of the digits in `from..to`, when they are a non-empty run of
/// decimal digits whose value fits in 64 bits.
fn digits_in(line: &str, len: usize, from: usize, to: usize) -> (r: Option<u64>)
    requires
        len == line@.len(),
        from <= to <= len,
    ensures
        ({
            let d = line@.subrange(from as int, to as int);
            match r {
                Some(v) => is_digits(d) && digits_value(d) == v,
                None => !(is_digits(d) && digits_value(d) <= u64::MAX),
            }
        }),
{
    let ghost d = line@.subrange(from as int, to as int);
    if from == to {
        return None;
    }
    let mut v: u64 = 0;
    let mut i = from;
    while i < to
        invariant
            len == line@.len(),
            from <= i <= to <= len,
            d == line@.subrange(from as int, to as int),
            forall|k: int| 0 <= k < i - from ==> is_digit(#[trigger] d[k]),
            v == digits_value(d.subrange(0, i - from)),
        decreases to - i,
    {
        let c = line.get_char(i);
        assert(c == d[i - from]);
        if !('0' <= c && c <= '9') {
            return None;
        }
        let dv = (c as u32 - '0' as u32) as u64;
        assert(d.subrange(0, i + 1 - from).drop_last() =~= d.subrange(0, i - from));
        assert(d.subrange(0, i + 1 - from).last() == c);
        match v.checked_mul(10) {
            Some(t) => match t.checked_add(dv) {
                Some(w) => {
                    v = w;
                },
                None => {
                    proof { lemma_digits_prefix(d, i + 1 - from); }
                    return None;
                },
            },
            None => {
                proof { lemma_digits_prefix(d, i + 1 - from); }
                return None;
            },
        }
        i = i + 1;
    }
    assert(d.subrange(0, to - from) =~= d);
    Some(v)
}

impl Event {
    /// Writes the event as `<name> started=<start> ended=<end>`.
    pub fn to_line(&self) -> (r: String)
        ensures
            r@ == format_line(self.name@, self.start_micro, self.end_micro),
    {
        let mut r = self.name.clone();
        proof { reveal_strlit(" started="); reveal_strlit(" ended="); }
        r.append(" started=");
        let start = decimal_string(self.start_micro);
        r.append(start.as_str());
        r.append(" ended=");
        let end = decimal_string(self.end_micro);
        r.append(end.as_str());
        assert(r@ =~= format_line(self.name@, self.start_micro, self.end_micro));
        r
    }

    /// Reads one line of the form `<name> started=<start> ended=<end>`.
    pub fn parse(line: &str) -> (r: Result<Event, ParseError>)
        ensures
            match r {
                Ok(e) => parse_line(line@) == Some((e.name@, e.start_micro, e.end_micro)),
                Err(err) => parse_line(line@) is None && err.line@ == line@,
            },
    {
        let ghost s = line@;
        let len = line.unicode_len();
        let fail = ParseError { line: line.to_owned() };
        let i = find_ws(line, len, 0);
        if i == 0 {
            proof {
                if is_record_line(s) {
                    let f = record_fields(s);
                    lemma_digits_ws_free(f.1);
                    lemma_record_shape(s, f.0, f.1, f.2);
                    lemma_ws_stop_unique(s, 0, 0, f.0.len() as int);
                }
            }
            return Err(fail);
        }
        let started = " started=";
        proof { reveal_strlit(" started="); }
        assert(started@ =~= started_marker());
        if !matches_at(line, len, i, started) {
            proof {
                if is_record_line(s) {
                    let f = record_fields(s);
                    lemma_digits_ws_free(f.1);
                    lemma_record_shape(s, f.0, f.1, f.2);
                    lemma_ws_stop_unique(s, 0, i as int, f.0.len() as int);
                }
            }
            return Err(fail);
        }
        let p = i + 9;
        let j = find_ws(line, len, p);
        let ended = " ended=";
        proof { reveal_strlit(" ended="); }
        assert(ended@ =~= ended_marker());
        if !matches_at(line, len, j, ended) {
            proof {
                if is_record_line(s) {
                    let f = record_fields(s);
                    lemma_digits_ws_free(f.1);
                    lemma_record_shape(s, f.0, f.1, f.2);
                    lemma_ws_stop_unique(s, 0, i as int, f.0.len() as int);
                    lemma_ws_stop_unique(s, p as int, j as int, p + f.1.len());
                }
            }
            return Err(fail);
        }
        let q = j + 7;
        let start = digits_in(line, len, p, j);
        let end = digits_in(line, len, q, len);
        proof {
            if is_record_line(s) {
                let f = record_fields(s);
                lemma_digits_ws_free(f.1);
                lemma_record_shape(s, f.0, f.1, f.2);
                lemma_ws_stop_unique(s, 0, i as int, f.0.len() as int);
                lemma_ws_stop_unique(s, p as int, j as int, p + f.1.len());
            }
        }
        match (start, end) {
            (Some(a), Some(b)) => {
                let name = line.substring_char(0, i).to_owned();
                proof {
                    let n = s.subrange(0, i as int);
                    let d1 = s.subrange(p as int, j as int);
                    let d2 = s.subrange(q as int, len as int);
                    assert(s =~= record_line(n, d1, d2));
                    lemma_is_record_line(s, n, d1, d2);
                }
                Ok(Event { name, start_micro: a, end_micro: b })
            },
            _ => Err(fail),
        }
    }
}

} // verus!
