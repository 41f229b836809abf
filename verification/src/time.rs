use vstd::prelude::*;
use vstd::string::StrSliceExecFns;

verus! {

/// The unit of a `SimpleDuration`.
#[derive(Clone, Copy, PartialEq, Eq, Structural, Debug)]
pub enum SimpleDurationUnit {
    Second,
    Minute,
    Hour,
}

/// A duration written as a count and a unit, like `30s`, `5m` or `2h`.
#[derive(Clone, Copy, PartialEq, Eq, Structural, Debug)]
pub struct SimpleDuration {
    pub count: u64,
    pub unit: SimpleDurationUnit,
}

/// Seconds in one unit.
pub open spec fn unit_secs(u: SimpleDurationUnit) -> nat {
    match u {
        SimpleDurationUnit::Second => 1,
        SimpleDurationUnit::Minute => 60,
        SimpleDurationUnit::Hour => 3600,
    }
}

impl SimpleDuration {
    pub open spec fn spec_secs(self) -> nat {
        (self.count * unit_secs(self.unit)) as nat
    }

    /// The length in seconds.
    pub fn to_secs(&self) -> (r: u64)
        requires
            self.spec_secs() <= u64::MAX,
        ensures
            r == self.spec_secs(),
    {
        match self.unit {
            SimpleDurationUnit::Second => self.count,
            SimpleDurationUnit::Minute => self.count * 60,
            SimpleDurationUnit::Hour => self.count * 3600,
        }
    }

    /// The suffix that writes the unit.
    pub fn suffix(&self) -> (r: &'static str)
        ensures
            r@ == unit_suffix(self.unit),
    {
        proof {
            reveal_strlit("s");
            reveal_strlit("m");
            reveal_strlit("h");
        }
        match self.unit {
            SimpleDurationUnit::Second => "s",
            SimpleDurationUnit::Minute => "m",
            SimpleDurationUnit::Hour => "h",
        }
    }
}

pub open spec fn unit_suffix(u: SimpleDurationUnit) -> Seq<char> {
    match u {
        SimpleDurationUnit::Second => seq!['s'],
        SimpleDurationUnit::Minute => seq!['m'],
        SimpleDurationUnit::Hour => seq!['h'],
    }
}

/// Why text is not a `SimpleDuration`.
pub enum DurationParseError {
    /// Not digits followed by lowercase letters.
    BadFormat,
    /// The count does not fit in 64 bits.
    CountTooLarge,
    /// The letters are not `s`, `m` or `h`.
    UnknownUnit(String),
}

pub open spec fn is_digit(c: char) -> bool {
    '0' <= c && c <= '9'
}

pub open spec fn is_lower(c: char) -> bool {
    'a' <= c && c <= 'z'
}

/// The number of digits at the start of `s`.
pub open spec fn lead_digits(s: Seq<char>) -> nat
    decreases s.len(),
{
    if s.len() == 0 || !is_digit(s[0]) {
        0
    } else {
        1 + lead_digits(s.subrange(1, s.len() as int))
    }
}

/// The number written in decimal by the digits `s`.
pub open spec fn digits_value(s: Seq<char>) -> nat
    decreases s.len(),
{
    if s.len() == 0 {
        0
    } else {
        digits_value(s.drop_last()) * 10 + digit_val(s.last())
    }
}

/// The unit a suffix names.
pub open spec fn unit_of(s: Seq<char>) -> Option<SimpleDurationUnit> {
    if s == seq!['s'] {
        Some(SimpleDurationUnit::Second)
    } else if s == seq!['m'] {
        Some(SimpleDurationUnit::Minute)
    } else if s == seq!['h'] {
        Some(SimpleDurationUnit::Hour)
    } else {
        None
    }
}

/// `s` is one or more digits followed by one or more lowercase letters.
pub open spec fn duration_shaped(s: Seq<char>) -> bool {
    let d = lead_digits(s) as int;
    0 < d < s.len() && forall|i: int| d <= i < s.len() ==> is_lower(#[trigger] s[i])
}

pub open spec fn count_text(s: Seq<char>) -> Seq<char> {
    s.subrange(0, lead_digits(s) as int)
}

pub open spec fn unit_text(s: Seq<char>) -> Seq<char> {
    s.subrange(lead_digits(s) as int, s.len() as int)
}

proof fn lemma_lead_digits(s: Seq<char>)
    ensures
        lead_digits(s) <= s.len(),
        forall|i: int| 0 <= i < lead_digits(s) ==> is_digit(#[trigger] s[i]),
        lead_digits(s) < s.len() ==> !is_digit(s[lead_digits(s) as int]),
    decreases s.len(),
{
    if s.len() > 0 && is_digit(s[0]) {
        let t = s.subrange(1, s.len() as int);
        lemma_lead_digits(t);
        assert forall|i: int| 0 <= i < lead_digits(s) implies is_digit(#[trigger] s[i]) by {
            if i > 0 {
                assert(s[i] == t[i - 1]);
            }
        }
    }
}

proof fn lemma_lead_digits_of(s: Seq<char>, d: int)
    requires
        0 <= d <= s.len(),
        forall|i: int| 0 <= i < d ==> is_digit(#[trigger] s[i]),
        d < s.len() ==> !is_digit(s[d]),
    ensures
        lead_digits(s) == d,
    decreases s.len(),
{
    if s.len() > 0 && d > 0 {
        let t = s.subrange(1, s.len() as int);
        assert forall|i: int| 0 <= i < d - 1 implies is_digit(#[trigger] t[i]) by {
            assert(t[i] == s[i + 1]);
        }
        if d < s.len() {
            assert(t[d - 1] == s[d]);
        }
        lemma_lead_digits_of(t, d - 1);
    }
}

/// Read a `SimpleDuration` from text such as `30s`: a decimal count then a unit
/// (`s`, `m` or `h`).
pub fn parse_simple_duration(s: &str) -> (r: Result<SimpleDuration, DurationParseError>)
    ensures
        !duration_shaped(s@) ==> (r matches Err(DurationParseError::BadFormat)),
        duration_shaped(s@) && digits_value(count_text(s@)) > u64::MAX ==> (r matches Err(
            DurationParseError::CountTooLarge,
        )),
        duration_shaped(s@) && digits_value(count_text(s@)) <= u64::MAX ==> match r {
            Ok(v) => v.count == digits_value(count_text(s@)) && unit_of(unit_text(s@)) == Some(v.unit),
            Err(DurationParseError::UnknownUnit(u)) => unit_of(unit_text(s@)) is None && u@ == unit_text(s@),
            _ => false,
        },
{
    let n = s.unicode_len();
    let mut d: usize = 0;
    let mut value: u64 = 0;
    let mut overflow = false;
    while d < n && '0' <= s.get_char(d) && s.get_char(d) <= '9'
        invariant
            n == s@.len(),
            d <= n,
            forall|i: int| 0 <= i < d ==> is_digit(#[trigger] s@[i]),
            !overflow ==> value == digits_value(s@.subrange(0, d as int)),
            overflow ==> digits_value(s@.subrange(0, d as int)) > u64::MAX,
        decreases n - d,
    {
        let c = s.get_char(d);
        let ghost prev = s@.subrange(0, d as int);
        proof {
            assert(s@.subrange(0, d + 1).drop_last() =~= prev);
            assert(s@.subrange(0, d + 1).last() == c);
        }
        let digit = (c as u32 - '0' as u32) as u64;
        if !overflow {
            if value > (u64::MAX - digit) / 10 {
                overflow = true;
                proof {
                    assert(value * 10 + digit > u64::MAX) by (nonlinear_arith)
                        requires
                            value > (u64::MAX - digit) / 10,
                            digit <= 9,
                    ;
                }
            } else {
                proof {
                    assert(value * 10 + digit <= u64::MAX) by (nonlinear_arith)
                        requires
                            value <= (u64::MAX - digit) / 10,
                            digit <= 9,
                    ;
                }
                value = value * 10 + digit;
            }
        } else {
            proof {
                assert(digits_value(s@.subrange(0, d + 1)) >= digits_value(prev) * 10) by (nonlinear_arith)
                    requires
                        digits_value(s@.subrange(0, d + 1)) == digits_value(prev) * 10 + digit_val(c),
                ;
                assert(digits_value(prev) * 10 > u64::MAX) by (nonlinear_arith)
                    requires
                        digits_value(prev) > u64::MAX,
                ;
            }
        }
        d = d + 1;
    }
    proof {
        if d < n {
            assert(!is_digit(s@[d as int]));
        }
        lemma_lead_digits_of(s@, d as int);
        assert(count_text(s@) =~= s@.subrange(0, d as int));
    }
    if d == 0 || d == n {
        return Err(DurationParseError::BadFormat);
    }
    let mut i: usize = d;
    while i < n
        invariant
            n == s@.len(),
            d <= i <= n,
            lead_digits(s@) == d,
            forall|j: int| d <= j < i ==> is_lower(#[trigger] s@[j]),
        decreases n - i,
    {
        let c = s.get_char(i);
        if !('a' <= c && c <= 'z') {
            proof {
                assert(!is_lower(s@[i as int]));
            }
            return Err(DurationParseError::BadFormat);
        }
        i = i + 1;
    }
    if overflow {
        return Err(DurationParseError::CountTooLarge);
    }
    let unit_len = n - d;
    let c0 = s.get_char(d);
    proof {
        assert(unit_text(s@).len() == unit_len);
        assert(unit_text(s@)[0] == c0);
    }
    if unit_len == 1 && c0 == 's' {
        proof {
            assert(unit_text(s@) =~= seq!['s']);
        }
        return Ok(SimpleDuration { count: value, unit: SimpleDurationUnit::Second });
    }
    if unit_len == 1 && c0 == 'm' {
        proof {
            assert(unit_text(s@) =~= seq!['m']);
        }
        return Ok(SimpleDuration { count: value, unit: SimpleDurationUnit::Minute });
    }
    if unit_len == 1 && c0 == 'h' {
        proof {
            assert(unit_text(s@) =~= seq!['h']);
        }
        return Ok(SimpleDuration { count: value, unit: SimpleDurationUnit::Hour });
    }
    let rest = s.substring_char(d, n).to_owned();
    proof {
        if unit_len == 1 {
            assert(unit_text(s@) != seq!['s'] && unit_text(s@) != seq!['m'] && unit_text(s@) != seq!['h']) by {
                assert(seq!['s'][0] == 's');
                assert(seq!['m'][0] == 'm');
                assert(seq!['h'][0] == 'h');
            }
        }
    }
    Err(DurationParseError::UnknownUnit(rest))
}

/// The decimal digit of `v` (below 10).
pub open spec fn digit_char(v: nat) -> char {
    if v == 0 {
        '0'
    } else if v == 1 {
        '1'
    } else if v == 2 {
        '2'
    } else if v == 3 {
        '3'
    } else if v == 4 {
        '4'
    } else if v == 5 {
        '5'
    } else if v == 6 {
        '6'
    } else if v == 7 {
        '7'
    } else if v == 8 {
        '8'
    } else {
        '9'
    }
}

/// `n` written in decimal, without leading zeros.
pub open spec fn decimal(n: nat) -> Seq<char>
    decreases n,
{
    if n < 10 {
        seq![digit_char(n)]
    } else {
        decimal(n / 10).push(digit_char(n % 10))
    }
}

/// The text of a duration: its count in decimal, then the suffix of its unit.
pub open spec fn duration_text_of(d: SimpleDuration) -> Seq<char> {
    decimal(d.count as nat) + unit_suffix(d.unit)
}

fn digit_str(v: u64) -> (r: &'static str)
    requires
        v < 10,
    ensures
        r@ == seq![digit_char(v as nat)],
{
    proof {
        reveal_strlit("0");
        reveal_strlit("1");
        reveal_strlit("2");
        reveal_strlit("3");
        reveal_strlit("4");
        reveal_strlit("5");
        reveal_strlit("6");
        reveal_strlit("7");
        reveal_strlit("8");
        reveal_strlit("9");
    }
    match v {
        0 => "0",
        1 => "1",
        2 => "2",
        3 => "3",
        4 => "4",
        5 => "5",
        6 => "6",
        7 => "7",
        8 => "8",
        _ => "9",
    }
}

fn push_decimal(n: u64, out: &mut String)
    ensures
        final(out)@ == old(out)@ + decimal(n as nat),
    decreases n,
{
    if n >= 10 {
        push_decimal(n / 10, out);
    }
    out.append(digit_str(n % 10));
    proof {
        if n >= 10 {
            assert(decimal(n as nat) == decimal((n / 10) as nat).push(digit_char((n % 10) as nat)));
        }
    }
}

/// The text of `d`, such as `30s`: the count in decimal, then the unit's suffix.
pub fn duration_text(d: &SimpleDuration) -> (r: String)
    ensures
        r@ == duration_text_of(*d),
{
    proof {
        reveal_strlit("");
    }
    let mut out = String::from_str("");
    push_decimal(d.count, &mut out);
    out.append(d.suffix());
    out
}

proof fn lemma_digit_char(v: nat)
    requires
        v < 10,
    ensures
        digit_val(digit_char(v)) == v,
        is_digit(digit_char(v)),
{
    if v == 0 {
        assert(digit_val('0') == 0);
    } else if v == 1 {
        assert(digit_val('1') == 1);
    } else if v == 2 {
        assert(digit_val('2') == 2);
    } else if v == 3 {
        assert(digit_val('3') == 3);
    } else if v == 4 {
        assert(digit_val('4') == 4);
    } else if v == 5 {
        assert(digit_val('5') == 5);
    } else if v == 6 {
        assert(digit_val('6') == 6);
    } else if v == 7 {
        assert(digit_val('7') == 7);
    } else if v == 8 {
        assert(digit_val('8') == 8);
    } else {
        assert(digit_val('9') == 9);
    }
}

proof fn lemma_decimal(n: nat)
    ensures
        decimal(n).len() >= 1,
        forall|i: int| 0 <= i < decimal(n).len() ==> is_digit(#[trigger] decimal(n)[i]),
        digits_value(decimal(n)) == n,
    decreases n,
{
    if n < 10 {
        lemma_digit_char(n);
        assert(decimal(n).drop_last() =~= Seq::<char>::empty());
        assert(digits_value(Seq::<char>::empty()) == 0);
        assert(digits_value(decimal(n)) == digits_value(decimal(n).drop_last()) * 10 + digit_val(decimal(n).last()));
    } else {
        lemma_decimal(n / 10);
        lemma_digit_char(n % 10);
        let s = decimal(n / 10);
        assert(decimal(n).drop_last() =~= s);
        assert(decimal(n).last() == digit_char(n % 10));
        assert(digits_value(decimal(n)) == digits_value(s) * 10 + digit_val(digit_char(n % 10)));
        assert((n / 10) * 10 + n % 10 == n) by (nonlinear_arith);
    }
}

/// Reading the text of a duration gives the duration back: the text has the shape
/// `parse_simple_duration` reads, its digits are the count, and its letters name the
/// unit.
pub proof fn lemma_duration_text_parses(d: SimpleDuration)
    ensures
        duration_shaped(duration_text_of(d)),
        digits_value(count_text(duration_text_of(d))) == d.count,
        unit_of(unit_text(duration_text_of(d))) == Some(d.unit),
{
    let t = duration_text_of(d);
    let c = decimal(d.count as nat);
    let u = unit_suffix(d.unit);
    lemma_decimal(d.count as nat);
    assert forall|i: int| 0 <= i < c.len() implies is_digit(#[trigger] t[i]) by {
        assert(t[i] == c[i]);
    }
    assert(t[c.len() as int] == u[0]);
    lemma_lead_digits_of(t, c.len() as int);
    assert(count_text(t) =~= c);
    assert(unit_text(t) =~= u);
}

/// A minute and second within an hour.
#[derive(Clone, Copy, PartialEq, Eq, Structural, Debug)]
pub struct MinuteSecond {
    pub minute: u8,
    pub second: u8,
}

pub open spec fn digit_val(c: char) -> nat {
    (c as nat - '0' as nat) as nat
}

/// The minute (one digit, or two with the first `0`–`5`) of the text `s`, if it is
/// one.
pub open spec fn minute_text_value(s: Seq<char>) -> Option<nat> {
    if s.len() == 1 && is_digit(s[0]) {
        Some(digit_val(s[0]))
    } else if s.len() == 2 && '0' <= s[0] && s[0] <= '5' && is_digit(s[1]) {
        Some(digit_val(s[0]) * 10 + digit_val(s[1]))
    } else {
        None
    }
}

/// The second (two digits, the first `0`–`5`) of the text `s`, if it is one.
pub open spec fn second_text_value(s: Seq<char>) -> Option<nat> {
    if s.len() == 2 && '0' <= s[0] && s[0] <= '5' && is_digit(s[1]) {
        Some(digit_val(s[0]) * 10 + digit_val(s[1]))
    } else {
        None
    }
}

/// What `M`, `MM`, `M:SS` or `MM:SS` text gives (the second is 0 when left out).
pub open spec fn minute_second_of(s: Seq<char>) -> Option<(nat, nat)> {
    if minute_text_value(s) is Some {
        Some((minute_text_value(s)->0, 0))
    } else if s.len() >= 4 && s[s.len() - 3] == ':' && minute_text_value(s.subrange(0, s.len() - 3)) is Some
        && second_text_value(s.subrange(s.len() - 2, s.len() as int)) is Some {
        Some(
            (
                minute_text_value(s.subrange(0, s.len() - 3))->0,
                second_text_value(s.subrange(s.len() - 2, s.len() as int))->0,
            ),
        )
    } else {
        None
    }
}

fn digit_value(c: char) -> (r: u8)
    requires
        is_digit(c),
    ensures
        r == digit_val(c),
        r <= 9,
{
    (c as u32 - '0' as u32) as u8
}

fn parse_minute_text(s: &str, from: usize, to: usize) -> (r: Option<u8>)
    requires
        from <= to <= s@.len(),
    ensures
        r matches Some(v) ==> minute_text_value(s@.subrange(from as int, to as int)) == Some(v as nat),
        r is None ==> minute_text_value(s@.subrange(from as int, to as int)) is None,
{
    let ghost t = s@.subrange(from as int, to as int);
    if to - from == 1 {
        let c = s.get_char(from);
        proof {
            assert(t[0] == c);
        }
        if '0' <= c && c <= '9' {
            return Some(digit_value(c));
        }
        return None;
    }
    if to - from == 2 {
        let c0 = s.get_char(from);
        let c1 = s.get_char(from + 1);
        proof {
            assert(t[0] == c0 && t[1] == c1);
        }
        if '0' <= c0 && c0 <= '5' && '0' <= c1 && c1 <= '9' {
            return Some(digit_value(c0) * 10 + digit_value(c1));
        }
        return None;
    }
    None
}

/// Read a `MinuteSecond` from text: a minute (`0`–`59`, one or two digits), then
/// optionally `:` and a two-digit second (`00`–`59`).
pub fn parse_minute_second(s: &str) -> (r: Option<MinuteSecond>)
    ensures
        r matches Some(v) ==> minute_second_of(s@) == Some((v.minute as nat, v.second as nat)),
        r is None ==> minute_second_of(s@) is None,
{
    let n = s.unicode_len();
    proof {
        assert(s@.subrange(0, n as int) =~= s@);
    }
    match parse_minute_text(s, 0, n) {
        Some(m) => {
            return Some(MinuteSecond { minute: m, second: 0 });
        },
        None => {},
    }
    if n < 4 || s.get_char(n - 3) != ':' {
        return None;
    }
    let m = match parse_minute_text(s, 0, n - 3) {
        Some(m) => m,
        None => {
            return None;
        },
    };
    let ghost t = s@.subrange(n - 2, n as int);
    let c0 = s.get_char(n - 2);
    let c1 = s.get_char(n - 1);
    proof {
        assert(t.len() == 2 && t[0] == c0 && t[1] == c1);
    }
    if '0' <= c0 && c0 <= '5' && '0' <= c1 && c1 <= '9' {
        return Some(MinuteSecond { minute: m, second: digit_value(c0) * 10 + digit_value(c1) });
    }
    None
}

} // verus!
