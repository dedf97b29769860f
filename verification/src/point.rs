//! A single calibration sample of the fan curve: a temperature paired with
//! the fan speed the fan should run at when the sensor reads it, together
//! with the `"<temperature>:<speed>"` textual form it is parsed from.

use vstd::prelude::*;

verus! {

/// One control point of a fan curve: at `temperature` degrees the fan runs
/// at `speed` (a PWM duty value). Both fields share the same small bounded
/// range, so a point is a plain pair of bytes.
#[derive(Clone, Copy, Debug, PartialEq, Eq, Structural)]
pub struct Point {
    pub temperature: u8,
    pub speed: u8,
}

/// Why a point literal was rejected.
#[derive(Clone, Copy, Debug, PartialEq, Eq, Structural)]
pub enum ParseError {
    /// The separator `:` does not occur in the text.
    MissingSeparator,
    /// A field is empty or holds a character that is not a decimal digit.
    InvalidNumber,
    /// A field is all digits but its value does not fit in the valid range.
    OutOfRange,
}

/// Total order on points: by temperature first, then by speed.
pub open spec fn spec_le(a: Point, b: Point) -> bool {
    a.temperature < b.temperature || (a.temperature == b.temperature && a.speed <= b.speed)
}

/// `c` is a decimal digit.
pub open spec fn is_digit(c: char) -> bool {
    48 <= c as u32 <= 57
}

/// Numeric value of the digit `c`.
pub open spec fn digit_of(c: char) -> int {
    c as u32 - 48
}

/// Every character of `s` is a decimal digit.
pub open spec fn all_digits(s: Seq<char>) -> bool {
    forall|i: int| 0 <= i < s.len() ==> is_digit(s[i])
}

/// `s` is a non-empty run of decimal digits.
pub open spec fn valid_field(s: Seq<char>) -> bool {
    s.len() > 0 && all_digits(s)
}

/// Value of `s` read as a big-endian decimal numeral.
pub open spec fn digits_value(s: Seq<char>) -> int
    decreases s.len(),
{
    if s.len() == 0 {
        0
    } else {
        digits_value(s.drop_last()) * 10 + digit_of(s.last())
    }
}

/// Position `i` holds the first `:` of `s`.
pub open spec fn is_first_colon(s: Seq<char>, i: int) -> bool {
    &&& 0 <= i < s.len()
    &&& s[i] == ':'
    &&& forall|j: int| 0 <= j < i ==> s[j] != ':'
}

/// The text before the separator at `i`.
pub open spec fn split_left(s: Seq<char>, i: int) -> Seq<char> {
    s.subrange(0, i)
}

/// The text after the separator at `i`.
pub open spec fn split_right(s: Seq<char>, i: int) -> Seq<char> {
    s.subrange(i + 1, s.len() as int)
}

/// What reading one field of a point literal yields: the field must be a
/// non-empty run of digits whose value fits in a byte.
pub open spec fn spec_parse_field(f: Seq<char>) -> Result<u8, ParseError> {
    if !valid_field(f) {
        Err(ParseError::InvalidNumber)
    } else if digits_value(f) > 255 {
        Err(ParseError::OutOfRange)
    } else {
        Ok(digits_value(f) as u8)
    }
}

/// What parsing yields once the text is split at the first separator:
/// the left field is read first, so its error wins.
pub open spec fn parse_split(left: Seq<char>, right: Seq<char>) -> Result<Point, ParseError> {
    match (spec_parse_field(left), spec_parse_field(right)) {
        (Ok(t), Ok(v)) => Ok(Point { temperature: t, speed: v }),
        (Err(e), _) => Err(e),
        (Ok(_), Err(e)) => Err(e),
    }
}

/// The digit character for the value `d`.
pub open spec fn char_of_digit(d: int) -> char {
    if d == 0 {
        '0'
    } else if d == 1 {
        '1'
    } else if d == 2 {
        '2'
    } else if d == 3 {
        '3'
    } else if d == 4 {
        '4'
    } else if d == 5 {
        '5'
    } else if d == 6 {
        '6'
    } else if d == 7 {
        '7'
    } else if d == 8 {
        '8'
    } else {
        '9'
    }
}

/// The canonical decimal numeral of `n` (no sign, no leading zeros);
/// a byte value needs at most three digits.
pub open spec fn dec_digits(n: int) -> Seq<char> {
    if n < 10 {
        seq![char_of_digit(n)]
    } else if n < 100 {
        seq![char_of_digit(n / 10), char_of_digit(n % 10)]
    } else {
        seq![char_of_digit(n / 100), char_of_digit((n / 10) % 10), char_of_digit(n % 10)]
    }
}

/// The canonical `"<temperature>:<speed>"` text of a point.
pub open spec fn spec_format(p: Point) -> Seq<char> {
    dec_digits(p.temperature as int) + seq![':'] + dec_digits(p.speed as int)
}

/// A decimal numeral is never negative.
pub proof fn lemma_digits_value_nonneg(f: Seq<char>)
    requires
        all_digits(f),
    ensures
        0 <= digits_value(f),
    decreases f.len(),
{
    if f.len() > 0 {
        assert(all_digits(f.drop_last()));
        lemma_digits_value_nonneg(f.drop_last());
    }
}

/// Dropping trailing digits from a numeral can only shrink its value.
pub proof fn lemma_digits_value_prefix_le(f: Seq<char>, k: int)
    requires
        all_digits(f),
        0 <= k <= f.len(),
    ensures
        digits_value(f.subrange(0, k)) <= digits_value(f),
    decreases f.len() - k,
{
    if k == f.len() {
        assert(f.subrange(0, k) =~= f);
    } else {
        lemma_digits_value_prefix_le(f, k + 1);
        let longer = f.subrange(0, k + 1);
        assert(longer.drop_last() =~= f.subrange(0, k));
        assert(all_digits(f.subrange(0, k)));
        lemma_digits_value_nonneg(f.subrange(0, k));
    }
}

/// The digit character of a digit value reads back as that value,
/// and is not the separator.
proof fn lemma_char_of_digit(d: int)
    requires
        0 <= d <= 9,
    ensures
        is_digit(char_of_digit(d)),
        digit_of(char_of_digit(d)) == d,
        char_of_digit(d) != ':',
{
}

/// The canonical numeral of `n` is made of digits only and reads back as `n`.
pub proof fn lemma_dec_digits_value(n: int)
    requires
        0 <= n < 1000,
    ensures
        1 <= dec_digits(n).len() <= 3,
        all_digits(dec_digits(n)),
        digits_value(dec_digits(n)) == n,
{
    let s = dec_digits(n);
    if n < 10 {
        lemma_char_of_digit(n);
        assert(s.drop_last() =~= Seq::<char>::empty());
        assert(digits_value(Seq::<char>::empty()) == 0);
        assert(digits_value(s) == digit_of(char_of_digit(n)));
    } else if n < 100 {
        lemma_char_of_digit(n / 10);
        lemma_char_of_digit(n % 10);
        let head = s.drop_last();
        assert(head =~= seq![char_of_digit(n / 10)]);
        assert(head.drop_last() =~= Seq::<char>::empty());
        assert(digits_value(Seq::<char>::empty()) == 0);
        assert(digits_value(head) == digit_of(char_of_digit(n / 10)));
        assert(digits_value(s) == digits_value(head) * 10 + digit_of(char_of_digit(n % 10)));
        assert(n == (n / 10) * 10 + n % 10) by {
            vstd::arithmetic::div_mod::lemma_fundamental_div_mod(n, 10);
        };
    } else {
        lemma_char_of_digit(n / 100);
        lemma_char_of_digit((n / 10) % 10);
        lemma_char_of_digit(n % 10);
        let head = s.drop_last();
        assert(head =~= seq![char_of_digit(n / 100), char_of_digit((n / 10) % 10)]);
        let head2 = head.drop_last();
        assert(head2 =~= seq![char_of_digit(n / 100)]);
        assert(head2.drop_last() =~= Seq::<char>::empty());
        assert(digits_value(Seq::<char>::empty()) == 0);
        assert(digits_value(head2) == digit_of(char_of_digit(n / 100)));
        assert(digits_value(head) == digits_value(head2) * 10 + digit_of(
            char_of_digit((n / 10) % 10),
        ));
        assert(digits_value(s) == digits_value(head) * 10 + digit_of(char_of_digit(n % 10)));
        assert(n == (n / 10) * 10 + n % 10) by {
            vstd::arithmetic::div_mod::lemma_fundamental_div_mod(n, 10);
        };
        assert(n / 10 == ((n / 10) / 10) * 10 + (n / 10) % 10) by {
            vstd::arithmetic::div_mod::lemma_fundamental_div_mod(n / 10, 10);
        };
        assert((n / 10) / 10 == n / 100) by {
            vstd::arithmetic::div_mod::lemma_div_denominator(n, 10, 10);
        };
    }
}

/// Parsing the canonical text of a valid point gives back exactly that
/// point: the separator is present, and splitting at the first one
/// recovers both coordinates.
pub proof fn lemma_parse_format_round_trip(p: Point)
    ensures
        spec_format(p).contains(':'),
        forall|i: int| is_first_colon(spec_format(p), i)
            ==> parse_split(split_left(spec_format(p), i), split_right(spec_format(p), i))
                == Ok::<Point, ParseError>(p),
{
    let left = dec_digits(p.temperature as int);
    let right = dec_digits(p.speed as int);
    let fmt = spec_format(p);
    let ci = left.len() as int;
    lemma_dec_digits_value(p.temperature as int);
    lemma_dec_digits_value(p.speed as int);
    assert(fmt[ci] == ':');
    assert(fmt.contains(':'));
    assert forall|j: int| 0 <= j < ci implies fmt[j] != ':' by {
        assert(fmt[j] == left[j]);
        assert(is_digit(left[j]));
    };
    assert(is_first_colon(fmt, ci));
    assert forall|i: int| is_first_colon(fmt, i) implies i == ci by {
        if i < ci {
            assert(fmt[i] == left[i]);
            assert(is_digit(left[i]));
        }
    };
    assert(split_left(fmt, ci) =~= left);
    assert(split_right(fmt, ci) =~= right);
    assert(spec_parse_field(left) == Ok::<u8, ParseError>(p.temperature));
    assert(spec_parse_field(right) == Ok::<u8, ParseError>(p.speed));
}

/// A text that holds a `:` holds a first one.
pub proof fn lemma_first_colon_exists(s: Seq<char>)
    requires
        s.contains(':'),
    ensures
        exists|i: int| is_first_colon(s, i),
    decreases s.len(),
{
    if s[0] == ':' {
        assert(is_first_colon(s, 0));
    } else {
        let t = s.subrange(1, s.len() as int);
        let k = choose|k: int| 0 <= k < s.len() && s[k] == ':';
        assert(t[k - 1] == ':');
        assert(t.contains(':'));
        lemma_first_colon_exists(t);
        let i = choose|i: int| is_first_colon(t, i);
        assert forall|j: int| 0 <= j < i + 1 implies s[j] != ':' by {
            if j > 0 {
                assert(s[j] == t[j - 1]);
            }
        };
        assert(is_first_colon(s, i + 1));
    }
}

/// Reads the characters of `s` between `from` and `to` as one numeric field.
fn parse_field(s: &str, from: usize, to: usize) -> (r: Result<u8, ParseError>)
    requires
        from <= to <= s@.len(),
    ensures
        r == spec_parse_field(s@.subrange(from as int, to as int)),
{
    let ghost field = s@.subrange(from as int, to as int);
    if from == to {
        return Err(ParseError::InvalidNumber);
    }
    let mut k: usize = from;
    while k < to
        invariant
            from <= k <= to <= s@.len(),
            field == s@.subrange(from as int, to as int),
            forall|j: int| from <= j < k ==> is_digit(s@[j]),
        decreases to - k,
    {
        let c = s.get_char(k);
        let cv: u32 = c as u32;
        if cv < 48 || cv > 57 {
            proof {
                assert(field[k - from] == s@[k as int]);
            }
            return Err(ParseError::InvalidNumber);
        }
        k += 1;
    }
    proof {
        assert forall|j: int| 0 <= j < field.len() implies is_digit(field[j]) by {
            assert(field[j] == s@[from + j]);
        };
    }
    let mut acc: u32 = 0;
    k = from;
    while k < to
        invariant
            from <= k <= to <= s@.len(),
            field == s@.subrange(from as int, to as int),
            all_digits(field),
            acc == digits_value(s@.subrange(from as int, k as int)),
            acc <= 255,
        decreases to - k,
    {
        let c = s.get_char(k);
        proof {
            assert(is_digit(field[k - from]));
            assert(field[k - from] == s@[k as int]);
        }
        let d: u32 = (c as u32) - 48;
        proof {
            let next = s@.subrange(from as int, k + 1 as int);
            assert(next.drop_last() =~= s@.subrange(from as int, k as int));
            assert(next.last() == s@[k as int]);
        }
        acc = acc * 10 + d;
        if acc > 255 {
            proof {
                assert(s@.subrange(from as int, k + 1 as int) =~= field.subrange(
                    0,
                    k + 1 - from,
                ));
                lemma_digits_value_prefix_le(field, k + 1 - from);
            }
            return Err(ParseError::OutOfRange);
        }
        k += 1;
    }
    proof {
        assert(s@.subrange(from as int, k as int) =~= field);
    }
    Ok(acc as u8)
}

impl Point {
    /// Builds the point with the given coordinates.
    pub fn new(temperature: u8, speed: u8) -> (p: Point)
        ensures
            p == (Point { temperature, speed }),
    {
        Point { temperature, speed }
    }

    /// `self` comes no later than `other` in the curve order
    /// (ascending temperature, ties broken by ascending speed).
    pub fn le(&self, other: &Point) -> (r: bool)
        ensures
            r == spec_le(*self, *other),
    {
        self.temperature < other.temperature
            || (self.temperature == other.temperature && self.speed <= other.speed)
    }

    /// Parses a point literal of the exact form `"<temperature>:<speed>"`:
    /// the text is split at the first `:` and each side must be a run of
    /// digits whose value fits in a byte. Exactly the malformed texts are
    /// rejected, each with the reason.
    pub fn parse(s: &str) -> (r: Result<Point, ParseError>)
        ensures
            r == Err::<Point, ParseError>(ParseError::MissingSeparator) <==> !s@.contains(':'),
            forall|i: int| is_first_colon(s@, i)
                ==> r == parse_split(split_left(s@, i), split_right(s@, i)),
    {
        let n = s.unicode_len();
        let mut k: usize = 0;
        while k < n && s.get_char(k) != ':'
            invariant
                k <= n == s@.len(),
                forall|j: int| 0 <= j < k ==> s@[j] != ':',
            decreases n - k,
        {
            k += 1;
        }
        if k == n {
            return Err(ParseError::MissingSeparator);
        }
        proof {
            assert(s@[k as int] == ':');
            assert(s@.contains(':'));
            assert(is_first_colon(s@, k as int));
        }
        let temperature = match parse_field(s, 0, k) {
            Ok(v) => v,
            Err(e) => {
                return Err(e);
            },
        };
        let speed = match parse_field(s, k + 1, n) {
            Ok(v) => v,
            Err(e) => {
                return Err(e);
            },
        };
        Ok(Point { temperature, speed })
    }

    /// Writes the canonical `"<temperature>:<speed>"` text of the point.
    pub fn format(&self) -> (r: String)
        ensures
            r@ == spec_format(*self),
    {
        let mut out = String::new();
        push_decimal(&mut out, self.temperature);
        proof {
            reveal_strlit(":");
            assert(":"@ =~= seq![':']);
        }
        out.append(":");
        push_decimal(&mut out, self.speed);
        proof {
            assert(out@ =~= spec_format(*self));
        }
        out
    }
}

/// The one-character text of the digit `d`.
fn digit_str(d: u8) -> (r: &'static str)
    requires
        d < 10,
    ensures
        r@ == seq![char_of_digit(d as int)],
{
    proof {
        reveal_strlit("0");
        reveal_strlit("1");
        reveal_strlit("2");
        reveal_strlit("3");
        reveal_strlit("4");
        reveal_strlit("5");
        reveal_strlit("6");
        reveal_strlit("7");
        reveal_strlit("8");
        reveal_strlit("9");
    }
    let r = if d == 0 {
        "0"
    } else if d == 1 {
        "1"
    } else if d == 2 {
        "2"
    } else if d == 3 {
        "3"
    } else if d == 4 {
        "4"
    } else if d == 5 {
        "5"
    } else if d == 6 {
        "6"
    } else if d == 7 {
        "7"
    } else if d == 8 {
        "8"
    } else {
        "9"
    };
    proof {
        assert(r@ =~= seq![char_of_digit(d as int)]);
    }
    r
}

/// Appends the canonical decimal numeral of `n` to `out`.
fn push_decimal(out: &mut String, n: u8)
    ensures
        final (out)@ == old(out)@ + dec_digits(n as int),
{
    if n < 10 {
        out.append(digit_str(n));
    } else if n < 100 {
        out.append(digit_str(n / 10));
        out.append(digit_str(n % 10));
    } else {
        out.append(digit_str(n / 100));
        out.append(digit_str((n / 10) % 10));
        out.append(digit_str(n % 10));
    }
    proof {
        assert(final (out)@ =~= old(out)@ + dec_digits(n as int));
    }
}

} // verus!
