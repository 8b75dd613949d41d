//! Text: comparison, decimal numbers, UTF-8.

use vstd::prelude::*;
use vstd::string::*;
use vstd::utf8::*;

verus! {

/// Why a text is not a number.
#[derive(Debug, Clone, Copy, PartialEq, Eq, Structural)]
pub enum NumberError {
    /// There is nothing to read.
    Empty,
    /// A character is no decimal digit.
    InvalidDigit,
    /// The number exceeds the largest value allowed.
    PosOverflow,
}

impl NumberError {
    pub open spec fn text(self) -> Seq<char> {
        match self {
            NumberError::Empty => "cannot parse integer from empty string"@,
            NumberError::InvalidDigit => "invalid digit found in string"@,
            NumberError::PosOverflow => "number too large to fit in target type"@,
        }
    }

    /// The fault in words.
    pub fn message(&self) -> (text: String)
        ensures
            text@ == self.text(),
    {
        match self {
            NumberError::Empty => "cannot parse integer from empty string".to_owned(),
            NumberError::InvalidDigit => "invalid digit found in string".to_owned(),
            NumberError::PosOverflow => "number too large to fit in target type".to_owned(),
        }
    }
}

pub open spec fn is_digit(c: char) -> bool {
    '0' <= c <= '9'
}

pub open spec fn digit_value(c: char) -> nat {
    (c as nat - '0' as nat) as nat
}

/// The digit that stands for `d`, which is below ten.
pub open spec fn digit_char(d: nat) -> char {
    ('0' as nat + d) as char
}

/// `n` in decimal, without leading zeros.
pub open spec fn decimal(n: nat) -> Seq<char>
    decreases n,
{
    if n < 10 {
        seq![digit_char(n)]
    } else {
        decimal(n / 10).push(digit_char(n % 10))
    }
}

/// The number that a run of digits stands for.
pub open spec fn decimal_value(s: Seq<char>) -> nat
    decreases s.len(),
{
    if s.len() == 0 {
        0
    } else {
        10 * decimal_value(s.drop_last()) + digit_value(s.last())
    }
}

/// Reads digits from left to right, onto `acc`; the first fault counts.
pub open spec fn read_digits(s: Seq<char>, acc: nat, max: nat) -> Result<nat, NumberError>
    decreases s.len(),
{
    if s.len() == 0 {
        Ok(acc)
    } else if !is_digit(s[0]) {
        Err(NumberError::InvalidDigit)
    } else if 10 * acc + digit_value(s[0]) > max {
        Err(NumberError::PosOverflow)
    } else {
        read_digits(s.drop_first(), 10 * acc + digit_value(s[0]), max)
    }
}

/// The unsigned number that `s` stands for: digits, perhaps after a plus sign.
pub open spec fn number(s: Seq<char>, max: nat) -> Result<nat, NumberError> {
    if s.len() == 0 {
        Err(NumberError::Empty)
    } else if s == seq!['+'] {
        Err(NumberError::InvalidDigit)
    } else if s[0] == '+' {
        read_digits(s.drop_first(), 0, max)
    } else {
        read_digits(s, 0, max)
    }
}

/// The digits of a number's text, without its plus sign.
pub open spec fn unsigned_part(s: Seq<char>) -> Seq<char> {
    if s.len() > 0 && s[0] == '+' {
        s.drop_first()
    } else {
        s
    }
}

pub open spec fn all_digits(s: Seq<char>) -> bool {
    forall|i: int| 0 <= i < s.len() ==> is_digit(#[trigger] s[i])
}

/// `s` as digits behind those of `acc`.
spec fn value_onto(acc: nat, s: Seq<char>) -> nat
    decreases s.len(),
{
    if s.len() == 0 {
        acc
    } else {
        10 * value_onto(acc, s.drop_last()) + digit_value(s.last())
    }
}

proof fn lemma_value_onto_zero(s: Seq<char>)
    ensures
        value_onto(0, s) == decimal_value(s),
    decreases s.len(),
{
    if s.len() > 0 {
        lemma_value_onto_zero(s.drop_last());
    }
}

proof fn lemma_value_onto_front(acc: nat, s: Seq<char>)
    requires
        s.len() > 0,
    ensures
        value_onto(acc, s) == value_onto(10 * acc + digit_value(s[0]), s.drop_first()),
    decreases s.len(),
{
    if s.len() == 1 {
        assert(s.drop_last() =~= Seq::<char>::empty());
        assert(s.drop_first() =~= Seq::<char>::empty());
        assert(value_onto(acc, s.drop_last()) == acc);
    } else {
        lemma_value_onto_front(acc, s.drop_last());
        assert(s.drop_last().drop_first() =~= s.drop_first().drop_last());
    }
}

proof fn lemma_value_onto_grows(acc: nat, s: Seq<char>)
    ensures
        acc <= value_onto(acc, s),
    decreases s.len(),
{
    if s.len() > 0 {
        lemma_value_onto_grows(acc, s.drop_last());
    }
}

proof fn lemma_read_digits(s: Seq<char>, acc: nat, max: nat)
    requires
        acc <= max,
    ensures
        read_digits(s, acc, max) is Ok <==> all_digits(s) && value_onto(acc, s) <= max,
        read_digits(s, acc, max) matches Ok(v) ==> v == value_onto(acc, s),
    decreases s.len(),
{
    if s.len() > 0 {
        let rest = s.drop_first();
        let next = 10 * acc + digit_value(s[0]);
        lemma_value_onto_front(acc, s);
        lemma_value_onto_grows(next, rest);
        if next <= max {
            lemma_read_digits(rest, next, max);
        }
        assert(all_digits(s) <==> is_digit(s[0]) && all_digits(rest)) by {
            if is_digit(s[0]) && all_digits(rest) {
                assert forall|i: int| 0 <= i < s.len() implies is_digit(#[trigger] s[i]) by {
                    if i > 0 {
                        assert(s[i] == rest[i - 1]);
                    }
                }
            }
            if all_digits(s) {
                assert forall|i: int| 0 <= i < rest.len() implies is_digit(#[trigger] rest[i]) by {
                    assert(rest[i] == s[i + 1]);
                }
            }
        }
    }
}

/// A text reads as a number exactly where it is digits, perhaps behind one plus
/// sign, whose decimal value is within the limit; the number is that value.
pub proof fn law_number_is_its_decimal_value(s: Seq<char>, max: nat)
    ensures
        number(s, max) is Ok <==> {
            &&& unsigned_part(s).len() > 0
            &&& all_digits(unsigned_part(s))
            &&& decimal_value(unsigned_part(s)) <= max
        },
        number(s, max) matches Ok(v) ==> v == decimal_value(unsigned_part(s)),
{
    let body = unsigned_part(s);
    lemma_read_digits(body, 0, max);
    lemma_value_onto_zero(body);
    if s.len() == 1 && s[0] == '+' {
        assert(s =~= seq!['+']);
    }
}

proof fn lemma_decimal(n: nat)
    ensures
        decimal(n).len() > 0,
        all_digits(decimal(n)),
        decimal_value(decimal(n)) == n,
        decimal(n)[0] != '+',
    decreases n,
{
    if n < 10 {
        assert(decimal(n).drop_last() =~= Seq::<char>::empty());
        assert(decimal_value(Seq::<char>::empty()) == 0);
    } else {
        lemma_decimal(n / 10);
        let front = decimal(n / 10);
        let d = digit_char(n % 10);
        assert(decimal(n).drop_last() =~= front);
        assert forall|i: int| 0 <= i < decimal(n).len() implies is_digit(#[trigger] decimal(n)[i]) by {
            if i < front.len() {
                assert(decimal(n)[i] == front[i]);
            }
        }
    }
}

/// A number written in decimal reads back as the number.
pub proof fn law_decimal_reads_back(n: nat, max: nat)
    requires
        n <= max,
    ensures
        number(decimal(n), max) == Ok::<nat, NumberError>(n),
{
    lemma_decimal(n);
    law_number_is_its_decimal_value(decimal(n), max);
}

/// `n` as one text.
pub fn decimal_string(n: u64) -> (s: String)
    ensures
        s@ == decimal(n as nat),
    decreases n,
{
    let d: usize = (n % 10) as usize;
    proof {
        reveal_strlit("0123456789");
    }
    assert("0123456789"@.len() == 10);
    assert("0123456789".is_ascii());
    let last: &str = "0123456789".substring_ascii(d, d + 1);
    assert(last@ =~= seq![digit_char(d as nat)]);
    if n < 10 {
        last.to_owned()
    } else {
        let mut s: String = decimal_string(n / 10);
        s.append(last);
        assert(s@ =~= decimal(n as nat));
        s
    }
}

/// Reads an unsigned number of at most `max`.
pub fn parse_number(s: &str, max: u64) -> (res: Result<u64, NumberError>)
    ensures
        match number(s@, max as nat) {
            Ok(v) => res is Ok && res->Ok_0 == v,
            Err(e) => res == Err::<u64, NumberError>(e),
        },
{
    let len: usize = s.unicode_len();
    if len == 0 {
        return Err(NumberError::Empty);
    }
    let plus: bool = s.get_char(0) == '+';
    if plus && len == 1 {
        assert(s@ =~= seq!['+']);
        return Err(NumberError::InvalidDigit);
    }
    assert(s@ != seq!['+']) by {
        if s@ == seq!['+'] {
            assert(s@[0] == '+');
        }
    }
    let mut skip: bool = plus;
    let mut acc: u64 = 0;
    assert(s@.skip(0) =~= s@);
    assert(s@.skip(1) =~= s@.drop_first());
    for c in it: s.chars()
        invariant
            it.seq() == s@,
            skip ==> it.index() == 0 && s@[0] == '+',
            acc <= max,
            number(s@, max as nat) == read_digits(
                s@.skip(it.index() + if skip { 1int } else { 0int }),
                acc as nat,
                max as nat,
            ),
    {
        if skip {
            skip = false;
        } else {
            let ghost rest = s@.skip(it.index() as int);
            assert(rest[0] == c);
            assert(rest.drop_first() =~= s@.skip(it.index() + 1));
            if c < '0' || c > '9' {
                return Err(NumberError::InvalidDigit);
            }
            let v: u128 = 10 * (acc as u128) + (c as u32 - '0' as u32) as u128;
            if v > max as u128 {
                return Err(NumberError::PosOverflow);
            }
            acc = v as u64;
        }
    }
    Ok(acc)
}

/// Whether two texts are the same.
pub fn same_text(a: &str, b: &str) -> (same: bool)
    ensures
        same == (a@ == b@),
{
    let x: &[u8] = a.as_bytes();
    let y: &[u8] = b.as_bytes();
    proof {
        encode_utf8_decode_utf8(a@);
        encode_utf8_decode_utf8(b@);
    }
    if x.len() != y.len() {
        return false;
    }
    let mut i: usize = 0;
    while i < x.len()
        invariant
            i <= x@.len(),
            x@.len() == y@.len(),
            x@ == encode_utf8(a@),
            y@ == encode_utf8(b@),
            x@.take(i as int) == y@.take(i as int),
        decreases x@.len() - i,
    {
        if x[i] != y[i] {
            return false;
        }
        assert(x@.take(i + 1) =~= x@.take(i as int).push(x@[i as int]));
        assert(y@.take(i + 1) =~= y@.take(i as int).push(y@[i as int]));
        i = i + 1;
    }
    assert(x@.take(i as int) =~= x@);
    assert(y@.take(i as int) =~= y@);
    true
}

/// `String::from_utf8`: a string with exactly these bytes, or nothing where the
/// bytes are not well-formed UTF-8.
#[verifier::external_body]
pub(crate) fn string_from_utf8(bytes: Vec<u8>) -> (res: Option<String>)
    ensures
        res is Some <==> valid_utf8(bytes@),
        res matches Some(s) ==> encode_utf8(s@) == bytes@,
{
    String::from_utf8(bytes).ok()
}

/// Ten to the power `n`.
pub open spec fn pow10(n: nat) -> nat
    decreases n,
{
    if n == 0 {
        1
    } else {
        10 * pow10((n - 1) as nat)
    }
}

/// The digits are the ten from 0 to 9, and a run of them is worth what stands in
/// front, moved up by a place for each digit behind it, and what stands behind.
pub proof fn law_digits_have_places(c: char, s: Seq<char>, t: Seq<char>)
    ensures
        is_digit(c) <==> {
            ||| c == '0' || c == '1' || c == '2' || c == '3' || c == '4'
            ||| c == '5' || c == '6' || c == '7' || c == '8' || c == '9'
        },
        is_digit(c) ==> decimal_value(seq![c]) == c as nat - '0' as nat,
        decimal_value(Seq::<char>::empty()) == 0,
        decimal_value(s + t) == decimal_value(s) * pow10(t.len()) + decimal_value(t),
    decreases t.len(),
{
    assert(seq![c].drop_last() =~= Seq::<char>::empty());
    assert(decimal_value(Seq::<char>::empty()) == 0);
    if t.len() == 0 {
        assert(s + t =~= s);
        assert(pow10(0) == 1);
        assert(decimal_value(s) * 1 == decimal_value(s));
    } else {
        let front = t.drop_last();
        law_digits_have_places(c, s, front);
        assert((s + t).drop_last() =~= s + front);
        assert((s + t).last() == t.last());
        let v = decimal_value(s);
        let p = pow10(front.len());
        assert(10 * (v * p) == v * (10 * p)) by (nonlinear_arith);
    }
}

/// A number in decimal is digits and starts with 0 only if it is 0 itself, so
/// there is one way to write it.
pub proof fn law_decimal_has_no_leading_zero(n: nat)
    ensures
        all_digits(decimal(n)),
        decimal(n).len() > 0,
        decimal(n)[0] == '0' ==> n == 0 && decimal(n).len() == 1,
        decimal_value(decimal(n)) == n,
    decreases n,
{
    lemma_decimal(n);
    if n >= 10 {
        law_decimal_has_no_leading_zero(n / 10);
        assert(decimal(n)[0] == decimal(n / 10)[0]);
    }
}

/// Which fault a text has that is no number: none at all is empty; what passes the
/// limit before a character that is no digit is too large; anything else has such a
/// character, or nothing behind its plus sign.
pub proof fn law_number_faults(s: Seq<char>, max: nat)
    ensures
        number(s, max) == Err::<nat, NumberError>(NumberError::Empty) <==> s.len() == 0,
        number(s, max) == Err::<nat, NumberError>(NumberError::PosOverflow) <==> exists|n: int|
            0 <= n <= unsigned_part(s).len() && all_digits(#[trigger] unsigned_part(s).take(n))
                && decimal_value(unsigned_part(s).take(n)) > max,
{
    let body = unsigned_part(s);
    lemma_overflow(body, 0, max);
    assert forall|n: int| 0 <= n <= body.len() implies value_onto(0, #[trigger] body.take(n))
        == decimal_value(body.take(n)) by {
        lemma_value_onto_zero(body.take(n));
    }
    if number(s, max) == Err::<nat, NumberError>(NumberError::PosOverflow) {
        let n = choose|n: int|
            0 <= n <= body.len() && all_digits(#[trigger] body.take(n)) && value_onto(
                0,
                body.take(n),
            ) > max;
        assert(decimal_value(body.take(n)) > max);
    }
    if exists|n: int|
        0 <= n <= body.len() && all_digits(#[trigger] body.take(n)) && decimal_value(body.take(n))
            > max {
        let n = choose|n: int|
            0 <= n <= body.len() && all_digits(#[trigger] body.take(n)) && decimal_value(
                body.take(n),
            ) > max;
        assert(value_onto(0, body.take(n)) > max);
        if s == seq!['+'] {
            assert(body =~= Seq::<char>::empty());
            assert(body.take(n) =~= Seq::<char>::empty());
        }
        if s.len() == 0 {
            assert(body.take(n) =~= Seq::<char>::empty());
        }
    }
}

proof fn lemma_overflow(s: Seq<char>, acc: nat, max: nat)
    requires
        acc <= max,
    ensures
        read_digits(s, acc, max) == Err::<nat, NumberError>(NumberError::PosOverflow)
            <==> exists|n: int|
            0 <= n <= s.len() && all_digits(#[trigger] s.take(n)) && value_onto(acc, s.take(n)) > max,
        read_digits(s, acc, max) != Err::<nat, NumberError>(NumberError::Empty),
    decreases s.len(),
{
    if s.len() == 0 {
        assert forall|n: int| 0 <= n <= s.len() implies value_onto(acc, #[trigger] s.take(n))
            == acc by {
            assert(s.take(n).len() == 0);
        }
    } else {
        let rest = s.drop_first();
        let next = 10 * acc + digit_value(s[0]);
        let one = s.take(1);
        assert(one.drop_first() =~= Seq::<char>::empty());
        lemma_value_onto_front(acc, one);
        assert(value_onto(acc, one) == next);
        if !is_digit(s[0]) {
            assert forall|n: int| 0 <= n <= s.len() && all_digits(#[trigger] s.take(n)) implies value_onto(
                acc,
                s.take(n),
            ) <= max by {
                if n > 0 {
                    assert(is_digit(s.take(n)[0]));
                }
                assert(s.take(n).len() == 0);
            }
        } else if next > max {
            assert(all_digits(one)) by {
                assert(one[0] == s[0]);
            }
        } else {
            lemma_overflow(rest, next, max);
            assert forall|n: int| 1 <= n <= s.len() implies {
                &&& value_onto(acc, #[trigger] s.take(n)) == value_onto(next, rest.take(n - 1))
                &&& all_digits(s.take(n)) == all_digits(rest.take(n - 1))
            } by {
                let front = s.take(n);
                lemma_value_onto_front(acc, front);
                assert(front.drop_first() =~= rest.take(n - 1));
                if all_digits(front) {
                    assert forall|i: int| 0 <= i < n - 1 implies is_digit(
                        #[trigger] rest.take(n - 1)[i],
                    ) by {
                        assert(rest.take(n - 1)[i] == front[i + 1]);
                    }
                }
                if all_digits(rest.take(n - 1)) {
                    assert forall|i: int| 0 <= i < n implies is_digit(#[trigger] front[i]) by {
                        if i > 0 {
                            assert(front[i] == rest.take(n - 1)[i - 1]);
                        }
                    }
                }
            }
            if exists|n: int|
                0 <= n <= s.len() && all_digits(#[trigger] s.take(n)) && value_onto(acc, s.take(n))
                    > max {
                let n = choose|n: int|
                    0 <= n <= s.len() && all_digits(#[trigger] s.take(n)) && value_onto(
                        acc,
                        s.take(n),
                    ) > max;
                if n == 0 {
                    assert(s.take(0).len() == 0);
                }
                assert(all_digits(rest.take(n - 1)) && value_onto(next, rest.take(n - 1)) > max);
            }
            if exists|n: int|
                0 <= n <= rest.len() && all_digits(#[trigger] rest.take(n)) && value_onto(
                    next,
                    rest.take(n),
                ) > max {
                let n = choose|n: int|
                    0 <= n <= rest.len() && all_digits(#[trigger] rest.take(n)) && value_onto(
                        next,
                        rest.take(n),
                    ) > max;
                let m = n + 1;
                assert(rest.take(m - 1) == rest.take(n));
                assert(all_digits(s.take(m)) && value_onto(acc, s.take(m)) > max);
            }
        }
    }
}

/// The faults in words.
pub proof fn law_number_errors_in_words()
    ensures
        NumberError::Empty.text() == "cannot parse integer from empty string"@,
        NumberError::InvalidDigit.text() == "invalid digit found in string"@,
        NumberError::PosOverflow.text() == "number too large to fit in target type"@,
{
}

} // verus!
