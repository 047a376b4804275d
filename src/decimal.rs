//! Decimal text of integers: reading and writing.
use vstd::prelude::*;

verus! {

pub open spec fn is_digit(c: char) -> bool {
    '0' <= c && c <= '9'
}

pub open spec fn digit_value(c: char) -> int {
    c as int - '0' as int
}

/// The number that a string of decimal digits denotes.
pub open spec fn digits_value(s: Seq<char>) -> int
    decreases s.len(),
{
    if s.len() == 0 {
        0
    } else {
        digits_value(s.drop_last()) * 10 + digit_value(s.last())
    }
}

/// A non-empty string of decimal digits.
pub open spec fn all_digits(s: Seq<char>) -> bool {
    s.len() > 0 && forall|i: int| 0 <= i < s.len() ==> is_digit(#[trigger] s[i])
}

/// The integer that `s` writes: optional sign then at least one digit; a
/// leading `-` only where `signed`.
pub open spec fn int_of_text(s: Seq<char>, signed: bool) -> Option<int> {
    if s.len() > 0 && (s[0] == '+' || (signed && s[0] == '-')) {
        if all_digits(s.drop_first()) {
            Some(if s[0] == '-' { -digits_value(s.drop_first()) } else { digits_value(s.drop_first()) })
        } else {
            None
        }
    } else if all_digits(s) {
        Some(digits_value(s))
    } else {
        None
    }
}

pub open spec fn digit_char(d: int) -> char {
    ('0' as int + d) as char
}

/// The shortest decimal digits of `n`.
pub open spec fn decimal_text(n: nat) -> Seq<char>
    decreases n,
{
    if n < 10 {
        seq![digit_char(n as int)]
    } else {
        decimal_text(n / 10) + seq![digit_char((n % 10) as int)]
    }
}

/// The usual decimal text of `i`: a `-` before negatives, no `+`.
pub open spec fn int_text(i: int) -> Seq<char> {
    if i < 0 {
        seq!['-'] + decimal_text((-i) as nat)
    } else {
        decimal_text(i as nat)
    }
}

proof fn lemma_decimal_text(n: nat)
    ensures
        all_digits(decimal_text(n)),
        digits_value(decimal_text(n)) == n,
        decimal_text(n)[0] != '-' && decimal_text(n)[0] != '+',
    decreases n,
{
    if n >= 10 {
        lemma_decimal_text(n / 10);
        let s = decimal_text(n);
        assert(s.drop_last() =~= decimal_text(n / 10));
        assert(s[0] == decimal_text(n / 10)[0]);
        assert(s.last() == digit_char((n % 10) as int));
        assert(digits_value(s) == (n / 10) * 10 + (n % 10) as int);
        vstd::arithmetic::div_mod::lemma_fundamental_div_mod(n as int, 10);
        assert((n / 10) * 10 == 10 * (n / 10)) by (nonlinear_arith);
        assert(digit_value(digit_char((n % 10) as int)) == n % 10);
        assert(digits_value(s) == n);
    } else {
        let s = decimal_text(n);
        assert(s.drop_last() =~= Seq::<char>::empty());
        assert(digit_value(digit_char(n as int)) == n);
        assert(digits_value(s.drop_last()) == 0);
        assert(digits_value(s) == n);
    }
}

/// Reading back the text of an integer gives the integer.
pub proof fn lemma_int_text_round_trip(i: int, signed: bool)
    requires
        signed || i >= 0,
    ensures
        int_of_text(int_text(i), signed) == Some(i),
{
    if i < 0 {
        lemma_decimal_text((-i) as nat);
        assert(int_text(i).drop_first() =~= decimal_text((-i) as nat));
    } else {
        lemma_decimal_text(i as nat);
    }
}

/// Past this bound no integer type here can hold a value.
pub const MAGNITUDE_LIMIT: u128 = 0x1_0000_0000_0000_0000;

/// Reads the digits `s[from..]` into a number: `None` where there are none
/// or one is not a digit. A number above `MAGNITUDE_LIMIT` is reported as a
/// value above it.
fn read_digits(s: &str, from: usize) -> (r: Option<u128>)
    requires
        from <= s@.len(),
    ensures
        r is None <==> !all_digits(s@.subrange(from as int, s@.len() as int)),
        r matches Some(v) ==> (v <= MAGNITUDE_LIMIT ==> v == digits_value(s@.subrange(from as int, s@.len() as int)))
            && (v > MAGNITUDE_LIMIT ==> digits_value(s@.subrange(from as int, s@.len() as int)) > MAGNITUDE_LIMIT),
{
    let n = s.unicode_len();
    if from >= n {
        return None;
    }
    let mut acc: u128 = 0;
    let mut i: usize = from;
    while i < n
        invariant
            n == s@.len(),
            from < n,
            from <= i <= n,
            forall|j: int| from <= j < i ==> is_digit(#[trigger] s@[j]),
            acc <= MAGNITUDE_LIMIT ==> acc == digits_value(s@.subrange(from as int, i as int)),
            acc > MAGNITUDE_LIMIT ==> acc == MAGNITUDE_LIMIT + 1 && digits_value(s@.subrange(from as int, i as int)) > MAGNITUDE_LIMIT,
        decreases n - i,
    {
        let c = s.get_char(i);
        if !('0' <= c && c <= '9') {
            assert(!is_digit(s@.subrange(from as int, n as int)[i - from]));
            return None;
        }
        let d = (c as u32 - '0' as u32) as u128;
        proof {
            let p = s@.subrange(from as int, i as int);
            let q = s@.subrange(from as int, i + 1);
            assert(q.drop_last() =~= p);
            assert(q.last() == c);
            assert(digits_value(q) == digits_value(p) * 10 + d);
            assert(digits_value(p) >= 0) by {
                lemma_digits_value_nonneg(p);
            }
        }
        if acc <= MAGNITUDE_LIMIT {
            let next = acc * 10 + d;
            if next > MAGNITUDE_LIMIT {
                acc = MAGNITUDE_LIMIT + 1;
            } else {
                acc = next;
            }
        }
        i = i + 1;
    }
    proof {
        let t = s@.subrange(from as int, n as int);
        assert forall|j: int| 0 <= j < t.len() implies is_digit(#[trigger] t[j]) by {
            assert(t[j] == s@[from + j]);
        }
    }
    Some(acc)
}

proof fn lemma_digits_value_nonneg(s: Seq<char>)
    requires
        forall|i: int| 0 <= i < s.len() ==> is_digit(#[trigger] s[i]),
    ensures
        digits_value(s) >= 0,
    decreases s.len(),
{
    if s.len() > 0 {
        assert forall|i: int| 0 <= i < s.drop_last().len() implies is_digit(#[trigger] s.drop_last()[i]) by {
            assert(s.drop_last()[i] == s[i]);
        }
        lemma_digits_value_nonneg(s.drop_last());
        assert(is_digit(s[s.len() - 1]));
    }
}

/// Reads an integer written in decimal and checks that it lies in
/// `lo..=hi`.
pub fn parse_int(s: &str, signed: bool, lo: i128, hi: i128) -> (r: Option<i128>)
    requires
        -(MAGNITUDE_LIMIT as int) <= lo <= hi <= MAGNITUDE_LIMIT,
    ensures
        r == (match int_of_text(s@, signed) {
            Some(v) => if lo <= v <= hi { Some(v as i128) } else { None },
            None => None,
        }),
{
    let n = s.unicode_len();
    let mut neg = false;
    let mut from: usize = 0;
    if n > 0 {
        let c = s.get_char(0);
        if c == '+' || (signed && c == '-') {
            neg = c == '-';
            from = 1;
        }
    }
    proof {
        if from == 1 {
            assert(s@.subrange(1, s@.len() as int) =~= s@.drop_first());
        } else {
            assert(s@.subrange(0, s@.len() as int) =~= s@);
        }
    }
    match read_digits(s, from) {
        None => None,
        Some(m) => {
            if m > MAGNITUDE_LIMIT {
                None
            } else {
                let v: i128 = if neg { -(m as i128) } else { m as i128 };
                if lo <= v && v <= hi {
                    Some(v)
                } else {
                    None
                }
            }
        },
    }
}

fn digit_str(d: u128) -> (r: &'static str)
    requires
        d < 10,
    ensures
        r@ == seq![digit_char(d as int)],
{
    proof {
        reveal_strlit("0");
        reveal_strlit("1");
        reveal_strlit("2");
        reveal_strlit("3");
        reveal_strlit("4");
        reveal_strlit("5");
        reveal_strlit("6");
        reveal_strlit("7");
        reveal_strlit("8");
        reveal_strlit("9");
    }
    if d == 0 { "0" }
    else if d == 1 { "1" }
    else if d == 2 { "2" }
    else if d == 3 { "3" }
    else if d == 4 { "4" }
    else if d == 5 { "5" }
    else if d == 6 { "6" }
    else if d == 7 { "7" }
    else if d == 8 { "8" }
    else { "9" }
}

fn write_decimal(out: &mut String, n: u128)
    ensures
        final(out)@ == old(out)@ + decimal_text(n as nat),
    decreases n,
{
    if n >= 10 {
        write_decimal(out, n / 10);
    }
    out.append(digit_str(n % 10));
    proof {
        if n < 10 {
            assert(n % 10 == n);
        }
    }
}

/// The decimal text of `i`.
pub fn format_int(i: i128) -> (r: String)
    ensures
        r@ == int_text(i as int),
{
    let mut out = String::new();
    if i < 0 {
        out.append("-");
        proof {
            reveal_strlit("-");
        }
        let m: u128 = if i == i128::MIN { (i128::MAX as u128) + 1 } else { (-i) as u128 };
        write_decimal(&mut out, m);
    } else {
        write_decimal(&mut out, i as u128);
    }
    proof {
        if i < 0 {
            assert(out@ =~= int_text(i as int));
        }
    }
    out
}

} // verus!
