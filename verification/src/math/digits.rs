use vstd::prelude::*;

verus! {

/// The decimal digit character for `d` (`0 <= d < 10`).
pub open spec fn digit_char(d: int) -> char {
    if d == 0 { '0' }
    else if d == 1 { '1' }
    else if d == 2 { '2' }
    else if d == 3 { '3' }
    else if d == 4 { '4' }
    else if d == 5 { '5' }
    else if d == 6 { '6' }
    else if d == 7 { '7' }
    else if d == 8 { '8' }
    else { '9' }
}

/// Decimal digits of a natural number, most significant first, without leading zeros.
pub open spec fn unsigned_decimal(n: nat) -> Seq<char>
    decreases n,
{
    if n < 10 {
        seq![digit_char(n as int)]
    } else {
        unsigned_decimal(n / 10).push(digit_char((n % 10) as int))
    }
}

/// How `{}` prints an integer: an optional minus sign followed by its decimal digits.
pub open spec fn decimal(x: int) -> Seq<char> {
    if x < 0 {
        seq!['-'] + unsigned_decimal((-x) as nat)
    } else {
        unsigned_decimal(x as nat)
    }
}

fn digit_str(d: u64) -> (s: &'static str)
    requires
        d < 10,
    ensures
        s@ == seq![digit_char(d as int)],
{
    proof {
        reveal_strlit("0");
        reveal_strlit("1");
        reveal_strlit("2");
        reveal_strlit("3");
        reveal_strlit("4");
        reveal_strlit("5");
        reveal_strlit("6");
        reveal_strlit("7");
        reveal_strlit("8");
        reveal_strlit("9");
    }
    if d == 0 { "0" }
    else if d == 1 { "1" }
    else if d == 2 { "2" }
    else if d == 3 { "3" }
    else if d == 4 { "4" }
    else if d == 5 { "5" }
    else if d == 6 { "6" }
    else if d == 7 { "7" }
    else if d == 8 { "8" }
    else { "9" }
}

fn unsigned_to_string(n: u64) -> (s: String)
    ensures
        s@ == unsigned_decimal(n as nat),
    decreases n,
{
    if n < 10 {
        String::from_str(digit_str(n))
    } else {
        let mut s = unsigned_to_string(n / 10);
        s.append(digit_str(n % 10));
        s
    }
}

/// Formats `x` in decimal, as `format!("{}", x)` does.
pub fn number_to_string(x: i32) -> (s: String)
    ensures
        s@ == decimal(x as int),
{
    if x < 0 {
        let magnitude: u64 = (0i64 - (x as i64)) as u64;
        let mut s = String::from_str("-");
        proof {
            reveal_strlit("-");
        }
        s.append(unsigned_to_string(magnitude).as_str());
        s
    } else {
        unsigned_to_string(x as u64)
    }
}

/// `a`, then `x` in decimal, then `b`: what `format!` builds from a template with one `{}`.
pub fn text_with_number(a: &str, x: i32, b: &str) -> (s: String)
    ensures
        s@ == a@ + decimal(x as int) + b@,
{
    let mut s = String::from_str(a);
    s.append(number_to_string(x).as_str());
    s.append(b);
    s
}

/// `a`, `x`, `b`, `y`: what `format!` builds from `"a{}b{}"`.
pub fn text_ending_with_two_numbers(a: &str, x: i32, b: &str, y: i32) -> (s: String)
    ensures
        s@ == a@ + decimal(x as int) + b@ + decimal(y as int),
{
    let mut s = text_with_number(a, x, b);
    s.append(number_to_string(y).as_str());
    s
}

/// `x`, `a`, `y`: what `format!` builds from `"{}a{}"`.
pub fn text_of_two_numbers(x: i32, a: &str, y: i32) -> (s: String)
    ensures
        s@ == decimal(x as int) + a@ + decimal(y as int),
{
    let mut s = number_to_string(x);
    s.append(a);
    s.append(number_to_string(y).as_str());
    s
}

/// `x`, `a`, `y`, `b`, `z` in turn: what `format!` builds from `"{}a{}b{}"`.
pub fn text_with_three_numbers(x: i32, a: &str, y: i32, b: &str, z: i32) -> (s: String)
    ensures
        s@ == decimal(x as int) + a@ + decimal(y as int) + b@ + decimal(z as int),
{
    let mut s = number_to_string(x);
    s.append(a);
    s.append(number_to_string(y).as_str());
    s.append(b);
    s.append(number_to_string(z).as_str());
    s
}

} // verus!
