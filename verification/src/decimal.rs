use vstd::prelude::*;

verus! {

/// The character for one decimal digit.
pub open spec fn spec_digit_char(d: int) -> char {
    if d == 0 {
        '0'
    } else if d == 1 {
        '1'
    } else if d == 2 {
        '2'
    } else if d == 3 {
        '3'
    } else if d == 4 {
        '4'
    } else if d == 5 {
        '5'
    } else if d == 6 {
        '6'
    } else if d == 7 {
        '7'
    } else if d == 8 {
        '8'
    } else {
        '9'
    }
}

/// The decimal rendering of a non-negative integer, most significant
/// digit first, with no leading zeros (zero itself renders as "0").
pub open spec fn spec_dec(n: int) -> Seq<char>
    decreases n,
{
    if n < 10 {
        seq![spec_digit_char(n)]
    } else {
        spec_dec(n / 10).push(spec_digit_char(n % 10))
    }
}

fn digit_str(d: u128) -> (r: &'static str)
    requires
        d < 10,
    ensures
        r@ == seq![spec_digit_char(d as int)],
{
    if d == 0 {
        let s = "0";
        proof { reveal_strlit("0"); }
        assert(s@ =~= seq![spec_digit_char(d as int)]);
        s
    } else if d == 1 {
        let s = "1";
        proof { reveal_strlit("1"); }
        assert(s@ =~= seq![spec_digit_char(d as int)]);
        s
    } else if d == 2 {
        let s = "2";
        proof { reveal_strlit("2"); }
        assert(s@ =~= seq![spec_digit_char(d as int)]);
        s
    } else if d == 3 {
        let s = "3";
        proof { reveal_strlit("3"); }
        assert(s@ =~= seq![spec_digit_char(d as int)]);
        s
    } else if d == 4 {
        let s = "4";
        proof { reveal_strlit("4"); }
        assert(s@ =~= seq![spec_digit_char(d as int)]);
        s
    } else if d == 5 {
        let s = "5";
        proof { reveal_strlit("5"); }
        assert(s@ =~= seq![spec_digit_char(d as int)]);
        s
    } else if d == 6 {
        let s = "6";
        proof { reveal_strlit("6"); }
        assert(s@ =~= seq![spec_digit_char(d as int)]);
        s
    } else if d == 7 {
        let s = "7";
        proof { reveal_strlit("7"); }
        assert(s@ =~= seq![spec_digit_char(d as int)]);
        s
    } else if d == 8 {
        let s = "8";
        proof { reveal_strlit("8"); }
        assert(s@ =~= seq![spec_digit_char(d as int)]);
        s
    } else {
        let s = "9";
        proof { reveal_strlit("9"); }
        assert(s@ =~= seq![spec_digit_char(d as int)]);
        s
    }
}

/// Renders `n` in decimal.
pub fn u128_to_string(n: u128) -> (s: String)
    ensures
        s@ == spec_dec(n as int),
    decreases n,
{
    if n < 10 {
        let s = String::from_str(digit_str(n));
        assert(s@ =~= spec_dec(n as int));
        s
    } else {
        let mut s = u128_to_string(n / 10);
        s.append(digit_str(n % 10));
        assert(s@ =~= spec_dec(n as int));
        s
    }
}

/// Renders `n` in decimal.
pub fn u64_to_string(n: u64) -> (s: String)
    ensures
        s@ == spec_dec(n as int),
{
    u128_to_string(n as u128)
}

} // verus!
