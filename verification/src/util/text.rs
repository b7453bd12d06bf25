//! Numbers in messages.
use vstd::prelude::*;

verus! {

/// One decimal digit.
pub open spec fn digit(d: int) -> char {
    if d == 0 {
        '0'
    } else if d == 1 {
        '1'
    } else if d == 2 {
        '2'
    } else if d == 3 {
        '3'
    } else if d == 4 {
        '4'
    } else if d == 5 {
        '5'
    } else if d == 6 {
        '6'
    } else if d == 7 {
        '7'
    } else if d == 8 {
        '8'
    } else {
        '9'
    }
}

/// `n` in decimal notation.
pub open spec fn decimal(n: nat) -> Seq<char>
    decreases n,
{
    if n < 10 {
        seq![digit(n as int)]
    } else {
        decimal(n / 10).push(digit((n % 10) as int))
    }
}

fn digit_text(d: usize) -> (r: String)
    requires
        d < 10,
    ensures
        r@ == seq![digit(d as int)],
{
    proof {
        reveal_strlit("0");
        reveal_strlit("1");
        reveal_strlit("2");
        reveal_strlit("3");
        reveal_strlit("4");
        reveal_strlit("5");
        reveal_strlit("6");
        reveal_strlit("7");
        reveal_strlit("8");
        reveal_strlit("9");
    }
    let s: &str = match d {
        0 => "0",
        1 => "1",
        2 => "2",
        3 => "3",
        4 => "4",
        5 => "5",
        6 => "6",
        7 => "7",
        8 => "8",
        _ => "9",
    };
    let r: String = s.to_owned();
    assert(r@ =~= seq![digit(d as int)]);
    r
}

/// `n` in decimal notation.
pub fn number(n: usize) -> (r: String)
    ensures
        r@ == decimal(n as nat),
    decreases n,
{
    if n < 10 {
        digit_text(n)
    } else {
        let head: String = number(n / 10);
        let last: String = digit_text(n % 10);
        let r: String = head.concat(last.as_str());
        assert(r@ =~= decimal(n as nat));
        r
    }
}

/// `before`, then `n` in decimal notation, then `after`.
pub open spec fn with_number(before: Seq<char>, n: usize, after: Seq<char>) -> Seq<char> {
    before + decimal(n as nat) + after
}

/// `before`, then `n` in decimal notation, then `after`.
pub fn phrase(before: &str, n: usize, after: &str) -> (r: String)
    ensures
        r@ == with_number(before@, n, after@),
{
    before.to_owned().concat(number(n).as_str()).concat(after)
}

/// What is said of a matrix that is not square.
pub open spec fn not_square(nrows: usize, ncols: usize) -> Seq<char> {
    with_number("matrix must be square but is "@, nrows, "x"@) + decimal(ncols as nat)
}

/// What is said of a matrix that is not square.
pub fn not_square_text(nrows: usize, ncols: usize) -> (r: String)
    ensures
        r@ == not_square(nrows, ncols),
{
    phrase("matrix must be square but is ", nrows, "x").concat(number(ncols).as_str())
}

} // verus!
