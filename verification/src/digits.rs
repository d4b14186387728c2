use vstd::prelude::*;
use vstd::string::StringExecFns;

verus! {

/// The decimal digit characters.
pub open spec fn is_digit_char(c: char) -> bool {
    c == '0' || c == '1' || c == '2' || c == '3' || c == '4' || c == '5' || c == '6' || c == '7'
        || c == '8' || c == '9'
}

/// The character for a single decimal digit.
pub open spec fn digit_char(d: int) -> char {
    if d == 0 {
        '0'
    } else if d == 1 {
        '1'
    } else if d == 2 {
        '2'
    } else if d == 3 {
        '3'
    } else if d == 4 {
        '4'
    } else if d == 5 {
        '5'
    } else if d == 6 {
        '6'
    } else if d == 7 {
        '7'
    } else if d == 8 {
        '8'
    } else {
        '9'
    }
}

/// Decimal notation of `n >= 0`, most significant digit first, without
/// leading zeros (a single `'0'` for zero).
pub open spec fn dec_digits(n: int) -> Seq<char>
    decreases n,
{
    if n < 10 {
        seq![digit_char(n)]
    } else {
        dec_digits(n / 10).push(digit_char(n % 10))
    }
}

/// Decimal notation of `n >= 0`, zero-padded on the left to at least two
/// characters.
pub open spec fn two_digits(n: int) -> Seq<char> {
    if n < 10 {
        seq!['0'].add(dec_digits(n))
    } else {
        dec_digits(n)
    }
}

/// Decimal notation is made of digit characters, at least one of them.
pub proof fn lemma_dec_digits_shape(n: int)
    requires
        n >= 0,
    ensures
        dec_digits(n).len() >= 1,
        forall|i: int| 0 <= i < dec_digits(n).len() ==> is_digit_char(#[trigger] dec_digits(n)[i]),
    decreases n,
{
    if n >= 10 {
        lemma_dec_digits_shape(n / 10);
    }
}

/// Zero-padded notation is made of digit characters, at least two of them.
pub proof fn lemma_two_digits_shape(n: int)
    requires
        n >= 0,
    ensures
        two_digits(n).len() >= 2,
        forall|i: int| 0 <= i < two_digits(n).len() ==> is_digit_char(#[trigger] two_digits(n)[i]),
{
    lemma_dec_digits_shape(n);
    if n >= 10 {
        lemma_dec_digits_shape(n / 10);
    }
}

/// Decimal notation of `n >= 0`, zero-padded on the left to at least four
/// characters.
pub open spec fn four_digits(n: int) -> Seq<char> {
    if n < 10 {
        seq!['0', '0', '0'].add(dec_digits(n))
    } else if n < 100 {
        seq!['0', '0'].add(dec_digits(n))
    } else if n < 1000 {
        seq!['0'].add(dec_digits(n))
    } else {
        dec_digits(n)
    }
}

/// The character of one decimal digit, as a one-character string.
fn digit_str(d: u64) -> (r: &'static str)
    requires
        d <= 9,
    ensures
        r@ == seq![digit_char(d as int)],
{
    proof {
        reveal_strlit("0");
        reveal_strlit("1");
        reveal_strlit("2");
        reveal_strlit("3");
        reveal_strlit("4");
        reveal_strlit("5");
        reveal_strlit("6");
        reveal_strlit("7");
        reveal_strlit("8");
        reveal_strlit("9");
    }
    let r = match d {
        0 => "0",
        1 => "1",
        2 => "2",
        3 => "3",
        4 => "4",
        5 => "5",
        6 => "6",
        7 => "7",
        8 => "8",
        _ => "9",
    };
    proof {
        assert(r@ =~= seq![digit_char(d as int)]);
    }
    r
}

/// Appends the decimal notation of `n` to `s`.
pub fn push_dec_digits(s: &mut String, n: u64)
    ensures
        final (s)@ == old(s)@ + dec_digits(n as int),
    decreases n,
{
    if n >= 10 {
        push_dec_digits(s, n / 10);
    }
    s.append(digit_str(n % 10));
    proof {
        if n < 10 {
            assert(old(s)@ + dec_digits(n as int) =~= old(s)@ + seq![digit_char(n as int)]);
        } else {
            assert(old(s)@ + dec_digits(n as int) =~= (old(s)@ + dec_digits(n as int / 10)) + seq![
                digit_char(n as int % 10),
            ]);
        }
    }
}

/// Appends the decimal notation of `n`, zero-padded to at least two
/// characters, to `s`.
pub fn push_two_digits(s: &mut String, n: u64)
    ensures
        final (s)@ == old(s)@ + two_digits(n as int),
{
    if n < 10 {
        s.append("0");
        proof {
            reveal_strlit("0");
            assert("0"@ =~= seq!['0']);
        }
    }
    push_dec_digits(s, n);
    proof {
        if n < 10 {
            assert(old(s)@ + two_digits(n as int) =~= (old(s)@ + seq!['0']) + dec_digits(n as int));
        }
    }
}

/// Appends the decimal notation of `n`, zero-padded to at least four
/// characters, to `s`.
pub fn push_four_digits(s: &mut String, n: u64)
    ensures
        final (s)@ == old(s)@ + four_digits(n as int),
{
    proof {
        reveal_strlit("0");
        reveal_strlit("00");
        reveal_strlit("000");
        assert("0"@ =~= seq!['0']);
        assert("00"@ =~= seq!['0', '0']);
        assert("000"@ =~= seq!['0', '0', '0']);
    }
    if n < 10 {
        s.append("000");
    } else if n < 100 {
        s.append("00");
    } else if n < 1000 {
        s.append("0");
    }
    push_dec_digits(s, n);
    proof {
        assert(s@ =~= old(s)@ + four_digits(n as int));
    }
}

} // verus!
