use vstd::prelude::*;

verus! {

/// The character for one decimal digit.
pub open spec fn digit_char(d: nat) -> char {
    if d == 0 {
        '0'
    } else if d == 1 {
        '1'
    } else if d == 2 {
        '2'
    } else if d == 3 {
        '3'
    } else if d == 4 {
        '4'
    } else if d == 5 {
        '5'
    } else if d == 6 {
        '6'
    } else if d == 7 {
        '7'
    } else if d == 8 {
        '8'
    } else {
        '9'
    }
}

/// The canonical decimal digits of `n`, without leading zeros.
pub open spec fn dec_digits(n: nat) -> Seq<char>
    decreases n,
{
    if n < 10 {
        seq![digit_char(n)]
    } else {
        dec_digits(n / 10).push(digit_char(n % 10))
    }
}

/// Appending one more digit to a non-zero value extends its canonical form.
pub proof fn lemma_dec_digits_extend(v: nat, d: nat)
    requires
        d < 10,
        v > 0,
    ensures
        dec_digits(10 * v + d) == dec_digits(v).push(digit_char(d)),
{
    assert((10 * v + d) / 10 == v && (10 * v + d) % 10 == d) by (nonlinear_arith)
        requires
            d < 10,
            v > 0,
    ;
    assert(10 * v + d >= 10) by (nonlinear_arith)
        requires
            v > 0,
            d >= 0,
    ;
}

/// Appends the canonical decimal form of `n`.
pub fn push_decimal(s: &mut String, n: u64)
    ensures
        final(s)@ == old(s)@ + dec_digits(n as nat),
    decreases n,
{
    if n >= 10 {
        push_decimal(s, n / 10);
    }
    let d = n % 10;
    let piece = digit_str(d);
    s.append(piece);
    proof {
        if n < 10 {
            assert(old(s)@ + dec_digits(n as nat) =~= old(s)@ + piece@);
        } else {
            assert(old(s)@ + dec_digits(n as nat) =~= old(s)@ + dec_digits((n / 10) as nat)
                + piece@);
        }
    }
}

/// The one-character string for a digit value; values ten and above are
/// clamped to `"9"` and never arise from `push_decimal`.
fn digit_str(d: u64) -> (r: &'static str)
    ensures
        d < 10 ==> r@ == seq![digit_char(d as nat)],
{
    proof {
        reveal_strlit("0");
        reveal_strlit("1");
        reveal_strlit("2");
        reveal_strlit("3");
        reveal_strlit("4");
        reveal_strlit("5");
        reveal_strlit("6");
        reveal_strlit("7");
        reveal_strlit("8");
        reveal_strlit("9");
    }
    match d {
        0 => "0",
        1 => "1",
        2 => "2",
        3 => "3",
        4 => "4",
        5 => "5",
        6 => "6",
        7 => "7",
        8 => "8",
        _ => "9",
    }
}

/// Whether a character is a decimal digit.
pub open spec fn is_digit_char(c: char) -> bool {
    exists|d: nat| d < 10 && c == #[trigger] digit_char(d)
}

/// The digit value of a character, if it is a decimal digit.
pub fn char_digit(c: char) -> (r: Option<u64>)
    ensures
        match r {
            Some(d) => d < 10 && c == digit_char(d as nat),
            None => !is_digit_char(c),
        },
{
    match c {
        '0' => Some(0),
        '1' => Some(1),
        '2' => Some(2),
        '3' => Some(3),
        '4' => Some(4),
        '5' => Some(5),
        '6' => Some(6),
        '7' => Some(7),
        '8' => Some(8),
        '9' => Some(9),
        _ => None,
    }
}


/// Every character of a canonical decimal form is a digit.
pub proof fn lemma_dec_digits_are_digits(n: nat)
    ensures
        forall|i: int| 0 <= i < dec_digits(n).len() ==> is_digit_char(#[trigger] dec_digits(n)[i]),
    decreases n,
{
    if n < 10 {
        assert(dec_digits(n)[0] == digit_char(n));
        assert(is_digit_char(digit_char(n)));
    } else {
        lemma_dec_digits_are_digits(n / 10);
        assert forall|i: int| 0 <= i < dec_digits(n).len() implies is_digit_char(
            #[trigger] dec_digits(n)[i],
        ) by {
            if i < dec_digits(n / 10).len() {
                assert(dec_digits(n)[i] == dec_digits(n / 10)[i]);
            } else {
                assert(dec_digits(n)[i] == digit_char(n % 10));
                assert((n % 10) < 10);
                assert(is_digit_char(digit_char((n % 10) as nat)));
            }
        }
    }
}

/// Two digit values with the same character are the same value.
pub proof fn lemma_digit_char_injective(a: nat, b: nat)
    requires
        a < 10,
        b < 10,
        digit_char(a) == digit_char(b),
    ensures
        a == b,
{
}

/// The canonical decimal form has one digit exactly for values below ten.
pub proof fn lemma_dec_digits_len(n: nat)
    ensures
        dec_digits(n).len() >= 1,
        n < 10 <==> dec_digits(n).len() == 1,
    decreases n,
{
    if n >= 10 {
        lemma_dec_digits_len(n / 10);
    }
}

/// The canonical decimal form determines the value.
pub proof fn lemma_dec_digits_injective(a: nat, b: nat)
    requires
        dec_digits(a) == dec_digits(b),
    ensures
        a == b,
    decreases a,
{
    lemma_dec_digits_len(a);
    lemma_dec_digits_len(b);
    if a < 10 && b < 10 {
        assert(dec_digits(a)[0] == digit_char(a) && dec_digits(b)[0] == digit_char(b));
        lemma_digit_char_injective(a, b);
    } else if a >= 10 && b >= 10 {
        assert(dec_digits(a).drop_last() == dec_digits(a / 10) && dec_digits(a).last()
            == digit_char(a % 10));
        assert(dec_digits(b).drop_last() == dec_digits(b / 10) && dec_digits(b).last()
            == digit_char(b % 10));
        assert(dec_digits(a / 10) == dec_digits(b / 10)) by {
            assert(dec_digits(a).drop_last() =~= dec_digits(b).drop_last());
        }
        lemma_dec_digits_injective(a / 10, b / 10);
        lemma_digit_char_injective(a % 10, b % 10);
        assert(a == 10 * (a / 10) + a % 10 && b == 10 * (b / 10) + b % 10) by (nonlinear_arith);
    }
}

/// Only zero prints with a leading zero character.
pub proof fn lemma_dec_digits_leading_zero(n: nat)
    requires
        dec_digits(n)[0] == '0',
    ensures
        n == 0,
    decreases n,
{
    if n < 10 {
        lemma_digit_char_injective(n, 0);
    } else {
        lemma_dec_digits_len(n / 10);
        assert(dec_digits(n)[0] == dec_digits(n / 10)[0]);
        lemma_dec_digits_leading_zero(n / 10);
        assert(false);
    }
}

/// A proper prefix of a canonical form is the canonical form of a value no
/// larger; appending the next digit stays within the original value.
pub proof fn lemma_dec_digits_prefix(v: nat, m: int, w: nat)
    requires
        1 <= m <= dec_digits(v).len(),
        dec_digits(w) == dec_digits(v).subrange(0, m),
    ensures
        w <= v,
        m < dec_digits(v).len() ==> forall|d: nat|
            d < 10 && dec_digits(v)[m] == digit_char(d) ==> 10 * w + d <= v,
    decreases v,
{
    lemma_dec_digits_len(v);
    lemma_dec_digits_len(w);
    if m == dec_digits(v).len() {
        assert(dec_digits(w) =~= dec_digits(v));
        lemma_dec_digits_injective(w, v);
    } else {
        assert(v >= 10) by {
            if v < 10 {
                assert(dec_digits(v).len() == 1);
            }
        }
        let v10 = v / 10;
        assert(dec_digits(v) == dec_digits(v10).push(digit_char(v % 10)));
        assert(dec_digits(v10).len() == dec_digits(v).len() - 1);
        assert(dec_digits(w) == dec_digits(v10).subrange(0, m)) by {
            assert(dec_digits(v).subrange(0, m) =~= dec_digits(v10).subrange(0, m));
        }
        assert(v == 10 * v10 + v % 10 && v10 < v) by (nonlinear_arith)
            requires
                v >= 10,
                v10 == v / 10,
        ;
        lemma_dec_digits_prefix(v10, m, w);
        assert forall|d: nat| d < 10 && dec_digits(v)[m] == digit_char(d) implies 10 * w + d
            <= v by {
            if m == dec_digits(v10).len() as int {
                assert(dec_digits(w) =~= dec_digits(v10));
                lemma_dec_digits_injective(w, v10);
                assert(dec_digits(v)[m] == digit_char(v % 10));
                lemma_digit_char_injective(d, (v % 10) as nat);
            } else {
                assert(dec_digits(v)[m] == dec_digits(v10)[m]);
                assert(10 * w + d <= v10);
            }
        }
    }
}

} // verus!
