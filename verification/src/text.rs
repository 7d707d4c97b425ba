//! Numbers as text.

use vstd::prelude::*;
use vstd::string::*;

verus! {

/// The digit of value `d`: `0` to `9`, then `A` to `F`.
pub open spec fn digit_char(d: nat) -> char {
    if d < 10 {
        (48 + d) as char
    } else {
        (55 + d) as char
    }
}

/// `n` in the given base, without leading zeros.
pub open spec fn digits(n: nat, base: nat) -> Seq<char>
    decreases n,
{
    if n < base || base < 2 {
        seq![digit_char(n)]
    } else {
        proof {
            lemma_fewer_digits(n, base);
        }
        digits(n / base, base).push(digit_char(n % base))
    }
}

/// Dividing makes smaller.
pub proof fn lemma_fewer_digits(n: nat, base: nat)
    by (nonlinear_arith)
    requires
        n >= base,
        base >= 2,
    ensures
        n / base < n,
{
}

/// One digit.
fn digit(d: u64) -> (r: &'static str)
    requires
        d < 16,
    ensures
        r@ == seq![digit_char(d as nat)],
{
    proof {
        reveal_strlit("0");
        reveal_strlit("1");
        reveal_strlit("2");
        reveal_strlit("3");
        reveal_strlit("4");
        reveal_strlit("5");
        reveal_strlit("6");
        reveal_strlit("7");
        reveal_strlit("8");
        reveal_strlit("9");
        reveal_strlit("A");
        reveal_strlit("B");
        reveal_strlit("C");
        reveal_strlit("D");
        reveal_strlit("E");
        reveal_strlit("F");
    }
    match d {
        0 => "0",
        1 => "1",
        2 => "2",
        3 => "3",
        4 => "4",
        5 => "5",
        6 => "6",
        7 => "7",
        8 => "8",
        9 => "9",
        10 => "A",
        11 => "B",
        12 => "C",
        13 => "D",
        14 => "E",
        _ => "F",
    }
}

/// `n` in the given base, without leading zeros.
pub fn number(n: u64, base: u64) -> (r: String)
    requires
        2 <= base <= 16,
    ensures
        r@ == digits(n as nat, base as nat),
    decreases n,
{
    if n < base {
        digit(n).to_owned()
    } else {
        proof {
            lemma_fewer_digits(n as nat, base as nat);
        }
        let mut r = number(n / base, base);
        r.append(digit(n % base));
        assert(r@ =~= digits(n as nat, base as nat));
        r
    }
}

/// The number that digits spell: `0` to `9`, then `A` to `F` for ten to fifteen.
pub open spec fn value(s: Seq<char>, base: nat) -> nat
    decreases s.len(),
{
    if s.len() == 0 {
        0
    } else {
        value(s.drop_last(), base) * base + (if s.last() as nat <= 57 {
            s.last() as nat - 48
        } else {
            s.last() as nat - 55
        }) as nat
    }
}

/// A number as text: all its characters are digits, it does not start with a zero unless
/// it is zero, and the digits spell the number.
pub proof fn lemma_digits_spell_number(n: nat, base: nat)
    requires
        2 <= base <= 16,
    ensures
        value(digits(n, base), base) == n,
        digits(n, base).len() > 0,
        n > 0 ==> digits(n, base)[0] != '0',
        forall|i: int|
            0 <= i < digits(n, base).len() ==> '0' <= #[trigger] digits(n, base)[i] <= '9' || (
            'A' <= digits(n, base)[i] <= 'F' && base > 10),
        n < base ==> digits(n, base).len() == 1,
    decreases n,
{
    let s = digits(n, base);
    if n < base {
        assert(s =~= seq![digit_char(n)]);
        assert(s.drop_last() =~= Seq::<char>::empty());
        assert(value(s.drop_last(), base) * base == 0) by (nonlinear_arith)
            requires
                value(s.drop_last(), base) == 0,
        ;
    } else {
        lemma_fewer_digits(n, base);
        let high = n / base;
        let low = n % base;
        assert(high > 0 && low < base && high * base + low == n) by (nonlinear_arith)
            requires
                n >= base,
                base >= 2,
                high == n / base,
                low == n % base,
        ;
        lemma_digits_spell_number(high, base);
        assert(s.drop_last() =~= digits(high, base));
        assert(s[0] == digits(high, base)[0]);
        assert forall|i: int| 0 <= i < s.len() implies '0' <= #[trigger] s[i] <= '9' || ('A'
            <= s[i] <= 'F' && base > 10) by {
            if i < s.len() - 1 {
                assert(s[i] == digits(high, base)[i]);
            }
        }
    }
}

} // verus!
