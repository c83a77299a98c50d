//! Numbers as text.
use vstd::prelude::*;

verus! {

/// The digit for `d`, in upper case.
pub open spec fn digit(d: nat) -> char {
    if d == 0 {
        '0'
    } else if d == 1 {
        '1'
    } else if d == 2 {
        '2'
    } else if d == 3 {
        '3'
    } else if d == 4 {
        '4'
    } else if d == 5 {
        '5'
    } else if d == 6 {
        '6'
    } else if d == 7 {
        '7'
    } else if d == 8 {
        '8'
    } else if d == 9 {
        '9'
    } else if d == 10 {
        'A'
    } else if d == 11 {
        'B'
    } else if d == 12 {
        'C'
    } else if d == 13 {
        'D'
    } else if d == 14 {
        'E'
    } else {
        'F'
    }
}

/// The digits of `n` to the base `base`, without leading zeros.
pub open spec fn digits(n: nat, base: nat) -> Seq<char>
    decreases n,
{
    if base < 2 || n < base {
        seq![digit(n)]
    } else {
        proof {
            vstd::arithmetic::div_mod::lemma_div_decreases(n as int, base as int);
        }
        digits(n / base, base).push(digit(n % base))
    }
}

/// `n` to the base ten.
pub open spec fn decimal(n: nat) -> Seq<char> {
    digits(n, 10)
}

/// `n` to the base sixteen.
pub open spec fn hexadecimal(n: nat) -> Seq<char> {
    digits(n, 16)
}

fn digit_text(d: u64) -> (r: &'static str)
    requires
        d < 16,
    ensures
        r@ == seq![digit(d as nat)],
{
    proof {
        reveal_strlit("0");
        reveal_strlit("1");
        reveal_strlit("2");
        reveal_strlit("3");
        reveal_strlit("4");
        reveal_strlit("5");
        reveal_strlit("6");
        reveal_strlit("7");
        reveal_strlit("8");
        reveal_strlit("9");
        reveal_strlit("A");
        reveal_strlit("B");
        reveal_strlit("C");
        reveal_strlit("D");
        reveal_strlit("E");
        reveal_strlit("F");
    }
    let r = match d {
        0 => "0",
        1 => "1",
        2 => "2",
        3 => "3",
        4 => "4",
        5 => "5",
        6 => "6",
        7 => "7",
        8 => "8",
        9 => "9",
        10 => "A",
        11 => "B",
        12 => "C",
        13 => "D",
        14 => "E",
        _ => "F",
    };
    assert(r@ =~= seq![digit(d as nat)]);
    r
}

fn append_digits(out: &mut String, n: u64, base: u64)
    requires
        2 <= base <= 16,
    ensures
        final(out)@ == old(out)@ + digits(n as nat, base as nat),
    decreases n,
{
    if n < base {
        out.append(digit_text(n));
    } else {
        let ghost before = out@;
        proof {
            vstd::arithmetic::div_mod::lemma_div_decreases(n as int, base as int);
        }
        append_digits(out, n / base, base);
        out.append(digit_text(n % base));
        assert(out@ =~= before + digits(n as nat, base as nat));
    }
}

/// Appends `n` in decimal digits.
pub fn append_decimal(out: &mut String, n: u64)
    ensures
        final(out)@ == old(out)@ + decimal(n as nat),
{
    append_digits(out, n, 10);
}

/// Appends `n` in hexadecimal digits, in upper case.
pub fn append_hexadecimal(out: &mut String, n: u64)
    ensures
        final(out)@ == old(out)@ + hexadecimal(n as nat),
{
    append_digits(out, n, 16);
}

/// The number that a digit stands for.
pub open spec fn digit_value(c: char) -> int {
    if c >= 'A' {
        c as int - 'A' as int + 10
    } else {
        c as int - '0' as int
    }
}

/// The number that digits stand for to the base `base`.
pub open spec fn text_value(text: Seq<char>, base: nat) -> int
    decreases text.len(),
{
    if text.len() == 0 {
        0
    } else {
        text_value(text.drop_last(), base) * base + digit_value(text.last())
    }
}

/// `text` is a way to write `n` to the base `base`: digits below the base, in upper case, that stand
/// for `n`, without a needless zero in front.
pub open spec fn writes_number(text: Seq<char>, n: nat, base: nat) -> bool {
    &&& text.len() > 0
    &&& text_value(text, base) == n
    &&& forall|i: int|
        0 <= i < text.len() ==> {
            let c = #[trigger] text[i];
            ('0' <= c <= '9' || 'A' <= c <= 'F') && digit_value(c) < base
        }
    &&& text.len() > 1 ==> text[0] != '0'
}

/// The digits of a number stand for it.
pub proof fn law_digits_stand_for_number(n: nat, base: nat)
    requires
        2 <= base <= 16,
    ensures
        writes_number(digits(n, base), n, base),
        n > 0 ==> digits(n, base)[0] != '0',
    decreases n,
{
    if n < base {
        let text = digits(n, base);
        assert(text =~= seq![digit(n)]);
        assert(text.drop_last() =~= Seq::empty());
        assert(text_value(text.drop_last(), base) == 0);
        assert(0 * base == 0);
    } else {
        vstd::arithmetic::div_mod::lemma_div_decreases(n as int, base as int);
        vstd::arithmetic::div_mod::lemma_fundamental_div_mod(n as int, base as int);
        vstd::arithmetic::div_mod::lemma_mod_bound(n as int, base as int);
        assert(n / base > 0) by (nonlinear_arith)
            requires
                n >= base,
                base >= 2,
        ;
        law_digits_stand_for_number(n / base, base);
        let front = digits(n / base, base);
        let text = digits(n, base);
        assert(text.drop_last() =~= front);
        assert(text.last() == digit(n % base));
        assert(text_value(text, base) == (n / base) * base + n % base);
        assert((n / base) * base == base * (n / base)) by (nonlinear_arith);
        assert forall|i: int| 0 <= i < text.len() implies {
            let c = #[trigger] text[i];
            ('0' <= c <= '9' || 'A' <= c <= 'F') && digit_value(c) < base
        } by {
            if i < front.len() {
                assert(text[i] == front[i]);
            }
        }
        assert(text[0] == front[0]);
    }
}

/// A number is written to the base ten, or to the base sixteen.
pub proof fn law_written_numbers(n: nat)
    ensures
        writes_number(decimal(n), n, 10),
        writes_number(hexadecimal(n), n, 16),
{
    law_digits_stand_for_number(n, 10);
    law_digits_stand_for_number(n, 16);
}

} // verus!
