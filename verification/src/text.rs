//! The canonical text of a polynomial: what each term looks like, how the terms are
//! joined, and the functions that write the pieces.

use crate::galois::{has_log, lemma_nonzero_has_log, log, primitive};
use vstd::prelude::*;

verus! {

/// The character of the decimal digit `d`.
pub open spec fn digit(d: nat) -> char {
    if d == 0 {
        '0'
    } else if d == 1 {
        '1'
    } else if d == 2 {
        '2'
    } else if d == 3 {
        '3'
    } else if d == 4 {
        '4'
    } else if d == 5 {
        '5'
    } else if d == 6 {
        '6'
    } else if d == 7 {
        '7'
    } else if d == 8 {
        '8'
    } else {
        '9'
    }
}

/// `n` in decimal, without leading zeros.
pub open spec fn decimal(n: nat) -> Seq<char>
    decreases n,
{
    if n < 10 {
        seq![digit(n)]
    } else {
        decimal(n / 10).push(digit(n % 10))
    }
}

/// One factor of a term, a symbol raised to `exponent`: nothing for exponent zero, the
/// bare symbol for exponent one, and else the symbol, a caret and the exponent.
pub open spec fn factor(symbol: char, exponent: nat) -> Seq<char> {
    if exponent == 0 {
        Seq::empty()
    } else if exponent == 1 {
        seq![symbol]
    } else {
        seq![symbol, '^'] + decimal(exponent)
    }
}

/// The term of degree `degree` whose coefficient is the generator raised to `log`: the
/// factor in `a`, a space, the factor in `x`; a factor that is empty is left out with the
/// space, and where both are empty the term is `1`.
pub open spec fn term(log: nat, degree: nat) -> Seq<char> {
    if log == 0 && degree == 0 {
        seq!['1']
    } else if log == 0 {
        factor('x', degree)
    } else if degree == 0 {
        factor('a', log)
    } else {
        factor('a', log) + seq![' '] + factor('x', degree)
    }
}

/// The terms of the nonzero coefficients, in ascending order of degree.
pub open spec fn terms(rp: u16, coefs: Seq<u8>) -> Seq<Seq<char>>
    decreases coefs.len(),
{
    if coefs.len() == 0 {
        Seq::empty()
    } else {
        let lower = terms(rp, coefs.drop_last());
        if coefs.last() == 0 {
            lower
        } else {
            lower.push(term(log(rp, coefs.last()), (coefs.len() - 1) as nat))
        }
    }
}

/// What stands between two terms.
pub open spec fn separator() -> Seq<char> {
    seq![' ', '+', ' ']
}

/// The parts in order, with the separator between each two.
pub open spec fn joined(parts: Seq<Seq<char>>) -> Seq<char>
    decreases parts.len(),
{
    if parts.len() == 0 {
        Seq::empty()
    } else if parts.len() == 1 {
        parts[0]
    } else {
        joined(parts.drop_last()) + separator() + parts.last()
    }
}

/// The canonical text of the polynomial with coefficients `coefs`: its terms joined, or
/// `0` where every coefficient is zero.
pub open spec fn rendering(rp: u16, coefs: Seq<u8>) -> Seq<char> {
    let parts = terms(rp, coefs);
    if parts.len() == 0 {
        seq!['0']
    } else {
        joined(parts)
    }
}

/// Whether every nonzero coefficient has a logarithm, so that its term can be written.
pub open spec fn renderable(rp: u16, coefs: Seq<u8>) -> bool {
    forall|i: int| 0 <= i < coefs.len() ==> coefs[i] == 0 || has_log(rp, #[trigger] coefs[i])
}

/// In a field built from a primitive polynomial every polynomial can be rendered.
pub proof fn lemma_renderable(rp: u16, coefs: Seq<u8>)
    requires
        primitive(rp),
    ensures
        renderable(rp, coefs),
{
    assert forall|i: int| 0 <= i < coefs.len() implies coefs[i] == 0 || has_log(
        rp,
        #[trigger] coefs[i],
    ) by {
        if coefs[i] != 0 {
            lemma_nonzero_has_log(rp, coefs[i]);
        }
    }
}

/// The text of one decimal digit.
fn digit_text(d: usize) -> (s: &'static str)
    requires
        d < 10,
    ensures
        s@ == seq![digit(d as nat)],
{
    proof {
        reveal_strlit("0");
        reveal_strlit("1");
        reveal_strlit("2");
        reveal_strlit("3");
        reveal_strlit("4");
        reveal_strlit("5");
        reveal_strlit("6");
        reveal_strlit("7");
        reveal_strlit("8");
        reveal_strlit("9");
    }
    let s = if d == 0 {
        "0"
    } else if d == 1 {
        "1"
    } else if d == 2 {
        "2"
    } else if d == 3 {
        "3"
    } else if d == 4 {
        "4"
    } else if d == 5 {
        "5"
    } else if d == 6 {
        "6"
    } else if d == 7 {
        "7"
    } else if d == 8 {
        "8"
    } else {
        "9"
    };
    assert(s@ =~= seq![digit(d as nat)]);
    s
}

/// Appends `n` in decimal.
pub fn append_decimal(out: &mut String, n: usize)
    ensures
        final(out)@ == old(out)@ + decimal(n as nat),
    decreases n,
{
    if n >= 10 {
        append_decimal(out, n / 10);
    }
    out.append(digit_text(n % 10));
    assert(out@ =~= old(out)@ + decimal(n as nat));
}

/// Appends the factor of `symbol`, a string of one character, raised to `exponent`.
fn append_factor(out: &mut String, symbol: &str, exponent: usize)
    requires
        symbol@.len() == 1,
    ensures
        final(out)@ == old(out)@ + factor(symbol@[0], exponent as nat),
{
    if exponent == 1 {
        out.append(symbol);
    } else if exponent > 1 {
        out.append(symbol);
        out.append("^");
        append_decimal(out, exponent);
    }
    proof {
        reveal_strlit("^");
    }
    assert(out@ =~= old(out)@ + factor(symbol@[0], exponent as nat));
}

/// Appends the term of degree `degree` whose coefficient has the logarithm `log`.
pub fn append_term(out: &mut String, log: u8, degree: usize)
    ensures
        final(out)@ == old(out)@ + term(log as nat, degree as nat),
{
    proof {
        reveal_strlit("1");
        reveal_strlit("a");
        reveal_strlit("x");
        reveal_strlit(" ");
    }
    if log == 0 && degree == 0 {
        out.append("1");
    } else {
        append_factor(out, "a", log as usize);
        if log != 0 && degree != 0 {
            out.append(" ");
        }
        append_factor(out, "x", degree);
    }
    assert(out@ =~= old(out)@ + term(log as nat, degree as nat));
}

} // verus!
