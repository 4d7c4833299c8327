//! Decimal literals.
//!
//! Reward rates and controller gains are configured as decimal literals and
//! stored by the ledger as arbitrary-precision decimals.  A literal is well
//! formed when it is an optional minus sign, a non-empty run of digits, and
//! optionally a decimal point followed by one to twelve fraction digits.  A
//! malformed literal is a configuration fault that aborts the transaction;
//! a well-formed literal is stored as written.

use vstd::prelude::*;

verus! {

pub open spec fn is_digit(c: char) -> bool {
    '0' <= c && c <= '9'
}

/// The digits of the literal, past any leading minus sign.
pub open spec fn dec_body(s: Seq<char>) -> Seq<char> {
    if s.len() > 0 && s[0] == '-' {
        s.skip(1)
    } else {
        s
    }
}

/// Whether a decimal point at position `i` splits the body into a
/// non-empty integer part and a fraction of one to twelve digits, every
/// other character being a digit.
pub open spec fn dot_splits(b: Seq<char>, i: int) -> bool {
    &&& 0 <= i < b.len()
    &&& b[i] == '.'
    &&& forall|j: int| 0 <= j < b.len() && j != i ==> is_digit(b[j])
    &&& 1 <= i
    &&& 1 <= b.len() - 1 - i <= 12
}

/// The grammar of a decimal literal.
pub open spec fn is_dec_literal(s: Seq<char>) -> bool {
    let b = dec_body(s);
    ||| (b.len() > 0 && (forall|j: int| 0 <= j < b.len() ==> is_digit(b[j])))
    ||| exists|i: int| dot_splits(b, i)
}

/// What parsing a literal yields: the literal itself when well formed,
/// nothing otherwise.
pub open spec fn dec_parsed(s: Seq<char>) -> Option<Seq<char>> {
    if is_dec_literal(s) {
        Some(s)
    } else {
        None
    }
}

fn digit_char(c: char) -> (r: bool)
    ensures
        r == is_digit(c),
{
    '0' <= c && c <= '9'
}

/// Decides the decimal literal grammar.
pub fn check_dec_literal(literal: &str) -> (r: bool)
    ensures
        r == is_dec_literal(literal@),
{
    let ghost s = literal@;
    let ghost b = dec_body(s);
    let n = literal.unicode_len();
    let start: usize = if n > 0 && literal.get_char(0) == '-' {
        1
    } else {
        0
    };
    proof {
        assert(b =~= s.skip(start as int));
        assert forall|j: int| 0 <= j < b.len() implies b[j] == s[j + start as int] by {
            assert(b[j] == s.skip(start as int)[j]);
        }
        assert(b.len() == n - start);
    }
    if n == start {
        return false;
    }
    let mut i: usize = start;
    let mut dot: usize = n;
    while i < n
        invariant
            s == literal@,
            b == dec_body(s),
            start <= i <= n,
            start < n,
            n == s.len(),
            b.len() == n - start,
            forall|j: int| 0 <= j < b.len() ==> b[j] == s[j + start as int],
            dot == n || (start <= dot < i && s[dot as int] == '.'),
            forall|j: int| start <= j < i && j != dot ==> is_digit(s[j]),
        decreases n - i,
    {
        let c = literal.get_char(i);
        if c == '.' {
            if dot < n {
                proof {
                    // Two points: whichever position a split would pick, the
                    // other point is no digit.
                    assert(b[dot - start] == '.');
                    assert(b[i - start] == '.');
                    assert forall|i0: int| !dot_splits(b, i0) by {
                        if 0 <= i0 < b.len() {
                            if i0 != dot - start {
                                assert(!is_digit(b[dot - start]));
                            } else {
                                assert(!is_digit(b[i - start]));
                            }
                        }
                    }
                    assert(!is_digit(b[dot - start]));
                }
                return false;
            }
            dot = i;
        } else if !digit_char(c) {
            proof {
                // A character that is neither digit nor point.
                assert(b[i - start] == s[i as int]);
                assert forall|i0: int| !dot_splits(b, i0) by {
                    if 0 <= i0 < b.len() && i0 != i - start {
                        assert(!is_digit(b[i - start]));
                    }
                }
                assert(!is_digit(b[i - start]));
            }
            return false;
        }
        i = i + 1;
    }
    if dot == n {
        proof {
            assert(b.len() > 0);
            assert forall|j: int| 0 <= j < b.len() implies is_digit(b[j]) by {
                assert(b[j] == s[j + start as int]);
            }
        }
        true
    } else {
        let int_len = dot - start;
        let frac_len = n - 1 - dot;
        if int_len >= 1 && frac_len >= 1 && frac_len <= 12 {
            proof {
                assert(b[dot - start] == s[dot as int]);
                assert forall|j: int| 0 <= j < b.len() && j != dot - start implies is_digit(
                    b[j],
                ) by {
                    assert(b[j] == s[j + start as int]);
                }
                assert(dot_splits(b, dot - start));
            }
            true
        } else {
            proof {
                assert(b[dot - start] == s[dot as int]);
                assert(!is_digit(b[dot - start]));
                assert forall|i0: int| !dot_splits(b, i0) by {
                    if 0 <= i0 < b.len() && i0 != dot - start {
                        assert(b[i0] == s[i0 + start as int]);
                        assert(is_digit(b[i0]));
                    }
                }
            }
            false
        }
    }
}

/// Parses a decimal literal: a well-formed literal is handed back as the
/// ledger stores it, a malformed one yields nothing.
pub fn parse_decimal(literal: &str) -> (r: Option<String>)
    ensures
        match r {
            Some(c) => dec_parsed(literal@) == Some(c@),
            None => dec_parsed(literal@) is None,
        },
{
    if check_dec_literal(literal) {
        Some(String::from_str(literal))
    } else {
        None
    }
}

} // verus!
