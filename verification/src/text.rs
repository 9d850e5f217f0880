//! Display text of a single cell: a tile of exponent `e` shows `2^e` as a
//! decimal numeral, and an empty cell shows one blank.

use vstd::prelude::*;

verus! {

use vstd::arithmetic::power2::pow2;
use vstd::string::StrSliceExecFns;
use vstd::string::StringExecFns;

/// The display character of one decimal digit.
pub open spec fn digit_char(d: int) -> char {
    if d == 0 {
        '0'
    } else if d == 1 {
        '1'
    } else if d == 2 {
        '2'
    } else if d == 3 {
        '3'
    } else if d == 4 {
        '4'
    } else if d == 5 {
        '5'
    } else if d == 6 {
        '6'
    } else if d == 7 {
        '7'
    } else if d == 8 {
        '8'
    } else {
        '9'
    }
}

/// The decimal numeral of `n`, most significant digit first.
pub open spec fn dec_digits(n: nat) -> Seq<char>
    decreases n,
{
    if n < 10 {
        seq![digit_char(n as int)]
    } else {
        dec_digits(n / 10).push(digit_char((n % 10) as int))
    }
}

/// The characters a cell shows before padding: the decimal numeral of the
/// tile value `2^e`, or one blank for an empty cell.
pub open spec fn cell_chars(e: u8) -> Seq<char> {
    if e == 0 {
        seq![' ']
    } else {
        dec_digits(pow2(e as nat))
    }
}

/// No character of a decimal numeral is a line break.
pub proof fn lemma_dec_digits_no_newline(n: nat)
    ensures
        forall|k: int| 0 <= k < dec_digits(n).len() ==> dec_digits(n)[k] != '\n',
        dec_digits(n).len() >= 1,
    decreases n,
{
    if n >= 10 {
        lemma_dec_digits_no_newline(n / 10);
        assert forall|k: int| 0 <= k < dec_digits(n).len() implies dec_digits(n)[k]
            != '\n' by {
            if k < dec_digits(n).len() - 1 {
                assert(dec_digits(n)[k] == dec_digits(n / 10)[k]);
            }
        }
    }
}

/// No character a cell shows is a line break.
pub proof fn lemma_cell_chars_no_newline(e: u8)
    ensures
        forall|k: int| 0 <= k < cell_chars(e).len() ==> cell_chars(e)[k] != '\n',
        cell_chars(e).len() >= 1,
{
    if e != 0 {
        lemma_dec_digits_no_newline(pow2(e as nat));
    }
}

fn digit_str(d: u8) -> (res: &'static str)
    requires
        d < 10,
    ensures
        res@ == seq![digit_char(d as int)],
{
    if d == 0 {
        proof {
            reveal_strlit("0");
            assert("0"@ =~= seq![digit_char(0)]);
        }
        "0"
    } else if d == 1 {
        proof {
            reveal_strlit("1");
            assert("1"@ =~= seq![digit_char(1)]);
        }
        "1"
    } else if d == 2 {
        proof {
            reveal_strlit("2");
            assert("2"@ =~= seq![digit_char(2)]);
        }
        "2"
    } else if d == 3 {
        proof {
            reveal_strlit("3");
            assert("3"@ =~= seq![digit_char(3)]);
        }
        "3"
    } else if d == 4 {
        proof {
            reveal_strlit("4");
            assert("4"@ =~= seq![digit_char(4)]);
        }
        "4"
    } else if d == 5 {
        proof {
            reveal_strlit("5");
            assert("5"@ =~= seq![digit_char(5)]);
        }
        "5"
    } else if d == 6 {
        proof {
            reveal_strlit("6");
            assert("6"@ =~= seq![digit_char(6)]);
        }
        "6"
    } else if d == 7 {
        proof {
            reveal_strlit("7");
            assert("7"@ =~= seq![digit_char(7)]);
        }
        "7"
    } else if d == 8 {
        proof {
            reveal_strlit("8");
            assert("8"@ =~= seq![digit_char(8)]);
        }
        "8"
    } else {
        proof {
            reveal_strlit("9");
            assert("9"@ =~= seq![digit_char(9)]);
        }
        "9"
    }
}

/// The decimal numeral of `n` as a string.
fn u64_to_string(n: u64) -> (res: String)
    ensures
        res@ == dec_digits(n as nat),
{
    let mut m = n;
    let mut s = String::new();
    while m >= 10
        invariant
            dec_digits(n as nat) == dec_digits(m as nat) + s@,
        decreases m,
    {
        let d = (m % 10) as u8;
        let mut t = String::new();
        t.append(digit_str(d));
        t.append(s.as_str());
        proof {
            assert(dec_digits(m as nat) == dec_digits((m as nat) / 10).push(
                digit_char(((m as nat) % 10) as int),
            ));
            assert(dec_digits((m as nat) / 10).push(digit_char(((m as nat) % 10) as int))
                =~= dec_digits((m as nat) / 10) + seq![digit_char(((m as nat) % 10) as int)]);
            assert((dec_digits((m as nat) / 10) + seq![digit_char(((m as nat) % 10) as int)])
                + s@ =~= dec_digits((m as nat) / 10) + (seq![
                digit_char(((m as nat) % 10) as int),
            ] + s@));
            assert(t@ == seq![digit_char(d as int)] + s@);
            assert((m / 10) as nat == (m as nat) / 10);
        }
        s = t;
        m = m / 10;
    }
    let mut out = String::new();
    out.append(digit_str(m as u8));
    out.append(s.as_str());
    proof {
        assert(dec_digits(m as nat) == seq![digit_char(m as int)]);
        assert(seq![digit_char(m as int)] + s@ =~= dec_digits(m as nat) + s@);
        assert(out@ == seq![digit_char(m as int)] + s@);
    }
    out
}

/// The tile value `2^e` for exponents a 64-bit value can hold.
fn pow2_u64(e: u8) -> (res: u64)
    requires
        e <= 63,
    ensures
        res as nat == pow2(e as nat),
{
    proof {
        vstd::bits::lemma_u64_pow2_no_overflow(e as nat);
        vstd::bits::lemma_u64_shl_is_mul(1u64, e as u64);
    }
    1u64 << (e as u64)
}

/// The display text of one cell, before padding.
pub fn cell_text(e: u8) -> (res: String)
    requires
        e <= 63,
    ensures
        res@ == cell_chars(e),
{
    if e == 0 {
        let mut s = String::new();
        s.append(" ");
        proof {
            reveal_strlit(" ");
            assert(" "@ =~= seq![' ']);
            assert(s@ =~= seq![' ']);
        }
        s
    } else {
        u64_to_string(pow2_u64(e))
    }
}

} // verus!
