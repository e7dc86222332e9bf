//! Rendering counts as text: decimal numerals, right-aligned count
//! columns, and the record that the duplicate-line filter writes for
//! each group.

use vstd::prelude::*;
use vstd::string::StringExecFns;

verus! {

/// The character of one decimal digit.
pub open spec fn digit_char(d: int) -> char {
    if d == 0 {
        '0'
    } else if d == 1 {
        '1'
    } else if d == 2 {
        '2'
    } else if d == 3 {
        '3'
    } else if d == 4 {
        '4'
    } else if d == 5 {
        '5'
    } else if d == 6 {
        '6'
    } else if d == 7 {
        '7'
    } else if d == 8 {
        '8'
    } else {
        '9'
    }
}

/// The decimal numeral of `n`, most significant digit first, without
/// leading zeros (`0` itself is the single digit `'0'`).
pub open spec fn dec_digits(n: int) -> Seq<char>
    recommends
        n >= 0,
    decreases n,
{
    if n < 10 {
        seq![digit_char(n)]
    } else {
        dec_digits(n / 10).push(digit_char(n % 10))
    }
}

fn digit_str(d: usize) -> (r: &'static str)
    requires
        d < 10,
    ensures
        r@ == seq![digit_char(d as int)],
{
    match d {
        0 => {
            proof {
                reveal_strlit("0");
                assert("0"@ =~= seq![digit_char(0)]);
            }
            "0"
        },
        1 => {
            proof {
                reveal_strlit("1");
                assert("1"@ =~= seq![digit_char(1)]);
            }
            "1"
        },
        2 => {
            proof {
                reveal_strlit("2");
                assert("2"@ =~= seq![digit_char(2)]);
            }
            "2"
        },
        3 => {
            proof {
                reveal_strlit("3");
                assert("3"@ =~= seq![digit_char(3)]);
            }
            "3"
        },
        4 => {
            proof {
                reveal_strlit("4");
                assert("4"@ =~= seq![digit_char(4)]);
            }
            "4"
        },
        5 => {
            proof {
                reveal_strlit("5");
                assert("5"@ =~= seq![digit_char(5)]);
            }
            "5"
        },
        6 => {
            proof {
                reveal_strlit("6");
                assert("6"@ =~= seq![digit_char(6)]);
            }
            "6"
        },
        7 => {
            proof {
                reveal_strlit("7");
                assert("7"@ =~= seq![digit_char(7)]);
            }
            "7"
        },
        8 => {
            proof {
                reveal_strlit("8");
                assert("8"@ =~= seq![digit_char(8)]);
            }
            "8"
        },
        _ => {
            proof {
                reveal_strlit("9");
                assert("9"@ =~= seq![digit_char(9)]);
            }
            "9"
        },
    }
}

/// The decimal numeral of `n`.
pub fn to_decimal(n: usize) -> (r: String)
    ensures
        r@ == dec_digits(n as int),
    decreases n,
{
    if n < 10 {
        digit_str(n).to_owned()
    } else {
        let mut r = to_decimal(n / 10);
        r.append(digit_str(n % 10));
        proof {
            assert(dec_digits((n / 10) as int) + seq![digit_char((n % 10) as int)] =~= dec_digits(
                (n / 10) as int,
            ).push(digit_char((n % 10) as int)));
        }
        r
    }
}

/// `k` spaces (none when `k` is not positive).
pub open spec fn spaces(k: int) -> Seq<char>
    decreases k,
{
    if k <= 0 {
        Seq::empty()
    } else {
        spaces(k - 1).push(' ')
    }
}

/// `s` right-aligned in a column of `width`: padding spaces, then `s`;
/// `s` alone once it is at least that wide.
pub open spec fn right_aligned(s: Seq<char>, width: int) -> Seq<char> {
    spaces(width - s.len()) + s
}

/// The numeral of `n`, right-aligned to `width` columns.
pub fn aligned_decimal(n: usize, width: usize) -> (r: String)
    ensures
        r@ == right_aligned(dec_digits(n as int), width as int),
{
    let digits = to_decimal(n);
    let dlen = digits.as_str().unicode_len();
    let needed: usize = if dlen >= width {
        0
    } else {
        width - dlen
    };
    let mut r = String::new();
    let mut pad: usize = 0;
    proof {
        reveal_strlit(" ");
    }
    while pad < needed
        invariant
            0 <= pad <= needed,
            r@ == spaces(pad as int),
            " "@ == seq![' '],
        decreases needed - pad,
    {
        r.append(" ");
        proof {
            assert(spaces(pad as int) + seq![' '] =~= spaces(pad as int + 1));
        }
        pad = pad + 1;
    }
    proof {
        assert(spaces(needed as int) == spaces(width - dec_digits(n as int).len()));
    }
    r.append(digits.as_str());
    r
}

/// One count column of the word-count tool: the numeral right-aligned
/// to eight columns when `show` holds, nothing otherwise.
pub fn format_field(name: usize, show: bool) -> (r: String)
    ensures
        show ==> r@ == right_aligned(dec_digits(name as int), 8),
        !show ==> r@ == Seq::<char>::empty(),
{
    if show {
        aligned_decimal(name, 8)
    } else {
        String::new()
    }
}

/// The count prefix of the duplicate-line filter: the numeral
/// right-aligned to four columns and one trailing space when `show`
/// holds, nothing otherwise.
pub fn format_count(count: usize, show: bool) -> (r: String)
    ensures
        show ==> r@ == right_aligned(dec_digits(count as int), 4) + seq![' '],
        !show ==> r@ == Seq::<char>::empty(),
{
    if show {
        let mut r = aligned_decimal(count, 4);
        proof {
            reveal_strlit(" ");
            assert(" "@ =~= seq![' ']);
        }
        r.append(" ");
        r
    } else {
        String::new()
    }
}

/// The record written for one group of identical lines: the count
/// prefix when requested, then the line itself; the caller does the
/// writing.
pub fn print_content(count: usize, show_count: bool, content: &str) -> (r: String)
    ensures
        r@ == (if show_count {
            right_aligned(dec_digits(count as int), 4) + seq![' ']
        } else {
            Seq::<char>::empty()
        }) + content@,
{
    let mut r = format_count(count, show_count);
    r.append(content);
    r
}

} // verus!
