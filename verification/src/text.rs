//! Canonical decimal text for the unsigned and signed integers that the
//! ledger's hash preimage and its durable representation are built from.
//!
//! Rendering is canonical: no sign on zero, no leading zeros. The parser
//! accepts exactly the canonical renderings, so a stored number has one
//! spelling and one value.

use vstd::prelude::*;
use vstd::string::*;

verus! {

/// True of the ten ASCII decimal digit characters.
pub open spec fn is_digit(c: char) -> bool {
    48 <= c as int && c as int <= 57
}

/// The digit character for a value below ten.
pub open spec fn digit_char(n: int) -> char {
    if n == 0 {
        '0'
    } else if n == 1 {
        '1'
    } else if n == 2 {
        '2'
    } else if n == 3 {
        '3'
    } else if n == 4 {
        '4'
    } else if n == 5 {
        '5'
    } else if n == 6 {
        '6'
    } else if n == 7 {
        '7'
    } else if n == 8 {
        '8'
    } else {
        '9'
    }
}

/// The numeric value of a digit character.
pub open spec fn digit_val(c: char) -> nat {
    (c as int - 48) as nat
}

/// Canonical decimal rendering of a natural number, most significant digit
/// first, with no leading zeros.
pub open spec fn dec_digits(n: nat) -> Seq<char>
    decreases n,
{
    if n < 10 {
        seq![digit_char(n as int)]
    } else {
        dec_digits(n / 10).push(digit_char((n % 10) as int))
    }
}

/// Canonical decimal rendering of an integer: a minus sign before the
/// magnitude when negative.
pub open spec fn dec_signed(n: int) -> Seq<char> {
    if n < 0 {
        seq!['-'] + dec_digits((-n) as nat)
    } else {
        dec_digits(n as nat)
    }
}

/// The value of a sequence of digit characters, most significant first.
pub open spec fn str_val(s: Seq<char>) -> nat
    decreases s.len(),
{
    if s.len() == 0 {
        0
    } else {
        str_val(s.drop_last()) * 10 + digit_val(s.last())
    }
}

/// The canonical rendering of `n` is a nonempty run of digits without a
/// leading zero, and it evaluates back to `n`.
pub proof fn lemma_dec_digits(n: nat)
    ensures
        dec_digits(n).len() >= 1,
        forall|k: int| 0 <= k < dec_digits(n).len() ==> is_digit(#[trigger] dec_digits(n)[k]),
        str_val(dec_digits(n)) == n,
        n > 0 ==> dec_digits(n)[0] != '0',
        n < 10 ==> dec_digits(n).len() == 1,
    decreases n,
{
    if n < 10 {
        let s = dec_digits(n);
        assert(s.drop_last() =~= Seq::<char>::empty());
        assert(str_val(s) == str_val(s.drop_last()) * 10 + digit_val(s.last()));
        assert(digit_val(digit_char(n as int)) == n);
    } else {
        lemma_dec_digits(n / 10);
        let p = dec_digits(n / 10);
        let s = dec_digits(n);
        assert(s == p.push(digit_char((n % 10) as int)));
        assert(s.drop_last() =~= p);
        assert(digit_val(digit_char((n % 10) as int)) == n % 10);
        assert(str_val(s) == str_val(p) * 10 + n % 10);
        assert((n / 10) * 10 + n % 10 == n) by {
            assert(n == 10 * (n / 10) + n % 10) by (nonlinear_arith);
        };
        assert(s[0] == p[0]);
        assert(n / 10 > 0);
    }
}

/// The end of the run of digit characters that starts at `i`.
pub open spec fn run_end(s: Seq<char>, i: int) -> int
    decreases s.len() - i,
{
    if i < 0 || i >= s.len() || !is_digit(s[i]) {
        i
    } else {
        run_end(s, i + 1)
    }
}

/// Bounds and contents of a digit run: every character before its end is a
/// digit, and the character at its end (if any) is not.
pub proof fn lemma_run_end(s: Seq<char>, i: int)
    requires
        0 <= i <= s.len(),
    ensures
        i <= run_end(s, i) <= s.len(),
        forall|k: int| i <= k < run_end(s, i) ==> is_digit(#[trigger] s[k]),
        run_end(s, i) == s.len() || !is_digit(s[run_end(s, i)]),
    decreases s.len() - i,
{
    if i < s.len() && is_digit(s[i]) {
        lemma_run_end(s, i + 1);
    }
}

/// A run of `m` digits followed by a non-digit (or the end of the text) is
/// exactly the run that begins at `i`.
pub proof fn lemma_run_end_exact(s: Seq<char>, i: int, m: int)
    requires
        0 <= i,
        0 <= m,
        i + m <= s.len(),
        forall|k: int| i <= k < i + m ==> is_digit(#[trigger] s[k]),
        i + m == s.len() || !is_digit(s[i + m]),
    ensures
        run_end(s, i) == i + m,
    decreases m,
{
    if m == 0 {
    } else {
        lemma_run_end_exact(s, i + 1, m - 1);
    }
}

/// Extending a digit run multiplies the value by ten and adds the new digit.
pub proof fn lemma_str_val_snoc(s: Seq<char>, i: int, k: int)
    requires
        0 <= i <= k < s.len(),
    ensures
        str_val(s.subrange(i, k + 1)) == str_val(s.subrange(i, k)) * 10 + digit_val(s[k]),
{
    let w = s.subrange(i, k + 1);
    assert(w.drop_last() =~= s.subrange(i, k));
    assert(w.last() == s[k]);
}

/// The value of a digit run is at least the value of any of its prefixes.
pub proof fn lemma_str_val_mono(s: Seq<char>, i: int, k: int, j: int)
    requires
        0 <= i <= k <= j <= s.len(),
    ensures
        str_val(s.subrange(i, j)) >= str_val(s.subrange(i, k)),
    decreases j - k,
{
    if k < j {
        lemma_str_val_snoc(s, i, k);
        assert(str_val(s.subrange(i, k + 1)) >= str_val(s.subrange(i, k)));
        lemma_str_val_mono(s, i, k + 1, j);
    }
}

/// The canonical parse of an unsigned number at position `i`: the maximal
/// digit run, rejected when empty, when it has a leading zero, or when its
/// value does not fit.
pub open spec fn parse_u64_at(s: Seq<char>, i: int) -> Option<(u64, int)> {
    let j = run_end(s, i);
    if j == i {
        None
    } else if s[i] == '0' && j > i + 1 {
        None
    } else if str_val(s.subrange(i, j)) > u64::MAX {
        None
    } else {
        Some((str_val(s.subrange(i, j)) as u64, j))
    }
}

/// The canonical parse of a signed number at position `i`: an optional minus
/// sign (never on zero) before a canonical magnitude that fits.
pub open spec fn parse_i64_at(s: Seq<char>, i: int) -> Option<(i64, int)> {
    if 0 <= i < s.len() && s[i] == '-' {
        match parse_u64_at(s, i + 1) {
            Some((m, j)) => if 1 <= m && m <= i64::MAX as u64 + 1 {
                Some(((-(m as int)) as i64, j))
            } else {
                None
            },
            None => None,
        }
    } else {
        match parse_u64_at(s, i) {
            Some((m, j)) => if m <= i64::MAX as u64 {
                Some((m as i64, j))
            } else {
                None
            },
            None => None,
        }
    }
}

/// Parsing recovers a canonically rendered unsigned number exactly.
pub proof fn lemma_parse_u64_of_dec(s: Seq<char>, i: int, x: u64)
    requires
        0 <= i,
        i + dec_digits(x as nat).len() <= s.len(),
        s.subrange(i, i + dec_digits(x as nat).len() as int) == dec_digits(x as nat),
        i + dec_digits(x as nat).len() == s.len()
            || !is_digit(s[i + dec_digits(x as nat).len()]),
    ensures
        parse_u64_at(s, i) == Some((x, i + dec_digits(x as nat).len() as int)),
{
    let d = dec_digits(x as nat);
    let m = d.len() as int;
    lemma_dec_digits(x as nat);
    assert forall|k: int| i <= k < i + m implies is_digit(#[trigger] s[k]) by {
        assert(s[k] == s.subrange(i, i + m)[k - i]);
        assert(s.subrange(i, i + m)[k - i] == d[k - i]);
        assert(is_digit(d[k - i]));
    };
    lemma_run_end_exact(s, i, m);
    assert(run_end(s, i) == i + m);
    assert(str_val(s.subrange(i, i + m)) == x);
    assert(s[i] == d[0]);
    if x >= 10 {
        assert(d[0] != '0');
    } else {
        assert(m == 1);
    }
}

/// Parsing recovers a canonically rendered signed number exactly.
pub proof fn lemma_parse_i64_of_dec(s: Seq<char>, i: int, x: i64)
    requires
        0 <= i,
        i + dec_signed(x as int).len() <= s.len(),
        s.subrange(i, i + dec_signed(x as int).len() as int) == dec_signed(x as int),
        i + dec_signed(x as int).len() == s.len()
            || !is_digit(s[i + dec_signed(x as int).len()]),
    ensures
        parse_i64_at(s, i) == Some((x, i + dec_signed(x as int).len() as int)),
{
    let e = dec_signed(x as int);
    if x < 0 {
        let mag = (-(x as int)) as nat;
        let d = dec_digits(mag);
        assert(e == seq!['-'] + d);
        assert(s[i] == e[0] == '-');
        assert(!is_digit('-'));
        assert(s.subrange(i + 1, i + 1 + d.len() as int) =~= d) by {
            assert(forall|k: int| 0 <= k < d.len()
                ==> s.subrange(i, i + e.len() as int)[k + 1] == #[trigger] d[k]);
        };
        let xm = mag as u64;
        assert(xm as nat == mag);
        assert(dec_digits(xm as nat) == d);
        lemma_parse_u64_of_dec(s, i + 1, xm);
        assert(1 <= xm && xm <= i64::MAX as u64 + 1);
        assert((-(xm as int)) as i64 == x);
    } else {
        assert(e == dec_digits(x as nat));
        lemma_dec_digits(x as nat);
        assert(s[i] == e[0]);
        assert(is_digit(s[i]));
        assert(s[i] != '-');
        lemma_parse_u64_of_dec(s, i, x as u64);
    }
}

/// Decimal digit test, executable form.
pub fn is_digit_exec(c: char) -> (r: bool)
    ensures
        r == is_digit(c),
{
    let u = c as u32;
    48 <= u && u <= 57
}

/// The value of one digit character, executable form.
pub fn digit_value_exec(c: char) -> (r: u64)
    requires
        is_digit(c),
    ensures
        r == digit_val(c),
{
    (c as u32 - 48) as u64
}

/// The one-character text of a digit below ten.
pub fn digit_str(d: u64) -> (r: &'static str)
    requires
        d < 10,
    ensures
        r@ == seq![digit_char(d as int)],
{
    proof {
        reveal_strlit("0");
        reveal_strlit("1");
        reveal_strlit("2");
        reveal_strlit("3");
        reveal_strlit("4");
        reveal_strlit("5");
        reveal_strlit("6");
        reveal_strlit("7");
        reveal_strlit("8");
        reveal_strlit("9");
    }
    let r = if d == 0 {
        "0"
    } else if d == 1 {
        "1"
    } else if d == 2 {
        "2"
    } else if d == 3 {
        "3"
    } else if d == 4 {
        "4"
    } else if d == 5 {
        "5"
    } else if d == 6 {
        "6"
    } else if d == 7 {
        "7"
    } else if d == 8 {
        "8"
    } else {
        "9"
    };
    proof {
        assert(r@ =~= seq![digit_char(d as int)]);
    }
    r
}

/// Canonical decimal text of an unsigned number.
pub fn u64_to_string(n: u64) -> (r: String)
    ensures
        r@ == dec_digits(n as nat),
    decreases n,
{
    if n < 10 {
        digit_str(n).to_owned()
    } else {
        let mut r = u64_to_string(n / 10);
        r.append(digit_str(n % 10));
        proof {
            assert(r@ =~= dec_digits(n as nat));
        }
        r
    }
}

/// Canonical decimal text of a signed number.
pub fn i64_to_string(n: i64) -> (r: String)
    ensures
        r@ == dec_signed(n as int),
{
    if n >= 0 {
        u64_to_string(n as u64)
    } else {
        let mag: u64 = ((-(n + 1)) as u64) + 1;
        proof {
            assert(mag as int == -(n as int));
        }
        let mut r = String::from_str("-");
        r.append(u64_to_string(mag).as_str());
        proof {
            reveal_strlit("-");
            assert(r@ =~= dec_signed(n as int));
        }
        r
    }
}

/// Reads the canonical unsigned number that begins at position `i`, returning
/// its value and the position just past its digits.
pub fn parse_u64(s: &Vec<char>, i: usize) -> (r: Option<(u64, usize)>)
    requires
        i <= s@.len(),
    ensures
        match r {
            Some(p) => parse_u64_at(s@, i as int) == Some((p.0, p.1 as int))
                && i < p.1 <= s@.len(),
            None => parse_u64_at(s@, i as int) is None,
        },
{
    let mut j: usize = i;
    while j < s.len() && is_digit_exec(s[j])
        invariant
            i <= j <= s@.len(),
            forall|k: int| i <= k < j ==> is_digit(#[trigger] s@[k]),
            run_end(s@, i as int) == run_end(s@, j as int),
        decreases s@.len() - j,
    {
        j += 1;
    }
    proof {
        assert(run_end(s@, j as int) == j);
        lemma_run_end(s@, i as int);
    }
    if j == i {
        return None;
    }
    if s[i] == '0' && j > i + 1 {
        return None;
    }
    let ghost run = s@.subrange(i as int, j as int);
    let mut k: usize = i;
    let mut val: u64 = 0;
    while k < j
        invariant
            i <= k <= j <= s@.len(),
            j == run_end(s@, i as int),
            forall|m: int| i <= m < j ==> is_digit(#[trigger] s@[m]),
            val == str_val(s@.subrange(i as int, k as int)),
        decreases j - k,
    {
        let d = digit_value_exec(s[k]);
        if val > (u64::MAX - d) / 10 {
            proof {
                assert(val * 10 + d > u64::MAX) by (nonlinear_arith)
                    requires
                        val > (u64::MAX - d) / 10,
                        d <= 9,
                ;
                lemma_str_val_snoc(s@, i as int, k as int);
                lemma_str_val_mono(s@, i as int, k as int + 1, j as int);
                assert(str_val(s@.subrange(i as int, j as int)) > u64::MAX);
            }
            return None;
        }
        proof {
            assert(val * 10 + d <= u64::MAX) by (nonlinear_arith)
                requires
                    val <= (u64::MAX - d) / 10,
                    d <= 9,
            ;
            lemma_str_val_snoc(s@, i as int, k as int);
        }
        val = val * 10 + d;
        k += 1;
    }
    Some((val, j))
}

/// Reads the canonical signed number that begins at position `i`.
pub fn parse_i64(s: &Vec<char>, i: usize) -> (r: Option<(i64, usize)>)
    requires
        i <= s@.len(),
    ensures
        match r {
            Some(p) => parse_i64_at(s@, i as int) == Some((p.0, p.1 as int))
                && i < p.1 <= s@.len(),
            None => parse_i64_at(s@, i as int) is None,
        },
{
    if i < s.len() && s[i] == '-' {
        match parse_u64(s, i + 1) {
            Some((m, j)) => {
                if 1 <= m && m <= 9223372036854775808u64 {
                    let v: i64 = if m == 9223372036854775808u64 {
                        i64::MIN
                    } else {
                        -(m as i64)
                    };
                    proof {
                        assert(v as int == -(m as int));
                    }
                    Some((v, j))
                } else {
                    None
                }
            },
            None => None,
        }
    } else {
        match parse_u64(s, i) {
            Some((m, j)) => {
                if m <= i64::MAX as u64 {
                    Some((m as i64, j))
                } else {
                    None
                }
            },
            None => None,
        }
    }
}

} // verus!
