//! Decimal rendering and parsing of unsigned 64-bit sizes, used by the
//! metadata document codec.

use vstd::prelude::*;

verus! {

/// True of the ten ASCII digit characters.
pub open spec fn is_digit(c: char) -> bool {
    48 <= c as int && c as int <= 57
}

/// Numeric value of an ASCII digit character.
pub open spec fn digit_val(c: char) -> nat {
    (c as int - 48) as nat
}

/// The ASCII digit character for a value below ten.
pub open spec fn digit_char(d: nat) -> char
    recommends
        d < 10,
{
    (48 + d) as char
}

/// The decimal digit sequence of a natural number, most significant first.
pub open spec fn dec_seq(n: nat) -> Seq<char>
    decreases n,
{
    if n < 10 {
        seq![digit_char(n)]
    } else {
        dec_seq(n / 10).push(digit_char(n % 10))
    }
}

/// Every character of `s` is an ASCII digit.
pub open spec fn all_digits(s: Seq<char>) -> bool {
    forall|i: int| 0 <= i < s.len() ==> is_digit(#[trigger] s[i])
}

/// The value of a digit sequence read in base ten.
pub open spec fn dec_val(s: Seq<char>) -> nat
    decreases s.len(),
{
    if s.len() == 0 {
        0
    } else {
        dec_val(s.drop_last()) * 10 + digit_val(s.last())
    }
}

/// Rendering a number and reading the digits back yields the number:
/// the digit sequence of `n` is made of digits and its value is `n`.
pub proof fn lemma_dec_seq_val(n: nat)
    ensures
        all_digits(dec_seq(n)),
        dec_val(dec_seq(n)) == n,
        dec_seq(n).len() >= 1,
    decreases n,
{
    if n < 10 {
        let s = seq![digit_char(n)];
        assert(dec_seq(n) == s);
        assert(s.last() == digit_char(n));
        assert(s.drop_last() =~= Seq::<char>::empty());
        assert(dec_val(Seq::<char>::empty()) == 0);
        assert(dec_val(s) == dec_val(s.drop_last()) * 10 + digit_val(s.last()));
        assert(digit_val(digit_char(n)) == n);
        assert(dec_val(s) == n);
    } else {
        lemma_dec_seq_val(n / 10);
        let s = dec_seq(n);
        assert(s.drop_last() =~= dec_seq(n / 10));
        assert(s.last() == digit_char(n % 10));
        assert(digit_val(digit_char(n % 10)) == n % 10);
        assert(dec_val(s) == (n / 10) * 10 + n % 10);
        assert((n / 10) * 10 + n % 10 == n) by (nonlinear_arith);
    }
}

/// Extending a digit run on the right never lowers its value.
pub proof fn lemma_dec_val_prefix(t: Seq<char>, i: int, j: int, e: int)
    requires
        0 <= i <= j <= e <= t.len(),
    ensures
        dec_val(t.subrange(i, j)) <= dec_val(t.subrange(i, e)),
    decreases e - j,
{
    if j < e {
        lemma_dec_val_prefix(t, i, j, e - 1);
        let s = t.subrange(i, e);
        assert(s.drop_last() =~= t.subrange(i, e - 1));
        assert(dec_val(s) == dec_val(s.drop_last()) * 10 + digit_val(s.last()));
        assert(dec_val(s.drop_last()) <= dec_val(s.drop_last()) * 10) by (nonlinear_arith);
    }
}

/// Whether `c` is an ASCII digit.
pub fn is_digit_char(c: char) -> (b: bool)
    ensures
        b == is_digit(c),
{
    let u = c as u32;
    48 <= u && u <= 57
}

/// Reads the value of the digit run `s[start..end]`; reports the runs
/// whose value does not fit in 64 bits.
pub fn parse_dec_region(s: &str, start: usize, end: usize) -> (r: Option<u64>)
    requires
        start <= end <= s@.len(),
        forall|k: int| start <= k < end ==> is_digit(#[trigger] s@[k]),
    ensures
        match r {
            Some(v) => v as nat == dec_val(s@.subrange(start as int, end as int)),
            None => dec_val(s@.subrange(start as int, end as int)) > u64::MAX,
        },
{
    let ghost t = s@;
    let mut v: u64 = 0;
    let mut j: usize = start;
    while j < end
        invariant
            start <= j <= end <= t.len(),
            t == s@,
            forall|k: int| start <= k < end ==> is_digit(#[trigger] t[k]),
            v as nat == dec_val(t.subrange(start as int, j as int)),
        decreases end - j,
    {
        let c = s.get_char(j);
        assert(is_digit(t[j as int]));
        let d: u32 = c as u32 - 48;
        proof {
            assert(t.subrange(start as int, j + 1).drop_last() =~= t.subrange(
                start as int,
                j as int,
            ));
            assert(t.subrange(start as int, j + 1).last() == t[j as int]);
            assert(digit_val(c) == d as nat);
        }
        let v10 = match v.checked_mul(10) {
            Some(x) => x,
            None => {
                proof {
                    assert(dec_val(t.subrange(start as int, j + 1)) > u64::MAX);
                    lemma_dec_val_prefix(t, start as int, j + 1, end as int);
                }
                return None;
            },
        };
        v = match v10.checked_add(d as u64) {
            Some(x) => x,
            None => {
                proof {
                    assert(dec_val(t.subrange(start as int, j + 1)) > u64::MAX);
                    lemma_dec_val_prefix(t, start as int, j + 1, end as int);
                }
                return None;
            },
        };
        j += 1;
    }
    Some(v)
}

/// Renders a digit below ten as its one-character string.
fn digit_str(d: u64) -> (r: &'static str)
    requires
        d < 10,
    ensures
        r@ =~= seq![digit_char(d as nat)],
{
    proof {
        reveal_strlit("0");
        reveal_strlit("1");
        reveal_strlit("2");
        reveal_strlit("3");
        reveal_strlit("4");
        reveal_strlit("5");
        reveal_strlit("6");
        reveal_strlit("7");
        reveal_strlit("8");
        reveal_strlit("9");
    }
    match d {
        0 => "0",
        1 => "1",
        2 => "2",
        3 => "3",
        4 => "4",
        5 => "5",
        6 => "6",
        7 => "7",
        8 => "8",
        _ => "9",
    }
}

/// Renders `n` in decimal, most significant digit first.
pub fn u64_to_dec(n: u64) -> (r: String)
    ensures
        r@ == dec_seq(n as nat),
    decreases n,
{
    if n < 10 {
        digit_str(n).to_owned()
    } else {
        let mut s = u64_to_dec(n / 10);
        s.append(digit_str(n % 10));
        proof {
            assert(s@ =~= dec_seq(n as nat));
        }
        s
    }
}

} // verus!
