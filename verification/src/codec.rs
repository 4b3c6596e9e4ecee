//! The algebraic move codec: a move travels on the wire as one lower-case
//! row letter followed by a 1-indexed column number of one or two digits,
//! or as the literal token `swap`.

use crate::text::push_char;
use vstd::prelude::*;

verus! {

pub open spec fn is_lower(c: char) -> bool {
    'a' as int <= c as int <= 'z' as int
}

pub open spec fn is_digit(c: char) -> bool {
    '0' as int <= c as int <= '9' as int
}

pub open spec fn digit_val(c: char) -> int {
    c as int - '0' as int
}

/// The column number named by the digit part of a move string.
pub open spec fn digits_val(s: Seq<char>) -> int {
    if s.len() == 2 {
        digit_val(s[1])
    } else {
        digit_val(s[1]) * 10 + digit_val(s[2])
    }
}

/// A well-formed move string: a row letter and one or two digits whose
/// value is at least one.
pub open spec fn is_move_chars(s: Seq<char>) -> bool {
    &&& s.len() == 2 || s.len() == 3
    &&& is_lower(s[0])
    &&& forall|i: int| 1 <= i < s.len() ==> is_digit(#[trigger] s[i])
    &&& digits_val(s) >= 1
}

/// The zero-indexed row a move string names: 'a' is row zero.
pub open spec fn move_row(s: Seq<char>) -> int {
    s[0] as int - 'a' as int
}

/// The zero-indexed column a move string names.
pub open spec fn move_col(s: Seq<char>) -> int {
    digits_val(s) - 1
}

/// A move string in canonical form carries no leading zero.
pub open spec fn is_canonical_move(s: Seq<char>) -> bool {
    is_move_chars(s) && (s.len() == 3 ==> digit_val(s[1]) >= 1)
}

/// Reads a move string; `None` exactly when it does not match the move
/// grammar.  The coordinates are not checked against any board here.
pub fn parse_move(s: &str) -> (r: Option<(usize, usize)>)
    ensures
        is_move_chars(s@) ==> r == Some((move_row(s@) as usize, move_col(s@) as usize)),
        !is_move_chars(s@) ==> r is None,
{
    let len = s.unicode_len();
    if len != 2 && len != 3 {
        return None;
    }
    let c0 = s.get_char(0);
    if c0 < 'a' || c0 > 'z' {
        return None;
    }
    let row = (c0 as u32 - 97) as usize;
    let c1 = s.get_char(1);
    if c1 < '0' || c1 > '9' {
        return None;
    }
    let mut val: u32 = c1 as u32 - 48;
    if len == 3 {
        let c2 = s.get_char(2);
        if c2 < '0' || c2 > '9' {
            return None;
        }
        val = val * 10 + (c2 as u32 - 48);
    }
    if val == 0 {
        return None;
    }
    let col = (val - 1) as usize;
    proof {
        assert(is_move_chars(s@));
        assert(move_row(s@) == row as int);
        assert(move_col(s@) == col as int);
    }
    Some((row, col))
}

/// The digit character of a value below ten.
fn digit_char(v: usize) -> (c: char)
    requires
        v < 10,
    ensures
        is_digit(c),
        digit_val(c) == v,
{
    let b = 48u8 + v as u8;
    b as char
}

/// Writes the canonical move string of a coordinate pair: the bound of 26
/// rows comes from the one-letter row encoding, that of 99 columns from
/// the two-digit column field.
pub fn format_move(row: usize, col: usize) -> (r: String)
    requires
        row < 26,
        col < 99,
    ensures
        is_canonical_move(r@),
        move_row(r@) == row as int,
        move_col(r@) == col as int,
{
    let mut s = String::new();
    let letter = (97u8 + row as u8) as char;
    push_char(&mut s, letter);
    let v = col + 1;
    if v < 10 {
        push_char(&mut s, digit_char(v));
    } else {
        push_char(&mut s, digit_char(v / 10));
        push_char(&mut s, digit_char(v % 10));
        proof {
            assert(digits_val(s@) == (v as int / 10) * 10 + (v as int % 10));
            vstd::arithmetic::div_mod::lemma_fundamental_div_mod(v as int, 10);
        }
    }
    s
}

/// A non-empty run of decimal digits.
pub open spec fn all_digits(s: Seq<char>) -> bool {
    s.len() > 0 && forall|i: int| 0 <= i < s.len() ==> is_digit(#[trigger] s[i])
}

/// The decimal value of a digit string.
pub open spec fn dec_val(s: Seq<char>) -> int
    decreases s.len(),
{
    if s.len() == 0 {
        0
    } else {
        dec_val(s.drop_last()) * 10 + digit_val(s.last())
    }
}

proof fn lemma_dec_val_nonneg(s: Seq<char>)
    requires
        forall|i: int| 0 <= i < s.len() ==> is_digit(#[trigger] s[i]),
    ensures
        dec_val(s) >= 0,
    decreases s.len(),
{
    if s.len() > 0 {
        lemma_dec_val_nonneg(s.drop_last());
        assert(dec_val(s.drop_last()) * 10 >= 0) by (nonlinear_arith)
            requires
                dec_val(s.drop_last()) >= 0,
        ;
    }
}

/// The value of a digit string is at least that of any of its prefixes.
proof fn lemma_dec_val_prefix(s: Seq<char>, k: int)
    requires
        forall|i: int| 0 <= i < s.len() ==> is_digit(#[trigger] s[i]),
        0 <= k <= s.len(),
    ensures
        dec_val(s.subrange(0, k)) <= dec_val(s),
    decreases s.len() - k,
{
    if k < s.len() {
        lemma_dec_val_prefix(s, k + 1);
        let p = s.subrange(0, k);
        let q = s.subrange(0, k + 1);
        assert(q.drop_last() =~= p);
        assert(q.last() == s[k]);
        lemma_dec_val_nonneg(p);
        assert(dec_val(p) * 10 >= dec_val(p)) by (nonlinear_arith)
            requires
                dec_val(p) >= 0,
        ;
        assert(dec_val(q) == dec_val(p) * 10 + digit_val(s[k]));
    } else {
        assert(s.subrange(0, k) =~= s);
    }
}

/// Reads a decimal number; `None` exactly when the string is not all
/// digits or its value does not fit in a machine word.
#[verifier::loop_isolation(false)]
pub fn parse_usize(s: &str) -> (r: Option<usize>)
    ensures
        match r {
            Some(v) => all_digits(s@) && dec_val(s@) == v as int,
            None => !all_digits(s@) || dec_val(s@) > usize::MAX as int,
        },
{
    let len = s.unicode_len();
    if len == 0 {
        return None;
    }
    let mut acc: usize = 0;
    let mut i: usize = 0;
    while i < len
        invariant
            i <= len,
            forall|k: int| 0 <= k < i ==> is_digit(#[trigger] s@[k]),
            acc as int == dec_val(s@.subrange(0, i as int)),
        decreases len - i,
    {
        let c = s.get_char(i);
        if c < '0' || c > '9' {
            return None;
        }
        let d = (c as u32 - 48) as usize;
        let ghost q = s@.subrange(0, i as int + 1);
        proof {
            assert(q.drop_last() =~= s@.subrange(0, i as int));
            assert(q.last() == s@[i as int]);
        }
        if acc > usize::MAX / 10 {
            proof {
                vstd::arithmetic::div_mod::lemma_fundamental_div_mod(usize::MAX as int, 10);
                assert(acc as int * 10 > usize::MAX as int - 9) by (nonlinear_arith)
                    requires
                        acc as int > usize::MAX as int / 10,
                        usize::MAX as int == 10 * (usize::MAX as int / 10) + usize::MAX as int
                            % 10,
                        usize::MAX as int % 10 <= 9,
                ;
                assert(dec_val(q) > usize::MAX as int);
                if all_digits(s@) {
                    lemma_dec_val_prefix(s@, i as int + 1);
                }
            }
            return None;
        }
        let t = acc * 10;
        proof {
            assert(acc as int * 10 <= usize::MAX as int) by (nonlinear_arith)
                requires
                    acc as int <= usize::MAX as int / 10,
                    usize::MAX as int == 10 * (usize::MAX as int / 10) + usize::MAX as int % 10,
                    usize::MAX as int % 10 >= 0,
            ;
        }
        if d > usize::MAX - t {
            proof {
                assert(dec_val(q) > usize::MAX as int);
                if all_digits(s@) {
                    lemma_dec_val_prefix(s@, i as int + 1);
                }
            }
            return None;
        }
        acc = t + d;
        i += 1;
    }
    proof {
        assert(s@.subrange(0, len as int) =~= s@);
    }
    Some(acc)
}

/// A coordinate pair below the encoding bounds has exactly one canonical
/// move string: parsing and formatting are mutual inverses.
pub proof fn lemma_canonical_move_unique(s1: Seq<char>, s2: Seq<char>)
    requires
        is_canonical_move(s1),
        is_canonical_move(s2),
        move_row(s1) == move_row(s2),
        move_col(s1) == move_col(s2),
    ensures
        s1 == s2,
{
    assert(digits_val(s1) == digits_val(s2));
    if s1.len() == 3 {
        assert(digits_val(s1) >= 10);
    }
    if s2.len() == 3 {
        assert(digits_val(s2) >= 10);
    }
    if s1.len() == 2 {
        assert(digits_val(s1) <= 9);
    }
    if s2.len() == 2 {
        assert(digits_val(s2) <= 9);
    }
    assert(s1.len() == s2.len());
    assert(s1[0] as int == s2[0] as int);
    assert(s1[0] == s2[0]);
    if s1.len() == 2 {
        assert(digit_val(s1[1]) == digit_val(s2[1]));
        assert(s1[1] == s2[1]);
    } else {
        let v = digits_val(s1);
        vstd::arithmetic::div_mod::lemma_fundamental_div_mod_converse(
            v,
            10,
            digit_val(s1[1]),
            digit_val(s1[2]),
        );
        vstd::arithmetic::div_mod::lemma_fundamental_div_mod_converse(
            v,
            10,
            digit_val(s2[1]),
            digit_val(s2[2]),
        );
        assert(s1[1] == s2[1]);
        assert(s1[2] == s2[2]);
    }
    assert(s1 =~= s2);
}

} // verus!
