//! Character classification, ASCII lowercasing, string comparison and
//! decimal rendering: the small text tools the rest of the crate builds on.
use vstd::prelude::*;
use vstd::string::StrSliceExecFns;

verus! {

/// An ASCII decimal digit.
pub open spec fn is_digit_char(c: char) -> bool {
    48 <= c as u32 && c as u32 <= 57
}

/// An ASCII lowercase letter.
pub open spec fn is_lower_char(c: char) -> bool {
    97 <= c as u32 && c as u32 <= 122
}

/// An ASCII uppercase letter.
pub open spec fn is_upper_char(c: char) -> bool {
    65 <= c as u32 && c as u32 <= 90
}

/// An ASCII alphanumeric character.
pub open spec fn is_alnum_char(c: char) -> bool {
    is_digit_char(c) || is_lower_char(c) || is_upper_char(c)
}

/// ASCII whitespace, as trimmed from anchor text.
pub open spec fn is_space_char(c: char) -> bool {
    c == ' ' || c == '\t' || c == '\n' || c == '\r'
}

/// Maps an ASCII uppercase letter to its lowercase form; leaves every other
/// character unchanged.
pub open spec fn lower_char(c: char) -> char {
    if is_upper_char(c) {
        ((c as u32 + 32) as u8) as char
    } else {
        c
    }
}

pub fn is_alnum(c: char) -> (r: bool)
    ensures
        r == is_alnum_char(c),
{
    let u = c as u32;
    (48 <= u && u <= 57) || (97 <= u && u <= 122) || (65 <= u && u <= 90)
}

pub fn is_space(c: char) -> (r: bool)
    ensures
        r == is_space_char(c),
{
    c == ' ' || c == '\t' || c == '\n' || c == '\r'
}

pub fn to_lower(c: char) -> (r: char)
    ensures
        r == lower_char(c),
{
    let u = c as u32;
    if 65 <= u && u <= 90 {
        ((u + 32) as u8) as char
    } else {
        c
    }
}

/// Character-by-character string equality, proved against the views.
pub fn str_eq(a: &str, b: &str) -> (r: bool)
    ensures
        r == (a@ == b@),
{
    let na = a.unicode_len();
    let nb = b.unicode_len();
    if na != nb {
        return false;
    }
    let mut i: usize = 0;
    while i < na
        invariant
            na == a@.len(),
            na == b@.len(),
            i <= na,
            forall|k: int| 0 <= k < i ==> a@[k] == b@[k],
        decreases na - i,
    {
        if a.get_char(i) != b.get_char(i) {
            return false;
        }
        i = i + 1;
    }
    proof {
        assert(a@ =~= b@);
    }
    true
}

/// Relies on String's FromIterator over chars: collecting a sequence of
/// chars yields a String holding exactly those chars in order.
#[verifier::external_body]
pub fn chars_to_string(v: &Vec<char>) -> (r: String)
    ensures
        r@ == v@,
{
    v.iter().collect()
}

/// The decimal digit character for a value below ten.
pub open spec fn dec_digit(d: nat) -> char {
    ((48 + d) as u8) as char
}

/// The decimal numeral of `n`, most significant digit first.
pub open spec fn dec_rep(n: nat) -> Seq<char>
    decreases n,
{
    if n < 10 {
        seq![dec_digit(n)]
    } else {
        dec_rep(n / 10) + seq![dec_digit(n % 10)]
    }
}

/// Reads a digit sequence back as a number; inverse of `dec_rep`.
pub open spec fn dec_val(s: Seq<char>) -> nat
    decreases s.len(),
{
    if s.len() == 0 {
        0
    } else {
        dec_val(s.drop_last()) * 10 + (if s.last() as u32 >= 48 {
            (s.last() as u32 - 48) as nat
        } else {
            0
        })
    }
}

pub proof fn lemma_dec_rep_len(n: nat)
    ensures
        dec_rep(n).len() >= 1,
    decreases n,
{
    if n >= 10 {
        lemma_dec_rep_len(n / 10);
    }
}

/// The numeral of `n` reads back as `n`.
pub proof fn lemma_dec_rep_val(n: nat)
    ensures
        dec_val(dec_rep(n)) == n,
    decreases n,
{
    if n < 10 {
        let s = dec_rep(n);
        assert(s =~= seq![dec_digit(n)]);
        assert(s.drop_last() =~= Seq::<char>::empty());
        assert(dec_val(Seq::<char>::empty()) == 0);
        assert(s.last() == dec_digit(n));
        assert(dec_digit(n) as u32 == 48 + n);
        assert(dec_val(s) == dec_val(s.drop_last()) * 10 + (s.last() as u32 - 48) as nat);
        assert(dec_val(s) == n);
    } else {
        lemma_dec_rep_val(n / 10);
        let s = dec_rep(n);
        assert(s == dec_rep(n / 10) + seq![dec_digit(n % 10)]);
        assert(s.drop_last() =~= dec_rep(n / 10));
        assert(s.last() == dec_digit(n % 10));
        assert(dec_digit(n % 10) as u32 == 48 + n % 10);
        assert(dec_val(s) == dec_val(dec_rep(n / 10)) * 10 + n % 10);
        assert(n / 10 * 10 + n % 10 == n) by {
            vstd::arithmetic::div_mod::lemma_fundamental_div_mod(n as int, 10);
        }
    }
}

/// Distinct numbers have distinct numerals.
pub proof fn lemma_dec_rep_injective(a: nat, b: nat)
    requires
        a != b,
    ensures
        dec_rep(a) != dec_rep(b),
{
    if dec_rep(a) == dec_rep(b) {
        lemma_dec_rep_val(a);
        lemma_dec_rep_val(b);
        assert(false);
    }
}

/// Appending the same front to two different sequences keeps them different.
pub proof fn lemma_prepend_cancel(p: Seq<char>, a: Seq<char>, b: Seq<char>)
    requires
        p + a == p + b,
    ensures
        a == b,
{
    assert((p + a).skip(p.len() as int) =~= a);
    assert((p + b).skip(p.len() as int) =~= b);
}

pub fn u128_to_dec(n: u128) -> (v: Vec<char>)
    ensures
        v@ == dec_rep(n as nat),
    decreases n,
{
    let d: u8 = (n % 10) as u8 + 48;
    let c = d as char;
    if n < 10 {
        let mut v: Vec<char> = Vec::new();
        v.push(c);
        proof {
            assert(v@ =~= dec_rep(n as nat));
        }
        v
    } else {
        let mut v = u128_to_dec(n / 10);
        v.push(c);
        proof {
            assert(v@ =~= dec_rep(n as nat));
        }
        v
    }
}

} // verus!
