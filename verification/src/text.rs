//! Building texts character by character, and writing numbers in decimal and
//! in hexadecimal.
use vstd::prelude::*;

verus! {

/// The characters of a text.
pub open spec fn string_view_fn() -> spec_fn(String) -> Seq<char> {
    |s: String| s@
}

/// Appends one character to a text, with `String::push`. The contract
/// claims what the standard library documents: the character is added at
/// the end.
#[verifier::external_body]
pub(crate) fn string_push(s: &mut String, c: char)
    ensures
        final(s)@ == old(s)@.push(c),
{
    s.push(c);
}

/// Appends characters to a text, in order.
pub fn push_chars(s: &mut String, cs: &Vec<char>)
    ensures
        final(s)@ == old(s)@ + cs@,
{
    let mut i: usize = 0;
    while i < cs.len()
        invariant
            i <= cs@.len(),
            s@ == old(s)@ + cs@.take(i as int),
        decreases cs@.len() - i,
    {
        string_push(s, cs[i]);
        assert(old(s)@ + cs@.take(i + 1) =~= (old(s)@ + cs@.take(i as int)).push(cs@[i as int]));
        i += 1;
    }
    assert(cs@.take(cs@.len() as int) =~= cs@);
}

/// The text made of the given characters.
pub fn string_from_chars(cs: &Vec<char>) -> (r: String)
    ensures
        r@ == cs@,
{
    let mut s = String::new();
    push_chars(&mut s, cs);
    s
}

/// Appends the characters of a text to another.
pub fn push_text(s: &mut String, t: &str)
    ensures
        final(s)@ == old(s)@ + t@,
{
    let cs = crate::storage::deser::raw::chars_of(t);
    push_chars(s, &cs);
}

/// The digit for a value below sixteen; letters are upper case.
pub open spec fn digit_char(d: nat) -> char {
    if d < 10 {
        (48 + d) as char
    } else {
        (55 + d) as char
    }
}

/// `n` written in base `b` (10 or 16), most significant digit first,
/// without leading zeros; zero is written `0`.
pub open spec fn digits_in_base(n: nat, b: nat) -> Seq<char>
    decreases n,
{
    if b < 2 || n < b {
        seq![digit_char(n % 16)]
    } else {
        proof {
            assert(n / b < n) by (nonlinear_arith)
                requires
                    b >= 2,
                    n >= b,
            ;
        }
        digits_in_base(n / b, b).push(digit_char(n % b))
    }
}

pub open spec fn decimal(n: nat) -> Seq<char> {
    digits_in_base(n, 10)
}

pub open spec fn hex_upper(n: nat) -> Seq<char> {
    digits_in_base(n, 16)
}

fn digit_of(d: u128) -> (c: char)
    requires
        d < 16,
    ensures
        c == digit_char(d as nat),
{
    if d < 10 {
        ((48 + d) as u8) as char
    } else {
        ((55 + d) as u8) as char
    }
}

/// Writes `n` in base `b` (see `digits_in_base`).
pub fn digits_of(n: u128, b: u128) -> (r: Vec<char>)
    requires
        b == 10 || b == 16,
    ensures
        r@ == digits_in_base(n as nat, b as nat),
    decreases n,
{
    if n < b {
        let mut r = Vec::new();
        r.push(digit_of(n));
        assert(n % 16 == n);
        assert(r@ =~= seq![digit_char((n % 16) as nat)]);
        r
    } else {
        let mut r = digits_of(n / b, b);
        r.push(digit_of(n % b));
        r
    }
}

/// Appends `n`, a number of up to 128 bits, written in decimal.
pub fn push_decimal_wide(s: &mut String, n: u128)
    ensures
        final(s)@ == old(s)@ + decimal(n as nat),
{
    let d = digits_of(n, 10);
    push_chars(s, &d);
}

/// Appends `n` written in decimal.
pub fn push_decimal(s: &mut String, n: u64)
    ensures
        final(s)@ == old(s)@ + decimal(n as nat),
{
    let d = digits_of(n as u128, 10);
    push_chars(s, &d);
}

/// Appends `n` written in upper-case hexadecimal.
pub fn push_hex(s: &mut String, n: u64)
    ensures
        final(s)@ == old(s)@ + hex_upper(n as nat),
{
    let d = digits_of(n as u128, 16);
    push_chars(s, &d);
}

/// How `{:?}` writes a text: quoted, with the standard library's escapes.
pub uninterp spec fn str_debug(s: Seq<char>) -> Seq<char>;

/// A text written with `{:?}` (the `Debug` impl of `str`). The contract
/// claims only that the result depends on the text alone; the escapes are
/// the standard library's and are not stated here.
#[verifier::external_body]
pub(crate) fn debug_str(s: &str) -> (r: String)
    ensures
        r@ == str_debug(s@),
{
    format!("{:?}", s)
}

/// Tells whether two texts are the same.
pub fn same_text(a: &str, b: &str) -> (r: bool)
    ensures
        r == (a@ == b@),
{
    let x = crate::storage::deser::raw::chars_of(a);
    let y = crate::storage::deser::raw::chars_of(b);
    assert(x@ == a@ && y@ == b@);
    if x.len() != y.len() {
        assert(x@.len() != y@.len());
        assert(a@ != b@);
        return false;
    }
    let mut i: usize = 0;
    while i < x.len()
        invariant
            x@.len() == y@.len(),
            x@ == a@,
            y@ == b@,
            i <= x@.len(),
            forall|k: int| 0 <= k < i ==> x@[k] == y@[k],
        decreases x@.len() - i,
    {
        if x[i] != y[i] {
            assert(x@[i as int] != y@[i as int]);
            return false;
        }
        i += 1;
    }
    assert(x@ =~= y@);
    true
}

} // verus!
