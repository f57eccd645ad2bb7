//! Cutting a command line into words.
use vstd::prelude::*;
use crate::text::string_view_fn;
use crate::storage::deser::raw::{all_digits, chars_of, digits_value, is_digit};
use crate::text::string_from_chars;

verus! {

/// A white-space character in the sense of Unicode's `White_Space`
/// property, which `char::is_whitespace` follows.
pub open spec fn is_white(c: char) -> bool {
    let u = c as u32;
    ||| 0x9 <= u <= 0xD
    ||| u == 0x20
    ||| u == 0x85
    ||| u == 0xA0
    ||| u == 0x1680
    ||| 0x2000 <= u <= 0x200A
    ||| u == 0x2028
    ||| u == 0x2029
    ||| u == 0x202F
    ||| u == 0x205F
    ||| u == 0x3000
}

/// Tells whether a character is white space (see `is_white`).
pub fn white(c: char) -> (r: bool)
    ensures
        r == is_white(c),
{
    let u = c as u32;
    (0x9 <= u && u <= 0xD) || u == 0x20 || u == 0x85 || u == 0xA0 || u == 0x1680 || (0x2000 <= u
        && u <= 0x200A) || u == 0x2028 || u == 0x2029 || u == 0x202F || u == 0x205F || u == 0x3000
}

/// The words of the first `n` characters of `s`: the runs of characters
/// that are not white space, in order, and the run still open at `n`.
pub open spec fn words_upto(s: Seq<char>, n: nat) -> (Seq<Seq<char>>, Seq<char>)
    decreases n,
{
    if n == 0 {
        (Seq::empty(), Seq::empty())
    } else {
        let (done, cur) = words_upto(s, (n - 1) as nat);
        let c = s[n - 1];
        if is_white(c) {
            if cur.len() > 0 {
                (done.push(cur), Seq::empty())
            } else {
                (done, cur)
            }
        } else {
            (done, cur.push(c))
        }
    }
}

/// The words of a text: its runs of characters that are not white space.
pub open spec fn words(s: Seq<char>) -> Seq<Seq<char>> {
    let (done, cur) = words_upto(s, s.len());
    if cur.len() > 0 {
        done.push(cur)
    } else {
        done
    }
}

/// The words of a text (see `words`).
pub fn split_words(input: &str) -> (r: Vec<String>)
    ensures
        r@.map_values(string_view_fn()) == words(input@),
{
    let cs = chars_of(input);
    let mut done: Vec<String> = Vec::new();
    let mut cur: Vec<char> = Vec::new();
    let mut i: usize = 0;
    assert(done@.map_values(string_view_fn()) =~= Seq::<Seq<char>>::empty());
    while i < cs.len()
        invariant
            i <= cs@.len(),
            cs@ == input@,
            words_upto(cs@, i as nat) == (done@.map_values(string_view_fn()), cur@),
        decreases cs@.len() - i,
    {
        let c = cs[i];
        if white(c) {
            if cur.len() > 0 {
                let ghost before = done@;
                let w = string_from_chars(&cur);
                done.push(w);
                assert(done@.map_values(string_view_fn()) =~= before.map_values(string_view_fn()).push(
                    cur@,
                ));
                cur = Vec::new();
                assert(cur@ =~= Seq::<char>::empty());
            }
        } else {
            cur.push(c);
        }
        i += 1;
    }
    if cur.len() > 0 {
        let ghost before = done@;
        let w = string_from_chars(&cur);
        done.push(w);
        assert(done@.map_values(string_view_fn()) =~= before.map_values(string_view_fn()).push(cur@));
    }
    done
}

/// Cuts a command line into its words; the last word is the client's
/// address. `None` for a line without words.
pub fn parse_string(input: &str) -> (r: Option<(String, Vec<String>)>)
    ensures
        match r {
            Some((addr, args)) => words(input@).len() > 0 && args@.map_values(string_view_fn()) == words(
                input@,
            ) && addr@ == words(input@).last(),
            None => words(input@).len() == 0,
        },
{
    let args = split_words(input);
    if args.len() == 0 {
        return None;
    }
    let last = args.len() - 1;
    let addr = copy_string(&args[last]);
    assert(args@.map_values(string_view_fn())[last as int] == args@[last as int]@);
    Some((addr, args))
}

/// A copy of a text.
pub fn copy_string(s: &String) -> (r: String)
    ensures
        r@ == s@,
{
    let cs = chars_of(s.as_str());
    string_from_chars(&cs)
}

/// A text read as a `u32` the way the standard library reads one: an
/// optional `+`, then at least one digit and nothing else, within range.
pub open spec fn spec_parse_u32(s: Seq<char>) -> Option<u32> {
    let d = if s.len() > 0 && s[0] == '+' {
        s.drop_first()
    } else {
        s
    };
    if d.len() == 0 || !all_digits(d) || digits_value(d) > u32::MAX {
        None
    } else {
        Some(digits_value(d) as u32)
    }
}

/// Reads a `u32` (see `spec_parse_u32`).
pub fn parse_u32(s: &str) -> (r: Option<u32>)
    ensures
        r == spec_parse_u32(s@),
{
    let cs = chars_of(s);
    let from: usize = if cs.len() > 0 && cs[0] == '+' {
        1
    } else {
        0
    };
    let ghost d = if cs@.len() > 0 && cs@[0] == '+' {
        cs@.drop_first()
    } else {
        cs@
    };
    assert(cs@.skip(from as int) =~= d);
    if from == cs.len() {
        return None;
    }
    assert(d.take(0) =~= Seq::<char>::empty());
    let mut v: u64 = 0;
    let mut i: usize = from;
    while i < cs.len()
        invariant
            from <= i <= cs@.len(),
            cs@ == s@,
            d == (if cs@.len() > 0 && cs@[0] == '+' {
                cs@.drop_first()
            } else {
                cs@
            }),
            d == cs@.skip(from as int),
            all_digits(d.take(i - from)),
            v == digits_value(d.take(i - from)),
            v <= u32::MAX,
        decreases cs@.len() - i,
    {
        let code = cs[i] as u32;
        assert(d.take(i - from + 1).drop_last() =~= d.take(i - from));
        assert(d[i - from] == cs@[i as int]);
        if code < 48 || code > 57 {
            assert(!all_digits(d)) by {
                assert(!is_digit(d[i - from]));
            }
            return None;
        }
        let next = v * 10 + (code - 48) as u64;
        assert(all_digits(d.take(i - from + 1)));
        if next > 0xFFFF_FFFF {
            proof {
                if all_digits(d) {
                    crate::storage::deser::raw::lemma_digits_value_grows(d, i - from + 1);
                }
            }
            return None;
        }
        v = next;
        i += 1;
    }
    assert(d.take(i - from) =~= d);
    Some(v as u32)
}

proof fn lemma_decimal_digits(n: nat)
    ensures
        all_digits(crate::text::decimal(n)),
        digits_value(crate::text::decimal(n)) == n,
        crate::text::decimal(n).len() > 0,
    decreases n,
{
    reveal_with_fuel(crate::text::digits_in_base, 1);
    if n < 10 {
        assert(n % 16 == n);
        assert(crate::text::decimal(n) =~= seq![crate::text::digit_char(n)]);
        assert(crate::text::decimal(n).drop_last() =~= Seq::<char>::empty());
        assert(crate::text::digit_char(n) as u32 == 48 + n);
        let d = crate::text::decimal(n);
        assert(d.last() == crate::text::digit_char(n));
        assert(digits_value(d.drop_last()) == 0);
        assert(digits_value(d) == digits_value(d.drop_last()) * 10 + ((d.last() as u32) - 48));
    } else {
        assert(crate::text::digit_char(n % 10) as u32 == 48 + n % 10);
        lemma_decimal_digits(n / 10);
        let d = crate::text::decimal(n);
        assert(d == crate::text::decimal(n / 10).push(crate::text::digit_char(n % 10)));
        assert(d.drop_last() =~= crate::text::decimal(n / 10));
        assert(n == (n / 10) * 10 + n % 10);
        assert(d.last() == crate::text::digit_char(n % 10));
        assert(digits_value(d) == digits_value(d.drop_last()) * 10 + ((d.last() as u32) - 48));
    }
}

/// Reading back a number written in decimal gives the number.
pub proof fn law_parse_u32_of_decimal(n: u32)
    ensures
        spec_parse_u32(crate::text::decimal(n as nat)) == Some(n),
{
    lemma_decimal_digits(n as nat);
}

proof fn lemma_words_upto_clean(s: Seq<char>, n: nat)
    requires
        n <= s.len(),
    ensures
        forall|k: int|
            0 <= k < words_upto(s, n).0.len() ==> (#[trigger] words_upto(s, n).0[k]).len() > 0
                && forall|j: int| 0 <= j < words_upto(s, n).0[k].len() ==> !is_white(words_upto(s, n).0[k][j]),
        forall|j: int| 0 <= j < words_upto(s, n).1.len() ==> !is_white(#[trigger] words_upto(s, n).1[j]),
    decreases n,
{
    if n > 0 {
        lemma_words_upto_clean(s, (n - 1) as nat);
        let prev = words_upto(s, (n - 1) as nat);
        let c = s[n - 1];
        if is_white(c) {
            if prev.1.len() > 0 {
                assert(words_upto(s, n).0 == prev.0.push(prev.1));
                assert(words_upto(s, n).1 == Seq::<char>::empty());
            } else {
                assert(words_upto(s, n) == prev);
            }
        } else {
            assert(words_upto(s, n).0 == prev.0);
            assert(words_upto(s, n).1 == prev.1.push(c));
        }
    }
}

/// Every word of a line has at least one character, and none of white space.
pub proof fn law_words_are_clean(s: Seq<char>)
    ensures
        forall|k: int|
            0 <= k < words(s).len() ==> (#[trigger] words(s)[k]).len() > 0 && forall|j: int|
                0 <= j < words(s)[k].len() ==> !is_white(words(s)[k][j]),
{
    lemma_words_upto_clean(s, s.len());
}

} // verus!
