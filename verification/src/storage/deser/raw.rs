//! Reading the lines of a saved tree into a flat list of numbers and texts.
use vstd::prelude::*;
use crate::text::string_view_fn;
use crate::storage::deser::num_or_str::{values_view, I32OrString, ValueView};
use crate::text::string_from_chars;

verus! {

/// The characters of a text, one by one.
pub fn chars_of(line: &str) -> (r: Vec<char>)
    ensures
        r@ == line@,
{
    let n = line.unicode_len();
    let mut r: Vec<char> = Vec::new();
    let mut i: usize = 0;
    while i < n
        invariant
            n == line@.len(),
            i <= n,
            r@ == line@.take(i as int),
        decreases n - i,
    {
        r.push(line.get_char(i));
        assert(line@.take(i + 1) =~= line@.take(i as int).push(line@[i as int]));
        i += 1;
    }
    assert(line@.take(n as int) =~= line@);
    r
}

/// A decimal digit, `0` to `9`.
pub open spec fn is_digit(c: char) -> bool {
    48 <= (c as u32) <= 57
}

pub open spec fn all_digits(s: Seq<char>) -> bool {
    forall|i: int| 0 <= i < s.len() ==> is_digit(#[trigger] s[i])
}

/// The number a run of decimal digits spells.
pub open spec fn digits_value(s: Seq<char>) -> int
    decreases s.len(),
{
    if s.len() == 0 {
        0
    } else {
        digits_value(s.drop_last()) * 10 + ((s.last() as u32) - 48)
    }
}

/// A text read as an `i32` the way the standard library reads one: an
/// optional sign, then at least one digit and nothing else, within range.
pub open spec fn spec_parse_i32(s: Seq<char>) -> Option<i32> {
    if s.len() == 0 {
        None
    } else if s[0] == '-' || s[0] == '+' {
        let d = s.drop_first();
        if d.len() == 0 || !all_digits(d) {
            None
        } else {
            let v = if s[0] == '-' {
                -digits_value(d)
            } else {
                digits_value(d)
            };
            if i32::MIN <= v <= i32::MAX {
                Some(v as i32)
            } else {
                None
            }
        }
    } else if !all_digits(s) {
        None
    } else if digits_value(s) <= i32::MAX {
        Some(digits_value(s) as i32)
    } else {
        None
    }
}

pub proof fn lemma_digits_value_grows(s: Seq<char>, n: int)
    requires
        0 <= n <= s.len(),
        all_digits(s),
    ensures
        0 <= digits_value(s.take(n)) <= digits_value(s),
    decreases s.len() - n,
{
    if n < s.len() {
        lemma_digits_value_grows(s, n + 1);
        assert(s.take(n + 1).drop_last() =~= s.take(n));
        assert(is_digit(s[n]));
    } else {
        assert(s.take(n) =~= s);
        lemma_digits_value_nonneg(s);
    }
}

pub proof fn lemma_digits_value_nonneg(s: Seq<char>)
    requires
        all_digits(s),
    ensures
        digits_value(s) >= 0,
    decreases s.len(),
{
    if s.len() > 0 {
        lemma_digits_value_nonneg(s.drop_last());
        assert(is_digit(s.last()));
    }
}

/// The value of the digits of `s` from position `from` on, if it does not
/// pass `limit`.
fn digits_upto(s: &Vec<char>, from: usize, limit: i64) -> (r: Option<i64>)
    requires
        from <= s@.len(),
        0 <= limit <= i32::MAX as i64 + 1,
    ensures
        match r {
            Some(v) => all_digits(s@.skip(from as int)) && v == digits_value(s@.skip(from as int))
                && 0 <= v <= limit,
            None => !all_digits(s@.skip(from as int)) || digits_value(s@.skip(from as int))
                > limit,
        },
{
    let ghost d = s@.skip(from as int);
    let mut v: i64 = 0;
    let mut i: usize = from;
    while i < s.len()
        invariant
            from <= i <= s@.len(),
            d == s@.skip(from as int),
            all_digits(d.take(i - from)),
            v == digits_value(d.take(i - from)),
            0 <= v <= limit,
            0 <= limit <= i32::MAX as i64 + 1,
        decreases s@.len() - i,
    {
        let c = s[i];
        let code = c as u32;
        assert(d.take(i - from + 1).drop_last() =~= d.take(i - from));
        assert(d[i - from] == c);
        if code < 48 || code > 57 {
            assert(!all_digits(d)) by {
                assert(!is_digit(d[i - from]));
            }
            return None;
        }
        let next = v * 10 + (code - 48) as i64;
        assert(all_digits(d.take(i - from + 1)));
        if next > limit {
            proof {
                if all_digits(d) {
                    lemma_digits_value_grows(d, i - from + 1);
                }
            }
            return None;
        }
        v = next;
        i += 1;
    }
    assert(d.take(i - from) =~= d);
    Some(v)
}

/// Reads an `i32` the way the standard library does (see `spec_parse_i32`).
pub fn parse_i32(s: &Vec<char>) -> (r: Option<i32>)
    ensures
        r == spec_parse_i32(s@),
{
    if s.len() == 0 {
        return None;
    }
    if s[0] == '-' || s[0] == '+' {
        assert(s@.skip(1) =~= s@.drop_first());
        if s.len() == 1 {
            return None;
        }
        let negative = s[0] == '-';
        let limit: i64 = if negative {
            2147483648
        } else {
            2147483647
        };
        match digits_upto(s, 1, limit) {
            Some(v) => {
                if negative {
                    Some((-v) as i32)
                } else {
                    Some(v as i32)
                }
            },
            None => None,
        }
    } else {
        assert(s@.skip(0) =~= s@);
        match digits_upto(s, 0, 2147483647) {
            Some(v) => Some(v as i32),
            None => None,
        }
    }
}

/// Where the scan of a bracketed line stands: inside brackets or not, the
/// number being read and the numbers read so far.
pub struct BracketScan {
    pub inside: bool,
    pub current: Seq<char>,
    pub numbers: Seq<i32>,
}

/// One character of a bracketed line. A closing bracket ends the number
/// being read (a lone `-` stands for -1); digits and `-` inside brackets
/// add to it; anything else is skipped. `None` where a number does not read.
pub open spec fn bracket_step(st: BracketScan, ch: char) -> Option<BracketScan> {
    if ch == '[' {
        Some(BracketScan { inside: true, ..st })
    } else if ch == ']' {
        if st.inside && st.current.len() > 0 {
            let n = if st.current == seq!['-'] {
                Some(-1i32)
            } else {
                spec_parse_i32(st.current)
            };
            match n {
                None => None,
                Some(x) => Some(
                    BracketScan { inside: false, current: Seq::empty(), numbers: st.numbers.push(x) },
                ),
            }
        } else {
            Some(BracketScan { inside: false, ..st })
        }
    } else if st.inside && (is_digit(ch) || ch == '-') {
        Some(BracketScan { current: st.current.push(ch), ..st })
    } else {
        Some(st)
    }
}

/// The scan of the first `n` characters of a bracketed line.
pub open spec fn bracket_scan(s: Seq<char>, n: nat) -> Option<BracketScan>
    decreases n,
{
    if n == 0 {
        Some(BracketScan { inside: false, current: Seq::empty(), numbers: Seq::empty() })
    } else {
        match bracket_scan(s, (n - 1) as nat) {
            None => None,
            Some(st) => bracket_step(st, s[n - 1]),
        }
    }
}

/// The numbers in the brackets of a line.
pub open spec fn bracket_numbers(s: Seq<char>) -> Option<Seq<i32>> {
    match bracket_scan(s, s.len()) {
        None => None,
        Some(st) => Some(st.numbers),
    }
}

proof fn lemma_bracket_scan_stays_none(s: Seq<char>, n: nat, m: nat)
    requires
        n <= m,
        bracket_scan(s, n) is None,
    ensures
        bracket_scan(s, m) is None,
    decreases m - n,
{
    if n < m {
        lemma_bracket_scan_stays_none(s, n, (m - 1) as nat);
    }
}

/// Reads the numbers in the brackets of a line (see `bracket_numbers`).
pub fn read_bracket_numbers(chars: &Vec<char>) -> (r: Option<Vec<i32>>)
    ensures
        match r {
            Some(v) => bracket_numbers(chars@) == Some(v@),
            None => bracket_numbers(chars@) is None,
        },
{
    let mut inside = false;
    let mut current: Vec<char> = Vec::new();
    let mut numbers: Vec<i32> = Vec::new();
    let mut i: usize = 0;
    while i < chars.len()
        invariant
            i <= chars@.len(),
            bracket_scan(chars@, i as nat) == Some(
                BracketScan { inside, current: current@, numbers: numbers@ },
            ),
        decreases chars@.len() - i,
    {
        let ch = chars[i];
        if ch == '[' {
            inside = true;
        } else if ch == ']' {
            if inside && current.len() > 0 {
                let n = if current.len() == 1 && current[0] == '-' {
                    assert(current@ =~= seq!['-']);
                    Some(-1i32)
                } else {
                    assert(current@ != seq!['-']) by {
                        if current@.len() == 1 {
                            assert(current@[0] != '-');
                        }
                    }
                    parse_i32(&current)
                };
                match n {
                    Some(x) => {
                        numbers.push(x);
                        current = Vec::new();
                    },
                    None => {
                        proof {
                            lemma_bracket_scan_stays_none(chars@, (i + 1) as nat, chars@.len());
                        }
                        return None;
                    },
                }
            }
            inside = false;
        } else {
            let code = ch as u32;
            if inside && ((48 <= code && code <= 57) || ch == '-') {
                current.push(ch);
            }
        }
        i += 1;
    }
    Some(numbers)
}

/// Drops the characters of `set` from the start of `s`.
pub open spec fn trim_start_set(s: Seq<char>, set: Seq<char>) -> Seq<char>
    decreases s.len(),
{
    if s.len() > 0 && set.contains(s[0]) {
        trim_start_set(s.drop_first(), set)
    } else {
        s
    }
}

/// Drops the characters of `set` from the end of `s`.
pub open spec fn trim_end_set(s: Seq<char>, set: Seq<char>) -> Seq<char>
    decreases s.len(),
{
    if s.len() > 0 && set.contains(s.last()) {
        trim_end_set(s.drop_last(), set)
    } else {
        s
    }
}

/// Drops the characters of `set` from both ends of `s`.
pub open spec fn trim_set(s: Seq<char>, set: Seq<char>) -> Seq<char> {
    trim_end_set(trim_start_set(s, set), set)
}

/// Drops the characters of `set` from both ends of `s` (see `trim_set`).
pub fn trim_chars(s: &Vec<char>, set: &Vec<char>) -> (r: Vec<char>)
    ensures
        r@ == trim_set(s@, set@),
{
    let mut lo: usize = 0;
    assert(s@.skip(0) =~= s@);
    while lo < s.len() && contains_char(set, s[lo])
        invariant
            lo <= s@.len(),
            trim_start_set(s@.skip(lo as int), set@) == trim_start_set(s@, set@),
        decreases s@.len() - lo,
    {
        assert(s@.skip(lo as int).drop_first() =~= s@.skip(lo + 1));
        lo += 1;
    }
    assert(trim_start_set(s@.skip(lo as int), set@) == s@.skip(lo as int));
    let mut hi: usize = s.len();
    while hi > lo && contains_char(set, s[hi - 1])
        invariant
            lo <= hi <= s@.len(),
            trim_end_set(s@.subrange(lo as int, hi as int), set@) == trim_set(s@, set@),
        decreases hi,
    {
        assert(s@.subrange(lo as int, hi as int).drop_last() =~= s@.subrange(lo as int, hi - 1));
        hi -= 1;
    }
    assert(s@.skip(lo as int) =~= s@.subrange(lo as int, s@.len() as int));
    let mut r: Vec<char> = Vec::new();
    let mut k: usize = lo;
    while k < hi
        invariant
            lo <= k <= hi,
            hi <= s@.len(),
            r@ == s@.subrange(lo as int, k as int),
        decreases hi - k,
    {
        r.push(s[k]);
        assert(s@.subrange(lo as int, k + 1) =~= s@.subrange(lo as int, k as int).push(s@[k as int]));
        k += 1;
    }
    r
}

/// Tells whether `c` is one of `set`.
pub fn contains_char(set: &Vec<char>, c: char) -> (r: bool)
    ensures
        r == set@.contains(c),
{
    let mut i: usize = 0;
    while i < set.len()
        invariant
            i <= set@.len(),
            forall|k: int| 0 <= k < i ==> set@[k] != c,
        decreases set@.len() - i,
    {
        if set[i] == c {
            assert(set@[i as int] == c);
            return true;
        }
        i += 1;
    }
    false
}

/// `s` cut, from position `i` on, at each `", "`, left to right; `cur` is
/// the piece begun before `i`.
pub open spec fn split_from(s: Seq<char>, i: int, cur: Seq<char>) -> Seq<Seq<char>>
    decreases s.len() - i,
{
    if i < 0 || i >= s.len() {
        seq![cur]
    } else if s[i] == ',' && i + 1 < s.len() && s[i + 1] == ' ' {
        seq![cur] + split_from(s, i + 2, Seq::empty())
    } else {
        split_from(s, i + 1, cur.push(s[i]))
    }
}

/// `s` cut at each `", "`.
pub open spec fn split_comma_space(s: Seq<char>) -> Seq<Seq<char>> {
    split_from(s, 0, Seq::empty())
}

/// The first character of each piece once its quotes are dropped; `None`
/// where a piece is nothing but quotes.
pub open spec fn first_chars(pieces: Seq<Seq<char>>) -> Option<Seq<char>>
    decreases pieces.len(),
{
    if pieces.len() == 0 {
        Some(Seq::empty())
    } else {
        let q = trim_set(pieces[0], seq!['\'']);
        if q.len() == 0 {
            None
        } else {
            match first_chars(pieces.drop_first()) {
                None => None,
                Some(rest) => Some(seq![q[0]] + rest),
            }
        }
    }
}

/// The text a line that lists quoted characters stands for: the brackets
/// dropped, the list cut at each `", "`, and the first character of each
/// quoted entry put together.
pub open spec fn array_text(s: Seq<char>) -> Option<Seq<char>> {
    first_chars(split_comma_space(trim_set(s, seq!['[', ']'])))
}

/// Cuts `s` at each `", "` (see `split_comma_space`).
pub fn split_pieces(s: &Vec<char>) -> (r: Vec<Vec<char>>)
    ensures
        r@.len() == split_comma_space(s@).len(),
        forall|k: int| 0 <= k < r@.len() ==> #[trigger] r@[k]@ == split_comma_space(s@)[k],
{
    let mut done: Vec<Vec<char>> = Vec::new();
    let mut cur: Vec<char> = Vec::new();
    let mut i: usize = 0;
    let ghost mut done_v: Seq<Seq<char>> = Seq::empty();
    while i < s.len()
        invariant
            i <= s@.len(),
            done@.len() == done_v.len(),
            forall|k: int| 0 <= k < done@.len() ==> #[trigger] done@[k]@ == done_v[k],
            done_v + split_from(s@, i as int, cur@) == split_comma_space(s@),
        decreases s@.len() - i,
    {
        if s[i] == ',' && i + 1 < s.len() && s[i + 1] == ' ' {
            proof {
                assert(done_v.push(cur@) + split_from(s@, i + 2, Seq::empty()) =~= done_v + (seq![cur@]
                    + split_from(s@, i + 2, Seq::empty())));
                done_v = done_v.push(cur@);
            }
            done.push(cur);
            cur = Vec::new();
            assert(cur@ =~= Seq::<char>::empty());
            i += 2;
        } else {
            cur.push(s[i]);
            i += 1;
        }
    }
    proof {
        assert(done_v.push(cur@) =~= done_v + seq![cur@]);
        done_v = done_v.push(cur@);
    }
    done.push(cur);
    done
}

/// Reads a line that lists quoted characters into its text (see
/// `array_text`).
pub fn read_array_text(chars: &Vec<char>) -> (r: Option<Vec<char>>)
    ensures
        match r {
            Some(t) => array_text(chars@) == Some(t@),
            None => array_text(chars@) is None,
        },
{
    let brackets = vec!['[', ']'];
    assert(brackets@ =~= seq!['[', ']']);
    let inner = trim_chars(chars, &brackets);
    let pieces = split_pieces(&inner);
    let quote = vec!['\''];
    assert(quote@ =~= seq!['\'']);
    let ghost ps = split_comma_space(inner@);
    let mut out: Vec<char> = Vec::new();
    let mut k: usize = pieces.len();
    // From the last piece back to the first, so that each step adds in front.
    let mut rev: Vec<char> = Vec::new();
    assert(ps.skip(k as int) =~= Seq::<Seq<char>>::empty());
    assert(rev@.reverse() =~= Seq::<char>::empty());
    while k > 0
        invariant
            k <= pieces@.len(),
            quote@ == seq!['\''],
            ps == split_comma_space(inner@),
            inner@ == trim_set(chars@, seq!['[', ']']),
            pieces@.len() == ps.len(),
            forall|m: int| 0 <= m < pieces@.len() ==> #[trigger] pieces@[m]@ == ps[m],
            first_chars(ps.skip(k as int)) == Some(rev@.reverse()),
        decreases k,
    {
        let q = trim_chars(&pieces[k - 1], &quote);
        assert(ps.skip(k - 1).drop_first() =~= ps.skip(k as int));
        assert(ps.skip(k - 1)[0] == ps[k - 1]);
        if q.len() == 0 {
            proof {
                lemma_first_chars_none(ps, k - 1);
            }
            return None;
        }
        rev.push(q[0]);
        assert(rev@.reverse() =~= seq![q@[0]] + rev@.drop_last().reverse());
        k -= 1;
    }
    assert(ps.skip(0) =~= ps);
    let mut j: usize = rev.len();
    while j > 0
        invariant
            j <= rev@.len(),
            out@ == rev@.reverse().take(rev@.len() - j),
        decreases j,
    {
        out.push(rev[j - 1]);
        assert(rev@.reverse().take(rev@.len() - j + 1) =~= rev@.reverse().take(rev@.len() - j).push(
            rev@[j - 1],
        ));
        j -= 1;
    }
    assert(rev@.reverse().take(rev@.len() as int) =~= rev@.reverse());
    Some(out)
}

proof fn lemma_first_chars_none(ps: Seq<Seq<char>>, k: int)
    requires
        0 <= k < ps.len(),
        trim_set(ps[k], seq!['\'']).len() == 0,
    ensures
        first_chars(ps) is None,
    decreases k,
{
    if k > 0 {
        lemma_first_chars_none(ps.drop_first(), k - 1);
    }
}

/// A line listing the quoted characters of a value text.
pub const CHAR_LIST_PATTERN: &'static str = r"^\[('[^']*'(,\s*'[^']*')*)\]$";

/// A line with one bracketed field.
pub const ONE_FIELD_PATTERN: &'static str = r"^\[[^\]]+\]$";

/// A line with two bracketed fields.
pub const TWO_FIELDS_PATTERN: &'static str = r"^\[[^\]]+\]\[[^\]]+\]$";

/// A line with three bracketed fields.
pub const THREE_FIELDS_PATTERN: &'static str = r"^\[[^\]]+\]\[[^\]]+\]\[[^\]]+\]$";

/// `s` is `n` bracketed fields in a row: each an `[`, at least one
/// character other than `]`, and a `]`.
pub open spec fn bracket_fields(s: Seq<char>, n: nat) -> bool
    decreases n,
{
    if n == 0 {
        s.len() == 0
    } else {
        exists|e: int|
            #![trigger s[e]]
            2 <= e < s.len() && s[0] == '[' && s[e] == ']' && (forall|i: int| 1 <= i < e ==> s[i] != ']')
                && bracket_fields(s.skip(e + 1), (n - 1) as nat)
    }
}

/// A character of Unicode's `White_Space` property.
pub open spec fn white_space(c: char) -> bool {
    let u = c as u32;
    ||| 0x09 <= u && u <= 0x0D
    ||| u == 0x20
    ||| u == 0x85
    ||| u == 0xA0
    ||| u == 0x1680
    ||| 0x2000 <= u && u <= 0x200A
    ||| u == 0x2028
    ||| u == 0x2029
    ||| u == 0x202F
    ||| u == 0x205F
    ||| u == 0x3000
}

/// `s` is a quoted text: a `'`, characters other than `'`, and a `'`.
pub open spec fn quoted_text(s: Seq<char>) -> bool {
    &&& s.len() >= 2
    &&& s[0] == '\''
    &&& s[s.len() - 1] == '\''
    &&& forall|i: int| 1 <= i < s.len() - 1 ==> s[i] != '\''
}

/// `s` is one or more quoted texts, each after the first following a comma
/// and white space.
pub open spec fn quoted_list(s: Seq<char>) -> bool
    decreases s.len(), 1nat,
{
    ||| quoted_text(s)
    ||| exists|e: int|
        #![trigger s[e]]
        2 <= e < s.len() && quoted_text(s.take(e)) && s[e] == ',' && spaced_list(s.skip(e + 1))
}

/// `s` is white space followed by a `quoted_list`.
pub open spec fn spaced_list(s: Seq<char>) -> bool
    decreases s.len(), 2nat,
{
    ||| quoted_list(s)
    ||| s.len() > 0 && white_space(s[0]) && spaced_list(s.skip(1))
}

/// A line listing the quoted characters of a value text: a `[`, a
/// `quoted_list`, and a `]`.
pub open spec fn char_list_line(s: Seq<char>) -> bool {
    &&& s.len() >= 2
    &&& s[0] == '['
    &&& s[s.len() - 1] == ']'
    &&& quoted_list(s.subrange(1, s.len() - 1))
}

/// Compiles one of the four line patterns with `regex::Regex::new` and asks
/// `Regex::is_match` whether it matches `text`. The contract claims that each
/// of the four patterns compiles and that, anchored at both ends of the text
/// as they are, each matches exactly the texts its spec function describes:
/// `char_list_line` for `CHAR_LIST_PATTERN` (`\s` being Unicode's white
/// space), and one, two or three `bracket_fields` for the others.
#[verifier::external_body]
fn regex_is_match(pattern: &str, text: &str) -> (r: Option<bool>)
    requires
        pattern@ == CHAR_LIST_PATTERN@ || pattern@ == ONE_FIELD_PATTERN@ || pattern@ == TWO_FIELDS_PATTERN@
            || pattern@ == THREE_FIELDS_PATTERN@,
    ensures
        pattern@ == CHAR_LIST_PATTERN@ ==> r == Some(char_list_line(text@)),
        pattern@ == ONE_FIELD_PATTERN@ ==> r == Some(bracket_fields(text@, 1)),
        pattern@ == TWO_FIELDS_PATTERN@ ==> r == Some(bracket_fields(text@, 2)),
        pattern@ == THREE_FIELDS_PATTERN@ ==> r == Some(bracket_fields(text@, 3)),
{
    match regex::Regex::new(pattern) {
        Ok(re) => Some(re.is_match(text)),
        Err(_) => None,
    }
}

/// What a line of a saved tree holds.
#[derive(Debug, Clone, Copy, PartialEq, Eq, Structural)]
pub enum LineKind {
    /// The quoted characters of a value text.
    Chars,
    /// One to three bracketed numbers.
    Numbers,
    /// Nothing that is read.
    Other,
}

/// The kind of a line from the answers of the four line patterns; `None`
/// where an answer is missing.
pub open spec fn spec_line_kind(
    chars: Option<bool>,
    one: Option<bool>,
    two: Option<bool>,
    three: Option<bool>,
) -> Option<LineKind> {
    match (chars, one, two, three) {
        (Some(c), Some(a), Some(b), Some(d)) => Some(
            if c {
                LineKind::Chars
            } else if a || b || d {
                LineKind::Numbers
            } else {
                LineKind::Other
            },
        ),
        _ => None,
    }
}

/// The kind of a line from the answers of the four line patterns: a list of
/// characters comes first, then bracketed fields.
pub fn line_kind(chars: Option<bool>, one: Option<bool>, two: Option<bool>, three: Option<bool>) -> (r:
    Option<LineKind>)
    ensures
        r == spec_line_kind(chars, one, two, three),
{
    match (chars, one, two, three) {
        (Some(c), Some(a), Some(b), Some(d)) => Some(
            if c {
                LineKind::Chars
            } else if a || b || d {
                LineKind::Numbers
            } else {
                LineKind::Other
            },
        ),
        _ => None,
    }
}

/// The kind of a line, by the four line patterns.
pub open spec fn classified(line: Seq<char>) -> Option<LineKind> {
    spec_line_kind(
        Some(char_list_line(line)),
        Some(bracket_fields(line, 1)),
        Some(bracket_fields(line, 2)),
        Some(bracket_fields(line, 3)),
    )
}

/// Tells what a line of a saved tree holds, by the four line patterns.
pub fn classify_line(line: &str) -> (r: Option<LineKind>)
    ensures
        r == classified(line@),
{
    let chars = regex_is_match(CHAR_LIST_PATTERN, line);
    let one = regex_is_match(ONE_FIELD_PATTERN, line);
    let two = regex_is_match(TWO_FIELDS_PATTERN, line);
    let three = regex_is_match(THREE_FIELDS_PATTERN, line);
    line_kind(chars, one, two, three)
}

/// The values a line of the given kind holds: the text of a list of
/// characters; one to three bracketed numbers (a line with more or fewer
/// gives nothing); nothing for any other line. `None` where a number or an
/// entry of the list does not read.
pub open spec fn spec_decode_line(line: Seq<char>, kind: LineKind) -> Option<Seq<ValueView>> {
    match kind {
        LineKind::Chars => match array_text(line) {
            None => None,
            Some(t) => Some(seq![ValueView::Str(t)]),
        },
        LineKind::Numbers => match bracket_numbers(line) {
            None => None,
            Some(ns) => if 1 <= ns.len() <= 3 {
                Some(ns.map_values(|n: i32| ValueView::Num(n)))
            } else {
                Some(Seq::empty())
            },
        },
        LineKind::Other => Some(Seq::empty()),
    }
}

/// Reads the values of a line of the given kind (see `spec_decode_line`).
pub fn decode_line(line: &str, kind: LineKind) -> (r: Option<Vec<I32OrString>>)
    ensures
        match r {
            Some(v) => spec_decode_line(line@, kind) == Some(values_view(v@)),
            None => spec_decode_line(line@, kind) is None,
        },
{
    let chars = chars_of(line);
    match kind {
        LineKind::Chars => match read_array_text(&chars) {
            None => None,
            Some(t) => {
                let mut v: Vec<I32OrString> = Vec::new();
                v.push(I32OrString::Str(string_from_chars(&t)));
                assert(values_view(v@) =~= seq![ValueView::Str(t@)]);
                Some(v)
            },
        },
        LineKind::Numbers => match read_bracket_numbers(&chars) {
            None => None,
            Some(ns) => {
                let mut v: Vec<I32OrString> = Vec::new();
                if 1 <= ns.len() && ns.len() <= 3 {
                    let mut i: usize = 0;
                    while i < ns.len()
                        invariant
                            i <= ns@.len(),
                            values_view(v@) == ns@.take(i as int).map_values(
                                |n: i32| ValueView::Num(n),
                            ),
                        decreases ns@.len() - i,
                    {
                        let ghost before = v@;
                        v.push(I32OrString::Num(ns[i]));
                        assert(values_view(v@) =~= values_view(before).push(ValueView::Num(ns@[i as int])));
                        assert(ns@.take(i + 1).map_values(|n: i32| ValueView::Num(n)) =~= ns@.take(
                            i as int,
                        ).map_values(|n: i32| ValueView::Num(n)).push(ValueView::Num(ns@[i as int])));
                        i += 1;
                    }
                    assert(ns@.take(ns@.len() as int) =~= ns@);
                } else {
                    assert(values_view(v@) =~= Seq::<ValueView>::empty());
                }
                Some(v)
            },
        },
        LineKind::Other => {
            let v: Vec<I32OrString> = Vec::new();
            assert(values_view(v@) =~= Seq::<ValueView>::empty());
            Some(v)
        },
    }
}

/// The values of the lines of a saved tree, line after line; `None` where a
/// line does not read.
pub open spec fn spec_decode_lines(lines: Seq<Seq<char>>) -> Option<Seq<ValueView>>
    decreases lines.len(),
{
    if lines.len() == 0 {
        Some(Seq::empty())
    } else {
        match spec_decode_lines(lines.drop_last()) {
            None => None,
            Some(front) => match classified(lines.last()) {
                None => None,
                Some(kind) => match spec_decode_line(lines.last(), kind) {
                    None => None,
                    Some(vs) => Some(front + vs),
                },
            },
        }
    }
}

/// Reads the lines of a saved tree into the flat list of its values.
pub fn get_serialized_file_data(lines: &Vec<String>) -> (r: Option<Vec<I32OrString>>)
    ensures
        match r {
            Some(v) => spec_decode_lines(lines@.map_values(string_view_fn())) == Some(
                values_view(v@),
            ),
            None => spec_decode_lines(lines@.map_values(string_view_fn())) is None,
        },
{
    let ghost ls = lines@.map_values(string_view_fn());
    let mut out: Vec<I32OrString> = Vec::new();
    let mut i: usize = 0;
    assert(ls.take(0) =~= Seq::<Seq<char>>::empty());
    assert(values_view(out@) =~= Seq::<ValueView>::empty());
    while i < lines.len()
        invariant
            i <= lines@.len(),
            ls == lines@.map_values(string_view_fn()),
            spec_decode_lines(ls.take(i as int)) == Some(values_view(out@)),
        decreases lines@.len() - i,
    {
        let line = lines[i].as_str();
        assert(ls.take(i + 1).drop_last() =~= ls.take(i as int));
        assert(ls.take(i + 1).last() == line@);
        let kind = match classify_line(line) {
            Some(k) => k,
            None => {
                proof {
                    lemma_decode_lines_stays_none(ls, i + 1);
                }
                return None;
            },
        };
        match decode_line(line, kind) {
            Some(vs) => {
                let ghost before = out@;
                let mut vs = vs;
                out.append(&mut vs);
                assert(values_view(out@) =~= values_view(before) + values_view(
                    out@.subrange(before.len() as int, out@.len() as int),
                ));
            },
            None => {
                proof {
                    lemma_decode_lines_stays_none(ls, i + 1);
                }
                return None;
            },
        }
        i += 1;
    }
    assert(ls.take(lines@.len() as int) =~= ls);
    Some(out)
}

proof fn lemma_decode_lines_stays_none(ls: Seq<Seq<char>>, n: int)
    requires
        0 <= n <= ls.len(),
        spec_decode_lines(ls.take(n)) is None,
    ensures
        spec_decode_lines(ls) is None,
    decreases ls.len() - n,
{
    if n < ls.len() {
        assert(ls.take(n + 1).drop_last() =~= ls.take(n));
        lemma_decode_lines_stays_none(ls, n + 1);
    } else {
        assert(ls.take(n) =~= ls);
    }
}

} // verus!
