//! Character classes and small text utilities shared by the lexer and the
//! configuration builder.

use vstd::prelude::*;

verus! {

/// `s` cut at every occurrence of `sep`; `k` separators give `k + 1` pieces.
pub open spec fn split_on<A>(s: Seq<A>, sep: A) -> Seq<Seq<A>>
    decreases s.len(),
{
    if s.len() == 0 {
        seq![Seq::empty()]
    } else {
        let prev = split_on(s.drop_last(), sep);
        if s.last() == sep {
            prev.push(Seq::empty())
        } else {
            prev.update(prev.len() - 1, prev.last().push(s.last()))
        }
    }
}

pub proof fn lemma_split_on_nonempty<A>(s: Seq<A>, sep: A)
    ensures
        split_on(s, sep).len() >= 1,
    decreases s.len(),
{
    if s.len() > 0 {
        lemma_split_on_nonempty(s.drop_last(), sep);
    }
}

/// Splits `s` into its lines, cutting at every line feed.
pub fn split_lines(s: &Vec<char>) -> (r: Vec<Vec<char>>)
    ensures
        r@.map_values(|v: Vec<char>| v@) == split_on(s@, '\n'),
{
    let mut done: Vec<Vec<char>> = Vec::new();
    let mut cur: Vec<char> = Vec::new();
    let mut i: usize = 0;
    assert(s@.take(0) =~= Seq::<char>::empty());
    assert(done@.map_values(|v: Vec<char>| v@).push(cur@) =~= seq![Seq::<char>::empty()]);
    while i < s.len()
        invariant
            i <= s.len(),
            split_on(s@.take(i as int), '\n') == done@.map_values(|v: Vec<char>| v@).push(cur@),
        decreases s.len() - i,
    {
        let c = s[i];
        let ghost before = done@.map_values(|v: Vec<char>| v@);
        assert(s@.take(i + 1).drop_last() =~= s@.take(i as int));
        proof {
            lemma_split_on_nonempty(s@.take(i as int), '\n');
        }
        if c == '\n' {
            done.push(cur);
            cur = Vec::new();
            assert(done@.map_values(|v: Vec<char>| v@) =~= before.push(
                split_on(s@.take(i as int), '\n').last(),
            ));
        } else {
            cur.push(c);
            assert(done@.map_values(|v: Vec<char>| v@) =~= before);
        }
        i = i + 1;
        assert(split_on(s@.take(i as int), '\n') =~= done@.map_values(|v: Vec<char>| v@).push(
            cur@,
        ));
    }
    let ghost before = done@.map_values(|v: Vec<char>| v@);
    done.push(cur);
    assert(s@.take(s.len() as int) =~= s@);
    assert(done@.map_values(|v: Vec<char>| v@) =~= before.push(cur@));
    done
}

/// Blank characters inside a line.
pub open spec fn is_space(c: char) -> bool {
    c == ' ' || c == '\t' || c == '\r'
}

/// Characters that form a token of their own.
pub open spec fn is_punct(c: char) -> bool {
    c == '[' || c == ']' || c == '=' || c == ',' || c == ':' || c == ';' || c == '{' || c == '}'
}

/// Characters of a bare word: ASCII letters and digits and `_ - . / + @`.
pub open spec fn is_word_char(c: char) -> bool {
    ||| ('a' <= c && c <= 'z')
    ||| ('A' <= c && c <= 'Z')
    ||| ('0' <= c && c <= '9')
    ||| c == '_'
    ||| c == '-'
    ||| c == '.'
    ||| c == '/'
    ||| c == '+'
    ||| c == '@'
}

/// The number of leading characters of `s` that satisfy `p`.
pub open spec fn run_len(s: Seq<char>, p: spec_fn(char) -> bool) -> nat
    decreases s.len(),
{
    if s.len() > 0 && p(s[0]) {
        1 + run_len(s.drop_first(), p)
    } else {
        0
    }
}

/// `run_len` of a suffix, read off a scan that stopped at `j`.
pub proof fn lemma_run_len(s: Seq<char>, p: spec_fn(char) -> bool, i: int, j: int)
    requires
        0 <= i <= j <= s.len(),
        forall|k: int| i <= k < j ==> #[trigger] p(s[k]),
        j == s.len() || !p(s[j]),
    ensures
        run_len(s.skip(i), p) == j - i,
    decreases j - i,
{
    if i == j {
    } else {
        assert(s.skip(i).drop_first() =~= s.skip(i + 1));
        lemma_run_len(s, p, i + 1, j);
    }
}

pub fn is_space_char(c: char) -> (b: bool)
    ensures
        b == is_space(c),
{
    c == ' ' || c == '\t' || c == '\r'
}

pub fn is_punct_char(c: char) -> (b: bool)
    ensures
        b == is_punct(c),
{
    c == '[' || c == ']' || c == '=' || c == ',' || c == ':' || c == ';' || c == '{' || c == '}'
}

pub fn is_word(c: char) -> (b: bool)
    ensures
        b == is_word_char(c),
{
    ('a' <= c && c <= 'z') || ('A' <= c && c <= 'Z') || ('0' <= c && c <= '9') || c == '_' || c
        == '-' || c == '.' || c == '/' || c == '+' || c == '@'
}

/// Copies `v[a..b]`.
pub fn copy_range(v: &Vec<char>, a: usize, b: usize) -> (r: Vec<char>)
    requires
        a <= b <= v.len(),
    ensures
        r@ == v@.subrange(a as int, b as int),
{
    let mut r: Vec<char> = Vec::new();
    let mut k = a;
    while k < b
        invariant
            a <= k <= b <= v.len(),
            r@ == v@.subrange(a as int, k as int),
        decreases b - k,
    {
        r.push(v[k]);
        k = k + 1;
        assert(r@ =~= v@.subrange(a as int, k as int));
    }
    r
}

/// The characters of `s`, in order.
pub fn chars_of(s: &str) -> (v: Vec<char>)
    ensures
        v@ == s@,
{
    broadcast use vstd::string::group_string_axioms;

    let mut v: Vec<char> = Vec::new();
    for c in it: s.chars()
        invariant
            v@ == it.seq().take(it.index() as int),
    {
        v.push(c);
    }
    v
}

/// `String::from_iter` over the characters of `cs`: the string made of
/// them, in order.
#[verifier::external_body]
pub(crate) fn string_of(cs: &[char]) -> (s: String)
    ensures
        s@ == cs@,
{
    String::from_iter(cs)
}

/// Whether `a` holds exactly the characters of `b`.
pub fn chars_eq(a: &Vec<char>, b: &[char]) -> (r: bool)
    ensures
        r == (a@ == b@),
{
    if a.len() != b.len() {
        return false;
    }
    let mut i: usize = 0;
    while i < a.len()
        invariant
            a.len() == b.len(),
            i <= a.len(),
            forall|k: int| 0 <= k < i ==> a@[k] == b@[k],
        decreases a.len() - i,
    {
        if a[i] != b[i] {
            return false;
        }
        i = i + 1;
    }
    assert(a@ =~= b@);
    true
}

/// ASCII upper-case letter.
pub open spec fn is_upper(c: char) -> bool {
    'A' <= c && c <= 'Z'
}

/// The ASCII lower-case counterpart of `c`; other characters are unchanged.
pub open spec fn lower_char(c: char) -> char {
    if is_upper(c) {
        ((c as int) + 32) as char
    } else {
        c
    }
}

/// The ASCII lower-case form of a character sequence.
pub open spec fn ascii_lowercase(s: Seq<char>) -> Seq<char> {
    s.map_values(|c: char| lower_char(c))
}

/// Lower-cases the ASCII letters of `s`.
pub fn lowercase_chars(s: &[char]) -> (r: Vec<char>)
    ensures
        r@ == ascii_lowercase(s@),
{
    let mut r: Vec<char> = Vec::new();
    let mut i: usize = 0;
    while i < s.len()
        invariant
            i <= s.len(),
            r@ == ascii_lowercase(s@.take(i as int)),
        decreases s.len() - i,
    {
        let c = s[i];
        let l = if 'A' <= c && c <= 'Z' {
            let code: u32 = c as u32;
            char_from_ascii((code + 32) as u8)
        } else {
            c
        };
        r.push(l);
        i = i + 1;
        assert(ascii_lowercase(s@.take(i as int)) =~= ascii_lowercase(s@.take(i - 1)).push(
            lower_char(c),
        ));
    }
    assert(s@.take(s.len() as int) =~= s@);
    r
}

fn char_from_ascii(b: u8) -> (c: char)
    ensures
        c as int == b as int,
{
    b as char
}

/// An ASCII decimal digit.
pub open spec fn is_digit(c: char) -> bool {
    '0' <= c && c <= '9'
}

pub open spec fn digit_value(c: char) -> int {
    c as int - '0' as int
}

/// The number that a sequence of decimal digits denotes.
pub open spec fn digits_value(s: Seq<char>) -> int
    decreases s.len(),
{
    if s.len() == 0 {
        0
    } else {
        digits_value(s.drop_last()) * 10 + digit_value(s.last())
    }
}

pub open spec fn all_digits(s: Seq<char>) -> bool {
    forall|i: int| 0 <= i < s.len() ==> is_digit(#[trigger] s[i])
}

/// What `i64::from_str` gives for `s`: an optional `+` or `-` followed by at
/// least one decimal digit and nothing else, whose value fits in an `i64`.
pub open spec fn spec_parse_i64(s: Seq<char>) -> Option<i64> {
    let neg = s.len() > 0 && s[0] == '-';
    let digits = if s.len() > 0 && (s[0] == '-' || s[0] == '+') {
        s.drop_first()
    } else {
        s
    };
    let v = if neg {
        -digits_value(digits)
    } else {
        digits_value(digits)
    };
    if digits.len() > 0 && all_digits(digits) && i64::MIN <= v <= i64::MAX {
        Some(v as i64)
    } else {
        None
    }
}

pub proof fn lemma_digits_value_nonneg(s: Seq<char>)
    requires
        all_digits(s),
    ensures
        digits_value(s) >= 0,
    decreases s.len(),
{
    if s.len() > 0 {
        assert(all_digits(s.drop_last()));
        lemma_digits_value_nonneg(s.drop_last());
        assert(is_digit(s[s.len() - 1]));
    }
}

/// A longer run of digits denotes at least as much as its prefix.
pub proof fn lemma_digits_value_grows(s: Seq<char>, k: int)
    requires
        all_digits(s),
        0 <= k <= s.len(),
    ensures
        digits_value(s) >= digits_value(s.take(k)),
    decreases s.len() - k,
{
    if k < s.len() {
        lemma_digits_value_grows(s, k + 1);
        assert(s.take(k + 1).drop_last() =~= s.take(k));
        assert(all_digits(s.take(k)));
        lemma_digits_value_nonneg(s.take(k));
        assert(is_digit(s[k]));
    } else {
        assert(s.take(k) =~= s);
    }
}

/// Lower-casing keeps the length, turns each ASCII capital into the letter 32
/// code points above it, keeps every other character, and changes nothing
/// when applied again.
pub proof fn lemma_ascii_lowercase(s: Seq<char>)
    ensures
        ascii_lowercase(s).len() == s.len(),
        forall|i: int|
            0 <= i < s.len() ==> (#[trigger] ascii_lowercase(s)[i]) as int == if 'A' <= s[i] && s[i] <= 'Z' {
                s[i] as int + 32
            } else {
                s[i] as int
            },
        ascii_lowercase(ascii_lowercase(s)) == ascii_lowercase(s),
{
    let l = ascii_lowercase(s);
    assert forall|i: int| 0 <= i < s.len() implies (#[trigger] l[i]) as int == if 'A' <= s[i] && s[i]
        <= 'Z' {
        s[i] as int + 32
    } else {
        s[i] as int
    } by {
        assert(l[i] == lower_char(s[i]));
    }
    assert(ascii_lowercase(l) =~= l) by {
        assert forall|i: int| 0 <= i < l.len() implies ascii_lowercase(l)[i] == l[i] by {
            assert(ascii_lowercase(l)[i] == lower_char(l[i]));
            assert(l[i] == lower_char(s[i]));
        }
    }
}

/// A `+` sign reads as no sign, and a `-` sign negates: the text of a
/// number with `-` in front reads as the opposite number.
pub proof fn lemma_parse_i64_sign(d: Seq<char>)
    requires
        d.len() > 0,
        d[0] != '-',
        d[0] != '+',
    ensures
        spec_parse_i64(seq!['+'] + d) == spec_parse_i64(d),
        spec_parse_i64(d) matches Some(n) ==> n >= 0 && spec_parse_i64(seq!['-'] + d) == Some((-n) as i64),
        spec_parse_i64(seq!['-'] + d) matches Some(m) ==> m <= 0 && (m > i64::MIN ==> spec_parse_i64(d)
            == Some((-m) as i64)),
{
    let plus = seq!['+'] + d;
    let minus = seq!['-'] + d;
    assert(plus.drop_first() =~= d);
    assert(minus.drop_first() =~= d);
    if all_digits(d) {
        lemma_digits_value_nonneg(d);
    }
}

/// Appending a digit to a text of digits reads as ten times its number plus
/// that digit, as long as it fits.
pub proof fn lemma_parse_i64_digit(d: Seq<char>, c: char)
    requires
        d.len() > 0,
        all_digits(d),
        is_digit(c),
        spec_parse_i64(d) is Some,
        spec_parse_i64(d)->Some_0 * 10 + (c as int - '0' as int) <= i64::MAX,
    ensures
        spec_parse_i64(d.push(c)) == Some((spec_parse_i64(d)->Some_0 * 10 + (c as int - '0' as int)) as i64),
{
    let e = d.push(c);
    assert(e.drop_last() =~= d);
    assert(e[0] == d[0]);
    assert(all_digits(e)) by {
        assert forall|i: int| 0 <= i < e.len() implies is_digit(#[trigger] e[i]) by {
            if i < d.len() {
                assert(e[i] == d[i]);
            }
        }
    }
    lemma_digits_value_nonneg(d);
}

/// Reads a decimal `i64` as `i64::from_str` does.
pub fn parse_i64(s: &[char]) -> (r: Option<i64>)
    ensures
        r == spec_parse_i64(s@),
{
    let n = s.len();
    let neg = n > 0 && s[0] == '-';
    let start: usize = if n > 0 && (s[0] == '-' || s[0] == '+') {
        1
    } else {
        0
    };
    let ghost digits = s@.skip(start as int);
    assert(digits =~= (if n > 0 && (s@[0] == '-' || s@[0] == '+') {
        s@.drop_first()
    } else {
        s@
    }));
    if start == n {
        return None;
    }
    let limit: u128 = 9223372036854775808;
    let mut mag: u128 = 0;
    let mut i = start;
    assert(digits.take(0) =~= Seq::<char>::empty());
    while i < n
        invariant
            start <= i <= n,
            n == s.len(),
            digits == s@.skip(start as int),
            digits == (if s@.len() > 0 && (s@[0] == '-' || s@[0] == '+') {
                s@.drop_first()
            } else {
                s@
            }),
            neg == (s@.len() > 0 && s@[0] == '-'),
            mag == digits_value(digits.take(i - start)),
            limit == 9223372036854775808u128,
            mag <= limit,
            all_digits(digits.take(i - start)),
        decreases n - i,
    {
        let c = s[i];
        assert(digits[i - start] == c);
        if c < '0' || c > '9' {
            assert(!is_digit(digits[i - start]));
            return None;
        }
        let d: u32 = (c as u32) - ('0' as u32);
        assert(digits.take(i - start + 1).drop_last() =~= digits.take(i - start));
        assert(digits.take(i - start + 1).last() == c);
        mag = mag * 10 + (d as u128);
        i = i + 1;
        assert(all_digits(digits.take(i - start)));
        if mag > limit {
            proof {
                if all_digits(digits) {
                    lemma_digits_value_grows(digits, i - start);
                }
            }
            return None;
        }
    }
    assert(digits.take(n - start) =~= digits);
    if neg {
        if mag == limit {
            Some(i64::MIN)
        } else {
            Some(-(mag as i64))
        }
    } else if mag == limit {
        None
    } else {
        Some(mag as i64)
    }
}

} // verus!
