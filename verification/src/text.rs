//! Character-level helpers shared by the parsers of the library.
//!
//! Strings are read as sequences of `char`; the specifications below say what
//! each helper computes over those sequences.
use vstd::prelude::*;

verus! {

/// The characters of a string slice, in order.
pub fn chars_of(s: &str) -> (r: Vec<char>)
    ensures
        r@ == s@,
{
    broadcast use vstd::string::axiom_spec_iter;

    let mut r: Vec<char> = Vec::new();
    for c in it: s.chars()
        invariant
            r@ == it.seq().take(it.index() as int),
    {
        r.push(c);
    }
    r
}

/// `String::push`: appends one character.
#[verifier::external_body]
pub(crate) fn push_char(s: &mut String, c: char)
    ensures
        final(s)@ == old(s)@.push(c),
{
    s.push(c);
}

/// A `String` holding the given characters.
pub fn string_of(v: &Vec<char>) -> (r: String)
    ensures
        r@ == v@,
{
    let mut r = String::new();
    for i in 0..v.len()
        invariant
            r@ == v@.take(i as int),
    {
        push_char(&mut r, v[i]);
        assert(v@.take(i + 1) == v@.take(i as int).push(v@[i as int]));
    }
    assert(v@.take(v.len() as int) == v@);
    r
}

/// What `str::to_uppercase` returns for the given characters (Unicode case mapping).
pub uninterp spec fn unicode_upper(s: Seq<char>) -> Seq<char>;

/// What `str::to_lowercase` returns for the given characters (Unicode case mapping).
pub uninterp spec fn unicode_lower(s: Seq<char>) -> Seq<char>;

/// What `char::is_alphabetic` returns (Unicode property Alphabetic).
pub uninterp spec fn unicode_alphabetic(c: char) -> bool;

pub open spec fn is_ascii_char(c: char) -> bool {
    (c as u32) < 128
}

pub open spec fn all_ascii(s: Seq<char>) -> bool {
    forall|i: int| 0 <= i < s.len() ==> is_ascii_char(#[trigger] s[i])
}

pub open spec fn ascii_upper_char(c: char) -> char {
    if 'a' <= c && c <= 'z' {
        ((c as u32) - 32) as char
    } else {
        c
    }
}

pub open spec fn ascii_lower_char(c: char) -> char {
    if 'A' <= c && c <= 'Z' {
        ((c as u32) + 32) as char
    } else {
        c
    }
}

pub open spec fn is_ascii_letter(c: char) -> bool {
    ('a' <= c && c <= 'z') || ('A' <= c && c <= 'Z')
}

/// `str::to_uppercase`. Its documentation maps ASCII letters `a`-`z` to `A`-`Z`
/// and leaves the other ASCII characters alone; beyond ASCII the Unicode case
/// tables decide, and that is only named here.
#[verifier::external_body]
pub(crate) fn to_upper(s: &str) -> (r: String)
    ensures
        r@ == unicode_upper(s@),
        all_ascii(s@) ==> r@ == s@.map_values(|c: char| ascii_upper_char(c)),
{
    s.to_uppercase()
}

/// `str::to_lowercase`. ASCII letters `A`-`Z` become `a`-`z`, other ASCII
/// characters stay; beyond ASCII the Unicode case tables decide.
#[verifier::external_body]
pub(crate) fn to_lower(s: &str) -> (r: String)
    ensures
        r@ == unicode_lower(s@),
        all_ascii(s@) ==> r@ == s@.map_values(|c: char| ascii_lower_char(c)),
{
    s.to_lowercase()
}

/// `char::is_alphabetic`. On ASCII it holds exactly of the letters.
#[verifier::external_body]
pub(crate) fn is_alphabetic(c: char) -> (r: bool)
    ensures
        r == unicode_alphabetic(c),
        is_ascii_char(c) ==> (r == is_ascii_letter(c)),
{
    c.is_alphabetic()
}

/// `char::is_whitespace`: the Unicode White_Space property.
pub open spec fn is_white(c: char) -> bool {
    let u = c as u32;
    ||| (0x9 <= u && u <= 0xD)
    ||| u == 0x20
    ||| u == 0x85
    ||| u == 0xA0
    ||| u == 0x1680
    ||| (0x2000 <= u && u <= 0x200A)
    ||| u == 0x2028
    ||| u == 0x2029
    ||| u == 0x202F
    ||| u == 0x205F
    ||| u == 0x3000
}

pub fn is_whitespace(c: char) -> (r: bool)
    ensures
        r == is_white(c),
{
    let u = c as u32;
    (0x9 <= u && u <= 0xD) || u == 0x20 || u == 0x85 || u == 0xA0 || u == 0x1680 || (0x2000 <= u
        && u <= 0x200A) || u == 0x2028 || u == 0x2029 || u == 0x202F || u == 0x205F || u == 0x3000
}

pub open spec fn is_digit(c: char) -> bool {
    '0' <= c && c <= '9'
}

pub open spec fn is_hex_digit(c: char) -> bool {
    is_digit(c) || ('a' <= c && c <= 'f') || ('A' <= c && c <= 'F')
}

pub open spec fn digit_value(c: char) -> int {
    (c as u32) - ('0' as u32)
}

/// Number of leading whitespace characters.
pub open spec fn lead_white(s: Seq<char>) -> nat
    decreases s.len(),
{
    if s.len() > 0 && is_white(s[0]) {
        1 + lead_white(s.drop_first())
    } else {
        0
    }
}

/// Number of trailing whitespace characters.
pub open spec fn trail_white(s: Seq<char>) -> nat
    decreases s.len(),
{
    if s.len() > 0 && is_white(s.last()) {
        1 + trail_white(s.drop_last())
    } else {
        0
    }
}

/// `str::trim`: drops leading and trailing whitespace.
pub open spec fn trim_seq(s: Seq<char>) -> Seq<char> {
    let a = s.skip(lead_white(s) as int);
    a.take(a.len() - trail_white(a))
}

pub proof fn lemma_lead_white(s: Seq<char>, i: int)
    requires
        0 <= i <= s.len(),
        forall|j: int| 0 <= j < i ==> is_white(#[trigger] s[j]),
        i == s.len() || !is_white(s[i]),
    ensures
        lead_white(s) == i,
    decreases i,
{
    if i > 0 {
        assert forall|j: int| 0 <= j < i - 1 implies is_white(#[trigger] s.drop_first()[j]) by {
            assert(s.drop_first()[j] == s[j + 1]);
        }
        if i < s.len() {
            assert(s.drop_first()[i - 1] == s[i]);
        }
        lemma_lead_white(s.drop_first(), i - 1);
    }
}

pub proof fn lemma_trail_white(s: Seq<char>, k: int)
    requires
        0 <= k <= s.len(),
        forall|j: int| k <= j < s.len() ==> is_white(#[trigger] s[j]),
        k == 0 || !is_white(s[k - 1]),
    ensures
        trail_white(s) == s.len() - k,
    decreases s.len() - k,
{
    if k < s.len() {
        assert(is_white(s[s.len() - 1]));
        assert forall|j: int| k <= j < s.drop_last().len() implies is_white(
            #[trigger] s.drop_last()[j],
        ) by {
            assert(s.drop_last()[j] == s[j]);
        }
        if k > 0 {
            assert(s.drop_last()[k - 1] == s[k - 1]);
        }
        lemma_trail_white(s.drop_last(), k);
    }
}

/// The characters of `s` with leading and trailing whitespace removed.
pub fn trim(s: &Vec<char>) -> (r: Vec<char>)
    ensures
        r@ == trim_seq(s@),
{
    let n = s.len();
    let mut i: usize = 0;
    while i < n && is_whitespace(s[i])
        invariant
            i <= n == s.len(),
            forall|j: int| 0 <= j < i ==> is_white(#[trigger] s@[j]),
        decreases n - i,
    {
        i += 1;
    }
    proof {
        lemma_lead_white(s@, i as int);
    }
    let ghost a = s@.skip(i as int);
    let mut k: usize = n;
    while k > i && is_whitespace(s[k - 1])
        invariant
            i <= k <= n == s.len(),
            forall|j: int| k <= j < n ==> is_white(#[trigger] s@[j]),
        decreases k,
    {
        k -= 1;
    }
    proof {
        assert forall|j: int| k - i <= j < a.len() implies is_white(#[trigger] a[j]) by {
            assert(a[j] == s@[j + i]);
        }
        if k > i {
            assert(a[k - i - 1] == s@[k - 1]);
        }
        lemma_trail_white(a, k - i);
    }
    let mut r: Vec<char> = Vec::new();
    let mut j = i;
    while j < k
        invariant
            i <= j <= k <= n == s.len(),
            r@ == s@.subrange(i as int, j as int),
        decreases k - j,
    {
        r.push(s[j]);
        j += 1;
        assert(r@ == s@.subrange(i as int, j as int));
    }
    assert(r@ == a.take(a.len() - trail_white(a)));
    r
}

/// Decimal value of a sequence of digits.
pub open spec fn digits_value(s: Seq<char>) -> int
    decreases s.len(),
{
    if s.len() == 0 {
        0
    } else {
        10 * digits_value(s.drop_last()) + digit_value(s.last())
    }
}

pub open spec fn all_digits(s: Seq<char>) -> bool {
    forall|i: int| 0 <= i < s.len() ==> is_digit(#[trigger] s[i])
}

proof fn lemma_digits_value_nonneg(s: Seq<char>)
    requires
        all_digits(s),
    ensures
        digits_value(s) >= 0,
    decreases s.len(),
{
    if s.len() > 0 {
        assert(is_digit(s[s.len() - 1]));
        assert(all_digits(s.drop_last())) by {
            assert forall|i: int| 0 <= i < s.drop_last().len() implies is_digit(
                #[trigger] s.drop_last()[i],
            ) by {
                assert(s.drop_last()[i] == s[i]);
            }
        }
        lemma_digits_value_nonneg(s.drop_last());
    }
}

proof fn lemma_digits_value_mono(s: Seq<char>, i: int)
    requires
        all_digits(s),
        0 <= i <= s.len(),
    ensures
        digits_value(s.take(i)) <= digits_value(s),
    decreases s.len() - i,
{
    if i < s.len() {
        assert(s.take(i + 1).drop_last() == s.take(i));
        assert(all_digits(s.take(i + 1))) by {
            assert forall|j: int| 0 <= j < s.take(i + 1).len() implies is_digit(
                #[trigger] s.take(i + 1)[j],
            ) by {
                assert(s.take(i + 1)[j] == s[j]);
            }
        }
        assert(all_digits(s.take(i))) by {
            assert forall|j: int| 0 <= j < s.take(i).len() implies is_digit(
                #[trigger] s.take(i)[j],
            ) by {
                assert(s.take(i)[j] == s[j]);
            }
        }
        lemma_digits_value_nonneg(s.take(i));
        assert(is_digit(s[i]));
        assert(s.take(i + 1).last() == s[i]);
        lemma_digits_value_mono(s, i + 1);
    } else {
        assert(s.take(i) == s);
    }
}

/// Parses a nonempty run of ASCII digits whose value is at most `bound`;
/// `None` for anything else.
pub fn parse_digits(s: &Vec<char>, bound: u64) -> (r: Option<u64>)
    ensures
        r matches Some(v) ==> s@.len() > 0 && all_digits(s@) && v == digits_value(s@) && v <= bound,
        r is None ==> !(s@.len() > 0 && all_digits(s@) && digits_value(s@) <= bound),
{
    if s.len() == 0 {
        return None;
    }
    let mut acc: u64 = 0;
    let mut i: usize = 0;
    while i < s.len()
        invariant
            i <= s.len(),
            all_digits(s@.take(i as int)),
            acc == digits_value(s@.take(i as int)),
            acc <= bound,
        decreases s.len() - i,
    {
        let c = s[i];
        if !('0' <= c && c <= '9') {
            assert(!is_digit(s@[i as int]));
            return None;
        }
        let d = (c as u32 - '0' as u32) as u64;
        assert(s@.take(i + 1).drop_last() == s@.take(i as int));
        assert(all_digits(s@.take(i + 1))) by {
            assert forall|j: int| 0 <= j < i + 1 implies is_digit(#[trigger] s@.take(i + 1)[j]) by {
                if j < i {
                    assert(s@.take(i + 1)[j] == s@.take(i as int)[j]);
                }
            }
        }
        if d > bound || acc > (bound - d) / 10 {
            proof {
                assert(10 * acc + d > bound) by (nonlinear_arith)
                    requires
                        d > bound || acc > (bound - d) / 10,
                        d <= bound ==> bound - d >= 0,
                ;
                if all_digits(s@) {
                    lemma_digits_value_mono(s@, i + 1);
                }
                assert(digits_value(s@.take(i + 1)) == 10 * acc + d);
            }
            return None;
        }
        assert(10 * acc + d <= bound) by (nonlinear_arith)
            requires
                d <= bound,
                acc <= (bound - d) / 10,
        ;
        acc = acc * 10 + d;
        i += 1;
    }
    assert(s@.take(s.len() as int) == s@);
    Some(acc)
}


/// Two character sequences are equal.
pub fn chars_eq(a: &Vec<char>, b: &Vec<char>) -> (r: bool)
    ensures
        r == (a@ == b@),
{
    if a.len() != b.len() {
        return false;
    }
    let mut i: usize = 0;
    while i < a.len()
        invariant
            i <= a.len() == b.len(),
            forall|j: int| 0 <= j < i ==> a@[j] == b@[j],
        decreases a.len() - i,
    {
        if a[i] != b[i] {
            return false;
        }
        i += 1;
    }
    assert(a@ =~= b@);
    true
}

/// `a` equals the characters of the literal-like sequence `b`.
pub fn eq_str(a: &Vec<char>, b: &str) -> (r: bool)
    ensures
        r == (a@ == b@),
{
    let bv = chars_of(b);
    chars_eq(a, &bv)
}

/// The characters of `s` from index `start` on.
pub fn skip_chars(s: &Vec<char>, start: usize) -> (r: Vec<char>)
    requires
        start <= s.len(),
    ensures
        r@ == s@.skip(start as int),
{
    sub_chars(s, start, s.len())
}

/// The characters of `s` in `[start, end)`.
pub fn sub_chars(s: &Vec<char>, start: usize, end: usize) -> (r: Vec<char>)
    requires
        start <= end <= s.len(),
    ensures
        r@ == s@.subrange(start as int, end as int),
{
    let mut r: Vec<char> = Vec::new();
    let mut i = start;
    while i < end
        invariant
            start <= i <= end <= s.len(),
            r@ == s@.subrange(start as int, i as int),
        decreases end - i,
    {
        r.push(s[i]);
        i += 1;
        assert(r@ == s@.subrange(start as int, i as int));
    }
    r
}

/// Appends all characters of `b` to `a`.
pub fn append_chars(a: &mut Vec<char>, b: &Vec<char>)
    ensures
        final(a)@ == old(a)@ + b@,
{
    let ghost a0 = a@;
    for i in 0..b.len()
        invariant
            a@ == a0 + b@.take(i as int),
    {
        a.push(b[i]);
        assert(b@.take(i + 1) == b@.take(i as int).push(b@[i as int]));
    }
    assert(b@.take(b.len() as int) == b@);
}

/// Appends the characters of a string slice.
pub fn append_str(a: &mut Vec<char>, b: &str)
    ensures
        final(a)@ == old(a)@ + b@,
{
    let bv = chars_of(b);
    append_chars(a, &bv);
}

pub open spec fn starts_with(s: Seq<char>, p: Seq<char>) -> bool {
    p.len() <= s.len() && s.take(p.len() as int) == p
}

pub open spec fn ends_with(s: Seq<char>, p: Seq<char>) -> bool {
    p.len() <= s.len() && s.skip(s.len() - p.len()) == p
}

pub fn has_prefix(s: &Vec<char>, p: &str) -> (r: bool)
    ensures
        r == starts_with(s@, p@),
{
    let pv = chars_of(p);
    if pv.len() > s.len() {
        return false;
    }
    let t = sub_chars(s, 0, pv.len());
    assert(t@ == s@.take(pv@.len() as int));
    chars_eq(&t, &pv)
}

pub fn has_suffix(s: &Vec<char>, p: &str) -> (r: bool)
    ensures
        r == ends_with(s@, p@),
{
    let pv = chars_of(p);
    if pv.len() > s.len() {
        return false;
    }
    let t = skip_chars(s, s.len() - pv.len());
    chars_eq(&t, &pv)
}

pub fn contains_char(s: &Vec<char>, c: char) -> (r: bool)
    ensures
        r == s@.contains(c),
{
    let mut i: usize = 0;
    while i < s.len()
        invariant
            i <= s.len(),
            forall|j: int| 0 <= j < i ==> s@[j] != c,
        decreases s.len() - i,
    {
        if s[i] == c {
            assert(s@[i as int] == c);
            return true;
        }
        i += 1;
    }
    false
}

/// UTF-8 length of one character.
pub open spec fn char_len(c: char) -> nat {
    let u = c as u32;
    if u < 0x80 {
        1
    } else if u < 0x800 {
        2
    } else if u < 0x10000 {
        3
    } else {
        4
    }
}

/// UTF-8 length of a character sequence (what `str::len` reports).
pub open spec fn byte_len(s: Seq<char>) -> nat
    decreases s.len(),
{
    if s.len() == 0 {
        0
    } else {
        byte_len(s.drop_last()) + char_len(s.last())
    }
}

pub fn char_length(c: char) -> (r: usize)
    ensures
        r == char_len(c),
{
    let u = c as u32;
    if u < 0x80 {
        1
    } else if u < 0x800 {
        2
    } else if u < 0x10000 {
        3
    } else {
        4
    }
}

proof fn lemma_byte_len_mono(s: Seq<char>, i: int)
    requires
        0 <= i <= s.len(),
    ensures
        byte_len(s.take(i)) <= byte_len(s),
    decreases s.len() - i,
{
    if i < s.len() {
        assert(s.take(i + 1).drop_last() == s.take(i));
        lemma_byte_len_mono(s, i + 1);
    } else {
        assert(s.take(i) == s);
    }
}

/// The UTF-8 length of `s`, or `cap` if it is larger than `cap`.
pub fn byte_length_capped(s: &Vec<char>, cap: usize) -> (r: usize)
    ensures
        r == if byte_len(s@) <= cap { byte_len(s@) } else { cap as nat },
{
    let mut acc: usize = 0;
    let mut i: usize = 0;
    while i < s.len()
        invariant
            i <= s.len(),
            acc == byte_len(s@.take(i as int)),
            acc <= cap,
        decreases s.len() - i,
    {
        let l = char_length(s[i]);
        assert(s@.take(i + 1).drop_last() == s@.take(i as int));
        if l > cap || acc > cap - l {
            proof {
                lemma_byte_len_mono(s@, i + 1);
            }
            return cap;
        }
        acc = acc + l;
        i += 1;
    }
    assert(s@.take(s.len() as int) == s@);
    acc
}

/// There is a character boundary exactly `n` bytes into `s`.
pub open spec fn has_byte_boundary(s: Seq<char>, n: int) -> bool
    decreases s.len(),
{
    if n == 0 {
        true
    } else if s.len() == 0 || n < 0 {
        false
    } else {
        has_byte_boundary(s.drop_first(), n - char_len(s[0]))
    }
}

pub fn byte_boundary(s: &Vec<char>, n: usize) -> (r: bool)
    ensures
        r == has_byte_boundary(s@, n as int),
{
    let mut i: usize = 0;
    let mut left: usize = n;
    assert(s@.skip(0) == s@);
    while i < s.len() && left > 0
        invariant
            i <= s.len(),
            left <= n,
            has_byte_boundary(s@, n as int) == has_byte_boundary(s@.skip(i as int), left as int),
        decreases s.len() - i,
    {
        let l = char_length(s[i]);
        assert(s@.skip(i as int).drop_first() == s@.skip(i + 1));
        if l > left {
            assert(!has_byte_boundary(s@.skip(i + 1), left - l));
            return false;
        }
        left = left - l;
        i += 1;
    }
    left == 0
}

/// Value of a hexadecimal digit.
pub open spec fn hex_value(c: char) -> int {
    if is_digit(c) {
        digit_value(c)
    } else if 'a' <= c && c <= 'f' {
        (c as u32) - ('a' as u32) + 10
    } else {
        (c as u32) - ('A' as u32) + 10
    }
}

pub fn hex_digit_value(c: char) -> (r: u8)
    requires
        is_hex_digit(c),
    ensures
        r == hex_value(c),
{
    if '0' <= c && c <= '9' {
        (c as u32 - '0' as u32) as u8
    } else if 'a' <= c && c <= 'f' {
        (c as u32 - 'a' as u32 + 10) as u8
    } else {
        (c as u32 - 'A' as u32 + 10) as u8
    }
}

pub fn is_ascii_hexdigit(c: char) -> (r: bool)
    ensures
        r == is_hex_digit(c),
{
    ('0' <= c && c <= '9') || ('a' <= c && c <= 'f') || ('A' <= c && c <= 'F')
}

/// The upper-case hexadecimal digit for `0 <= d < 16`.
pub open spec fn hex_char(d: int) -> char {
    if d < 10 {
        (('0' as u32) + d) as char
    } else {
        (('A' as u32) + d - 10) as char
    }
}

/// Upper-case hexadecimal digits of `n`, without leading zeros (`{:X}`).
pub open spec fn hex_digits(n: nat) -> Seq<char>
    decreases n,
{
    if n < 16 {
        seq![hex_char(n as int)]
    } else {
        hex_digits(n / 16).push(hex_char((n % 16) as int))
    }
}

/// `{:02X}`: upper-case hexadecimal, padded with zeros to two digits.
pub open spec fn hex2(n: nat) -> Seq<char> {
    if hex_digits(n).len() < 2 {
        seq!['0'] + hex_digits(n)
    } else {
        hex_digits(n)
    }
}

proof fn lemma_hex_digits_len(n: nat)
    ensures
        hex_digits(n).len() >= 1,
        n >= 16 ==> hex_digits(n).len() >= 2,
    decreases n,
{
    if n >= 16 {
        lemma_hex_digits_len(n / 16);
    }
}

fn hex_digit_char(d: u32) -> (r: char)
    requires
        d < 16,
    ensures
        r == hex_char(d as int),
{
    let r = match d {
        0 => '0',
        1 => '1',
        2 => '2',
        3 => '3',
        4 => '4',
        5 => '5',
        6 => '6',
        7 => '7',
        8 => '8',
        9 => '9',
        10 => 'A',
        11 => 'B',
        12 => 'C',
        13 => 'D',
        14 => 'E',
        _ => 'F',
    };
    r
}

pub fn fmt_hex(n: u32) -> (r: Vec<char>)
    ensures
        r@ == hex_digits(n as nat),
    decreases n,
{
    if n < 16 {
        let mut r = Vec::new();
        r.push(hex_digit_char(n));
        r
    } else {
        let mut r = fmt_hex(n / 16);
        r.push(hex_digit_char(n % 16));
        r
    }
}

/// `format!("{:02X}", n)`.
pub fn fmt_hex2(n: u32) -> (r: Vec<char>)
    ensures
        r@ == hex2(n as nat),
{
    let d = fmt_hex(n);
    if d.len() < 2 {
        let mut r = Vec::new();
        r.push('0');
        append_chars(&mut r, &d);
        assert(r@ == seq!['0'] + d@);
        r
    } else {
        d
    }
}

/// `{:02X}` of an `i16`: the two's-complement bits as a 16-bit number.
pub open spec fn i16_hex2(v: i16) -> Seq<char> {
    hex2(
        if v >= 0 {
            v as nat
        } else {
            (v + 65536) as nat
        },
    )
}

pub fn fmt_i16_hex2(v: i16) -> (r: Vec<char>)
    ensures
        r@ == i16_hex2(v),
{
    let n: u32 = if v >= 0 {
        v as u32
    } else {
        (v as i32 + 65536) as u32
    };
    fmt_hex2(n)
}

pub open spec fn dec_char(d: int) -> char {
    (('0' as u32) + d) as char
}

/// Decimal digits of `n` (`{}` on an unsigned integer).
pub open spec fn dec_digits(n: nat) -> Seq<char>
    decreases n,
{
    if n < 10 {
        seq![dec_char(n as int)]
    } else {
        dec_digits(n / 10).push(dec_char((n % 10) as int))
    }
}

pub fn fmt_dec(n: usize) -> (r: Vec<char>)
    ensures
        r@ == dec_digits(n as nat),
    decreases n,
{
    let c = hex_digit_char((n % 10) as u32);
    assert(c == dec_char((n % 10) as int));
    if n < 10 {
        let mut r = Vec::new();
        r.push(c);
        r
    } else {
        let mut r = fmt_dec(n / 10);
        r.push(c);
        r
    }
}

/// What `str::parse` gives for an integer type with the given range: an
/// optional `+` (or `-` when the type is signed) and then at least one digit.
pub open spec fn int_text(s: Seq<char>, signed: bool, min: int, max: int) -> Option<int> {
    if s.len() == 0 {
        None
    } else if s[0] == '+' && s.len() > 1 {
        let d = s.drop_first();
        if all_digits(d) && digits_value(d) <= max {
            Some(digits_value(d))
        } else {
            None
        }
    } else if signed && s[0] == '-' && s.len() > 1 {
        let d = s.drop_first();
        if all_digits(d) && -digits_value(d) >= min {
            Some(-digits_value(d))
        } else {
            None
        }
    } else if all_digits(s) && digits_value(s) <= max {
        Some(digits_value(s))
    } else {
        None
    }
}

/// `str::parse::<i16>`.
pub fn parse_i16(s: &Vec<char>) -> (r: Option<i16>)
    ensures
        r matches Some(v) ==> int_text(s@, true, i16::MIN as int, i16::MAX as int) == Some(v as int),
        r is None ==> int_text(s@, true, i16::MIN as int, i16::MAX as int) is None,
{
    if s.len() == 0 {
        return None;
    }
    if s[0] == '+' && s.len() > 1 {
        let d = skip_chars(s, 1);
        assert(d@ == s@.drop_first());
        match parse_digits(&d, 32767) {
            Some(v) => Some(v as i16),
            None => None,
        }
    } else if s[0] == '-' && s.len() > 1 {
        let d = skip_chars(s, 1);
        assert(d@ == s@.drop_first());
        match parse_digits(&d, 32768) {
            Some(v) => Some((0 - (v as i32)) as i16),
            None => None,
        }
    } else {
        match parse_digits(s, 32767) {
            Some(v) => Some(v as i16),
            None => None,
        }
    }
}

/// `str::parse::<i32>` (only whether it succeeds is needed).
pub fn parses_as_i32(s: &Vec<char>) -> (r: bool)
    ensures
        r == int_text(s@, true, i32::MIN as int, i32::MAX as int) is Some,
{
    if s.len() == 0 {
        return false;
    }
    if s[0] == '+' && s.len() > 1 {
        let d = skip_chars(s, 1);
        assert(d@ == s@.drop_first());
        parse_digits(&d, 2147483647).is_some()
    } else if s[0] == '-' && s.len() > 1 {
        let d = skip_chars(s, 1);
        assert(d@ == s@.drop_first());
        parse_digits(&d, 2147483648).is_some()
    } else {
        parse_digits(s, 2147483647).is_some()
    }
}

/// `str::parse::<usize>`.
pub fn parse_usize(s: &Vec<char>) -> (r: Option<usize>)
    ensures
        r matches Some(v) ==> int_text(s@, false, 0, usize::MAX as int) == Some(v as int),
        r is None ==> int_text(s@, false, 0, usize::MAX as int) is None,
{
    if s.len() == 0 {
        return None;
    }
    if s[0] == '+' && s.len() > 1 {
        let d = skip_chars(s, 1);
        assert(d@ == s@.drop_first());
        match parse_digits(&d, usize::MAX as u64) {
            Some(v) => Some(v as usize),
            None => None,
        }
    } else {
        match parse_digits(s, usize::MAX as u64) {
            Some(v) => Some(v as usize),
            None => None,
        }
    }
}

/// `str::split` on one separator character: the pieces between separators.
pub open spec fn split_seq(s: Seq<char>, sep: char) -> Seq<Seq<char>>
    decreases s.len(),
{
    if s.len() == 0 {
        seq![Seq::<char>::empty()]
    } else {
        let p = split_seq(s.drop_last(), sep);
        if s.last() == sep {
            p.push(Seq::<char>::empty())
        } else {
            p.update(p.len() - 1, p.last().push(s.last()))
        }
    }
}

pub proof fn lemma_split_seq_nonempty(s: Seq<char>, sep: char)
    ensures
        split_seq(s, sep).len() >= 1,
    decreases s.len(),
{
    if s.len() > 0 {
        lemma_split_seq_nonempty(s.drop_last(), sep);
    }
}

/// Splits `s` at every occurrence of `sep`.
pub fn split_char(s: &Vec<char>, sep: char) -> (r: Vec<Vec<char>>)
    ensures
        r@.len() == split_seq(s@, sep).len(),
        forall|i: int| 0 <= i < r@.len() ==> (#[trigger] r@[i])@ == split_seq(s@, sep)[i],
{
    let mut done: Vec<Vec<char>> = Vec::new();
    let mut cur: Vec<char> = Vec::new();
    let mut i: usize = 0;
    while i < s.len()
        invariant
            i <= s.len(),
            done@.len() + 1 == split_seq(s@.take(i as int), sep).len(),
            forall|j: int|
                0 <= j < done@.len() ==> (#[trigger] done@[j])@ == split_seq(s@.take(i as int), sep)[j],
            cur@ == split_seq(s@.take(i as int), sep).last(),
        decreases s.len() - i,
    {
        proof {
            lemma_split_seq_nonempty(s@.take(i as int), sep);
            assert(s@.take(i + 1).drop_last() == s@.take(i as int));
        }
        if s[i] == sep {
            done.push(cur);
            cur = Vec::new();
        } else {
            cur.push(s[i]);
        }
        i += 1;
    }
    assert(s@.take(s.len() as int) == s@);
    done.push(cur);
    r_fix(done, s, sep)
}

fn r_fix(r: Vec<Vec<char>>, s: &Vec<char>, sep: char) -> (out: Vec<Vec<char>>)
    requires
        r@.len() == split_seq(s@, sep).len(),
        forall|i: int| 0 <= i < r@.len() ==> (#[trigger] r@[i])@ == split_seq(s@, sep)[i],
    ensures
        out@ == r@,
{
    r
}


/// `str::split` on every character listed in `seps`.
pub open spec fn split_by(s: Seq<char>, seps: Seq<char>) -> Seq<Seq<char>>
    decreases s.len(),
{
    if s.len() == 0 {
        seq![Seq::<char>::empty()]
    } else {
        let p = split_by(s.drop_last(), seps);
        if seps.contains(s.last()) {
            p.push(Seq::<char>::empty())
        } else {
            p.update(p.len() - 1, p.last().push(s.last()))
        }
    }
}

pub proof fn lemma_split_by_nonempty(s: Seq<char>, seps: Seq<char>)
    ensures
        split_by(s, seps).len() >= 1,
    decreases s.len(),
{
    if s.len() > 0 {
        lemma_split_by_nonempty(s.drop_last(), seps);
    }
}

/// Splits `s` at every character that occurs in `seps`.
pub fn split_any(s: &Vec<char>, seps: &Vec<char>) -> (r: Vec<Vec<char>>)
    ensures
        r@.len() == split_by(s@, seps@).len(),
        forall|i: int| 0 <= i < r@.len() ==> (#[trigger] r@[i])@ == split_by(s@, seps@)[i],
{
    let mut done: Vec<Vec<char>> = Vec::new();
    let mut cur: Vec<char> = Vec::new();
    let mut i: usize = 0;
    while i < s.len()
        invariant
            i <= s.len(),
            done@.len() + 1 == split_by(s@.take(i as int), seps@).len(),
            forall|j: int|
                0 <= j < done@.len() ==> (#[trigger] done@[j])@ == split_by(s@.take(i as int), seps@)[j],
            cur@ == split_by(s@.take(i as int), seps@).last(),
        decreases s.len() - i,
    {
        proof {
            lemma_split_by_nonempty(s@.take(i as int), seps@);
            assert(s@.take(i + 1).drop_last() == s@.take(i as int));
        }
        if contains_char(seps, s[i]) {
            done.push(cur);
            cur = Vec::new();
        } else {
            cur.push(s[i]);
        }
        i += 1;
    }
    assert(s@.take(s.len() as int) == s@);
    done.push(cur);
    done
}

/// The first characters of `s` that make up `n` bytes (all of `s` when it
/// is shorter); `String::truncate(n)` when `n` falls on a boundary.
pub open spec fn take_bytes(s: Seq<char>, n: int) -> Seq<char>
    decreases s.len(),
{
    if n <= 0 || s.len() == 0 {
        Seq::<char>::empty()
    } else {
        seq![s[0]] + take_bytes(s.drop_first(), n - char_len(s[0]))
    }
}

pub fn take_bytes_exec(s: &Vec<char>, n: usize) -> (r: Vec<char>)
    ensures
        r@ == take_bytes(s@, n as int),
{
    let mut r: Vec<char> = Vec::new();
    let mut i: usize = 0;
    let mut left: usize = n;
    assert(s@.skip(0) == s@);
    while i < s.len() && left > 0
        invariant
            i <= s.len(),
            r@ + take_bytes(s@.skip(i as int), left as int) == take_bytes(s@, n as int),
        decreases s.len() - i,
    {
        let l = char_length(s[i]);
        assert(s@.skip(i as int).drop_first() == s@.skip(i + 1));
        assert(s@.skip(i as int)[0] == s@[i as int]);
        let ghost before = r@;
        r.push(s[i]);
        assert(r@ == before + seq![s@[i as int]]);
        if l >= left {
            assert(take_bytes(s@.skip(i + 1), left - l) == Seq::<char>::empty());
            left = 0;
        } else {
            left = left - l;
        }
        i += 1;
    }
    assert(take_bytes(s@.skip(i as int), left as int) == Seq::<char>::empty());
    assert(r@ + Seq::<char>::empty() == r@);
    r
}


/// `str::replace(pat, rep)`: every non-overlapping occurrence of `pat`,
/// scanning from the left, replaced by `rep`.
pub open spec fn replace_all(s: Seq<char>, pat: Seq<char>, rep: Seq<char>) -> Seq<char>
    recommends
        pat.len() > 0,
    decreases s.len(),
{
    if s.len() == 0 || pat.len() == 0 {
        s
    } else if starts_with(s, pat) {
        rep + replace_all(s.skip(pat.len() as int), pat, rep)
    } else {
        seq![s[0]] + replace_all(s.drop_first(), pat, rep)
    }
}

/// Whether `pat` occurs in `s` at position `i`.
pub fn matches_at(s: &Vec<char>, i: usize, pat: &Vec<char>) -> (r: bool)
    requires
        i <= s.len(),
    ensures
        r == starts_with(s@.skip(i as int), pat@),
{
    if pat.len() > s.len() - i {
        return false;
    }
    let mut j: usize = 0;
    while j < pat.len()
        invariant
            i + pat.len() <= s.len(),
            j <= pat.len(),
            forall|k: int| 0 <= k < j ==> s@[i + k] == pat@[k],
        decreases pat.len() - j,
    {
        if s[i + j] != pat[j] {
            assert(s@.skip(i as int).take(pat@.len() as int)[j as int] != pat@[j as int]);
            return false;
        }
        j += 1;
    }
    assert(s@.skip(i as int).take(pat@.len() as int) =~= pat@);
    true
}

/// Replaces every occurrence of `pat` (nonempty) by `rep`.
pub fn replace_chars(s: &Vec<char>, pat: &Vec<char>, rep: &Vec<char>) -> (r: Vec<char>)
    requires
        pat@.len() > 0,
    ensures
        r@ == replace_all(s@, pat@, rep@),
{
    let mut r: Vec<char> = Vec::new();
    let mut i: usize = 0;
    assert(s@.skip(0) == s@);
    while i < s.len()
        invariant
            i <= s.len(),
            pat@.len() > 0,
            r@ + replace_all(s@.skip(i as int), pat@, rep@) == replace_all(s@, pat@, rep@),
        decreases s.len() - i,
    {
        let ghost rest = s@.skip(i as int);
        if matches_at(s, i, pat) {
            assert(rest.skip(pat@.len() as int) == s@.skip(i + pat@.len()));
            let ghost before = r@;
            append_chars(&mut r, rep);
            assert(before + (rep@ + replace_all(rest.skip(pat@.len() as int), pat@, rep@)) == r@
                + replace_all(rest.skip(pat@.len() as int), pat@, rep@));
            i += pat.len();
        } else {
            assert(rest.drop_first() == s@.skip(i + 1));
            let ghost before = r@;
            r.push(s[i]);
            assert(before + (seq![s@[i as int]] + replace_all(rest.drop_first(), pat@, rep@)) == r@
                + replace_all(rest.drop_first(), pat@, rep@));
            i += 1;
        }
    }
    assert(r@ + Seq::<char>::empty() == r@);
    r
}


/// Index of the first occurrence of `pat` in `s`, or -1.
pub open spec fn find_seq(s: Seq<char>, pat: Seq<char>) -> int
    decreases s.len(),
{
    if starts_with(s, pat) {
        0
    } else if s.len() == 0 {
        -1
    } else {
        let r = find_seq(s.drop_first(), pat);
        if r < 0 {
            -1
        } else {
            r + 1
        }
    }
}

/// `str::split_once`: the text before and after the first occurrence.
pub open spec fn split_once(s: Seq<char>, pat: Seq<char>) -> Option<(Seq<char>, Seq<char>)> {
    let i = find_seq(s, pat);
    if i < 0 {
        None
    } else {
        Some((s.take(i), s.skip(i + pat.len())))
    }
}

pub proof fn lemma_find_seq_bounds(s: Seq<char>, pat: Seq<char>)
    ensures
        -1 <= find_seq(s, pat) <= s.len(),
        find_seq(s, pat) >= 0 ==> find_seq(s, pat) + pat.len() <= s.len(),
    decreases s.len(),
{
    if !starts_with(s, pat) && s.len() > 0 {
        lemma_find_seq_bounds(s.drop_first(), pat);
    }
}

/// Splits at the first occurrence of `pat`.
pub fn split_once_exec(s: &Vec<char>, pat: &Vec<char>) -> (r: Option<(Vec<char>, Vec<char>)>)
    ensures
        match r {
            Some((a, b)) => split_once(s@, pat@) == Some((a@, b@)),
            None => split_once(s@, pat@) is None,
        },
{
    proof {
        lemma_find_seq_bounds(s@, pat@);
    }
    let mut i: usize = 0;
    assert(s@.skip(0) == s@);
    loop
        invariant
            i <= s.len(),
            find_seq(s@, pat@) == (if find_seq(s@.skip(i as int), pat@) < 0 {
                -1
            } else {
                i + find_seq(s@.skip(i as int), pat@)
            }),
        decreases s.len() - i,
    {
        if matches_at(s, i, pat) {
            proof {
                lemma_find_seq_bounds(s@, pat@);
            }
            let a = sub_chars(s, 0, i);
            assert(a@ == s@.take(i as int));
            let b = skip_chars(s, i + pat.len());
            return Some((a, b));
        }
        if i == s.len() {
            assert(s@.skip(i as int).len() == 0);
            return None;
        }
        assert(s@.skip(i as int).drop_first() == s@.skip(i + 1));
        i += 1;
    }
}

/// A text that starts with a non-space character keeps it first when
/// trimmed.
pub proof fn lemma_trim_first(s: Seq<char>)
    requires
        s.len() > 0,
        !is_white(s[0]),
    ensures
        trim_seq(s).len() > 0,
        trim_seq(s)[0] == s[0],
{
    lemma_lead_white(s, 0);
    assert(s.skip(0) == s);
    lemma_trail_white_bound(s);
}

proof fn lemma_trail_white_bound(s: Seq<char>)
    requires
        s.len() > 0,
        !is_white(s[0]),
    ensures
        trail_white(s) < s.len(),
    decreases s.len(),
{
    if s.len() > 1 && is_white(s.last()) {
        assert(s.drop_last()[0] == s[0]);
        lemma_trail_white_bound(s.drop_last());
    }
}

/// The first piece of a split starts where the text does.
pub proof fn lemma_split_first(s: Seq<char>, sep: char)
    requires
        s.len() > 0,
        s[0] != sep,
    ensures
        split_seq(s, sep).len() >= 1,
        split_seq(s, sep)[0].len() > 0,
        split_seq(s, sep)[0][0] == s[0],
    decreases s.len(),
{
    lemma_split_seq_nonempty(s, sep);
    let d = s.drop_last();
    let p = split_seq(d, sep);
    lemma_split_seq_nonempty(d, sep);
    if s.len() == 1 {
        assert(d =~= Seq::<char>::empty());
        assert(p == seq![Seq::<char>::empty()]);
        assert(s.last() == s[0]);
    } else {
        assert(d[0] == s[0]);
        lemma_split_first(d, sep);
        if s.last() != sep {
            if p.len() == 1 {
                assert(split_seq(s, sep)[0] == p[0].push(s.last()));
            } else {
                assert(split_seq(s, sep)[0] == p[0]);
            }
        } else {
            assert(split_seq(s, sep)[0] == p[0]);
        }
    }
}

/// An unsigned parse gives a value from 0 up to the bound.
pub proof fn lemma_int_text_unsigned(s: Seq<char>, min: int, max: int)
    ensures
        int_text(s, false, min, max) matches Some(v) ==> 0 <= v <= max,
{
    if s.len() > 1 && s[0] == '+' && all_digits(s.drop_first()) {
        lemma_digits_value_nonneg(s.drop_first());
    } else if all_digits(s) {
        lemma_digits_value_nonneg(s);
    }
}

} // verus!
