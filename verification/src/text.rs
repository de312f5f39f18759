//! Text building blocks: character classes, decimal and hexadecimal
//! rendering of integers, and string assembly.
use vstd::prelude::*;
use vstd::string::*;

verus! {

/// Appends one character to a string.
/// Trusted: `String::push`, which appends the character at the end.
#[verifier::external_body]
pub fn push_char(s: &mut String, c: char)
    ensures
        final(s)@ == old(s)@.push(c),
{
    s.push(c);
}

/// Rust's `Debug` rendering of a text: double-quoted, with quotes,
/// backslashes, control and non-printable characters escaped.
pub uninterp spec fn debug_str_spec(s: Seq<char>) -> Seq<char>;

/// Trusted: `<str as Debug>::fmt`, through `format!("{:?}", ..)`. The
/// result is named `debug_str_spec` of the text; nothing more is claimed
/// about the escaping rules, which follow Unicode printability tables.
#[verifier::external_body]
pub(crate) fn debug_str(s: &str) -> (r: String)
    ensures
        r@ == debug_str_spec(s@),
{
    format!("{:?}", s)
}

/// Appends a string slice.
pub fn push_str(s: &mut String, t: &str)
    ensures
        final(s)@ == old(s)@ + t@,
{
    s.append(t);
}

/// A fresh string holding the characters of `t`.
pub fn owned(t: &str) -> (r: String)
    ensures
        r@ == t@,
{
    String::from_str(t)
}

/// A fresh copy of a string.
pub fn copy_string(s: &String) -> (r: String)
    ensures
        r@ == s@,
{
    String::from_str(s.as_str())
}

/// The string made of the characters of a sequence.
pub fn string_of_chars(cs: &[char]) -> (r: String)
    ensures
        r@ == cs@,
{
    let mut r = String::new();
    let mut i: usize = 0;
    while i < cs.len()
        invariant
            i <= cs@.len(),
            r@ == cs@.take(i as int),
        decreases cs.len() - i,
    {
        push_char(&mut r, cs[i]);
        i += 1;
        assert(r@ =~= cs@.take(i as int));
    }
    assert(cs@.take(cs@.len() as int) =~= cs@);
    r
}

/// The characters of a string, as a vector.
pub fn chars_of(s: &str) -> (v: Vec<char>)
    ensures
        v@ == s@,
{
    let mut v: Vec<char> = Vec::new();
    for c in it: s.chars()
        invariant
            v@ == it.seq().take(it.index() as int),
            it.seq() == s@,
    {
        v.push(c);
    }
    v
}

pub open spec fn is_lower_c(c: char) -> bool {
    'a' <= c && c <= 'z'
}

pub open spec fn is_upper_c(c: char) -> bool {
    'A' <= c && c <= 'Z'
}

pub open spec fn is_digit_c(c: char) -> bool {
    '0' <= c && c <= '9'
}

pub open spec fn is_alnum_c(c: char) -> bool {
    is_lower_c(c) || is_upper_c(c) || is_digit_c(c)
}

/// Unicode `White_Space`, as `char::is_whitespace` and `str::trim` use it.
pub open spec fn is_space_c(c: char) -> bool {
    let u = c as u32;
    (0x9 <= u && u <= 0xd) || u == 0x20 || u == 0x85 || u == 0xa0 || u == 0x1680
        || (0x2000 <= u && u <= 0x200a) || u == 0x2028 || u == 0x2029 || u == 0x202f
        || u == 0x205f || u == 0x3000
}

pub fn is_space(c: char) -> (r: bool)
    ensures
        r == is_space_c(c),
{
    let u = c as u32;
    (0x9 <= u && u <= 0xd) || u == 0x20 || u == 0x85 || u == 0xa0 || u == 0x1680
        || (0x2000 <= u && u <= 0x200a) || u == 0x2028 || u == 0x2029 || u == 0x202f
        || u == 0x205f || u == 0x3000
}

pub fn is_lower(c: char) -> (r: bool)
    ensures
        r == is_lower_c(c),
{
    'a' <= c && c <= 'z'
}

pub fn is_upper(c: char) -> (r: bool)
    ensures
        r == is_upper_c(c),
{
    'A' <= c && c <= 'Z'
}

pub fn is_digit(c: char) -> (r: bool)
    ensures
        r == is_digit_c(c),
{
    '0' <= c && c <= '9'
}

pub fn is_alnum(c: char) -> (r: bool)
    ensures
        r == is_alnum_c(c),
{
    is_lower(c) || is_upper(c) || is_digit(c)
}

/// Number of bytes of the UTF-8 encoding of a character.
pub open spec fn utf8_len(c: char) -> nat {
    if (c as u32) < 0x80 {
        1
    } else if (c as u32) < 0x800 {
        2
    } else if (c as u32) < 0x10000 {
        3
    } else {
        4
    }
}

pub fn char_utf8_len(c: char) -> (r: usize)
    ensures
        r == utf8_len(c),
{
    let u = c as u32;
    if u < 0x80 {
        1
    } else if u < 0x800 {
        2
    } else if u < 0x10000 {
        3
    } else {
        4
    }
}

/// Byte offset of character index `i` in the UTF-8 encoding of `cs`.
pub open spec fn byte_off(cs: Seq<char>, i: int) -> nat
    decreases i,
{
    if i <= 0 || cs.len() == 0 {
        0
    } else if i > cs.len() {
        byte_off(cs, cs.len() as int)
    } else {
        byte_off(cs, i - 1) + utf8_len(cs[i - 1])
    }
}

pub proof fn lemma_byte_off_mono(cs: Seq<char>, i: int, j: int)
    requires
        0 <= i <= j <= cs.len(),
    ensures
        byte_off(cs, i) <= byte_off(cs, j),
        i < j ==> byte_off(cs, i) < byte_off(cs, j),
    decreases j - i,
{
    if i < j {
        lemma_byte_off_mono(cs, i, j - 1);
    }
}

/// The decimal digit character for `d < 10`.
pub open spec fn digit_char(d: nat) -> char {
    if d == 0 { '0' }
    else if d == 1 { '1' }
    else if d == 2 { '2' }
    else if d == 3 { '3' }
    else if d == 4 { '4' }
    else if d == 5 { '5' }
    else if d == 6 { '6' }
    else if d == 7 { '7' }
    else if d == 8 { '8' }
    else { '9' }
}

/// The value of a decimal digit character.
pub open spec fn digit_val(c: char) -> nat {
    ((c as u32) - ('0' as u32)) as nat
}

/// Decimal rendering of a natural number, without leading zeros.
pub open spec fn nat_text(n: nat) -> Seq<char>
    decreases n,
{
    if n < 10 {
        seq![digit_char(n)]
    } else {
        nat_text(n / 10).push(digit_char(n % 10))
    }
}

/// Decimal rendering of an integer, with a leading `-` when negative.
pub open spec fn int_text(n: int) -> Seq<char> {
    if n < 0 {
        seq!['-'] + nat_text((-n) as nat)
    } else {
        nat_text(n as nat)
    }
}

fn digit(d: u64) -> (c: char)
    requires
        d < 10,
    ensures
        c == digit_char(d as nat),
{
    if d == 0 { '0' }
    else if d == 1 { '1' }
    else if d == 2 { '2' }
    else if d == 3 { '3' }
    else if d == 4 { '4' }
    else if d == 5 { '5' }
    else if d == 6 { '6' }
    else if d == 7 { '7' }
    else if d == 8 { '8' }
    else { '9' }
}

/// Appends the decimal rendering of `n`.
pub fn push_nat(s: &mut String, n: u64)
    ensures
        final(s)@ == old(s)@ + nat_text(n as nat),
    decreases n,
{
    if n < 10 {
        push_char(s, digit(n));
        assert(nat_text(n as nat) =~= seq![digit_char(n as nat)]);
    } else {
        push_nat(s, n / 10);
        push_char(s, digit(n % 10));
        assert(nat_text(n as nat) =~= nat_text((n / 10) as nat).push(digit_char((n % 10) as nat)));
    }
}

/// Decimal rendering of an unsigned number (`usize::to_string`).
pub fn usize_text(n: usize) -> (r: String)
    ensures
        r@ == nat_text(n as nat),
{
    let mut s = String::new();
    push_nat(&mut s, n as u64);
    assert(s@ =~= nat_text(n as nat));
    s
}

/// Decimal rendering of a signed number (`i64::to_string`).
pub fn i64_text(n: i64) -> (r: String)
    ensures
        r@ == int_text(n as int),
{
    let mut s = String::new();
    if n < 0 {
        push_char(&mut s, '-');
        let m: u64 = if n == i64::MIN { 9223372036854775808u64 } else { (-n) as u64 };
        push_nat(&mut s, m);
    } else {
        push_nat(&mut s, n as u64);
    }
    assert(s@ =~= int_text(n as int));
    s
}

/// Lower-case hexadecimal digit for `d < 16`.
pub open spec fn hex_char(d: nat) -> char {
    if d < 10 { digit_char(d) }
    else if d == 10 { 'a' }
    else if d == 11 { 'b' }
    else if d == 12 { 'c' }
    else if d == 13 { 'd' }
    else if d == 14 { 'e' }
    else { 'f' }
}

/// Four lower-case hexadecimal digits of `n < 65536`, zero-padded.
pub open spec fn hex4(n: nat) -> Seq<char> {
    seq![hex_char((n / 4096) % 16), hex_char((n / 256) % 16), hex_char((n / 16) % 16), hex_char(n % 16)]
}

fn hex_digit(d: u32) -> (c: char)
    requires
        d < 16,
    ensures
        c == hex_char(d as nat),
{
    if d < 10 {
        digit(d as u64)
    } else if d == 10 { 'a' }
    else if d == 11 { 'b' }
    else if d == 12 { 'c' }
    else if d == 13 { 'd' }
    else if d == 14 { 'e' }
    else { 'f' }
}

/// Appends four zero-padded lower-case hexadecimal digits of `n`.
pub fn push_hex4(s: &mut String, n: u32)
    ensures
        final(s)@ == old(s)@ + hex4(n as nat),
{
    push_char(s, hex_digit((n / 4096) % 16));
    push_char(s, hex_digit((n / 256) % 16));
    push_char(s, hex_digit((n / 16) % 16));
    push_char(s, hex_digit(n % 16));
    assert(final(s)@ =~= old(s)@ + hex4(n as nat));
}

/// String concatenation of two slices.
pub fn cat(a: &str, b: &str) -> (r: String)
    ensures
        r@ == a@ + b@,
{
    let mut r = owned(a);
    push_str(&mut r, b);
    r
}

/// String concatenation of three slices.
pub fn cat3(a: &str, b: &str, c: &str) -> (r: String)
    ensures
        r@ == a@ + b@ + c@,
{
    let mut r = owned(a);
    push_str(&mut r, b);
    push_str(&mut r, c);
    r
}

/// Character-sequence equality of two strings.
pub fn str_eq(a: &str, b: &str) -> (r: bool)
    ensures
        r == (a@ == b@),
{
    let x = owned(a);
    let y = owned(b);
    x == y
}

/// Whether `s` begins with `p`.
pub fn starts_with(s: &[char], p: &[char]) -> (r: bool)
    ensures
        r == (p@.len() <= s@.len() && s@.take(p@.len() as int) == p@),
{
    if p.len() > s.len() {
        return false;
    }
    let mut i: usize = 0;
    while i < p.len()
        invariant
            p@.len() <= s@.len(),
            i <= p@.len(),
            forall|k: int| 0 <= k < i ==> s@[k] == p@[k],
        decreases p.len() - i,
    {
        if s[i] != p[i] {
            assert(s@.take(p@.len() as int)[i as int] != p@[i as int]);
            return false;
        }
        i += 1;
    }
    assert(s@.take(p@.len() as int) =~= p@);
    true
}

} // verus!

verus! {

/// Leading whitespace removed.
pub open spec fn trim_start_spec(s: Seq<char>) -> Seq<char>
    decreases s.len(),
{
    if s.len() > 0 && is_space_c(s[0]) {
        trim_start_spec(s.drop_first())
    } else {
        s
    }
}

/// Trailing whitespace removed.
pub open spec fn trim_end_spec(s: Seq<char>) -> Seq<char>
    decreases s.len(),
{
    if s.len() > 0 && is_space_c(s.last()) {
        trim_end_spec(s.drop_last())
    } else {
        s
    }
}

/// Whitespace removed from both ends (`str::trim`).
pub open spec fn trim_spec(s: Seq<char>) -> Seq<char> {
    trim_end_spec(trim_start_spec(s))
}

/// Bounds of `s[lo..hi]` without its leading whitespace.
pub fn trim_start_at(s: &[char], lo: usize, hi: usize) -> (r: usize)
    requires
        lo <= hi <= s@.len(),
    ensures
        lo <= r <= hi,
        s@.subrange(r as int, hi as int) == trim_start_spec(s@.subrange(lo as int, hi as int)),
{
    let mut k = lo;
    while k < hi && is_space(s[k])
        invariant
            lo <= k <= hi,
            hi <= s@.len(),
            trim_start_spec(s@.subrange(lo as int, hi as int)) == trim_start_spec(s@.subrange(k as int, hi as int)),
        decreases hi - k,
    {
        assert(s@.subrange(k as int, hi as int).drop_first() =~= s@.subrange(k + 1, hi as int));
        k += 1;
    }
    k
}

/// Bounds of `s[lo..hi]` without its trailing whitespace.
pub fn trim_end_at(s: &[char], lo: usize, hi: usize) -> (r: usize)
    requires
        lo <= hi <= s@.len(),
    ensures
        lo <= r <= hi,
        s@.subrange(lo as int, r as int) == trim_end_spec(s@.subrange(lo as int, hi as int)),
{
    let mut k = hi;
    while k > lo && is_space(s[k - 1])
        invariant
            lo <= k <= hi,
            hi <= s@.len(),
            trim_end_spec(s@.subrange(lo as int, hi as int)) == trim_end_spec(s@.subrange(lo as int, k as int)),
        decreases k - lo,
    {
        assert(s@.subrange(lo as int, k as int).drop_last() =~= s@.subrange(lo as int, k - 1));
        k -= 1;
    }
    k
}

/// A string of `s[lo..hi]`.
pub fn slice_to_string(s: &[char], lo: usize, hi: usize) -> (r: String)
    requires
        lo <= hi <= s@.len(),
    ensures
        r@ == s@.subrange(lo as int, hi as int),
{
    let mut r = String::new();
    let mut k = lo;
    while k < hi
        invariant
            lo <= k <= hi,
            hi <= s@.len(),
            r@ == s@.subrange(lo as int, k as int),
        decreases hi - k,
    {
        push_char(&mut r, s[k]);
        k += 1;
        assert(r@ =~= s@.subrange(lo as int, k as int));
    }
    r
}

/// `str::trim` on a character slice.
pub fn trim_string(s: &[char]) -> (r: String)
    ensures
        r@ == trim_spec(s@),
{
    let lo = trim_start_at(s, 0, s.len());
    let hi = trim_end_at(s, lo, s.len());
    assert(s@.subrange(0, s@.len() as int) =~= s@);
    slice_to_string(s, lo, hi)
}

} // verus!

verus! {

/// `str::trim` on the characters of `s` from index `lo` on.
pub fn trim_from(s: &[char], lo: usize) -> (r: String)
    requires
        lo <= s@.len(),
    ensures
        r@ == trim_spec(s@.subrange(lo as int, s@.len() as int)),
{
    let a = trim_start_at(s, lo, s.len());
    let b = trim_end_at(s, a, s.len());
    slice_to_string(s, a, b)
}

/// Whether a text is empty.
pub fn str_is_empty(s: &str) -> (r: bool)
    ensures
        r == (s@.len() == 0),
{
    chars_of(s).len() == 0
}

} // verus!
