//! Text primitives on file names: UTF-8 lengths, prefixes, suffixes and joins.

use vstd::prelude::*;
use vstd::string::*;
use vstd::utf8::*;

verus! {

/// Number of bytes in the UTF-8 encoding of `s`.
pub open spec fn utf8_len(s: Seq<char>) -> int {
    encode_utf8(s).len() as int
}

/// The longest prefix of `s` (in whole characters) whose UTF-8 encoding
/// fits in `max_bytes` bytes.
pub open spec fn truncate_chars(s: Seq<char>, max_bytes: int) -> Seq<char>
    decreases s.len(),
{
    if utf8_len(s) <= max_bytes || s.len() == 0 {
        s
    } else {
        truncate_chars(s.drop_last(), max_bytes)
    }
}

/// Bytes taken by `c` in UTF-8.
pub open spec fn char_utf8_len(c: char) -> int {
    encode_scalar(c as u32).len() as int
}

proof fn lemma_encode_push(s: Seq<char>, c: char)
    ensures
        encode_utf8(s.push(c)) == encode_utf8(s) + encode_scalar(c as u32),
    decreases s.len(),
{
    if s.len() == 0 {
        assert(s.push(c).drop_first() =~= Seq::<char>::empty());
        assert(encode_utf8(Seq::<char>::empty()) =~= Seq::<u8>::empty());
        assert(encode_utf8(s) =~= Seq::<u8>::empty());
        assert(encode_utf8(s.push(c)) =~= encode_scalar(c as u32));
    } else {
        lemma_encode_push(s.drop_first(), c);
        assert(s.push(c).drop_first() =~= s.drop_first().push(c));
        assert(encode_utf8(s.push(c)) =~= encode_utf8(s) + encode_scalar(c as u32));
    }
}

/// Bytes taken by `c` in UTF-8, from its code point.
pub fn char_byte_len(c: char) -> (w: u128)
    ensures
        w == char_utf8_len(c),
        1 <= w <= 4,
{
    proof {
        char_is_scalar(c);
    }
    let v = c as u32;
    if v <= 0x7F {
        1
    } else if v <= 0x7FF {
        2
    } else if v <= 0xFFFF {
        3
    } else {
        4
    }
}

/// Byte length of the UTF-8 encoding of the first `j` characters of `s`.
pub fn prefix_byte_len(s: &str, j: usize) -> (n: u128)
    requires
        j <= s@.len(),
    ensures
        n == utf8_len(s@.take(j as int)),
{
    let mut total: u128 = 0;
    let mut i: usize = 0;
    assert(s@.take(0) =~= Seq::<char>::empty());
    while i < j
        invariant
            i <= j,
            j <= s@.len(),
            total == utf8_len(s@.take(i as int)),
            total <= 4 * i,
        decreases j - i,
    {
        let c = s.get_char(i);
        let w = char_byte_len(c);
        proof {
            lemma_encode_push(s@.take(i as int), c);
            assert(s@.take(i as int).push(c) =~= s@.take(i + 1));
        }
        total = total + w;
        i = i + 1;
    }
    total
}

/// Byte length of the UTF-8 encoding of `s`.
pub fn byte_len(s: &str) -> (n: u128)
    ensures
        n == utf8_len(s@),
{
    let n = s.unicode_len();
    assert(s@.take(n as int) =~= s@);
    prefix_byte_len(s, n)
}

/// Cuts `s` at the last character boundary that is at most `max_bytes`
/// bytes into it; `s` itself when it is no longer than that.
pub fn truncate_bytes(s: &str, max_bytes: usize) -> (r: &str)
    ensures
        r@ == truncate_chars(s@, max_bytes as int),
{
    let n = s.unicode_len();
    let mut j: usize = n;
    proof {
        assert(s@.take(n as int) =~= s@);
    }
    loop
        invariant
            j <= n,
            n == s@.len(),
            truncate_chars(s@.take(j as int), max_bytes as int) == truncate_chars(
                s@,
                max_bytes as int,
            ),
        decreases j,
    {
        let bytes = prefix_byte_len(s, j);
        if bytes <= max_bytes as u128 || j == 0 {
            return s.substring_char(0, j);
        }
        assert(s@.take(j as int).drop_last() =~= s@.take(j - 1));
        j = j - 1;
    }
}

/// `suffix` is a suffix of `s`.
pub open spec fn has_suffix(s: Seq<char>, suffix: Seq<char>) -> bool {
    suffix.len() <= s.len() && s.skip(s.len() - suffix.len()) == suffix
}

/// Character-wise equality of two strings.
pub fn str_eq(a: &str, b: &str) -> (r: bool)
    ensures
        r == (a@ == b@),
{
    let n = a.unicode_len();
    let m = b.unicode_len();
    if n != m {
        return false;
    }
    let mut i: usize = 0;
    while i < n
        invariant
            n == a@.len(),
            m == b@.len(),
            n == m,
            i <= n,
            forall|k: int| 0 <= k < i ==> a@[k] == b@[k],
        decreases n - i,
    {
        if a.get_char(i) != b.get_char(i) {
            return false;
        }
        i = i + 1;
    }
    assert(a@ =~= b@);
    true
}

/// Whether `s` ends with `suffix`.
pub fn ends_with(s: &str, suffix: &str) -> (r: bool)
    ensures
        r == has_suffix(s@, suffix@),
{
    let n = s.unicode_len();
    let m = suffix.unicode_len();
    if m > n {
        return false;
    }
    let off = n - m;
    let mut i: usize = 0;
    while i < m
        invariant
            n == s@.len(),
            m == suffix@.len(),
            off == n - m,
            i <= m,
            forall|k: int| 0 <= k < i ==> s@[off + k] == suffix@[k],
        decreases m - i,
    {
        if s.get_char(off + i) != suffix.get_char(i) {
            assert(s@.skip(off as int)[i as int] != suffix@[i as int]);
            return false;
        }
        i = i + 1;
    }
    assert(s@.skip(off as int) =~= suffix@);
    true
}

/// `a` followed by `b`, as a new string.
pub fn join(a: &str, b: &str) -> (r: String)
    ensures
        r@ == a@ + b@,
{
    let mut r = String::from_str(a);
    r.append(b);
    r
}

/// Every character of `s` is ASCII.
pub open spec fn is_ascii_text(s: Seq<char>) -> bool {
    forall|i: int| 0 <= i < s.len() ==> (s[i] as u32) < 128
}

/// `c` with an ASCII upper-case letter mapped to lower case.
pub open spec fn ascii_lower_char(c: char) -> char {
    if 'A' <= c && c <= 'Z' {
        ((c as u32) + 32) as char
    } else {
        c
    }
}

/// `s` with its ASCII upper-case letters mapped to lower case.
pub open spec fn ascii_lowered(s: Seq<char>) -> Seq<char> {
    s.map_values(|c: char| ascii_lower_char(c))
}

/// Name for what `str::to_lowercase` returns: the Unicode lowercase mapping
/// of the whole string.
pub uninterp spec fn lowercase_of(s: Seq<char>) -> Seq<char>;

/// The lower-cased form of `s` by which file names are compared: on ASCII
/// text the letters `A`-`Z` become `a`-`z`; on other text it is what
/// `str::to_lowercase` gives.
pub open spec fn lookup_key(s: Seq<char>) -> Seq<char> {
    if is_ascii_text(s) {
        ascii_lowered(s)
    } else {
        lowercase_of(s)
    }
}

/// Calls `str::to_lowercase`. The contract ties the result to the argument
/// through `lowercase_of`, and states what Unicode's lowercase mapping does
/// to ASCII text: `A`-`Z` become `a`-`z`, every other ASCII character (which
/// has no lowercase mapping) stays. The case tables beyond ASCII are not
/// stated.
#[verifier::external_body]
pub(crate) fn to_lowercase(s: &str) -> (r: String)
    ensures
        r@ == lowercase_of(s@),
        is_ascii_text(s@) ==> r@ == ascii_lowered(s@),
{
    s.to_lowercase()
}

/// `c` has the Unicode `White_Space` property, which is what
/// `char::is_whitespace` tests.
pub open spec fn is_white_space(c: char) -> bool {
    let v = c as u32;
    ||| 0x09 <= v && v <= 0x0D
    ||| v == 0x20
    ||| v == 0x85
    ||| v == 0xA0
    ||| v == 0x1680
    ||| 0x2000 <= v && v <= 0x200A
    ||| v == 0x2028
    ||| v == 0x2029
    ||| v == 0x202F
    ||| v == 0x205F
    ||| v == 0x3000
}

/// `s` without its leading white space.
pub open spec fn trimmed_start(s: Seq<char>) -> Seq<char>
    decreases s.len(),
{
    if s.len() > 0 && is_white_space(s[0]) {
        trimmed_start(s.drop_first())
    } else {
        s
    }
}

/// `s` without its trailing white space.
pub open spec fn trimmed_end(s: Seq<char>) -> Seq<char>
    decreases s.len(),
{
    if s.len() > 0 && is_white_space(s.last()) {
        trimmed_end(s.drop_last())
    } else {
        s
    }
}

/// `s` without its leading and trailing white space, as `str::trim` gives it.
pub open spec fn trimmed_of(s: Seq<char>) -> Seq<char> {
    trimmed_end(trimmed_start(s))
}

/// Whether `c` is white space (`char::is_whitespace`).
pub fn is_white_space_char(c: char) -> (r: bool)
    ensures
        r == is_white_space(c),
{
    let v = c as u32;
    (0x09 <= v && v <= 0x0D) || v == 0x20 || v == 0x85 || v == 0xA0 || v == 0x1680 || (0x2000
        <= v && v <= 0x200A) || v == 0x2028 || v == 0x2029 || v == 0x202F || v == 0x205F || v
        == 0x3000
}

/// `s` without its leading and trailing white space.
pub fn trim(s: &str) -> (r: &str)
    ensures
        r@ == trimmed_of(s@),
{
    let n = s.unicode_len();
    let mut i: usize = 0;
    assert(s@.skip(0) =~= s@);
    while i < n && is_white_space_char(s.get_char(i))
        invariant
            i <= n,
            n == s@.len(),
            trimmed_start(s@.skip(i as int)) == trimmed_start(s@),
        decreases n - i,
    {
        assert(s@.skip(i as int).drop_first() =~= s@.skip(i + 1));
        i = i + 1;
    }
    let ghost u = s@.skip(i as int);
    assert(trimmed_start(u) == u);
    let mut j: usize = n;
    assert(u.take(n - i) =~= u);
    while j > i && is_white_space_char(s.get_char(j - 1))
        invariant
            i <= j <= n,
            n == s@.len(),
            u == s@.skip(i as int),
            trimmed_end(u.take(j - i)) == trimmed_end(u),
        decreases j,
    {
        assert(u.take(j - i).drop_last() =~= u.take(j - 1 - i));
        assert(u.take(j - i).last() == s@[j - 1]);
        j = j - 1;
    }
    let r = s.substring_char(i, j);
    assert(r@ =~= u.take(j - i));
    r
}

/// Code of `c` with ASCII upper-case letters mapped to lower case.
pub open spec fn ascii_folded(c: char) -> u32 {
    if 'A' <= c && c <= 'Z' {
        (c as u32 + 32) as u32
    } else {
        c as u32
    }
}

/// `a` and `b` are equal up to ASCII case.
pub open spec fn eq_ascii_case_insensitive(a: Seq<char>, b: Seq<char>) -> bool {
    a.len() == b.len() && forall|i: int| 0 <= i < a.len() ==> ascii_folded(a[i]) == ascii_folded(b[i])
}

fn fold_ascii(c: char) -> (r: u32)
    ensures
        r == ascii_folded(c),
{
    if 'A' <= c && c <= 'Z' {
        c as u32 + 32
    } else {
        c as u32
    }
}

/// Whether `a` and `b` are equal when ASCII letters are compared without case.
pub fn eq_ignore_ascii_case(a: &str, b: &str) -> (r: bool)
    ensures
        r == eq_ascii_case_insensitive(a@, b@),
{
    let n = a.unicode_len();
    let m = b.unicode_len();
    if n != m {
        return false;
    }
    let mut i: usize = 0;
    while i < n
        invariant
            n == a@.len(),
            m == b@.len(),
            n == m,
            i <= n,
            forall|k: int| 0 <= k < i ==> ascii_folded(a@[k]) == ascii_folded(b@[k]),
        decreases n - i,
    {
        if fold_ascii(a.get_char(i)) != fold_ascii(b.get_char(i)) {
            return false;
        }
        i = i + 1;
    }
    true
}

/// Position of the last `c` in `s`.
pub open spec fn last_index_of(s: Seq<char>, c: char) -> Option<int>
    decreases s.len(),
{
    if s.len() == 0 {
        None
    } else if s.last() == c {
        Some(s.len() - 1)
    } else {
        last_index_of(s.drop_last(), c)
    }
}

/// A position found by `last_index_of` holds the character looked for.
pub proof fn lemma_last_index_of_range(s: Seq<char>, c: char)
    ensures
        last_index_of(s, c) matches Some(p) ==> 0 <= p < s.len() && s[p] == c,
    decreases s.len(),
{
    if s.len() > 0 && s.last() != c {
        lemma_last_index_of_range(s.drop_last(), c);
    }
}

/// Position of the last `c` in `s`, if any.
pub fn rfind_char(s: &str, c: char) -> (r: Option<usize>)
    ensures
        r matches Some(p) ==> last_index_of(s@, c) == Some(p as int),
        r is None ==> last_index_of(s@, c) is None,
{
    let n = s.unicode_len();
    let mut j: usize = n;
    assert(s@.take(n as int) =~= s@);
    while j > 0
        invariant
            j <= n,
            n == s@.len(),
            last_index_of(s@.take(j as int), c) == last_index_of(s@, c),
        decreases j,
    {
        assert(s@.take(j as int).drop_last() =~= s@.take(j - 1));
        if s.get_char(j - 1) == c {
            return Some(j - 1);
        }
        j = j - 1;
    }
    None
}

/// A decimal digit character.
pub open spec fn is_digit(c: char) -> bool {
    '0' <= c && c <= '9'
}

/// Every character of `s` is a decimal digit.
pub open spec fn all_digits(s: Seq<char>) -> bool {
    forall|i: int| 0 <= i < s.len() ==> is_digit(s[i])
}

/// Value of the decimal numeral `s` (most significant digit first).
pub open spec fn digits_value(s: Seq<char>) -> int
    decreases s.len(),
{
    if s.len() == 0 {
        0
    } else {
        digits_value(s.drop_last()) * 10 + (s.last() as int - '0' as int)
    }
}

/// What `i64::from_str` accepts: an optional `+` or `-`, then one or more
/// decimal digits, denoting a value in range of `i64`.
pub open spec fn parsed_i64(s: Seq<char>) -> Option<i64> {
    let negative = s.len() > 0 && s[0] == '-';
    let signed = s.len() > 0 && (s[0] == '-' || s[0] == '+');
    let body = if signed {
        s.skip(1)
    } else {
        s
    };
    let v = if negative {
        -digits_value(body)
    } else {
        digits_value(body)
    };
    if body.len() == 0 || !all_digits(body) || v < i64::MIN || v > i64::MAX {
        None
    } else {
        Some(v as i64)
    }
}

proof fn lemma_digits_value_nonneg(s: Seq<char>)
    requires
        all_digits(s),
    ensures
        digits_value(s) >= 0,
    decreases s.len(),
{
    if s.len() > 0 {
        lemma_digits_value_nonneg(s.drop_last());
    }
}

proof fn lemma_digits_value_prefix(s: Seq<char>, k: int)
    requires
        all_digits(s),
        0 <= k <= s.len(),
    ensures
        digits_value(s.take(k)) <= digits_value(s),
    decreases s.len() - k,
{
    if k < s.len() {
        lemma_digits_value_prefix(s, k + 1);
        assert(s.take(k + 1).drop_last() =~= s.take(k));
        lemma_digits_value_nonneg(s.take(k));
    } else {
        assert(s.take(k) =~= s);
    }
}

/// Parses `s` the way `str::parse::<i64>` does, giving `None` where it fails.
pub fn parse_i64(s: &str) -> (r: Option<i64>)
    ensures
        r == parsed_i64(s@),
{
    let n = s.unicode_len();
    let mut start: usize = 0;
    let mut negative = false;
    if n > 0 {
        let c0 = s.get_char(0);
        if c0 == '-' {
            negative = true;
            start = 1;
        } else if c0 == '+' {
            start = 1;
        }
    }
    let ghost body = s@.skip(start as int);
    assert(body == (if s@.len() > 0 && (s@[0] == '-' || s@[0] == '+') {
        s@.skip(1)
    } else {
        s@
    }));
    if start == n {
        return None;
    }
    let limit: u64 = if negative {
        9223372036854775808
    } else {
        9223372036854775807
    };
    let mut mag: u64 = 0;
    let mut i: usize = start;
    assert(body.take(0) =~= Seq::<char>::empty());
    while i < n
        invariant
            start <= i <= n,
            start <= 1,
            n == s@.len(),
            body == s@.skip(start as int),
            all_digits(body.take(i - start)),
            mag == digits_value(body.take(i - start)),
            mag <= limit,
            limit == (if negative { 9223372036854775808u64 } else { 9223372036854775807u64 }),
            body == (if s@.len() > 0 && (s@[0] == '-' || s@[0] == '+') {
                s@.skip(1)
            } else {
                s@
            }),
            negative == (s@.len() > 0 && s@[0] == '-'),
        decreases n - i,
    {
        let c = s.get_char(i);
        if !('0' <= c && c <= '9') {
            assert(body[i - start] == c);
            assert(!is_digit(body[(i - start) as int]));
            assert(!all_digits(body));
            return None;
        }
        let d: u64 = (c as u32 - '0' as u32) as u64;
        let ghost k = i - start;
        assert(body.take(k + 1).drop_last() =~= body.take(k));
        if mag > (limit - d) / 10 {
            assert(mag * 10 + d > limit) by (nonlinear_arith)
                requires
                    mag > (limit - d) / 10,
                    d <= 9,
                    limit >= 9,
            ;
            proof {
                if all_digits(body) {
                    assert(is_digit(body[k]));
                    assert(digits_value(body.take(k + 1)) == mag * 10 + d);
                    lemma_digits_value_prefix(body, k + 1);
                }
            }
            return None;
        }
        mag = mag * 10 + d;
        i = i + 1;
    }
    assert(body.take(n - start) =~= body);
    if negative {
        if mag == 9223372036854775808 {
            Some(i64::MIN)
        } else {
            Some(-(mag as i64))
        }
    } else {
        Some(mag as i64)
    }
}

/// The longest prefix of `s` (in whole characters) whose UTF-8 encoding is
/// exactly `n_bytes` bytes long, when there is one.
pub open spec fn prefix_of_utf8_len(s: Seq<char>, n_bytes: int) -> Option<Seq<char>>
    decreases s.len(),
{
    if utf8_len(s) == n_bytes {
        Some(s)
    } else if s.len() == 0 {
        None
    } else {
        prefix_of_utf8_len(s.drop_last(), n_bytes)
    }
}

/// The UTF-8 length of two strings put together is the sum of their lengths.
pub proof fn lemma_utf8_len_concat(a: Seq<char>, b: Seq<char>)
    ensures
        utf8_len(a + b) == utf8_len(a) + utf8_len(b),
    decreases b.len(),
{
    if b.len() == 0 {
        assert(a + b =~= a);
        assert(encode_utf8(b) =~= Seq::<u8>::empty());
    } else {
        let c = b.last();
        let b0 = b.drop_last();
        lemma_utf8_len_concat(a, b0);
        assert(a + b =~= (a + b0).push(c));
        assert(b =~= b0.push(c));
        lemma_encode_push(a + b0, c);
        lemma_encode_push(b0, c);
    }
}

/// Every character takes at least one byte.
pub proof fn lemma_utf8_len_positive(s: Seq<char>)
    requires
        s.len() > 0,
    ensures
        utf8_len(s) >= s.len(),
    decreases s.len(),
{
    if s.len() > 1 {
        lemma_utf8_len_positive(s.drop_first());
    } else {
        assert(encode_utf8(s.drop_first()) =~= Seq::<u8>::empty());
    }
}

/// The prefix of `p + t` that is as long in UTF-8 as `p` is `p` itself.
pub proof fn lemma_prefix_of_utf8_len_concat(p: Seq<char>, t: Seq<char>)
    ensures
        prefix_of_utf8_len(p + t, utf8_len(p)) == Some(p),
    decreases t.len(),
{
    if t.len() == 0 {
        assert(p + t =~= p);
    } else {
        lemma_utf8_len_concat(p, t);
        lemma_utf8_len_positive(t);
        assert((p + t).drop_last() =~= p + t.drop_last());
        lemma_prefix_of_utf8_len_concat(p, t.drop_last());
    }
}

/// The last `c` of `a`, `c` and then `b` is the one between them when `b`
/// holds no `c`.
pub proof fn lemma_last_index_of_concat(a: Seq<char>, c: char, b: Seq<char>)
    requires
        !b.contains(c),
    ensures
        last_index_of(a.push(c) + b, c) == Some(a.len() as int),
    decreases b.len(),
{
    if b.len() == 0 {
        assert(a.push(c) + b =~= a.push(c));
    } else {
        assert(b.last() == b[b.len() - 1]);
        assert((a.push(c) + b).drop_last() =~= a.push(c) + b.drop_last());
        assert(!b.drop_last().contains(c)) by {
            if b.drop_last().contains(c) {
                let i = choose|i: int| 0 <= i < b.drop_last().len() && b.drop_last()[i] == c;
                assert(b[i] == c);
            }
        }
        lemma_last_index_of_concat(a, c, b.drop_last());
    }
}

/// The part of `s` before byte `n_bytes`, when that byte offset falls on a
/// character boundary of `s`.
pub fn prefix_at_byte(s: &str, n_bytes: u128) -> (r: Option<&str>)
    ensures
        r matches Some(p) ==> prefix_of_utf8_len(s@, n_bytes as int) == Some(p@),
        r is None ==> prefix_of_utf8_len(s@, n_bytes as int) is None,
{
    let n = s.unicode_len();
    let mut j: usize = n;
    proof {
        assert(s@.take(n as int) =~= s@);
    }
    loop
        invariant
            j <= n,
            n == s@.len(),
            prefix_of_utf8_len(s@.take(j as int), n_bytes as int) == prefix_of_utf8_len(
                s@,
                n_bytes as int,
            ),
        decreases j,
    {
        let bytes = prefix_byte_len(s, j);
        if bytes == n_bytes {
            return Some(s.substring_char(0, j));
        }
        if j == 0 {
            return None;
        }
        assert(s@.take(j as int).drop_last() =~= s@.take(j - 1));
        j = j - 1;
    }
}

/// The character for decimal digit `d`.
pub open spec fn digit_char(d: int) -> char {
    seq!['0', '1', '2', '3', '4', '5', '6', '7', '8', '9'][d]
}

/// Decimal numeral of `n`, without leading zeros.
pub open spec fn decimal_digits(n: nat) -> Seq<char>
    decreases n,
{
    if n < 10 {
        seq![digit_char(n as int)]
    } else {
        decimal_digits(n / 10).push(digit_char((n % 10) as int))
    }
}

/// Decimal numeral of `i`, with a leading `-` when negative.
pub open spec fn decimal_signed(i: int) -> Seq<char> {
    if i < 0 {
        seq!['-'] + decimal_digits((-i) as nat)
    } else {
        decimal_digits(i as nat)
    }
}

fn digit_str(d: u64) -> (r: &'static str)
    requires
        d < 10,
    ensures
        r@ == seq![digit_char(d as int)],
{
    proof {
        reveal_strlit("0");
        reveal_strlit("1");
        reveal_strlit("2");
        reveal_strlit("3");
        reveal_strlit("4");
        reveal_strlit("5");
        reveal_strlit("6");
        reveal_strlit("7");
        reveal_strlit("8");
        reveal_strlit("9");
    }
    let r = if d == 0 {
        "0"
    } else if d == 1 {
        "1"
    } else if d == 2 {
        "2"
    } else if d == 3 {
        "3"
    } else if d == 4 {
        "4"
    } else if d == 5 {
        "5"
    } else if d == 6 {
        "6"
    } else if d == 7 {
        "7"
    } else if d == 8 {
        "8"
    } else {
        "9"
    };
    assert(r@ =~= seq![digit_char(d as int)]);
    r
}

/// Decimal text of `n`, as `Display` writes an unsigned integer.
pub fn decimal_u64(n: u64) -> (r: String)
    ensures
        r@ == decimal_digits(n as nat),
    decreases n,
{
    if n < 10 {
        String::from_str(digit_str(n))
    } else {
        let mut r = decimal_u64(n / 10);
        r.append(digit_str(n % 10));
        r
    }
}

/// Decimal text of `i`, as `Display` writes a signed integer.
pub fn decimal_i64(i: i64) -> (r: String)
    ensures
        r@ == decimal_signed(i as int),
{
    if i < 0 {
        let magnitude: u64 = (0i128 - i as i128) as u64;
        let digits = decimal_u64(magnitude);
        let minus = "-";
        proof {
            reveal_strlit("-");
        }
        let r = join(minus, digits.as_str());
        assert(r@ =~= seq!['-'] + decimal_digits((-i) as nat));
        r
    } else {
        decimal_u64(i as u64)
    }
}

proof fn lemma_digit_char(d: int)
    requires
        0 <= d < 10,
    ensures
        is_digit(digit_char(d)),
        digit_char(d) as int - '0' as int == d,
{
    if d == 0 {} else if d == 1 {} else if d == 2 {} else if d == 3 {} else if d == 4 {
    } else if d == 5 {} else if d == 6 {} else if d == 7 {} else if d == 8 {} else {}
}

/// Reading back the numeral of `n` gives `n`.
pub proof fn lemma_decimal_roundtrip(n: nat)
    ensures
        all_digits(decimal_digits(n)),
        decimal_digits(n).len() > 0,
        digits_value(decimal_digits(n)) == n,
    decreases n,
{
    if n >= 10 {
        lemma_decimal_roundtrip(n / 10);
        lemma_digit_char((n % 10) as int);
        assert(decimal_digits(n).drop_last() =~= decimal_digits(n / 10));
        assert(decimal_digits(n).last() == digit_char((n % 10) as int));
        assert(digits_value(decimal_digits(n)) == digits_value(decimal_digits(n / 10)) * 10 + (n % 10));
        assert(n == (n / 10) * 10 + n % 10) by (nonlinear_arith);
    } else {
        lemma_digit_char(n as int);
        assert(decimal_digits(n).drop_last() =~= Seq::<char>::empty());
        assert(digits_value(Seq::<char>::empty()) == 0);
        assert(digits_value(decimal_digits(n)) == n);
    }
}

/// Different numbers have different numerals.
pub proof fn lemma_decimal_injective(a: nat, b: nat)
    requires
        decimal_digits(a) == decimal_digits(b),
    ensures
        a == b,
{
    lemma_decimal_roundtrip(a);
    lemma_decimal_roundtrip(b);
}

/// A cut by `truncate_chars` keeps a prefix of `s` that fits in `max_bytes`
/// bytes, and no longer prefix of `s` fits.
pub proof fn lemma_truncate_chars(s: Seq<char>, max_bytes: int)
    requires
        max_bytes >= 0,
    ensures
        truncate_chars(s, max_bytes).len() <= s.len(),
        truncate_chars(s, max_bytes) == s.take(truncate_chars(s, max_bytes).len() as int),
        utf8_len(truncate_chars(s, max_bytes)) <= max_bytes,
        truncate_chars(s, max_bytes).len() < s.len() ==> utf8_len(
            s.take(truncate_chars(s, max_bytes).len() + 1int),
        ) > max_bytes,
    decreases s.len(),
{
    let t = truncate_chars(s, max_bytes);
    if utf8_len(s) <= max_bytes || s.len() == 0 {
        assert(s.take(s.len() as int) =~= s);
        if s.len() == 0 {
            assert(encode_utf8(s) =~= Seq::<u8>::empty());
        }
    } else {
        let d = s.drop_last();
        lemma_truncate_chars(d, max_bytes);
        assert(t == truncate_chars(d, max_bytes));
        assert(d.take(t.len() as int) =~= s.take(t.len() as int));
        if t.len() < d.len() {
            assert(d.take(t.len() + 1int) =~= s.take(t.len() + 1int));
        } else {
            assert(s.take(t.len() + 1int) =~= s);
        }
    }
}

/// `a` and `b` are ASCII text equal up to the case of their letters.
pub open spec fn case_twins(a: Seq<char>, b: Seq<char>) -> bool {
    is_ascii_text(a) && is_ascii_text(b) && eq_ascii_case_insensitive(a, b)
}

/// ASCII text takes one byte per character.
pub proof fn lemma_ascii_utf8_len(s: Seq<char>)
    requires
        is_ascii_text(s),
    ensures
        utf8_len(s) == s.len(),
    decreases s.len(),
{
    if s.len() > 0 {
        assert(is_ascii_text(s.drop_first()));
        lemma_ascii_utf8_len(s.drop_first());
    } else {
        assert(encode_utf8(s) =~= Seq::<u8>::empty());
    }
}

/// Lower-casing ASCII text gives ASCII text.
pub proof fn lemma_ascii_lowered_ascii(s: Seq<char>)
    requires
        is_ascii_text(s),
    ensures
        is_ascii_text(ascii_lowered(s)),
        ascii_lowered(s).len() == s.len(),
{
    assert forall|i: int| 0 <= i < ascii_lowered(s).len() implies (ascii_lowered(s)[i] as u32) < 128 by {
        let c = s[i];
        if 'A' <= c && c <= 'Z' {
            assert((((c as u32) + 32) as char) as u32 == (c as u32) + 32);
        }
    }
}

/// Text equal up to ASCII case has one lookup key.
pub proof fn lemma_twins_key(a: Seq<char>, b: Seq<char>)
    requires
        case_twins(a, b),
    ensures
        lookup_key(a) == lookup_key(b),
{
    assert forall|i: int| 0 <= i < a.len() implies ascii_lower_char(a[i]) == ascii_lower_char(b[i]) by {
        let x = a[i];
        let y = b[i];
        assert(ascii_folded(x) == ascii_folded(y));
        if 'A' <= x && x <= 'Z' {
            assert((((x as u32) + 32) as char) as u32 == (x as u32) + 32);
        }
        if 'A' <= y && y <= 'Z' {
            assert((((y as u32) + 32) as char) as u32 == (y as u32) + 32);
        }
    }
    assert(ascii_lowered(a) =~= ascii_lowered(b));
}

/// Parts of twins taken at the same places are twins.
pub proof fn lemma_twins_subrange(a: Seq<char>, b: Seq<char>, i: int, j: int)
    requires
        case_twins(a, b),
        0 <= i <= j <= a.len(),
    ensures
        case_twins(a.subrange(i, j), b.subrange(i, j)),
{
    assert forall|k: int| 0 <= k < j - i implies ascii_folded(a.subrange(i, j)[k]) == ascii_folded(
        b.subrange(i, j)[k],
    ) by {
        assert(ascii_folded(a[i + k]) == ascii_folded(b[i + k]));
    }
}

/// Twins followed by twins are twins.
pub proof fn lemma_twins_concat(a: Seq<char>, b: Seq<char>, c: Seq<char>, d: Seq<char>)
    requires
        case_twins(a, b),
        case_twins(c, d),
    ensures
        case_twins(a + c, b + d),
{
    assert forall|k: int| 0 <= k < (a + c).len() implies ascii_folded((a + c)[k]) == ascii_folded(
        (b + d)[k],
    ) by {
        if k < a.len() {
            assert(ascii_folded(a[k]) == ascii_folded(b[k]));
        } else {
            assert(ascii_folded(c[k - a.len()]) == ascii_folded(d[k - a.len()]));
        }
    }
}

/// ASCII text is its own twin.
pub proof fn lemma_twins_refl(a: Seq<char>)
    requires
        is_ascii_text(a),
    ensures
        case_twins(a, a),
{
}

/// Twins have their last `c` at the same place, for a character `c` that is
/// not an ASCII letter.
pub proof fn lemma_twins_last_index(a: Seq<char>, b: Seq<char>, c: char)
    requires
        case_twins(a, b),
        !('A' <= c && c <= 'Z'),
        !('a' <= c && c <= 'z'),
    ensures
        last_index_of(a, c) == last_index_of(b, c),
    decreases a.len(),
{
    if a.len() > 0 {
        let x = a.last();
        let y = b.last();
        assert(ascii_folded(a[a.len() - 1]) == ascii_folded(b[b.len() - 1]));
        if x == c {
            assert(!('A' <= y && y <= 'Z'));
            assert(y as u32 == c as u32);
            char_u32_cast(y, y as u32);
            char_u32_cast(c, c as u32);
        }
        if y == c {
            assert(!('A' <= x && x <= 'Z'));
            assert(x as u32 == c as u32);
            char_u32_cast(x, x as u32);
            char_u32_cast(c, c as u32);
        }
        assert((x == c) == (y == c));
        lemma_twins_subrange(a, b, 0, a.len() - 1);
        assert(a.drop_last() =~= a.subrange(0, a.len() - 1));
        assert(b.drop_last() =~= b.subrange(0, b.len() - 1));
        lemma_twins_last_index(a.drop_last(), b.drop_last(), c);
    }
}

/// Cutting twins to a byte limit gives twins, and leaves both whole or
/// neither.
pub proof fn lemma_twins_truncate(a: Seq<char>, b: Seq<char>, max_bytes: int)
    requires
        case_twins(a, b),
        max_bytes >= 0,
    ensures
        case_twins(truncate_chars(a, max_bytes), truncate_chars(b, max_bytes)),
        (truncate_chars(a, max_bytes) == a) == (truncate_chars(b, max_bytes) == b),
    decreases a.len(),
{
    lemma_ascii_utf8_len(a);
    lemma_ascii_utf8_len(b);
    if !(utf8_len(a) <= max_bytes || a.len() == 0) {
        lemma_twins_subrange(a, b, 0, a.len() - 1);
        assert(a.drop_last() =~= a.subrange(0, a.len() - 1));
        assert(b.drop_last() =~= b.subrange(0, b.len() - 1));
        lemma_twins_truncate(a.drop_last(), b.drop_last(), max_bytes);
        lemma_truncate_chars(a.drop_last(), max_bytes);
        lemma_truncate_chars(b.drop_last(), max_bytes);
    }
}

/// On ASCII text, the prefix of a given UTF-8 length is the prefix of that
/// many characters.
pub proof fn lemma_ascii_prefix_of_utf8_len(s: Seq<char>, n: int)
    requires
        is_ascii_text(s),
    ensures
        prefix_of_utf8_len(s, n) == (if 0 <= n <= s.len() {
            Some(s.take(n))
        } else {
            None::<Seq<char>>
        }),
    decreases s.len(),
{
    lemma_ascii_utf8_len(s);
    if s.len() == n {
        assert(s.take(n) =~= s);
    } else if s.len() > 0 {
        assert(is_ascii_text(s.drop_last()));
        lemma_ascii_prefix_of_utf8_len(s.drop_last(), n);
        if 0 <= n <= s.len() {
            assert(s.drop_last().take(n) =~= s.take(n));
        }
    }
}

} // verus!
