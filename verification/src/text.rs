//! Character-level helpers shared by the path, key and parsing logic.
use vstd::prelude::*;
use vstd::utf8::*;

verus! {

/// Unicode lowercase mapping of a whole string, as `str::to_lowercase` computes it.
pub uninterp spec fn lowercase(s: Seq<char>) -> Seq<char>;

/// Calls `str::to_lowercase`; the result is the Unicode lowercase form of `s`,
/// a function of `s` alone (named `lowercase`, its tables are not restated here).
/// On ASCII text it maps `A`-`Z` to `a`-`z` and keeps every other character, as
/// the standard library documents.
#[verifier::external_body]
pub(crate) fn to_lowercase(s: &str) -> (r: String)
    ensures
        r@ == lowercase(s@),
        is_ascii_chars(s@) ==> r@ == s@.map_values(|c: char| crate::config::lower_ascii(c)),
{
    s.to_lowercase()
}

/// ASCII lowercase of each character.
pub open spec fn lower_ascii_seq(s: Seq<char>) -> Seq<char> {
    s.map_values(|c: char| crate::config::lower_ascii(c))
}

/// `lowercase` acts on `s` character by character, as it does on ASCII text.
pub open spec fn lowers_per_char(s: Seq<char>) -> bool {
    lowercase(s) == lower_ascii_seq(s)
}

/// Calls `Iterator::collect` into a `String`: the string holds exactly the given characters.
#[verifier::external_body]
fn string_from_chars(v: &[char]) -> (r: String)
    ensures
        r@ == v@,
{
    v.iter().collect()
}

/// The characters of a string slice, in order.
pub fn chars_of(s: &str) -> (v: Vec<char>)
    ensures
        v@ == s@,
{
    let mut v: Vec<char> = Vec::new();
    for c in it: s.chars()
        invariant
            v@ == it.seq().take(it.index() as int),
    {
        v.push(c);
    }
    v
}

/// A string holding the given characters.
pub fn string_of(v: &Vec<char>) -> (r: String)
    ensures
        r@ == v@,
{
    string_from_chars(v.as_slice())
}

pub open spec fn is_digit(c: char) -> bool {
    '0' <= c <= '9'
}

pub open spec fn digit_value(c: char) -> nat {
    (c as nat - '0' as nat) as nat
}

pub open spec fn all_digits(s: Seq<char>) -> bool {
    forall|i: int| 0 <= i < s.len() ==> is_digit(#[trigger] s[i])
}

/// Numeric value of a run of decimal digits.
pub open spec fn digits_value(s: Seq<char>) -> nat
    decreases s.len(),
{
    if s.len() == 0 {
        0
    } else {
        digits_value(s.drop_last()) * 10 + digit_value(s.last())
    }
}

/// What `<uN as FromStr>::from_str` yields for an unsigned type whose maximum is `max`:
/// an optional leading `+`, then one or more ASCII digits whose value fits.
pub open spec fn parse_unsigned(s: Seq<char>, max: nat) -> Option<nat> {
    let d = if s.len() > 0 && s[0] == '+' { s.drop_first() } else { s };
    if d.len() == 0 || !all_digits(d) {
        None
    } else if digits_value(d) > max {
        None
    } else {
        Some(digits_value(d))
    }
}

proof fn lemma_digits_value_push(s: Seq<char>, c: char)
    ensures
        digits_value(s.push(c)) == digits_value(s) * 10 + digit_value(c),
{
    assert(s.push(c).drop_last() =~= s);
}

proof fn lemma_value_prefix_le(d: Seq<char>, k: int)
    requires
        all_digits(d),
        0 <= k <= d.len(),
    ensures
        digits_value(d.take(k)) <= digits_value(d),
    decreases d.len(),
{
    if k == d.len() {
        assert(d.take(k) =~= d);
    } else {
        assert(d.take(k) =~= d.drop_last().take(k));
        lemma_value_prefix_le(d.drop_last(), k);
    }
}

/// Parses an unsigned decimal number no greater than `max`, the way `str::parse` does
/// for an unsigned integer type whose maximum is `max`.
pub fn parse_unsigned_chars(s: &[char], max: u64) -> (r: Option<u64>)
    ensures
        match r {
            Some(v) => parse_unsigned(s@, max as nat) == Some(v as nat),
            None => parse_unsigned(s@, max as nat) is None,
        },
{
    let n = s.len();
    let start: usize = if n > 0 && s[0] == '+' { 1 } else { 0 };
    let ghost d = if s@.len() > 0 && s@[0] == '+' { s@.drop_first() } else { s@ };
    assert(d =~= s@.subrange(start as int, n as int));
    if start == n {
        return None;
    }
    let mut acc: u64 = 0;
    let mut i = start;
    while i < n
        invariant
            start <= i <= n,
            n == s@.len(),
            d =~= s@.subrange(start as int, n as int),
            d == (if s@.len() > 0 && s@[0] == '+' { s@.drop_first() } else { s@ }),
            all_digits(s@.subrange(start as int, i as int)),
            acc as nat == digits_value(s@.subrange(start as int, i as int)),
            acc <= max,
        decreases n - i,
    {
        let c = s[i];
        let ghost prev = s@.subrange(start as int, i as int);
        assert(s@.subrange(start as int, i + 1) =~= prev.push(c));
        proof {
            lemma_digits_value_push(prev, c);
        }
        if !('0' <= c && c <= '9') {
            assert(!is_digit(d[i - start]));
            assert(!all_digits(d));
            return None;
        }
        let dv = (c as u32 - '0' as u32) as u64;
        let next: u128 = acc as u128 * 10 + dv as u128;
        if next > max as u128 {
            proof {
                assert(s@.subrange(start as int, i + 1) =~= d.take(i + 1 - start));
                assert(digits_value(d.take(i + 1 - start)) == next);
                if all_digits(d) {
                    lemma_value_prefix_le(d, (i + 1 - start) as int);
                }
            }
            return None;
        }
        assert(all_digits(s@.subrange(start as int, i + 1))) by {
            assert forall|j: int| 0 <= j < i + 1 - start implies is_digit(#[trigger] s@.subrange(start as int, i + 1)[j]) by {
                if j < i - start {
                    assert(s@.subrange(start as int, i + 1)[j] == prev[j]);
                }
            }
        }
        acc = next as u64;
        i = i + 1;
    }
    assert(s@.subrange(start as int, n as int) =~= d);
    Some(acc)
}


/// What `<i32 as FromStr>::from_str` yields: an optional `+` or `-`, then one or
/// more ASCII digits whose signed value fits in `i32`.
pub open spec fn parse_i32_spec(s: Seq<char>) -> Option<int> {
    if s.len() > 0 && s[0] == '-' {
        let d = s.drop_first();
        if d.len() == 0 || !all_digits(d) || digits_value(d) > 2147483648 {
            None
        } else {
            Some(-(digits_value(d) as int))
        }
    } else {
        match parse_unsigned(s, 2147483647) {
            Some(v) => Some(v as int),
            None => None,
        }
    }
}

/// Parses an `i32` the way `str::parse` does (see `parse_i32_spec`).
pub fn parse_i32_chars(s: &[char]) -> (r: Option<i32>)
    ensures
        match r {
            Some(v) => parse_i32_spec(s@) == Some(v as int),
            None => parse_i32_spec(s@) is None,
        },
{
    if s.len() > 0 && s[0] == '-' {
        let d = crate::winpath::sub_chars(s, 1, s.len());
        assert(d@ =~= s@.drop_first());
        if d.len() > 0 && d[0] == '+' {
            assert(!is_digit(d@[0]));
            return None;
        }
        match parse_unsigned_chars(d.as_slice(), 2147483648) {
            Some(v) => {
                assert(d@.len() > 0 ==> d@[0] != '+');
                Some((0 - (v as i64)) as i32)
            },
            None => None,
        }
    } else {
        match parse_unsigned_chars(s, 2147483647) {
            Some(v) => Some(v as i32),
            None => None,
        }
    }
}

/// Number of occurrences of byte `b` in `s`.
pub open spec fn count_byte(s: Seq<u8>, b: u8) -> nat
    decreases s.len(),
{
    if s.len() == 0 {
        0
    } else {
        (if s[0] == b { 1nat } else { 0nat }) + count_byte(s.drop_first(), b)
    }
}

/// Occurrences of a byte add up over a concatenation.
pub proof fn lemma_count_concat(a: Seq<u8>, c: Seq<u8>, b: u8)
    ensures
        count_byte(a + c, b) == count_byte(a, b) + count_byte(c, b),
    decreases a.len(),
{
    if a.len() == 0 {
        assert(a + c =~= c);
    } else {
        assert((a + c).drop_first() =~= a.drop_first() + c);
        assert((a + c)[0] == a[0]);
        lemma_count_concat(a.drop_first(), c, b);
    }
}

/// Occurrences of a byte add up over a split into three parts.
pub proof fn lemma_count_split3(s: Seq<u8>, i: int, j: int, b: u8)
    requires
        0 <= i <= j <= s.len(),
    ensures
        count_byte(s, b) == count_byte(s.take(i), b) + count_byte(s.subrange(i, j), b)
            + count_byte(s.skip(j), b),
{
    assert(s =~= s.take(i) + s.subrange(i, j) + s.skip(j));
    lemma_count_concat(s.take(i) + s.subrange(i, j), s.skip(j), b);
    lemma_count_concat(s.take(i), s.subrange(i, j), b);
}

/// UTF-8 encoding distributes over concatenation.
pub proof fn lemma_encode_concat(x: Seq<char>, y: Seq<char>)
    ensures
        encode_utf8(x + y) == encode_utf8(x) + encode_utf8(y),
    decreases x.len(),
{
    if x.len() == 0 {
        assert(x + y =~= y);
        assert(encode_utf8(x) + encode_utf8(y) =~= encode_utf8(y));
    } else {
        assert((x + y).drop_first() =~= x.drop_first() + y);
        assert((x + y)[0] == x[0]);
        lemma_encode_concat(x.drop_first(), y);
        assert(encode_scalar(x[0] as u32) + (encode_utf8(x.drop_first()) + encode_utf8(y))
            =~= (encode_scalar(x[0] as u32) + encode_utf8(x.drop_first())) + encode_utf8(y));
    }
}

proof fn lemma_high_bytes(x: u8)
    by (bit_vector)
    ensures
        (0xC0u8 | x) != 0x25u8,
        (0xE0u8 | x) != 0x25u8,
        (0xF0u8 | x) != 0x25u8,
        (0x80u8 | x) != 0x25u8,
{
}

proof fn lemma_low_byte(c: u32)
    by (bit_vector)
    requires
        c <= 0x7f,
        c != 0x25,
    ensures
        ((c & 0x7f) as u8) != 0x25u8,
{
}

/// A byte that does not occur has no occurrences.
pub proof fn lemma_count_none(s: Seq<u8>, b: u8)
    requires
        forall|j: int| 0 <= j < s.len() ==> #[trigger] s[j] != b,
    ensures
        count_byte(s, b) == 0,
    decreases s.len(),
{
    if s.len() > 0 {
        assert(s[0] != b);
        assert forall|j: int| 0 <= j < s.drop_first().len() implies #[trigger] s.drop_first()[j]
            != b by {
            assert(s.drop_first()[j] == s[j + 1]);
        }
        lemma_count_none(s.drop_first(), b);
    }
}

/// A character other than `%` encodes to bytes without the `%` byte.
proof fn lemma_scalar_no_percent(ch: char)
    requires
        ch != '%',
    ensures
        count_byte(encode_scalar(ch as u32), 0x25) == 0,
{
    let c = ch as u32;
    let e = encode_scalar(c);
    assert(c != 0x25) by {
        if c == 0x25 {
            char_u32_cast(ch, c);
            char_u32_cast('%', '%' as u32);
            assert('%' as u32 == 0x25);
        }
    }
    if has_width_1_encoding(c) {
        lemma_low_byte(c);
    } else if has_width_2_encoding(c) {
        lemma_high_bytes(((c >> 6) & 0x1F) as u8);
        lemma_high_bytes((c & 0x3F) as u8);
    } else if has_width_3_encoding(c) {
        lemma_high_bytes(((c >> 12) & 0x0F) as u8);
        lemma_high_bytes(((c >> 6) & 0x3F) as u8);
        lemma_high_bytes((c & 0x3F) as u8);
    } else {
        lemma_high_bytes(((c >> 18) & 0x7) as u8);
        lemma_high_bytes(((c >> 12) & 0x3F) as u8);
        lemma_high_bytes(((c >> 6) & 0x3F) as u8);
        lemma_high_bytes((c & 0x3F) as u8);
    }
    assert forall|j: int| 0 <= j < e.len() implies #[trigger] e[j] != 0x25u8 by {}
    lemma_count_none(e, 0x25);
}

/// A character sequence without `%` encodes to bytes without the `%` byte.
pub proof fn lemma_encode_no_percent(v: Seq<char>)
    requires
        forall|i: int| 0 <= i < v.len() ==> #[trigger] v[i] != '%',
    ensures
        count_byte(encode_utf8(v), 0x25) == 0,
    decreases v.len(),
{
    if v.len() > 0 {
        assert(v[0] != '%');
        lemma_scalar_no_percent(v[0]);
        lemma_encode_no_percent(v.drop_first());
        lemma_count_concat(encode_scalar(v[0] as u32), encode_utf8(v.drop_first()), 0x25);
    }
}

/// At most one `%` in `v`.
pub open spec fn one_percent_at_most(v: Seq<char>) -> bool {
    forall|i: int, j: int|
        #![trigger v[i], v[j]]
        0 <= i < j < v.len() && v[i] == '%' ==> v[j] != '%'
}

/// A character sequence with at most one `%` encodes to at most one `%` byte.
pub proof fn lemma_encode_one_percent(v: Seq<char>)
    requires
        one_percent_at_most(v),
    ensures
        count_byte(encode_utf8(v), 0x25) <= 1,
    decreases v.len(),
{
    if v.len() > 0 {
        let rest = v.drop_first();
        if v[0] == '%' {
            assert forall|i: int| 0 <= i < rest.len() implies #[trigger] rest[i] != '%' by {
                assert(v[0] == '%' && v[i + 1] == rest[i]);
            }
            lemma_encode_no_percent(rest);
            assert(has_width_1_encoding('%' as u32));
            assert(encode_scalar(v[0] as u32).len() == 1);
            reveal_with_fuel(count_byte, 2);
        } else {
            lemma_scalar_no_percent(v[0]);
            assert forall|i: int, j: int|
                #![trigger rest[i], rest[j]]
                0 <= i < j < rest.len() && rest[i] == '%' implies rest[j] != '%' by {
                assert(v[i + 1] == rest[i] && v[j + 1] == rest[j]);
            }
            lemma_encode_one_percent(rest);
        }
        lemma_count_concat(encode_scalar(v[0] as u32), encode_utf8(rest), 0x25);
    }
}

/// ASCII lowercase of a byte.
pub open spec fn lower_byte(b: u8) -> u8 {
    if 65 <= b <= 90 { (b + 32) as u8 } else { b }
}

/// ASCII case-insensitive equality (`eq_ignore_ascii_case`).
pub open spec fn eq_ignore_case(a: Seq<u8>, b: Seq<u8>) -> bool {
    a.len() == b.len() && forall|i: int| 0 <= i < a.len() ==> lower_byte(#[trigger] a[i]) == lower_byte(b[i])
}

/// First index at or after `i` where `needle` occurs in `hay` (`str::find`).
pub open spec fn find_from(hay: Seq<u8>, needle: Seq<u8>, i: nat) -> Option<nat>
    decreases hay.len() + 1 - i,
{
    if i + needle.len() > hay.len() {
        None
    } else if hay.subrange(i as int, i + needle.len() as int) == needle {
        Some(i)
    } else {
        find_from(hay, needle, i + 1)
    }
}

proof fn lemma_find_from_bound(hay: Seq<u8>, needle: Seq<u8>, i: nat)
    ensures
        find_from(hay, needle, i) matches Some(p) ==> i <= p && p + needle.len() <= hay.len(),
    decreases hay.len() + 1 - i,
{
    if i + needle.len() <= hay.len() && hay.subrange(i as int, i + needle.len() as int) != needle {
        lemma_find_from_bound(hay, needle, i + 1);
    }
}

/// `needle` occurs in `hay` at `at`.
pub fn occurs_at(hay: &[u8], needle: &[u8], at: usize) -> (r: bool)
    requires
        at + needle@.len() <= hay@.len(),
    ensures
        r == (hay@.subrange(at as int, at + needle@.len()) == needle@),
{
    let mut k: usize = 0;
    let hl = hay.len();
    while k < needle.len()
        invariant
            k <= needle@.len(),
            at + needle@.len() <= hay@.len(),
            hl == hay@.len(),
            forall|j: int| 0 <= j < k ==> hay@[at + j] == needle@[j],
        decreases needle@.len() - k,
    {
        if hay[at + k] != needle[k] {
            assert(hay@.subrange(at as int, at + needle@.len())[k as int] != needle@[k as int]);
            return false;
        }
        k = k + 1;
    }
    assert(hay@.subrange(at as int, at + needle@.len()) =~= needle@);
    true
}

/// First occurrence of `needle` in `hay`.
pub fn find_bytes(hay: &[u8], needle: &[u8]) -> (r: Option<usize>)
    ensures
        match r {
            Some(p) => find_from(hay@, needle@, 0) == Some(p as nat),
            None => find_from(hay@, needle@, 0) is None,
        },
        r matches Some(p) ==> p + needle@.len() <= hay@.len(),
{
    if needle.len() > hay.len() {
        return None;
    }
    let last = hay.len() - needle.len();
    let mut i: usize = 0;
    loop
        invariant
            last + needle@.len() == hay@.len(),
            i <= last,
            find_from(hay@, needle@, 0) == find_from(hay@, needle@, i as nat),
        decreases last - i,
    {
        if occurs_at(hay, needle, i) {
            return Some(i);
        }
        if i == last {
            assert(find_from(hay@, needle@, (i + 1) as nat) is None);
            return None;
        }
        i = i + 1;
    }
}

fn lower_byte_exec(b: u8) -> (r: u8)
    ensures
        r == lower_byte(b),
{
    if 65 <= b && b <= 90 { b + 32 } else { b }
}

/// ASCII case-insensitive comparison of `hay[at..at + needle.len()]` with `needle`.
pub fn eq_ignore_case_at(hay: &[u8], at: usize, needle: &[u8]) -> (r: bool)
    requires
        at + needle@.len() <= hay@.len(),
    ensures
        r == eq_ignore_case(hay@.subrange(at as int, at + needle@.len()), needle@),
{
    let mut k: usize = 0;
    let hl = hay.len();
    while k < needle.len()
        invariant
            k <= needle@.len(),
            at + needle@.len() <= hay@.len(),
            hl == hay@.len(),
            forall|j: int| 0 <= j < k ==> lower_byte(hay@[at + j]) == lower_byte(needle@[j]),
        decreases needle@.len() - k,
    {
        if lower_byte_exec(hay[at + k]) != lower_byte_exec(needle[k]) {
            assert(hay@.subrange(at as int, at + needle@.len())[k as int] == hay@[at + k]);
            return false;
        }
        k = k + 1;
    }
    assert forall|j: int| 0 <= j < needle@.len() implies lower_byte(
        #[trigger] hay@.subrange(at as int, at + needle@.len())[j],
    ) == lower_byte(needle@[j]) by {
        assert(hay@.subrange(at as int, at + needle@.len())[j] == hay@[at + j]);
    }
    true
}


// ==================== WHITESPACE ====================

/// The Unicode `White_Space` property (`char::is_whitespace`).
pub open spec fn is_whitespace(c: char) -> bool {
    ||| ('\u{9}' <= c <= '\u{d}')
    ||| c == ' '
    ||| c == '\u{85}'
    ||| c == '\u{a0}'
    ||| c == '\u{1680}'
    ||| ('\u{2000}' <= c <= '\u{200a}')
    ||| c == '\u{2028}'
    ||| c == '\u{2029}'
    ||| c == '\u{202f}'
    ||| c == '\u{205f}'
    ||| c == '\u{3000}'
}

pub fn is_whitespace_exec(c: char) -> (r: bool)
    ensures
        r == is_whitespace(c),
{
    ('\u{9}' <= c && c <= '\u{d}') || c == ' ' || c == '\u{85}' || c == '\u{a0}' || c == '\u{1680}'
        || ('\u{2000}' <= c && c <= '\u{200a}') || c == '\u{2028}' || c == '\u{2029}' || c
        == '\u{202f}' || c == '\u{205f}' || c == '\u{3000}'
}

/// `s` without its leading whitespace.
pub open spec fn trim_start(s: Seq<char>) -> Seq<char>
    decreases s.len(),
{
    if s.len() > 0 && is_whitespace(s[0]) {
        trim_start(s.drop_first())
    } else {
        s
    }
}

/// `s` without its trailing whitespace.
pub open spec fn trim_end(s: Seq<char>) -> Seq<char>
    decreases s.len(),
{
    if s.len() > 0 && is_whitespace(s.last()) {
        trim_end(s.drop_last())
    } else {
        s
    }
}

/// `str::trim`: leading and trailing whitespace removed.
pub open spec fn trim(s: Seq<char>) -> Seq<char> {
    trim_end(trim_start(s))
}

/// Text that neither starts nor ends with whitespace is its own trimmed form.
pub proof fn lemma_trim_fixed(s: Seq<char>)
    requires
        s.len() > 0 ==> !is_whitespace(s[0]) && !is_whitespace(s.last()),
    ensures
        trim(s) == s,
{
}

/// Decimal digits are not whitespace.
pub proof fn lemma_dec_no_whitespace(n: nat)
    ensures
        !is_whitespace(dec(n)[0]),
        !is_whitespace(dec(n).last()),
        forall|i: int| 0 <= i < dec(n).len() ==> is_digit(#[trigger] dec(n)[i]),
{
    lemma_dec_parses(n);
}

proof fn lemma_trim_start_skip(s: Seq<char>, i: int)
    requires
        0 <= i <= s.len(),
        forall|j: int| 0 <= j < i ==> is_whitespace(#[trigger] s[j]),
    ensures
        trim_start(s) == trim_start(s.skip(i)),
    decreases i,
{
    if i > 0 {
        assert(s.drop_first().skip(i - 1) =~= s.skip(i));
        lemma_trim_start_skip(s.drop_first(), i - 1);
    } else {
        assert(s.skip(0) =~= s);
    }
}

/// The characters of `s` without leading and trailing whitespace.
pub fn trim_chars(s: &str) -> (r: Vec<char>)
    ensures
        r@ == trim(s@),
{
    let cs = chars_of(s);
    let mut a: usize = 0;
    while a < cs.len() && is_whitespace_exec(cs[a])
        invariant
            a <= cs@.len(),
            cs@ == s@,
            forall|j: int| 0 <= j < a ==> is_whitespace(#[trigger] s@[j]),
        decreases cs@.len() - a,
    {
        a = a + 1;
    }
    proof {
        lemma_trim_start_skip(s@, a as int);
    }
    let mut v = crate::winpath::sub_chars(cs.as_slice(), a, cs.len());
    assert(v@ =~= s@.skip(a as int));
    assert(trim_start(s@.skip(a as int)) == s@.skip(a as int));
    while v.len() > 0 && is_whitespace_exec(v[v.len() - 1])
        invariant
            trim_end(v@) == trim(s@),
        decreases v@.len(),
    {
        v.pop();
    }
    v
}

// ==================== DECIMAL ====================

pub open spec fn digit_char(d: nat) -> char {
    ('0' as nat + d) as char
}

/// Decimal digits of `n`, most significant first, no leading zeros.
pub open spec fn dec(n: nat) -> Seq<char>
    decreases n,
{
    if n < 10 {
        seq![digit_char(n)]
    } else {
        dec(n / 10).push(digit_char(n % 10))
    }
}

/// The decimal form of `n` reads back as `n`: one or more digits whose value is `n`.
pub proof fn lemma_dec_parses(n: nat)
    ensures
        dec(n).len() > 0,
        all_digits(dec(n)),
        digits_value(dec(n)) == n,
        forall|max: nat| n <= max ==> #[trigger] parse_unsigned(dec(n), max) == Some(n),
    decreases n,
{
    if n < 10 {
        let d = dec(n);
        assert(d.drop_last() =~= Seq::<char>::empty());
        assert(digits_value(Seq::<char>::empty()) == 0);
        assert(digit_char(n) as nat == 48 + n);
        assert(digits_value(d) == digits_value(d.drop_last()) * 10 + digit_value(d.last()));
    } else {
        lemma_dec_parses(n / 10);
        let d = dec(n);
        lemma_digits_value_push(dec(n / 10), digit_char(n % 10));
        assert(digit_char(n % 10) as nat == 48 + n % 10);
        assert(d == dec(n / 10).push(digit_char(n % 10)));
        assert forall|j: int| 0 <= j < d.len() implies is_digit(#[trigger] d[j]) by {
            if j < d.len() - 1 {
                assert(d[j] == dec(n / 10)[j]);
            }
        }
        assert(n == (n / 10) * 10 + n % 10);
    }
    assert(is_digit(dec(n)[0]));
    assert forall|max: nat| n <= max implies #[trigger] parse_unsigned(dec(n), max) == Some(n) by {
        assert(dec(n)[0] != '+');
    }
}

/// `n` as it prints (`{}`): a `-` for negative numbers, then its decimal digits.
pub open spec fn dec_int(n: int) -> Seq<char> {
    if n < 0 {
        seq!['-'] + dec((-n) as nat)
    } else {
        dec(n as nat)
    }
}

/// Appends the decimal digits of `n`.
pub fn push_dec(n: u64, out: &mut Vec<char>)
    ensures
        final(out)@ == old(out)@ + dec(n as nat),
    decreases n,
{
    if n < 10 {
        out.push(((48u8 + n as u8) as u8) as char);
        assert(old(out)@ + dec(n as nat) =~= old(out)@.push(digit_char(n as nat)));
    } else {
        push_dec(n / 10, out);
        out.push(((48u8 + (n % 10) as u8) as u8) as char);
        assert(old(out)@ + dec(n as nat) =~= (old(out)@ + dec((n / 10) as nat)).push(
            digit_char((n % 10) as nat),
        ));
    }
}

/// Appends `n` as it prints.
pub fn push_int(n: i64, out: &mut Vec<char>)
    ensures
        final(out)@ == old(out)@ + dec_int(n as int),
{
    if n < 0 {
        out.push('-');
        let m: u64 = if n == i64::MIN {
            9223372036854775808u64
        } else {
            (-n) as u64
        };
        let ghost o1 = out@;
        push_dec(m, out);
        assert(old(out)@ + dec_int(n as int) =~= o1 + dec(m as nat));
    } else {
        push_dec(n as u64, out);
    }
}

/// Appends the characters of `s`.
pub fn push_str(out: &mut Vec<char>, s: &str)
    ensures
        final(out)@ == old(out)@ + s@,
{
    let cs = chars_of(s);
    let mut i: usize = 0;
    let ghost o = out@;
    while i < cs.len()
        invariant
            i <= cs@.len(),
            cs@ == s@,
            out@ == o + s@.take(i as int),
        decreases cs@.len() - i,
    {
        out.push(cs[i]);
        assert(s@.take(i as int + 1) =~= s@.take(i as int).push(cs@[i as int]));
        i = i + 1;
    }
    assert(s@.take(cs@.len() as int) =~= s@);
}

/// The strings joined with `sep` between them.
pub open spec fn join_with(parts: Seq<Seq<char>>, sep: Seq<char>) -> Seq<char>
    decreases parts.len(),
{
    if parts.len() == 0 {
        seq![]
    } else if parts.len() == 1 {
        parts[0]
    } else {
        join_with(parts.drop_last(), sep) + sep + parts.last()
    }
}

/// `parts.join(sep)`.
pub fn join_strings(parts: &Vec<String>, sep: &str) -> (r: String)
    ensures
        r@ == join_with(parts@.map_values(|x: String| x@), sep@),
{
    let ghost ps = parts@.map_values(|x: String| x@);
    let mut out: Vec<char> = Vec::new();
    let mut i: usize = 0;
    while i < parts.len()
        invariant
            i <= parts@.len(),
            ps == parts@.map_values(|x: String| x@),
            out@ == join_with(ps.take(i as int), sep@),
        decreases parts@.len() - i,
    {
        let ghost prev = out@;
        if i > 0 {
            push_str(&mut out, sep);
        }
        push_str(&mut out, parts[i].as_str());
        let ghost t = ps.take(i as int + 1);
        assert(t.drop_last() =~= ps.take(i as int));
        assert(t.last() == parts@[i as int]@);
        if i == 0 {
            assert(out@ =~= join_with(t, sep@));
        } else {
            assert(out@ =~= join_with(t, sep@));
        }
        i = i + 1;
    }
    assert(ps.take(parts@.len() as int) =~= ps);
    string_of(&out)
}

} // verus!
