//! Small text helpers: trimming, and reading and writing numbers.
use vstd::prelude::*;
use vstd::utf8::{decode_utf8, valid_utf8};

verus! {

/// The Unicode White_Space property.
pub open spec fn white_space(c: char) -> bool {
    ||| '\u{9}' <= c <= '\u{d}'
    ||| c == '\u{20}'
    ||| c == '\u{85}'
    ||| c == '\u{a0}'
    ||| c == '\u{1680}'
    ||| '\u{2000}' <= c <= '\u{200a}'
    ||| c == '\u{2028}'
    ||| c == '\u{2029}'
    ||| c == '\u{202f}'
    ||| c == '\u{205f}'
    ||| c == '\u{3000}'
}

/// `s` without leading white space.
pub open spec fn trimmed_start(s: Seq<char>) -> Seq<char>
    decreases s.len(),
{
    if s.len() > 0 && white_space(s[0]) {
        trimmed_start(s.skip(1))
    } else {
        s
    }
}

/// `s` without trailing white space.
pub open spec fn trimmed_end(s: Seq<char>) -> Seq<char>
    decreases s.len(),
{
    if s.len() > 0 && white_space(s.last()) {
        trimmed_end(s.drop_last())
    } else {
        s
    }
}

/// `s` without leading and trailing white space.
pub open spec fn trimmed(s: Seq<char>) -> Seq<char> {
    trimmed_end(trimmed_start(s))
}

/// The decimal digits.
pub open spec fn digit(c: char) -> bool {
    '0' <= c <= '9'
}

/// Whether every character is a decimal digit.
pub open spec fn all_digits(s: Seq<char>) -> bool {
    forall|i: int| 0 <= i < s.len() ==> digit(#[trigger] s[i])
}

/// The number that a row of decimal digits stands for.
pub open spec fn digits_value(s: Seq<char>) -> nat
    decreases s.len(),
{
    if s.len() == 0 {
        0
    } else {
        digits_value(s.drop_last()) * 10 + (s.last() as nat - '0' as nat) as nat
    }
}

/// `s` read as an unsigned number: an optional `+`, then at least one digit.
/// `None` when it is not of that form or does not fit in 32 bits.
pub open spec fn read_u32(s: Seq<char>) -> Option<u32> {
    let digits = if s.len() > 0 && s[0] == '+' {
        s.skip(1)
    } else {
        s
    };
    if digits.len() > 0 && all_digits(digits) && digits_value(digits) <= u32::MAX {
        Some(digits_value(digits) as u32)
    } else {
        None
    }
}

/// Where the row of digits that starts at `i` ends.
pub open spec fn digits_end(s: Seq<char>, i: int) -> int
    decreases s.len() - i,
{
    if 0 <= i < s.len() && digit(s[i]) {
        digits_end(s, i + 1)
    } else {
        i
    }
}

/// Whether a sign stands at `i`.
pub open spec fn sign_at(s: Seq<char>, i: int) -> bool {
    0 <= i < s.len() && (s[i] == '+' || s[i] == '-')
}

/// Where the mantissa that starts at `i` ends: digits, or digits around a
/// point with at least one digit in all.
pub open spec fn mantissa_end(s: Seq<char>, i: int) -> Option<int> {
    let whole = digits_end(s, i);
    if whole < s.len() && s[whole] == '.' {
        let fraction = digits_end(s, whole + 1);
        if whole > i || fraction > whole + 1 {
            Some(fraction)
        } else {
            None
        }
    } else if whole > i {
        Some(whole)
    } else {
        None
    }
}

/// Whether what stands from `i` on is nothing, or an exponent: `e`, an
/// optional sign and at least one digit.
pub open spec fn exponent_from(s: Seq<char>, i: int) -> bool {
    if i == s.len() {
        true
    } else if s[i] == 'e' || s[i] == 'E' {
        let start = if sign_at(s, i + 1) {
            i + 2
        } else {
            i + 1
        };
        digits_end(s, start) > start && digits_end(s, start) == s.len()
    } else {
        false
    }
}

/// The letter `c` in lower case; other characters as they are.
pub open spec fn lower(c: char) -> char {
    if 'A' <= c <= 'Z' {
        (c as u8 + 32) as u8 as char
    } else {
        c
    }
}

/// Whether `s` from `i` on is `word`, in any case. `word` is in lower case.
pub open spec fn spells(s: Seq<char>, i: int, word: Seq<char>) -> bool {
    s.len() - i == word.len() && forall|k: int|
        0 <= k < word.len() ==> lower(s[i + k]) == #[trigger] word[k]
}

/// Whether `s` is the text of a floating-point number: an optional sign, then
/// `inf`, `infinity` or `nan` in any case, or a mantissa with an optional
/// exponent.
pub open spec fn float_text(s: Seq<char>) -> bool {
    let start = if sign_at(s, 0) {
        1int
    } else {
        0int
    };
    ||| spells(s, start, seq!['i', 'n', 'f'])
    ||| spells(s, start, seq!['i', 'n', 'f', 'i', 'n', 'i', 't', 'y'])
    ||| spells(s, start, seq!['n', 'a', 'n'])
    ||| (match mantissa_end(s, start) {
        Some(end) => exponent_from(s, end),
        None => false,
    })
}

/// Whether the first `n` bytes, and no more, are valid UTF-8.
pub open spec fn is_valid_prefix_len(bytes: Seq<u8>, n: int) -> bool {
    &&& 0 <= n <= bytes.len()
    &&& valid_utf8(bytes.take(n))
    &&& forall|m: int| n < m <= bytes.len() ==> !valid_utf8(#[trigger] bytes.take(m))
}

/// The decimal digits of `n`, without leading zeros.
pub open spec fn decimal(n: nat) -> Seq<char>
    decreases n,
{
    if n < 10 {
        seq![(n + '0' as nat) as char]
    } else {
        decimal(n / 10).push((n % 10 + '0' as nat) as char)
    }
}

/// `core::str::from_utf8`: the text that `bytes` encode, or the length of the
/// longest prefix that is valid UTF-8.
#[verifier::external_body]
pub(crate) fn utf8_text(bytes: &[u8]) -> (r: Result<&str, usize>)
    ensures
        match r {
            Ok(s) => valid_utf8(bytes@) && s@ == decode_utf8(bytes@),
            Err(n) => !valid_utf8(bytes@) && is_valid_prefix_len(bytes@, n as int),
        },
{
    core::str::from_utf8(bytes).map_err(|e| e.valid_up_to())
}

/// The text in an optional string.
pub open spec fn text_in(s: Option<String>) -> Option<Seq<char>> {
    match s {
        Some(t) => Some(t@),
        None => None,
    }
}

/// The characters of `s`.
pub fn chars_of(s: &str) -> (r: Vec<char>)
    ensures
        r@ == s@,
{
    let mut out: Vec<char> = Vec::new();
    for c in it: s.chars()
        invariant
            it.seq() == s@,
            out@ == s@.take(it.index()),
    {
        out.push(c);
    }
    out
}

/// Whether two texts are the same.
pub fn same_text(a: &str, b: &str) -> (r: bool)
    ensures
        r == (a@ == b@),
{
    let x = chars_of(a);
    let y = chars_of(b);
    if x.len() != y.len() {
        return false;
    }
    let mut i: usize = 0;
    while i < x.len()
        invariant
            i <= x@.len(),
            x@.len() == y@.len(),
            forall|k: int| 0 <= k < i ==> #[trigger] x@[k] == y@[k],
            x@ == a@,
            y@ == b@,
        decreases x@.len() - i,
    {
        if x[i] != y[i] {
            assert(a@[i as int] != b@[i as int]);
            return false;
        }
        i = i + 1;
    }
    assert(x@ =~= y@);
    true
}

pub fn is_white_space(c: char) -> (r: bool)
    ensures
        r == white_space(c),
{
    ('\u{9}' <= c && c <= '\u{d}') || c == '\u{20}' || c == '\u{85}' || c == '\u{a0}' || c
        == '\u{1680}' || ('\u{2000}' <= c && c <= '\u{200a}') || c == '\u{2028}' || c == '\u{2029}'
        || c == '\u{202f}' || c == '\u{205f}' || c == '\u{3000}'
}

/// Skipping the white space up to `i` leaves what is trimmed at the start.
proof fn lemma_trimmed_start(s: Seq<char>, i: int)
    requires
        0 <= i <= s.len(),
        forall|k: int| 0 <= k < i ==> white_space(#[trigger] s[k]),
        i < s.len() ==> !white_space(s[i]),
    ensures
        trimmed_start(s) == s.skip(i),
    decreases i,
{
    if i == 0 {
        assert(s.skip(0) =~= s);
    } else {
        assert(white_space(s[0]));
        assert forall|k: int| 0 <= k < i - 1 implies white_space(#[trigger] s.skip(1)[k]) by {
            assert(s.skip(1)[k] == s[k + 1]);
        }
        lemma_trimmed_start(s.skip(1), i - 1);
        assert(s.skip(1).skip(i - 1) =~= s.skip(i));
    }
}

/// Cutting the white space from `i` on leaves what is trimmed at the end.
proof fn lemma_trimmed_end(s: Seq<char>, i: int)
    requires
        0 <= i <= s.len(),
        forall|k: int| i <= k < s.len() ==> white_space(#[trigger] s[k]),
        0 < i ==> !white_space(s[i - 1]),
    ensures
        trimmed_end(s) == s.take(i),
    decreases s.len() - i,
{
    if i == s.len() {
        assert(s.take(i) =~= s);
    } else {
        assert(white_space(s.last()));
        lemma_trimmed_end(s.drop_last(), i);
        assert(s.drop_last().take(i) =~= s.take(i));
    }
}

/// `s` without leading and trailing white space.
pub fn trim(s: &str) -> (r: &str)
    ensures
        r@ == trimmed(s@),
{
    let chars = chars_of(s);
    let mut start: usize = 0;
    while start < chars.len() && is_white_space(chars[start])
        invariant
            start <= chars@.len(),
            forall|k: int| 0 <= k < start ==> white_space(#[trigger] chars@[k]),
        decreases chars@.len() - start,
    {
        start = start + 1;
    }
    let mut end: usize = chars.len();
    while end > start && is_white_space(chars[end - 1])
        invariant
            start <= end <= chars@.len(),
            forall|k: int| end <= k < chars@.len() ==> white_space(#[trigger] chars@[k]),
        decreases end,
    {
        end = end - 1;
    }
    proof {
        let rest = chars@.skip(start as int);
        lemma_trimmed_start(chars@, start as int);
        assert forall|k: int| end - start <= k < rest.len() implies white_space(
            #[trigger] rest[k],
        ) by {
            assert(rest[k] == chars@[k + start]);
        }
        lemma_trimmed_end(rest, end - start);
        assert(rest.take(end - start) =~= chars@.subrange(start as int, end as int));
    }
    s.substring_char(start, end)
}

/// More digits never stand for a smaller number.
proof fn lemma_digits_grow(s: Seq<char>, n: int)
    requires
        0 <= n <= s.len(),
        all_digits(s),
    ensures
        digits_value(s.take(n)) <= digits_value(s),
    decreases s.len() - n,
{
    if n == s.len() {
        assert(s.take(n) =~= s);
    } else {
        lemma_digits_grow(s, n + 1);
        assert(s.take(n + 1).drop_last() =~= s.take(n));
    }
}

/// Read an unsigned number.
pub fn parse_u32(s: &str) -> (r: Option<u32>)
    ensures
        r == read_u32(s@),
{
    let chars = chars_of(s);
    let start: usize = if chars.len() > 0 && chars[0] == '+' {
        1
    } else {
        0
    };
    let ghost digits = chars@.skip(start as int);
    proof {
        assert(chars@.skip(0) =~= chars@);
    }
    if chars.len() == start {
        return None;
    }
    let mut value: u32 = 0;
    let mut i: usize = start;
    while i < chars.len()
        invariant
            start <= i <= chars@.len(),
            start < chars@.len(),
            digits == chars@.skip(start as int),
            digits == if chars@.len() > 0 && chars@[0] == '+' {
                chars@.skip(1)
            } else {
                chars@
            },
            chars@ == s@,
            all_digits(digits.take(i - start)),
            value == digits_value(digits.take(i - start)),
        decreases chars@.len() - i,
    {
        let c: char = chars[i];
        let ghost k = i - start;
        assert(digits[k] == c);
        assert(digits.take(k + 1).drop_last() =~= digits.take(k));
        assert(digits.take(k + 1).last() == c);
        if !('0' <= c && c <= '9') {
            assert(!all_digits(digits));
            return None;
        }
        assert(all_digits(digits.take(k + 1))) by {
            assert forall|j: int| 0 <= j < k + 1 implies digit(
                #[trigger] digits.take(k + 1)[j],
            ) by {
                if j < k {
                    assert(digits.take(k)[j] == digits.take(k + 1)[j]);
                }
            }
        }
        let step: u32 = c as u32 - '0' as u32;
        let next: u64 = value as u64 * 10 + step as u64;
        if next > u32::MAX as u64 {
            proof {
                if all_digits(digits) {
                    lemma_digits_grow(digits, k + 1);
                }
            }
            return None;
        }
        value = next as u32;
        i = i + 1;
    }
    assert(digits.take(digits.len() as int) =~= digits);
    Some(value)
}

/// Where the row of digits that starts at `i` ends.
fn skip_digits(chars: &[char], i: usize) -> (r: usize)
    requires
        i <= chars@.len(),
    ensures
        r == digits_end(chars@, i as int),
        i <= r <= chars@.len(),
{
    let mut end: usize = i;
    while end < chars.len() && '0' <= chars[end] && chars[end] <= '9'
        invariant
            i <= end <= chars@.len(),
            digits_end(chars@, i as int) == digits_end(chars@, end as int),
        decreases chars@.len() - end,
    {
        end = end + 1;
    }
    end
}

/// Whether `chars` from `i` on is `word`, in any case.
pub fn is_word(chars: &[char], i: usize, word: &[char]) -> (r: bool)
    requires
        i <= chars@.len(),
    ensures
        r == spells(chars@, i as int, word@),
{
    let n: usize = chars.len();
    if n - i != word.len() {
        return false;
    }
    let mut k: usize = 0;
    while k < word.len()
        invariant
            n == chars@.len(),
            i <= n,
            chars@.len() - i == word@.len(),
            k <= word@.len(),
            forall|j: int| 0 <= j < k ==> lower(chars@[i + j]) == #[trigger] word@[j],
        decreases word@.len() - k,
    {
        let c: char = chars[i + k];
        let l: char = if 'A' <= c && c <= 'Z' {
            (c as u8 + 32) as char
        } else {
            c
        };
        if l != word[k] {
            assert(lower(chars@[i + k]) != word@[k as int]);
            return false;
        }
        k = k + 1;
    }
    true
}

/// Whether `s` is the text of a floating-point number.
pub fn is_float_text(s: &str) -> (r: bool)
    ensures
        r == float_text(s@),
{
    let chars = chars_of(s);
    let text: &[char] = chars.as_slice();
    let n: usize = text.len();
    let start: usize = if n > 0 && (text[0] == '+' || text[0] == '-') {
        1
    } else {
        0
    };
    if is_word(text, start, &['i', 'n', 'f']) || is_word(
        text,
        start,
        &['i', 'n', 'f', 'i', 'n', 'i', 't', 'y'],
    ) || is_word(text, start, &['n', 'a', 'n']) {
        return true;
    }
    let whole: usize = skip_digits(text, start);
    let end: usize = if whole < n && text[whole] == '.' {
        let fraction: usize = skip_digits(text, whole + 1);
        if whole == start && fraction == whole + 1 {
            return false;
        }
        fraction
    } else {
        if whole == start {
            return false;
        }
        whole
    };
    if end == n {
        return true;
    }
    if text[end] != 'e' && text[end] != 'E' {
        return false;
    }
    let first: usize = if end + 1 < n && (text[end + 1] == '+' || text[end + 1] == '-') {
        end + 2
    } else {
        end + 1
    };
    let last: usize = skip_digits(text, first);
    last > first && last == n
}

/// The digit `d` as text.
fn digit_text(d: u32) -> (r: &'static str)
    requires
        d < 10,
    ensures
        r@ == seq![(d + '0' as nat) as char],
{
    proof {
        reveal_strlit("0");
        reveal_strlit("1");
        reveal_strlit("2");
        reveal_strlit("3");
        reveal_strlit("4");
        reveal_strlit("5");
        reveal_strlit("6");
        reveal_strlit("7");
        reveal_strlit("8");
        reveal_strlit("9");
    }
    match d {
        0 => "0",
        1 => "1",
        2 => "2",
        3 => "3",
        4 => "4",
        5 => "5",
        6 => "6",
        7 => "7",
        8 => "8",
        _ => "9",
    }
}

/// Append the decimal digits of `n`.
pub fn push_decimal(out: &mut String, n: u32)
    ensures
        final(out)@ == old(out)@ + decimal(n as nat),
    decreases n,
{
    if n >= 10 {
        push_decimal(out, n / 10);
    }
    out.append(digit_text(n % 10));
    assert(out@ =~= old(out)@ + decimal(n as nat));
}

/// Trimming leaves no white space at either end.
pub proof fn law_trimmed_ends(s: Seq<char>)
    ensures
        trimmed(s).len() > 0 ==> !white_space(trimmed(s)[0]) && !white_space(trimmed(s).last()),
{
    lemma_trimmed_start_first(s);
    lemma_trimmed_end_last(trimmed_start(s));
}

proof fn lemma_trimmed_start_first(s: Seq<char>)
    ensures
        trimmed_start(s).len() > 0 ==> !white_space(trimmed_start(s)[0]),
    decreases s.len(),
{
    if s.len() > 0 && white_space(s[0]) {
        lemma_trimmed_start_first(s.skip(1));
    }
}

proof fn lemma_trimmed_end_last(s: Seq<char>)
    ensures
        trimmed_end(s).len() > 0 ==> trimmed_end(s)[0] == s[0] && !white_space(
            trimmed_end(s).last(),
        ),
    decreases s.len(),
{
    if s.len() > 0 && white_space(s.last()) {
        lemma_trimmed_end_last(s.drop_last());
    }
}

/// A number that is written and read again is the same number.
pub proof fn law_decimal_reads_back(n: u32)
    ensures
        read_u32(decimal(n as nat)) == Some(n),
{
    lemma_decimal(n as nat);
    let s = decimal(n as nat);
    assert(digit(s[0]));
}

proof fn lemma_decimal(n: nat)
    ensures
        decimal(n).len() > 0,
        all_digits(decimal(n)),
        digits_value(decimal(n)) == n,
    decreases n,
{
    let s = decimal(n);
    if n < 10 {
        assert(s.drop_last() =~= Seq::empty());
        assert(digits_value(s.drop_last()) == 0);
    } else {
        lemma_decimal(n / 10);
        assert(s.drop_last() =~= decimal(n / 10));
    }
}

/// Trimming takes away the white space at both ends and nothing else.
pub proof fn law_trimming_keeps_the_middle(
    before: Seq<char>,
    middle: Seq<char>,
    after: Seq<char>,
)
    requires
        forall|i: int| 0 <= i < before.len() ==> white_space(#[trigger] before[i]),
        forall|i: int| 0 <= i < after.len() ==> white_space(#[trigger] after[i]),
        middle.len() > 0 ==> !white_space(middle[0]) && !white_space(middle.last()),
    ensures
        trimmed(before + middle + after) == middle,
{
    let s = before + middle + after;
    if middle.len() > 0 {
        assert forall|k: int| 0 <= k < before.len() implies white_space(#[trigger] s[k]) by {
            assert(s[k] == before[k]);
        }
        assert(s[before.len() as int] == middle[0]);
        lemma_trimmed_start(s, before.len() as int);
        let rest = s.skip(before.len() as int);
        assert(rest =~= middle + after);
        assert forall|k: int| middle.len() <= k < rest.len() implies white_space(
            #[trigger] rest[k],
        ) by {
            assert(rest[k] == after[k - middle.len()]);
        }
        assert(rest[middle.len() - 1] == middle.last());
        lemma_trimmed_end(rest, middle.len() as int);
        assert(rest.take(middle.len() as int) =~= middle);
    } else {
        assert forall|k: int| 0 <= k < s.len() implies white_space(#[trigger] s[k]) by {
            if k < before.len() {
                assert(s[k] == before[k]);
            } else {
                assert(s[k] == after[k - before.len()]);
            }
        }
        lemma_trimmed_start(s, s.len() as int);
        assert(s.skip(s.len() as int) =~= Seq::empty());
        assert(middle =~= Seq::empty());
    }
}

/// Of the ASCII characters, the space and those from tab to carriage return are
/// white space, and no other.
pub proof fn law_ascii_white_space(c: char)
    requires
        c as int <= 127,
    ensures
        white_space(c) <==> c as int == 32 || 9 <= c as int <= 13,
{
}

/// What is read as a number is a row of decimal digits, with an optional `+` in
/// front of it, and every such row is read as the number that it stands for,
/// where that fits in 32 bits.
pub proof fn law_numbers_are_rows_of_digits(s: Seq<char>)
    requires
        s.len() > 0,
        forall|i: int| 0 <= i < s.len() ==> '0' <= #[trigger] s[i] <= '9',
    ensures
        read_u32(s) == if digits_value(s) <= 0xffff_ffff {
            Some(digits_value(s) as u32)
        } else {
            None
        },
        read_u32(seq!['+'] + s) == read_u32(s),
{
    assert((seq!['+'] + s).skip(1) =~= s);
    assert('0' <= s[0]);
}

/// Anything else is not read as a number.
pub proof fn law_other_texts_are_no_numbers(s: Seq<char>, i: int)
    requires
        0 <= i < s.len(),
        !('0' <= s[i] <= '9'),
        i > 0 || s[0] != '+' || s.len() == 1,
    ensures
        read_u32(s) is None,
        read_u32(Seq::empty()) is None,
{
    if s[0] == '+' {
        if s.len() > 1 {
            assert(s.skip(1)[i - 1] == s[i]);
        }
    } else {
        assert(!digit(s[i]));
    }
}

/// Each digit counts ten times as much as the one after it.
pub proof fn law_digits_count_tenfold(s: Seq<char>, c: char)
    requires
        '0' <= c <= '9',
    ensures
        digits_value(s.push(c)) == digits_value(s) * 10 + (c as int - 48),
        digits_value(Seq::empty()) == 0,
{
    assert(s.push(c).drop_last() =~= s);
}

/// Where a row of digits ends: at the first character that is none.
proof fn lemma_digits_end(s: Seq<char>, i: int, end: int)
    requires
        0 <= i <= end <= s.len(),
        forall|k: int| i <= k < end ==> '0' <= #[trigger] s[k] <= '9',
        end < s.len() ==> !('0' <= s[end] <= '9'),
    ensures
        digits_end(s, i) == end,
    decreases end - i,
{
    if i < end {
        assert('0' <= s[i] <= '9');
        lemma_digits_end(s, i + 1, end);
    }
}

/// Every decimal number is the text of a floating-point number: an optional sign,
/// then digits with a point before, between, behind or without them.
pub proof fn law_decimals_are_floats(sign: Seq<char>, whole: Seq<char>, fraction: Seq<char>)
    requires
        sign.len() == 0 || sign == seq!['+'] || sign == seq!['-'],
        forall|i: int| 0 <= i < whole.len() ==> '0' <= #[trigger] whole[i] <= '9',
        forall|i: int| 0 <= i < fraction.len() ==> '0' <= #[trigger] fraction[i] <= '9',
        whole.len() + fraction.len() > 0,
    ensures
        float_text(sign + whole + seq!['.'] + fraction),
        whole.len() > 0 ==> float_text(sign + whole),
{
    let n = sign.len() as int;
    let w = whole.len() as int;
    let s = sign + whole + seq!['.'] + fraction;
    assert forall|k: int| n <= k < n + w implies '0' <= #[trigger] s[k] <= '9' by {
        assert(s[k] == whole[k - n]);
    }
    assert forall|k: int| n + w + 1 <= k < s.len() implies '0' <= #[trigger] s[k] <= '9' by {
        assert(s[k] == fraction[k - n - w - 1]);
    }
    assert(s[n + w] == '.');
    if n > 0 {
        assert(s[0] == sign[0]);
    } else if w > 0 {
        assert(s[0] == whole[0]);
    }
    lemma_digits_end(s, n, n + w);
    lemma_digits_end(s, n + w + 1, s.len() as int);
    assert(mantissa_end(s, n) == Some(s.len() as int));
    if w > 0 {
        let t = sign + whole;
        assert forall|k: int| n <= k < t.len() implies '0' <= #[trigger] t[k] <= '9' by {
            assert(t[k] == whole[k - n]);
        }
        if n > 0 {
            assert(t[0] == sign[0]);
        } else {
            assert(t[0] == whole[0]);
        }
        lemma_digits_end(t, n, t.len() as int);
        assert(mantissa_end(t, n) == Some(t.len() as int));
    }
}

/// A text with a character that no number has is not the text of one.
pub proof fn law_floats_have_number_characters(s: Seq<char>, i: int)
    requires
        float_text(s),
        0 <= i < s.len(),
    ensures
        '0' <= s[i] <= '9' || s[i] == '+' || s[i] == '-' || s[i] == '.' || 'a' <= s[i] <= 'z'
            || 'A' <= s[i] <= 'Z',
        !white_space(s[i]),
        (s[i] as int) < 128,
{
    let start = if sign_at(s, 0) {
        1int
    } else {
        0int
    };
    let c = s[i];
    assert(lower(c) == c || 'A' <= c <= 'Z');
    if i >= start {
        let inf = seq!['i', 'n', 'f'];
        let infinity = seq!['i', 'n', 'f', 'i', 'n', 'i', 't', 'y'];
        let nan = seq!['n', 'a', 'n'];
        if spells(s, start, inf) {
            assert(lower(s[start + (i - start)]) == inf[i - start]);
        } else if spells(s, start, infinity) {
            assert(lower(s[start + (i - start)]) == infinity[i - start]);
        } else if spells(s, start, nan) {
            assert(lower(s[start + (i - start)]) == nan[i - start]);
        } else {
            let whole = digits_end(s, start);
            lemma_digits_run(s, start);
            let end = mantissa_end(s, start)->0;
            if whole < s.len() && s[whole] == '.' {
                lemma_digits_run(s, whole + 1);
            }
            if end < s.len() {
                let first = if sign_at(s, end + 1) {
                    end + 2
                } else {
                    end + 1
                };
                lemma_digits_run(s, first);
            }
            if start <= i < whole || whole < i < end {
                assert(digit(s[i]));
            }
        }
    }
}

/// What lies in a row of digits is digits.
proof fn lemma_digits_run(s: Seq<char>, i: int)
    requires
        0 <= i <= s.len(),
    ensures
        i <= digits_end(s, i) <= s.len(),
        forall|k: int| i <= k < digits_end(s, i) ==> digit(#[trigger] s[k]),
    decreases s.len() - i,
{
    if i < s.len() && digit(s[i]) {
        lemma_digits_run(s, i + 1);
    }
}

/// A written number ends with its last decimal digit, after those of a tenth of
/// it.
pub proof fn law_decimal_digits(n: nat, d: nat)
    requires
        d < 10,
    ensures
        decimal(d) == seq![(48 + d) as char],
        n > 0 ==> decimal(10 * n + d) == decimal(n).push((48 + d) as char),
{
}

/// A written number has no white space in it, and at least one digit.
pub proof fn law_decimal_has_no_blanks(n: nat)
    ensures
        decimal(n).len() > 0,
        forall|i: int| 0 <= i < decimal(n).len() ==> !white_space(#[trigger] decimal(n)[i]),
{
    lemma_decimal(n);
    assert forall|i: int| 0 <= i < decimal(n).len() implies !white_space(
        #[trigger] decimal(n)[i],
    ) by {
        assert(digit(decimal(n)[i]));
    }
}

/// A decimal number with an exponent is the text of a floating-point number.
pub proof fn law_exponents_are_floats(
    sign: Seq<char>,
    whole: Seq<char>,
    fraction: Seq<char>,
    e: char,
    exp_sign: Seq<char>,
    exp: Seq<char>,
)
    requires
        sign.len() == 0 || sign == seq!['+'] || sign == seq!['-'],
        exp_sign.len() == 0 || exp_sign == seq!['+'] || exp_sign == seq!['-'],
        forall|i: int| 0 <= i < whole.len() ==> '0' <= #[trigger] whole[i] <= '9',
        forall|i: int| 0 <= i < fraction.len() ==> '0' <= #[trigger] fraction[i] <= '9',
        forall|i: int| 0 <= i < exp.len() ==> '0' <= #[trigger] exp[i] <= '9',
        whole.len() + fraction.len() > 0,
        exp.len() > 0,
        e == 'e' || e == 'E',
    ensures
        float_text(sign + whole + seq!['.'] + fraction + seq![e] + exp_sign + exp),
{
    let n = sign.len() as int;
    let w = whole.len() as int;
    let f = fraction.len() as int;
    let s = sign + whole + seq!['.'] + fraction + seq![e] + exp_sign + exp;
    let at = n + w + 1 + f;
    assert forall|k: int| n <= k < n + w implies '0' <= #[trigger] s[k] <= '9' by {
        assert(s[k] == whole[k - n]);
    }
    assert forall|k: int| n + w + 1 <= k < at implies '0' <= #[trigger] s[k] <= '9' by {
        assert(s[k] == fraction[k - n - w - 1]);
    }
    assert(s[n + w] == '.');
    assert(s[at] == e);
    if n > 0 {
        assert(s[0] == sign[0]);
    } else if w > 0 {
        assert(s[0] == whole[0]);
    }
    lemma_digits_end(s, n, n + w);
    lemma_digits_end(s, n + w + 1, at);
    assert(mantissa_end(s, n) == Some(at));
    let first = at + 1 + exp_sign.len();
    assert forall|k: int| first <= k < s.len() implies '0' <= #[trigger] s[k] <= '9' by {
        assert(s[k] == exp[k - first]);
    }
    if exp_sign.len() > 0 {
        assert(s[at + 1] == exp_sign[0]);
    } else {
        assert(s[at + 1] == exp[0]);
    }
    lemma_digits_end(s, first, s.len() as int);
}

/// The text of a floating-point number that starts with a digit or a point, after
/// an optional sign, is a mantissa and an optional exponent: digits, then maybe a
/// point and digits, with at least one digit in all; then nothing, or an `e` with
/// an optional sign and at least one digit.
pub proof fn law_floats_have_a_shape(s: Seq<char>) -> (r: (int, int, int))
    requires
        float_text(s),
        ({
            let start = if s[0] == '+' || s[0] == '-' {
                1int
            } else {
                0int
            };
            start < s.len() && ('0' <= s[start] <= '9' || s[start] == '.')
        }),
    ensures
        ({
            let (start, whole, end) = r;
            &&& start == if s[0] == '+' || s[0] == '-' {
                1int
            } else {
                0int
            }
            &&& start <= whole <= end <= s.len()
            &&& forall|i: int| start <= i < whole ==> '0' <= #[trigger] s[i] <= '9'
            &&& whole < end ==> s[whole] == '.'
            &&& forall|i: int| whole < i < end ==> '0' <= #[trigger] s[i] <= '9'
            &&& whole > start || end > whole + 1
            &&& end < s.len() ==> {
                let first = if end + 1 < s.len() && (s[end + 1] == '+' || s[end + 1] == '-') {
                    end + 2
                } else {
                    end + 1
                };
                &&& s[end] == 'e' || s[end] == 'E'
                &&& first < s.len()
                &&& forall|i: int| first <= i < s.len() ==> '0' <= #[trigger] s[i] <= '9'
            }
        }),
{
    let start = if sign_at(s, 0) {
        1int
    } else {
        0int
    };
    assert(s.len() > 0) by {
        if s.len() == 0 {
            assert(!sign_at(s, 0));
            assert(digits_end(s, 0) == 0);
        }
    }
    assert(!spells(s, start, seq!['i', 'n', 'f']) && !spells(
        s,
        start,
        seq!['i', 'n', 'f', 'i', 'n', 'i', 't', 'y'],
    ) && !spells(s, start, seq!['n', 'a', 'n'])) by {
        let c = s[start];
        assert(lower(c) == c);
        if spells(s, start, seq!['i', 'n', 'f']) {
            assert(lower(s[start + 0]) == seq!['i', 'n', 'f'][0]);
        }
        if spells(s, start, seq!['i', 'n', 'f', 'i', 'n', 'i', 't', 'y']) {
            assert(lower(s[start + 0]) == seq!['i', 'n', 'f', 'i', 'n', 'i', 't', 'y'][0]);
        }
        if spells(s, start, seq!['n', 'a', 'n']) {
            assert(lower(s[start + 0]) == seq!['n', 'a', 'n'][0]);
        }
    }
    let whole = digits_end(s, start);
    lemma_digits_run(s, start);
    assert forall|i: int| start <= i < whole implies '0' <= #[trigger] s[i] <= '9' by {
        assert(digit(s[i]));
    }
    let end = mantissa_end(s, start)->0;
    if whole < s.len() && s[whole] == '.' {
        lemma_digits_run(s, whole + 1);
        assert forall|i: int| whole < i < end implies '0' <= #[trigger] s[i] <= '9' by {
            assert(digit(s[i]));
        }
    }
    if end < s.len() {
        let first = if sign_at(s, end + 1) {
            end + 2
        } else {
            end + 1
        };
        lemma_digits_run(s, first);
        assert forall|i: int| first <= i < s.len() implies '0' <= #[trigger] s[i] <= '9' by {
            assert(digit(s[i]));
        }
    }
    (start, whole, end)
}

/// The white space beyond ASCII.
pub proof fn law_other_white_space(c: char)
    requires
        c as int > 127,
    ensures
        white_space(c) <==> {
            let n = c as int;
            n == 0x85 || n == 0xa0 || n == 0x1680 || 0x2000 <= n <= 0x200a || n == 0x2028 || n
                == 0x2029 || n == 0x202f || n == 0x205f || n == 0x3000
        },
{
}

} // verus!
