//! Text helpers shared by the kernel's modules.

use vstd::prelude::*;
use vstd::string::{StrSliceExecFns, StringSliceAdditionalSpecFns};

verus! {

/// The bytes a name is shown as: itself where it is UTF-8, a question mark
/// where it is not.
pub open spec fn shown(name: Seq<u8>) -> Seq<u8> {
    if vstd::utf8::valid_utf8(name) {
        name
    } else {
        seq![0x3Fu8]
    }
}

/// `core::str::from_utf8`: the text whose encoding `bytes` is, if they are
/// valid UTF-8, and nothing otherwise.
#[verifier::external_body]
fn utf8(bytes: &[u8]) -> (text: Option<&str>)
    ensures
        text is Some <==> vstd::utf8::valid_utf8(bytes@),
        text matches Some(s) ==> s.spec_bytes() == bytes@,
{
    core::str::from_utf8(bytes).ok()
}

/// Turns a name read from a disk or a path into displayable text.
pub fn display_name(bytes: &[u8]) -> (text: &str)
    ensures
        text.spec_bytes() == shown(bytes@),
{
    match utf8(bytes) {
        Some(text) => text,
        None => {
            proof {
                reveal_strlit("?");
                vstd::utf8::is_ascii_chars_encode_utf8("?"@);
            }
            assert("?".spec_bytes() =~= seq![0x3Fu8]);
            "?"
        },
    }
}

/// `String::push`: the character is added at the end.
pub assume_specification[ String::push ](text: &mut String, c: char)
    ensures
        final(text)@ == old(text)@.push(c),
;

/// `String::pop`: the last character is removed and returned, where there is
/// one.
pub assume_specification[ String::pop ](text: &mut String) -> (last: Option<char>)
    ensures
        old(text)@.len() == 0 ==> last is None && final(text)@ == old(text)@,
        old(text)@.len() > 0 ==> last == Some(old(text)@.last()) && final(text)@ == old(
            text,
        )@.drop_last(),
;

/// A decimal digit as a character.
pub open spec fn digit(d: nat) -> char {
    (0x30 + d) as char
}

/// A number in decimal, without leading zeros.
pub open spec fn decimal(n: nat) -> Seq<char>
    decreases n,
{
    if n < 10 {
        seq![digit(n)]
    } else {
        decimal(n / 10).push(digit(n % 10))
    }
}

/// A number in decimal, filled up on the left to at least `width` characters.
pub open spec fn padded(n: nat, width: nat, fill: char) -> Seq<char> {
    let digits = decimal(n);
    if digits.len() < width {
        Seq::new((width - digits.len()) as nat, |i: int| fill) + digits
    } else {
        digits
    }
}

/// Adds a number in decimal to a text.
pub fn push_decimal(text: &mut String, n: u64)
    ensures
        final(text)@ == old(text)@ + decimal(n as nat),
    decreases n,
{
    if n >= 10 {
        push_decimal(text, n / 10);
    }
    let c: char = (0x30u8 + (n % 10) as u8) as char;
    text.push(c);
    assert(text@ =~= old(text)@ + decimal(n as nat));
}

/// Powers of ten.
pub open spec fn ten_to(k: nat) -> nat
    decreases k,
{
    if k == 0 {
        1
    } else {
        10 * ten_to((k - 1) as nat)
    }
}

proof fn lemma_decimal_len(n: nat, k: nat)
    requires
        n < ten_to(k),
        1 <= k,
    ensures
        1 <= decimal(n).len() <= k,
    decreases k,
{
    if n >= 10 {
        reveal_with_fuel(ten_to, 2);
        lemma_decimal_len(n / 10, (k - 1) as nat);
    }
}

/// The number of digits of a number.
fn decimal_len(n: u64) -> (len: usize)
    ensures
        len == decimal(n as nat).len(),
        1 <= len <= 20,
{
    let mut len: usize = 1;
    let mut rest: u64 = n;
    proof {
        reveal_with_fuel(ten_to, 21);
        assert(u64::MAX < ten_to(20));
        lemma_decimal_len(n as nat, 20);
    }
    while rest >= 10
        invariant
            decimal(n as nat).len() == decimal(rest as nat).len() + len - 1,
            1 <= len <= decimal(n as nat).len() <= 20,
        decreases rest,
    {
        proof {
            reveal_with_fuel(ten_to, 21);
            lemma_decimal_len((rest / 10) as nat, 20);
        }
        rest = rest / 10;
        len = len + 1;
    }
    len
}

/// Adds a number in decimal to a text, filled up on the left to at least
/// `width` characters.
pub fn push_padded(text: &mut String, n: u64, width: usize, fill: char)
    ensures
        final(text)@ == old(text)@ + padded(n as nat, width as nat, fill),
{
    let len: usize = decimal_len(n);
    let mut i: usize = len;
    while i < width
        invariant
            len <= i,
            i <= width || i == len,
            text@ == old(text)@ + Seq::new((i - len) as nat, |k: int| fill),
        decreases width - i,
    {
        text.push(fill);
        i = i + 1;
        assert(text@ =~= old(text)@ + Seq::new((i - len) as nat, |k: int| fill));
    }
    push_decimal(text, n);
    assert(text@ =~= old(text)@ + padded(n as nat, width as nat, fill));
}

/// White space, as Unicode has it.
pub open spec fn is_space(c: char) -> bool {
    ||| 0x09 <= c as u32 <= 0x0D
    ||| c as u32 == 0x20
    ||| c as u32 == 0x85
    ||| c as u32 == 0xA0
    ||| c as u32 == 0x1680
    ||| 0x2000 <= c as u32 <= 0x200A
    ||| c as u32 == 0x2028
    ||| c as u32 == 0x2029
    ||| c as u32 == 0x202F
    ||| c as u32 == 0x205F
    ||| c as u32 == 0x3000
}

/// Whether a character is white space.
pub fn is_white_space(c: char) -> (answer: bool)
    ensures
        answer == is_space(c),
{
    let n: u32 = c as u32;
    (0x09 <= n && n <= 0x0D) || n == 0x20 || n == 0x85 || n == 0xA0 || n == 0x1680 || (0x2000 <= n
        && n <= 0x200A) || n == 0x2028 || n == 0x2029 || n == 0x202F || n == 0x205F || n == 0x3000
}

/// A control character: one of the two blocks that Unicode sets aside for them.
pub open spec fn is_control_char(c: char) -> bool {
    c as u32 <= 0x1F || 0x7F <= c as u32 <= 0x9F
}

/// Whether a character is a control character.
pub fn is_control(c: char) -> (answer: bool)
    ensures
        answer == is_control_char(c),
{
    let n: u32 = c as u32;
    n <= 0x1F || (0x7F <= n && n <= 0x9F)
}

/// The characters of a text.
pub fn chars_of(text: &str) -> (chars: Vec<char>)
    ensures
        chars@ == text@,
{
    let len: usize = text.unicode_len();
    let mut chars: Vec<char> = Vec::new();
    let mut i: usize = 0;
    while i < len
        invariant
            i <= len,
            len == text@.len(),
            chars@ == text@.take(i as int),
        decreases len - i,
    {
        chars.push(text.get_char(i));
        i = i + 1;
        assert(text@.take(i as int) =~= text@.take(i - 1).push(text@[i - 1]));
    }
    assert(text@.take(len as int) =~= text@);
    chars
}

/// The text that characters make up.
pub fn text_of(chars: &[char]) -> (text: String)
    ensures
        text@ == chars@,
{
    let mut text = String::new();
    let mut i: usize = 0;
    assert(chars@.take(0) =~= Seq::<char>::empty());
    while i < chars.len()
        invariant
            i <= chars@.len(),
            text@ == chars@.take(i as int),
        decreases chars@.len() - i,
    {
        text.push(chars[i]);
        i = i + 1;
        assert(chars@.take(i as int) =~= chars@.take(i - 1).push(chars@[i - 1]));
    }
    assert(chars@.take(i as int) =~= chars@);
    text
}

/// Whether characters make up this text.
pub fn is_text(chars: &[char], text: &str) -> (answer: bool)
    ensures
        answer == (chars@ == text@),
{
    let len: usize = text.unicode_len();
    if chars.len() != len {
        return false;
    }
    let mut i: usize = 0;
    while i < len
        invariant
            i <= len,
            len == text@.len(),
            len == chars@.len(),
            forall|k: int| 0 <= k < i ==> chars@[k] == text@[k],
        decreases len - i,
    {
        if chars[i] != text.get_char(i) {
            return false;
        }
        i = i + 1;
    }
    assert(chars@ =~= text@);
    true
}

/// Index of the first character at or after `i` that is not white space, or the
/// length.
pub open spec fn skip_space(s: Seq<char>, i: int) -> int
    decreases s.len() - i,
{
    if i < 0 || i >= s.len() || !is_space(s[i]) {
        i
    } else {
        skip_space(s, i + 1)
    }
}

/// Index of the first white space at or after `i`, or the length.
pub open spec fn word_end(s: Seq<char>, i: int) -> int
    decreases s.len() - i,
{
    if i < 0 || i >= s.len() || is_space(s[i]) {
        i
    } else {
        word_end(s, i + 1)
    }
}

/// Where the text ends that lies before `j`, without the white space there.
pub open spec fn space_start(s: Seq<char>, j: int) -> int
    decreases j,
{
    if j <= 0 || j > s.len() || !is_space(s[j - 1]) {
        j
    } else {
        space_start(s, j - 1)
    }
}

/// A text without the white space at its start.
pub open spec fn trimmed_start(s: Seq<char>) -> Seq<char> {
    s.skip(skip_space(s, 0))
}

/// A text without the white space at its ends.
pub open spec fn trimmed(s: Seq<char>) -> Seq<char> {
    let start = skip_space(s, 0);
    let end = space_start(s, s.len() as int);
    if start < end {
        s.subrange(start, end)
    } else {
        Seq::empty()
    }
}

/// The index behind the white space at or after `from`.
pub fn after_space(chars: &[char], from: usize) -> (at: usize)
    requires
        from <= chars.len(),
    ensures
        at == skip_space(chars@, from as int),
        from <= at <= chars.len(),
{
    let mut at: usize = from;
    while at < chars.len() && is_white_space(chars[at])
        invariant
            from <= at <= chars@.len(),
            skip_space(chars@, from as int) == skip_space(chars@, at as int),
        decreases chars@.len() - at,
    {
        at = at + 1;
    }
    at
}

/// The index behind the word at `from`.
pub fn after_word(chars: &[char], from: usize) -> (at: usize)
    requires
        from <= chars.len(),
    ensures
        at == word_end(chars@, from as int),
        from <= at <= chars.len(),
{
    let mut at: usize = from;
    while at < chars.len() && !is_white_space(chars[at])
        invariant
            from <= at <= chars@.len(),
            word_end(chars@, from as int) == word_end(chars@, at as int),
        decreases chars@.len() - at,
    {
        at = at + 1;
    }
    at
}

/// The part of the characters that is left without white space at the ends.
pub fn trim(chars: &[char]) -> (part: &[char])
    ensures
        part@ == trimmed(chars@),
{
    let start: usize = after_space(chars, 0);
    let mut end: usize = chars.len();
    while end > 0 && is_white_space(chars[end - 1])
        invariant
            end <= chars@.len(),
            space_start(chars@, chars@.len() as int) == space_start(chars@, end as int),
        decreases end,
    {
        end = end - 1;
    }
    if start < end {
        vstd::slice::slice_subrange(chars, start, end)
    } else {
        let part = vstd::slice::slice_subrange(chars, 0, 0);
        assert(part@ =~= Seq::<char>::empty());
        part
    }
}

/// A decimal digit.
pub open spec fn is_digit(c: char) -> bool {
    0x30 <= c as u32 <= 0x39
}

/// All are decimal digits.
pub open spec fn all_digits(s: Seq<char>) -> bool {
    forall|i: int| 0 <= i < s.len() ==> is_digit(#[trigger] s[i])
}

/// What a run of decimal digits stands for.
pub open spec fn digits_value(s: Seq<char>) -> int
    decreases s.len(),
{
    if s.len() == 0 {
        0
    } else {
        10 * digits_value(s.drop_last()) + (s.last() as u32 - 0x30)
    }
}

/// The number that a text stands for, if it is one: decimal digits, with a plus
/// sign before them or without, that stand for a 64-bit number.
pub open spec fn number(s: Seq<char>) -> Option<u64> {
    let digits = if s.len() > 0 && s[0] == '+' {
        s.drop_first()
    } else {
        s
    };
    if digits.len() > 0 && all_digits(digits) && digits_value(digits) <= u64::MAX {
        Some(digits_value(digits) as u64)
    } else {
        None
    }
}

proof fn lemma_value_grows(s: Seq<char>, i: int)
    requires
        0 <= i <= s.len(),
        all_digits(s),
    ensures
        0 <= digits_value(s.take(i)) <= digits_value(s),
    decreases s.len(),
{
    if s.len() == 0 {
        assert(s.take(i) =~= s);
    } else {
        let shorter = s.drop_last();
        assert forall|k: int| 0 <= k < shorter.len() implies is_digit(#[trigger] shorter[k]) by {
            assert(shorter[k] == s[k]);
        }
        assert(is_digit(s.last()));
        if i == s.len() {
            assert(s.take(i) =~= s);
            lemma_value_grows(shorter, 0);
        } else {
            lemma_value_grows(shorter, i);
            assert(shorter.take(i) =~= s.take(i));
        }
    }
}

/// Reads a number.
pub fn parse_number(chars: &[char]) -> (result: Option<u64>)
    ensures
        result == number(chars@),
{
    let digits: &[char] = if chars.len() > 0 && chars[0] == '+' {
        vstd::slice::slice_subrange(chars, 1, chars.len())
    } else {
        chars
    };
    proof {
        if chars@.len() > 0 && chars@[0] == '+' {
            assert(digits@ =~= chars@.drop_first());
        }
    }
    if digits.len() == 0 {
        return None;
    }
    let mut value: u64 = 0;
    let mut i: usize = 0;
    assert(digits@.take(0) =~= Seq::<char>::empty());
    while i < digits.len()
        invariant
            i <= digits@.len(),
            0 < digits@.len(),
            value == digits_value(digits@.take(i as int)),
            forall|k: int| 0 <= k < i ==> is_digit(#[trigger] digits@[k]),
            number(chars@) == (if all_digits(digits@) && digits_value(digits@) <= u64::MAX {
                Some(digits_value(digits@) as u64)
            } else {
                None
            }),
        decreases digits@.len() - i,
    {
        let n: u32 = digits[i] as u32;
        if n < 0x30 || n > 0x39 {
            assert(!is_digit(digits@[i as int]));
            return None;
        }
        let d: u64 = (n - 0x30) as u64;
        proof {
            let next = digits@.take(i + 1);
            assert(next.drop_last() =~= digits@.take(i as int));
            assert(digits_value(next) == 10 * value + d);
            if all_digits(digits@) {
                lemma_value_grows(digits@, i + 1);
            }
        }
        if value > (u64::MAX - d) / 10 {
            return None;
        }
        value = value * 10 + d;
        i = i + 1;
    }
    assert(digits@.take(i as int) =~= digits@);
    Some(value)
}

/// A number written in decimal reads as the same number.
pub proof fn law_decimal_round_trips(n: nat)
    requires
        n <= u64::MAX,
    ensures
        number(decimal(n)) == Some(n as u64),
{
    lemma_decimal_value(n);
    let s = decimal(n);
    assert(s[0] != '+') by {
        assert(is_digit(s[0]));
    }
}

proof fn lemma_decimal_value(n: nat)
    ensures
        decimal(n).len() > 0,
        all_digits(decimal(n)),
        digits_value(decimal(n)) == n,
    decreases n,
{
    let s = decimal(n);
    if n < 10 {
        assert(s.drop_last() =~= Seq::<char>::empty());
        assert(digits_value(Seq::empty()) == 0);
        assert(s.last() as u32 == 0x30 + n);
    } else {
        lemma_decimal_value(n / 10);
        let front = decimal(n / 10);
        assert(s.drop_last() =~= front);
        assert(s.last() as u32 == 0x30 + n % 10);
        assert forall|i: int| 0 <= i < s.len() implies is_digit(#[trigger] s[i]) by {
            if i < front.len() {
                assert(s[i] == front[i]);
            }
        }
    }
}

/// A number is written without leading zeros, in digits alone; the digits before
/// the last one are those of a tenth of it.
pub proof fn law_numbers_are_written_in_digits(n: nat)
    ensures
        all_digits(decimal(n)),
        digits_value(decimal(n)) == n,
        decimal(n).len() >= 1,
        decimal(n)[0] == '0' <==> n == 0,
        n < 10 ==> decimal(n).len() == 1,
        n >= 10 ==> decimal(n).len() == decimal(n / 10).len() + 1,
    decreases n,
{
    lemma_decimal_value(n);
    if n >= 10 {
        law_numbers_are_written_in_digits(n / 10);
        assert(decimal(n)[0] == decimal(n / 10)[0]);
    } else {
        assert(decimal(n)[0] as u32 == 0x30 + n);
    }
}

/// Filling up adds nothing but fill, and only on the left: the text ends in the
/// number, and is as wide as was asked for, or as wide as the number where that is
/// wider.
pub proof fn law_numbers_are_filled_up_on_the_left(n: nat, width: nat, fill: char)
    ensures
        ({
            let digits = decimal(n);
            let text = padded(n, width, fill);
            let room = text.len() - digits.len();
            &&& text.len() == (if digits.len() < width {
                width
            } else {
                digits.len()
            })
            &&& text.skip(room) == digits
            &&& forall|i: int| 0 <= i < room ==> #[trigger] text[i] == fill
        }),
{
    let digits = decimal(n);
    let text = padded(n, width, fill);
    let room = text.len() - digits.len();
    assert(text.skip(room) =~= digits);
}

/// A number that is filled up with zeros reads as the same number; one of fewer
/// than `width` digits takes `width` of them.
pub proof fn law_zeros_in_front_change_nothing(n: nat, width: nat)
    requires
        n < ten_to(width),
        1 <= width,
    ensures
        padded(n, width, '0').len() == width,
        all_digits(padded(n, width, '0')),
        digits_value(padded(n, width, '0')) == n,
{
    let digits = decimal(n);
    lemma_decimal_len(n, width);
    lemma_decimal_value(n);
    let room = (width - digits.len()) as nat;
    lemma_zeros(room, digits);
    assert(padded(n, width, '0') =~= Seq::new(room, |i: int| '0') + digits);
}

proof fn lemma_zeros(room: nat, digits: Seq<char>)
    requires
        all_digits(digits),
    ensures
        all_digits(Seq::new(room, |i: int| '0') + digits),
        digits_value(Seq::new(room, |i: int| '0') + digits) == digits_value(digits),
    decreases room, digits.len(),
{
    let zeros = Seq::new(room, |i: int| '0');
    let all = zeros + digits;
    if digits.len() > 0 {
        let front = digits.drop_last();
        assert forall|k: int| 0 <= k < front.len() implies is_digit(#[trigger] front[k]) by {
            assert(front[k] == digits[k]);
        }
        lemma_zeros(room, front);
        assert(all.drop_last() =~= zeros + front);
        assert(is_digit(digits[digits.len() - 1]));
    } else if room > 0 {
        let fewer = (room - 1) as nat;
        lemma_zeros(fewer, digits);
        assert(all.drop_last() =~= Seq::new(fewer, |i: int| '0') + digits);
        assert(all.last() == '0');
    } else {
        assert(all =~= digits);
    }
}

/// How a number is read: digit by digit, each worth ten times the one behind it.
/// A sign in front of it does not matter, nor do zeros; anything else that is no
/// digit spoils it, and so does one digit too many for 64 bits.
pub proof fn law_numbers_are_read_digit_by_digit(s: Seq<char>, d: nat, c: char)
    requires
        d < 10,
    ensures
        number(Seq::empty()) is None,
        number(seq!['+']) is None,
        number(seq![digit(d)]) == Some(d as u64),
        number(s) matches Some(n) ==> number(s.push(digit(d))) == (if 10 * n + d
            <= 0xFFFF_FFFF_FFFF_FFFF {
            Some((10 * n + d) as u64)
        } else {
            None
        }),
        s.len() > 0 && number(s) is None && s != seq!['+'] ==> number(s.push(digit(d))) is None,
        !('0' <= c <= '9') && (s.len() > 0 || c != '+') ==> number(s.push(c)) is None,
        s.len() > 0 && s[0] != '+' ==> number(seq!['+'] + s) == number(s),
{
    let empty = Seq::<char>::empty();
    assert(seq!['+'].drop_first() =~= empty);
    let one = seq![digit(d)];
    assert(one.drop_last() =~= empty);
    assert(digits_value(empty) == 0);
    assert(digit(d) as u32 == 0x30 + d);
    assert(one[0] as u32 == 0x30 + d);
    assert(all_digits(one));
    assert(digits_value(one) == d);
    lemma_number_grows(s, digit(d));
    if !('0' <= c <= '9') {
        let all = s.push(c);
        let rest = if all.len() > 0 && all[0] == '+' {
            all.drop_first()
        } else {
            all
        };
        if rest.len() > 0 {
            assert(rest[rest.len() - 1] == c);
            assert(!is_digit(c));
            assert(!all_digits(rest));
        }
    }
    if s.len() > 0 {
        assert((seq!['+'] + s).drop_first() =~= s);
    }
}

proof fn lemma_number_grows(s: Seq<char>, c: char)
    requires
        is_digit(c),
    ensures
        number(s) matches Some(n) ==> number(s.push(c)) == (if 10 * n + (c as u32 - 0x30)
            <= u64::MAX {
            Some((10 * n + (c as u32 - 0x30)) as u64)
        } else {
            None
        }),
        s.len() > 0 && number(s) is None && s != seq!['+'] ==> number(s.push(c)) is None,
{
    let signed = s.len() > 0 && s[0] == '+';
    let digits = if signed {
        s.drop_first()
    } else {
        s
    };
    let all = s.push(c);
    if s.len() > 0 {
        assert(all[0] == s[0]);
        if signed {
            assert(all.drop_first() =~= digits.push(c));
        }
        let more = digits.push(c);
        assert(more.drop_last() =~= digits);
        assert(digits_value(more) == 10 * digits_value(digits) + (c as u32 - 0x30));
        if digits.len() == 0 {
            assert(s =~= seq!['+']);
        }
        if all_digits(digits) {
            assert(all_digits(more));
            lemma_value_grows(digits, 0);
        } else {
            let k = choose|k: int| 0 <= k < digits.len() && !is_digit(digits[k]);
            assert(more[k] == digits[k]);
            assert(!all_digits(more));
        }
    }
}

/// What trimming leaves: the text is white space, what is left, and white space
/// again; and what is left neither begins nor ends in white space.
pub proof fn law_trimming_takes_only_white_space(s: Seq<char>)
    ensures
        ({
            let left = trimmed(s);
            let start = skip_space(s, 0);
            &&& 0 <= start && start + left.len() <= s.len()
            &&& left == s.subrange(start, start + left.len())
            &&& forall|i: int|
                0 <= i < s.len() && !(start <= i < start + left.len()) ==> is_space(#[trigger] s[i])
            &&& left.len() > 0 ==> !is_space(left[0]) && !is_space(left.last())
            &&& trimmed_start(s) == s.skip(start)
        }),
{
    lemma_skip_space(s, 0);
    lemma_space_start(s, s.len() as int);
    let start = skip_space(s, 0);
    let end = space_start(s, s.len() as int);
    let left = trimmed(s);
    if start >= end {
        assert(left =~= s.subrange(start, start));
        assert forall|i: int| 0 <= i < s.len() implies is_space(#[trigger] s[i]) by {
            if start < s.len() && start < end {
                assert(!is_space(s[start]));
            }
            if i >= start {
                assert(end <= i);
            }
        }
    } else {
        assert(left.last() == s[end - 1]);
    }
}

pub(crate) proof fn lemma_skip_space(s: Seq<char>, i: int)
    requires
        0 <= i <= s.len(),
    ensures
        i <= skip_space(s, i) <= s.len(),
        forall|k: int| i <= k < skip_space(s, i) ==> is_space(#[trigger] s[k]),
        skip_space(s, i) < s.len() ==> !is_space(s[skip_space(s, i)]),
    decreases s.len() - i,
{
    if i < s.len() && is_space(s[i]) {
        lemma_skip_space(s, i + 1);
    }
}

pub(crate) proof fn lemma_word_end(s: Seq<char>, i: int)
    requires
        0 <= i <= s.len(),
    ensures
        i <= word_end(s, i) <= s.len(),
        forall|k: int| i <= k < word_end(s, i) ==> !is_space(#[trigger] s[k]),
        word_end(s, i) < s.len() ==> is_space(s[word_end(s, i)]),
    decreases s.len() - i,
{
    if i < s.len() && !is_space(s[i]) {
        lemma_word_end(s, i + 1);
    }
}

proof fn lemma_space_start(s: Seq<char>, j: int)
    requires
        0 <= j <= s.len(),
    ensures
        0 <= space_start(s, j) <= j,
        forall|k: int| space_start(s, j) <= k < j ==> is_space(#[trigger] s[k]),
        space_start(s, j) > 0 ==> !is_space(s[space_start(s, j) - 1]),
    decreases j,
{
    if j > 0 && is_space(s[j - 1]) {
        lemma_space_start(s, j - 1);
    }
}

/// A name that is text is shown as it is; one that is not is shown as a question
/// mark.
pub proof fn law_names_that_are_text_are_shown(name: Seq<u8>)
    ensures
        vstd::utf8::valid_utf8(name) ==> shown(name) == name,
        !vstd::utf8::valid_utf8(name) ==> shown(name).len() == 1 && shown(name)[0] == 63,
{
}

/// Between the words of a line stand spaces, tabs and line ends, never a visible
/// ASCII character; and of what is visible or a space, nothing is a control
/// character.
pub proof fn law_visible_characters_are_kept(c: char)
    ensures
        c == ' ' || c == '\t' || c == '\n' || c == '\r' ==> is_space(c),
        '!' <= c <= '~' ==> !is_space(c) && !is_control_char(c),
        c == ' ' ==> !is_control_char(c),
        c < ' ' ==> is_control_char(c),
        c <= '~' && is_space(c) && !is_control_char(c) ==> c == ' ',
        c as u32 == 127 ==> is_control_char(c) && !is_space(c),
{
}

} // verus!
