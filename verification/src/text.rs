//! Scanning of plain text: runs of characters of one class, decimal numbers
//! and fixed words.

use vstd::prelude::*;
use vstd::string::StringSliceAdditionalSpecFns;
use vstd::utf8::is_ascii_chars;

verus! {

/// The classes of characters that the grammars of this crate are made of.
#[derive(Clone, Copy, Debug, PartialEq, Eq)]
pub enum CharClass {
    /// Space, tab, line feed, vertical tab, form feed, carriage return.
    Space,
    /// `0` to `9`.
    Digit,
    /// `a` to `z` and `A` to `Z`.
    Letter,
}

pub open spec fn in_class(class: CharClass, c: char) -> bool {
    match class {
        CharClass::Space => c == ' ' || '\t' <= c <= '\r',
        CharClass::Digit => '0' <= c <= '9',
        CharClass::Letter => 'a' <= c <= 'z' || 'A' <= c <= 'Z',
    }
}

/// The position behind the longest run of characters of `class` that starts
/// at `from`.
pub open spec fn span_end(text: Seq<char>, class: CharClass, from: int) -> int
    decreases text.len() - from,
{
    if 0 <= from < text.len() && in_class(class, text[from]) {
        span_end(text, class, from + 1)
    } else {
        from
    }
}

/// Every character of `text` from `from` up to `to` is of `class`.
pub open spec fn all_in_class(text: Seq<char>, class: CharClass, from: int, to: int) -> bool {
    forall|i: int| from <= i < to ==> in_class(class, #[trigger] text[i])
}

/// The value of a decimal digit.
pub open spec fn digit_value(c: char) -> int {
    c as u32 - '0' as u32
}

/// The number that a sequence of decimal digits stands for.
pub open spec fn decimal(digits: Seq<char>) -> int
    decreases digits.len(),
{
    if digits.len() == 0 {
        0
    } else {
        decimal(digits.drop_last()) * 10 + digit_value(digits.last())
    }
}

/// The text that a sequence of ASCII bytes holds.
pub open spec fn chars_of(bytes: Seq<u8>) -> Seq<char> {
    Seq::new(bytes.len(), |i: int| bytes[i] as char)
}

/// What `span_end` passes is of the class, and what it stops at is not.
pub proof fn lemma_span_end(text: Seq<char>, class: CharClass, from: int)
    requires
        0 <= from <= text.len(),
    ensures
        from <= span_end(text, class, from) <= text.len(),
        all_in_class(text, class, from, span_end(text, class, from)),
        span_end(text, class, from) < text.len() ==> !in_class(
            class,
            text[span_end(text, class, from)],
        ),
    decreases text.len() - from,
{
    if from < text.len() && in_class(class, text[from]) {
        lemma_span_end(text, class, from + 1);
    }
}

/// Digits stand for a number that is not negative, and more digits for a
/// number at least as large.
pub proof fn lemma_decimal_grows(digits: Seq<char>, n: int)
    requires
        all_in_class(digits, CharClass::Digit, 0, digits.len() as int),
        0 <= n <= digits.len(),
    ensures
        0 <= decimal(digits.take(n)) <= decimal(digits),
    decreases digits.len() - n,
{
    lemma_decimal_nonnegative(digits.take(n));
    if n < digits.len() {
        lemma_decimal_grows(digits, n + 1);
        assert(digits.take(n + 1).drop_last() =~= digits.take(n));
        assert(digits.take(n + 1).last() == digits[n]);
        assert(in_class(CharClass::Digit, digits[n]));
    } else {
        assert(digits.take(n) =~= digits);
    }
}

pub proof fn lemma_decimal_nonnegative(digits: Seq<char>)
    requires
        all_in_class(digits, CharClass::Digit, 0, digits.len() as int),
    ensures
        0 <= decimal(digits),
    decreases digits.len(),
{
    if digits.len() > 0 {
        assert(in_class(CharClass::Digit, digits[digits.len() - 1]));
        lemma_decimal_nonnegative(digits.drop_last());
    }
}

/// The bytes of `text` if it is ASCII: then every byte is one character.
pub fn ascii_bytes(text: &str) -> (r: Option<&[u8]>)
    ensures
        r is Some <==> is_ascii_chars(text@),
        r matches Some(bytes) ==> chars_of(bytes@) == text@ && is_ascii_chars(chars_of(bytes@)),
{
    if text.is_ascii() {
        let bytes = text.as_bytes();
        proof {
            vstd::string::is_ascii_spec_bytes(text);
            assert(chars_of(bytes@) =~= text@) by {
                assert forall|i: int| 0 <= i < text@.len() implies (text@[i] as u8) as char
                    == text@[i] by {
                    let c = text@[i];
                    assert('\0' <= c <= '\u{7f}');
                }
            }
        }
        Some(bytes)
    } else {
        None
    }
}

/// Whether the byte is a character of `class`.
pub fn byte_in_class(class: CharClass, byte: u8) -> (r: bool)
    ensures
        r == in_class(class, byte as char),
{
    match class {
        CharClass::Space => byte == 32 || (9 <= byte && byte <= 13),
        CharClass::Digit => 48 <= byte && byte <= 57,
        CharClass::Letter => (97 <= byte && byte <= 122) || (65 <= byte && byte <= 90),
    }
}

/// The position behind the run of `class` that starts at `from`.
pub fn scan(bytes: &[u8], class: CharClass, from: usize) -> (to: usize)
    requires
        from <= bytes@.len(),
    ensures
        to == span_end(chars_of(bytes@), class, from as int),
        from <= to <= bytes@.len(),
{
    let mut to = from;
    while to < bytes.len() && byte_in_class(class, bytes[to])
        invariant
            from <= to <= bytes@.len(),
            span_end(chars_of(bytes@), class, from as int) == span_end(
                chars_of(bytes@),
                class,
                to as int,
            ),
        decreases bytes@.len() - to,
    {
        to += 1;
    }
    to
}

/// The number that the digits from `from` up to `to` stand for, or `None`
/// if it does not fit in 64 bits.
pub fn decimal_value(bytes: &[u8], from: usize, to: usize) -> (r: Option<u64>)
    requires
        from <= to <= bytes@.len(),
        all_in_class(chars_of(bytes@), CharClass::Digit, from as int, to as int),
    ensures
        match r {
            Some(v) => v == decimal(chars_of(bytes@).subrange(from as int, to as int)),
            None => decimal(chars_of(bytes@).subrange(from as int, to as int)) > u64::MAX,
        },
{
    let ghost digits = chars_of(bytes@).subrange(from as int, to as int);
    let mut value: u64 = 0;
    let mut i = from;
    proof {
        assert forall|k: int| 0 <= k < digits.len() implies in_class(
            CharClass::Digit,
            #[trigger] digits[k],
        ) by {
            assert(digits[k] == chars_of(bytes@)[from + k]);
        }
    }
    while i < to
        invariant
            from <= i <= to <= bytes@.len(),
            digits == chars_of(bytes@).subrange(from as int, to as int),
            all_in_class(digits, CharClass::Digit, 0, digits.len() as int),
            value == decimal(digits.take(i - from)),
        decreases to - i,
    {
        proof {
            assert(digits[i - from] == bytes@[i as int] as char);
            assert(in_class(CharClass::Digit, digits[i - from]));
        }
        let digit = (bytes[i] - 48) as u64;
        proof {
            let next = digits.take(i - from + 1);
            assert(next.drop_last() =~= digits.take(i - from));
            assert(next.last() == digits[i - from]);
            assert(digits[i - from] == bytes@[i as int] as char);
            assert(in_class(CharClass::Digit, digits[i - from]));
            assert(digit == digit_value(digits[i - from]));
            lemma_decimal_grows(digits, i - from + 1);
        }
        let scaled = match value.checked_mul(10) {
            Some(v) => v,
            None => {
                return None;
            },
        };
        value = match scaled.checked_add(digit) {
            Some(v) => v,
            None => {
                return None;
            },
        };
        i += 1;
    }
    proof {
        assert(digits.take(to - from) =~= digits);
    }
    Some(value)
}

/// Whether the text from `from` up to `to` is `word`.
pub fn word_is(bytes: &[u8], from: usize, to: usize, word: &str) -> (r: bool)
    requires
        from <= to <= bytes@.len(),
        is_ascii_chars(chars_of(bytes@)),
    ensures
        r == (chars_of(bytes@).subrange(from as int, to as int) == word@),
{
    let ghost part = chars_of(bytes@).subrange(from as int, to as int);
    let other = match ascii_bytes(word) {
        Some(other) => other,
        None => {
            proof {
                if part == word@ {
                    assert forall|i: int| 0 <= i < word@.len() implies '\0' <= (
                    #[trigger] word@[i]) <= '\u{7f}' by {
                        assert(word@[i] == chars_of(bytes@)[from + i]);
                    }
                }
            }
            return false;
        },
    };
    if other.len() != to - from {
        proof {
            assert(part.len() == to - from);
            assert(chars_of(other@).len() == other@.len());
        }
        return false;
    }
    let mut i: usize = 0;
    while i < other.len()
        invariant
            i <= other@.len(),
            other@.len() == to - from,
            from <= to <= bytes@.len(),
            chars_of(other@) == word@,
            is_ascii_chars(chars_of(other@)),
            is_ascii_chars(chars_of(bytes@)),
            part == chars_of(bytes@).subrange(from as int, to as int),
            forall|k: int| 0 <= k < i ==> part[k] == word@[k],
        decreases other@.len() - i,
    {
        if bytes[from + i] != other[i] {
            proof {
                assert(part[i as int] == bytes@[from + i] as char);
                assert(word@[i as int] == other@[i as int] as char);
                assert(is_ascii_chars(chars_of(other@)));
                assert('\0' <= chars_of(other@)[i as int] <= '\u{7f}');
                assert('\0' <= chars_of(bytes@)[from + i] <= '\u{7f}');
            }
            return false;
        }
        proof {
            assert(part[i as int] == bytes@[from + i] as char);
            assert(word@[i as int] == other@[i as int] as char);
        }
        i += 1;
    }
    proof {
        assert(part =~= word@);
    }
    true
}

/// Where a number and a word stand in `text`, if `text` is a run of digits
/// and a run of letters, with optional space before, between and behind:
/// the digits are from `.0` up to `.1`, the letters from `.2` up to `.3`.
pub open spec fn amount_shape(text: Seq<char>) -> Option<(int, int, int, int)> {
    let a = span_end(text, CharClass::Space, 0);
    let b = span_end(text, CharClass::Digit, a);
    let c = span_end(text, CharClass::Space, b);
    let d = span_end(text, CharClass::Letter, c);
    let e = span_end(text, CharClass::Space, d);
    if a < b && c < d && e == text.len() {
        Some((a, b, c, d))
    } else {
        None
    }
}

/// Where a number stands in `text`, if `text` is a run of digits with
/// optional space before and behind.
pub open spec fn number_shape(text: Seq<char>) -> Option<(int, int)> {
    let a = span_end(text, CharClass::Space, 0);
    let b = span_end(text, CharClass::Digit, a);
    let c = span_end(text, CharClass::Space, b);
    if a < b && c == text.len() {
        Some((a, b))
    } else {
        None
    }
}

/// A character of one of the classes is an ASCII character.
pub proof fn lemma_class_is_ascii(class: CharClass, c: char)
    requires
        in_class(class, c),
    ensures
        '\0' <= c <= '\u{7f}',
{
}

/// A text of the shape of an amount or of a number is ASCII.
pub proof fn lemma_shape_is_ascii(text: Seq<char>)
    requires
        amount_shape(text) is Some || number_shape(text) is Some,
    ensures
        is_ascii_chars(text),
{
    let a = span_end(text, CharClass::Space, 0);
    let b = span_end(text, CharClass::Digit, a);
    let c = span_end(text, CharClass::Space, b);
    lemma_span_end(text, CharClass::Space, 0);
    lemma_span_end(text, CharClass::Digit, a);
    lemma_span_end(text, CharClass::Space, b);
    if amount_shape(text) is Some {
        let d = span_end(text, CharClass::Letter, c);
        lemma_span_end(text, CharClass::Letter, c);
        lemma_span_end(text, CharClass::Space, d);
        assert forall|i: int| 0 <= i < text.len() implies '\0' <= #[trigger] text[i]
            <= '\u{7f}' by {
            if i < a {
                lemma_class_is_ascii(CharClass::Space, text[i]);
            } else if i < b {
                lemma_class_is_ascii(CharClass::Digit, text[i]);
            } else if i < c {
                lemma_class_is_ascii(CharClass::Space, text[i]);
            } else if i < d {
                lemma_class_is_ascii(CharClass::Letter, text[i]);
            } else {
                lemma_class_is_ascii(CharClass::Space, text[i]);
            }
        }
    } else {
        assert forall|i: int| 0 <= i < text.len() implies '\0' <= #[trigger] text[i]
            <= '\u{7f}' by {
            if i < a {
                lemma_class_is_ascii(CharClass::Space, text[i]);
            } else if i < b {
                lemma_class_is_ascii(CharClass::Digit, text[i]);
            } else {
                lemma_class_is_ascii(CharClass::Space, text[i]);
            }
        }
    }
}

/// Finds the number and the word of an amount.
pub fn scan_amount(bytes: &[u8]) -> (r: Option<(usize, usize, usize, usize)>)
    ensures
        match r {
            Some((a, b, c, d)) => {
                &&& amount_shape(chars_of(bytes@)) == Some((a as int, b as int, c as int, d as int))
                &&& a < b <= c < d <= bytes@.len()
                &&& all_in_class(chars_of(bytes@), CharClass::Digit, a as int, b as int)
                &&& all_in_class(chars_of(bytes@), CharClass::Letter, c as int, d as int)
            },
            None => amount_shape(chars_of(bytes@)) is None,
        },
{
    let a = scan(bytes, CharClass::Space, 0);
    let b = scan(bytes, CharClass::Digit, a);
    let c = scan(bytes, CharClass::Space, b);
    let d = scan(bytes, CharClass::Letter, c);
    let e = scan(bytes, CharClass::Space, d);
    proof {
        lemma_span_end(chars_of(bytes@), CharClass::Digit, a as int);
        lemma_span_end(chars_of(bytes@), CharClass::Letter, c as int);
    }
    if a < b && c < d && e == bytes.len() {
        Some((a, b, c, d))
    } else {
        None
    }
}

/// Finds the number of a text that holds one number.
pub fn scan_number(bytes: &[u8]) -> (r: Option<(usize, usize)>)
    ensures
        match r {
            Some((a, b)) => {
                &&& number_shape(chars_of(bytes@)) == Some((a as int, b as int))
                &&& a < b <= bytes@.len()
                &&& all_in_class(chars_of(bytes@), CharClass::Digit, a as int, b as int)
            },
            None => number_shape(chars_of(bytes@)) is None,
        },
{
    let a = scan(bytes, CharClass::Space, 0);
    let b = scan(bytes, CharClass::Digit, a);
    let c = scan(bytes, CharClass::Space, b);
    proof {
        lemma_span_end(chars_of(bytes@), CharClass::Digit, a as int);
    }
    if a < b && c == bytes.len() {
        Some((a, b))
    } else {
        None
    }
}

/// The character of a decimal digit.
pub open spec fn digit_char(d: int) -> char {
    if d == 0 {
        '0'
    } else if d == 1 {
        '1'
    } else if d == 2 {
        '2'
    } else if d == 3 {
        '3'
    } else if d == 4 {
        '4'
    } else if d == 5 {
        '5'
    } else if d == 6 {
        '6'
    } else if d == 7 {
        '7'
    } else if d == 8 {
        '8'
    } else {
        '9'
    }
}

/// The decimal digits of a number that is not negative, without leading
/// zeros.
pub open spec fn decimal_digits(n: int) -> Seq<char>
    decreases n,
{
    if n < 10 {
        seq![digit_char(n)]
    } else {
        decimal_digits(n / 10).push(digit_char(n % 10))
    }
}

/// The decimal text of an integer: a minus sign before a negative number.
pub open spec fn decimal_text(v: int) -> Seq<char> {
    if v < 0 {
        seq!['-'] + decimal_digits(-v)
    } else {
        decimal_digits(v)
    }
}

fn digit_str(d: u64) -> (r: &'static str)
    requires
        d < 10,
    ensures
        r@ == seq![digit_char(d as int)],
{
    proof {
        reveal_strlit("0");
        reveal_strlit("1");
        reveal_strlit("2");
        reveal_strlit("3");
        reveal_strlit("4");
        reveal_strlit("5");
        reveal_strlit("6");
        reveal_strlit("7");
        reveal_strlit("8");
        reveal_strlit("9");
    }
    let r = if d == 0 {
        "0"
    } else if d == 1 {
        "1"
    } else if d == 2 {
        "2"
    } else if d == 3 {
        "3"
    } else if d == 4 {
        "4"
    } else if d == 5 {
        "5"
    } else if d == 6 {
        "6"
    } else if d == 7 {
        "7"
    } else if d == 8 {
        "8"
    } else {
        "9"
    };
    proof {
        assert(r@ =~= seq![digit_char(d as int)]);
    }
    r
}

/// Appends the decimal digits of `n` to `out`.
pub fn append_digits(out: &mut String, n: u64)
    ensures
        final(out)@ == old(out)@ + decimal_digits(n as int),
    decreases n,
{
    if n >= 10 {
        append_digits(out, n / 10);
    }
    let ghost before = out@;
    out.append(digit_str(n % 10));
    proof {
        if n >= 10 {
            assert(before + seq![digit_char((n % 10) as int)] =~= old(out)@ + decimal_digits(
                (n / 10) as int,
            ).push(digit_char((n % 10) as int)));
        }
    }
}

/// Appends the decimal text of `v` to `out`.
pub fn append_decimal(out: &mut String, v: i64)
    ensures
        final(out)@ == old(out)@ + decimal_text(v as int),
{
    if v < 0 {
        proof {
            reveal_strlit("-");
            assert("-"@ =~= seq!['-']);
        }
        out.append("-");
        let magnitude = (-(v + 1)) as u64 + 1;
        let ghost before = out@;
        append_digits(out, magnitude);
        proof {
            assert(out@ =~= old(out)@ + (seq!['-'] + decimal_digits(-v)));
        }
    } else {
        append_digits(out, v as u64);
    }
}

/// Whether two texts are the same.
pub fn same_text(a: &str, b: &str) -> (r: bool)
    ensures
        r == (a@ == b@),
{
    let x = a.as_bytes();
    let y = b.as_bytes();
    proof {
        vstd::utf8::encode_utf8_decode_utf8(a@);
        vstd::utf8::encode_utf8_decode_utf8(b@);
    }
    if x.len() != y.len() {
        return false;
    }
    let mut i: usize = 0;
    while i < x.len()
        invariant
            i <= x@.len(),
            x@.len() == y@.len(),
            x@ == a.spec_bytes(),
            y@ == b.spec_bytes(),
            forall|k: int| 0 <= k < i ==> x@[k] == y@[k],
        decreases x@.len() - i,
    {
        if x[i] != y[i] {
            return false;
        }
        i += 1;
    }
    proof {
        assert(x@ =~= y@);
    }
    true
}

/// Ten to the power of `n`.
pub open spec fn pow10(n: nat) -> int
    decreases n,
{
    if n == 0 {
        1
    } else {
        10 * pow10((n - 1) as nat)
    }
}

/// A number of `n` digits is less than ten to the power of `n`.
pub proof fn lemma_decimal_bound(digits: Seq<char>)
    requires
        all_in_class(digits, CharClass::Digit, 0, digits.len() as int),
    ensures
        0 <= decimal(digits) < pow10(digits.len()),
    decreases digits.len(),
{
    if digits.len() > 0 {
        assert(in_class(CharClass::Digit, digits[digits.len() - 1]));
        lemma_decimal_bound(digits.drop_last());
    }
}

/// The byte of a text that is one byte long: the delimiter of a file.
pub fn single_byte(text: &str) -> (r: Option<u8>)
    ensures
        match r {
            Some(byte) => text.spec_bytes() == seq![byte],
            None => text.spec_bytes().len() != 1,
        },
{
    let bytes = text.as_bytes();
    if bytes.len() == 1 {
        proof {
            assert(bytes@ =~= seq![bytes@[0]]);
        }
        Some(bytes[0])
    } else {
        None
    }
}

/// Whether an identifier of a query is a numbered parameter: `@P` and its
/// number.
pub open spec fn numbered_parameter(identifier: Seq<char>) -> bool {
    identifier.len() >= 2 && identifier[0] == '@' && identifier[1] == 'P'
}

/// Whether the identifier is a numbered parameter. Such a parameter is
/// replaced by `?` when queries are compared, so that the numbering does
/// not tell two queries apart.
pub fn is_numbered_parameter(identifier: &str) -> (r: bool)
    ensures
        r == numbered_parameter(identifier@),
{
    identifier.unicode_len() >= 2 && identifier.get_char(0) == '@' && identifier.get_char(1) == 'P'
}

} // verus!
