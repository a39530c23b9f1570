//! Reading what the system hands out as bytes.

use vstd::prelude::*;
use vstd::slice::slice_subrange;
use vstd::utf8::{
    is_char_boundary_iff_not_is_continuation_byte, is_continuation_byte, pop_first_scalar,
    valid_utf8, valid_utf8_split,
};

verus! {

/// The byte `/`.
pub const SLASH: u8 = 0x2f;

/// The byte `.`.
pub const DOT: u8 = 0x2e;

/// The byte `+`.
pub const PLUS: u8 = 0x2b;

/// A blank of ASCII text: space, tab, line feed, form feed or carriage return.
pub open spec fn is_blank(b: u8) -> bool {
    b == 0x20 || b == 0x09 || b == 0x0a || b == 0x0c || b == 0x0d
}

/// An ASCII decimal digit.
pub open spec fn is_digit(b: u8) -> bool {
    0x30 <= b <= 0x39
}

/// `bytes` without the blanks in front.
pub open spec fn trim_front(bytes: Seq<u8>) -> Seq<u8>
    decreases bytes.len(),
{
    if bytes.len() > 0 && is_blank(bytes[0]) {
        trim_front(bytes.skip(1))
    } else {
        bytes
    }
}

/// `bytes` without the blanks at the end.
pub open spec fn trim_back(bytes: Seq<u8>) -> Seq<u8>
    decreases bytes.len(),
{
    if bytes.len() > 0 && is_blank(bytes.last()) {
        trim_back(bytes.drop_last())
    } else {
        bytes
    }
}

/// How many bytes stand before the first `mark`: all of them where there is none.
pub open spec fn head_len(bytes: Seq<u8>, mark: u8) -> nat
    decreases bytes.len(),
{
    if bytes.len() > 0 && bytes[0] != mark {
        1 + head_len(bytes.skip(1), mark)
    } else {
        0
    }
}

/// How many bytes stand behind the last `mark`: all of them where there is none.
pub open spec fn tail_len(bytes: Seq<u8>, mark: u8) -> nat
    decreases bytes.len(),
{
    if bytes.len() > 0 && bytes.last() != mark {
        1 + tail_len(bytes.drop_last(), mark)
    } else {
        0
    }
}

/// The bytes before the first `mark`, or all of them where there is none.
pub open spec fn before_first(bytes: Seq<u8>, mark: u8) -> Seq<u8> {
    bytes.take(head_len(bytes, mark) as int)
}

/// The bytes behind the last `mark`, or all of them where there is none.
pub open spec fn after_last(bytes: Seq<u8>, mark: u8) -> Seq<u8> {
    bytes.skip(bytes.len() - tail_len(bytes, mark))
}

/// How many bytes stand before the first blank.
pub open spec fn word_len(bytes: Seq<u8>) -> nat
    decreases bytes.len(),
{
    if bytes.len() > 0 && !is_blank(bytes[0]) {
        1 + word_len(bytes.skip(1))
    } else {
        0
    }
}

/// The word at place `n`, counted from zero, of text in words set apart by blanks.
pub open spec fn word(bytes: Seq<u8>, n: nat) -> Option<Seq<u8>>
    decreases n,
{
    let text = trim_front(bytes);
    if text.len() == 0 {
        None
    } else if n == 0 {
        Some(text.take(word_len(text) as int))
    } else {
        word(text.skip(word_len(text) as int), (n - 1) as nat)
    }
}

/// The number that decimal digits write.
pub open spec fn decimal(digits: Seq<u8>) -> nat
    decreases digits.len(),
{
    if digits.len() == 0 {
        0
    } else {
        10 * decimal(digits.drop_last()) + (digits.last() - 0x30) as nat
    }
}

/// Text without a plus sign in front.
pub open spec fn unsigned(text: Seq<u8>) -> Seq<u8> {
    if text.len() > 0 && text[0] == PLUS {
        text.skip(1)
    } else {
        text
    }
}

/// The text holds nothing but digits.
pub open spec fn all_digits(text: Seq<u8>) -> bool {
    forall|i: int| 0 <= i < text.len() ==> is_digit(#[trigger] text[i])
}

/// The number that the text writes: digits, perhaps behind a plus sign. None
/// where there is anything else or the number does not fit.
pub open spec fn number(text: Seq<u8>) -> Option<u64> {
    let digits = unsigned(text);
    if digits.len() > 0 && all_digits(digits) && decimal(digits) <= u64::MAX {
        Some(decimal(digits) as u64)
    } else {
        None
    }
}

/// The last component of a path whose components stand between slashes. Empty
/// components and components `.` do not count. None where no component is
/// left, or the last is `..`.
pub open spec fn file_name_of(path: Seq<u8>) -> Option<Seq<u8>>
    decreases path.len(),
{
    let len = tail_len(path, SLASH);
    let component = after_last(path, SLASH);
    if component == seq![DOT, DOT] {
        None
    } else if component.len() > 0 && component != seq![DOT] {
        Some(component)
    } else if len < path.len() {
        file_name_of(path.take(path.len() - len - 1))
    } else {
        None
    }
}

/// The little-endian number in the four bytes at `at`.
pub open spec fn u32_at(bytes: Seq<u8>, at: int) -> u32 {
    (bytes[at] + 0x100 * bytes[at + 1] + 0x1_0000 * bytes[at + 2] + 0x100_0000 * bytes[at
        + 3]) as u32
}

/// The little-endian number in the eight bytes at `at`.
pub open spec fn u64_at(bytes: Seq<u8>, at: int) -> u64 {
    (u32_at(bytes, at) + 0x1_0000_0000 * u32_at(bytes, at + 4)) as u64
}

/// The big-endian number in the four bytes at `at`.
pub open spec fn u32_be_at(bytes: Seq<u8>, at: int) -> u32 {
    (0x100_0000 * bytes[at] + 0x1_0000 * bytes[at + 1] + 0x100 * bytes[at + 2] + bytes[at
        + 3]) as u32
}

/// The big-endian number in the eight bytes at `at`.
pub open spec fn u64_be_at(bytes: Seq<u8>, at: int) -> u64 {
    (0x1_0000_0000 * u32_be_at(bytes, at) + u32_be_at(bytes, at + 4)) as u64
}

/// The number in the machine word at `at`, of four bytes or of eight.
pub open spec fn word_at(bytes: Seq<u8>, at: int, word: usize, little: bool) -> u64 {
    if word == 4 {
        if little {
            u32_at(bytes, at) as u64
        } else {
            u32_be_at(bytes, at) as u64
        }
    } else {
        if little {
            u64_at(bytes, at)
        } else {
            u64_be_at(bytes, at)
        }
    }
}

/// The first `n` bytes, all of them blanks, are what `trim_front` takes away.
proof fn lemma_trim_front(bytes: Seq<u8>, n: int)
    requires
        0 <= n <= bytes.len(),
        forall|i: int| 0 <= i < n ==> is_blank(#[trigger] bytes[i]),
        n < bytes.len() ==> !is_blank(bytes[n]),
    ensures
        trim_front(bytes) == bytes.skip(n),
    decreases n,
{
    if n == 0 {
        assert(bytes.skip(0) =~= bytes);
    } else {
        assert(is_blank(bytes[0]));
        let rest = bytes.skip(1);
        assert forall|i: int| 0 <= i < n - 1 implies is_blank(#[trigger] rest[i]) by {
            assert(is_blank(bytes[i + 1]));
        }
        lemma_trim_front(rest, n - 1);
        assert(rest.skip(n - 1) =~= bytes.skip(n));
    }
}

/// What follows the first `n` bytes, all of it blanks, is what `trim_back` takes away.
proof fn lemma_trim_back(bytes: Seq<u8>, n: int)
    requires
        0 <= n <= bytes.len(),
        forall|i: int| n <= i < bytes.len() ==> is_blank(#[trigger] bytes[i]),
        n > 0 ==> !is_blank(bytes[n - 1]),
    ensures
        trim_back(bytes) == bytes.take(n),
    decreases bytes.len(),
{
    if n == bytes.len() {
        assert(bytes.take(n) =~= bytes);
    } else {
        assert(is_blank(bytes[bytes.len() - 1]));
        let rest = bytes.drop_last();
        lemma_trim_back(rest, n);
        assert(rest.take(n) =~= bytes.take(n));
    }
}

/// A run of `n` bytes without the mark, up to a mark or the end, is the head.
proof fn lemma_head_len(bytes: Seq<u8>, mark: u8, n: int)
    requires
        0 <= n <= bytes.len(),
        forall|i: int| 0 <= i < n ==> #[trigger] bytes[i] != mark,
        n < bytes.len() ==> bytes[n] == mark,
    ensures
        head_len(bytes, mark) == n,
    decreases n,
{
    if n > 0 {
        assert(bytes[0] != mark);
        let rest = bytes.skip(1);
        assert forall|i: int| 0 <= i < n - 1 implies #[trigger] rest[i] != mark by {
            assert(bytes[i + 1] != mark);
        }
        lemma_head_len(rest, mark, n - 1);
    }
}

/// A run of `n` bytes without the mark, back to a mark or the start, is the tail.
proof fn lemma_tail_len(bytes: Seq<u8>, mark: u8, n: int)
    requires
        0 <= n <= bytes.len(),
        forall|i: int| bytes.len() - n <= i < bytes.len() ==> #[trigger] bytes[i] != mark,
        n < bytes.len() ==> bytes[bytes.len() - n - 1] == mark,
    ensures
        tail_len(bytes, mark) == n,
    decreases n,
{
    if n > 0 {
        assert(bytes[bytes.len() - 1] != mark);
        lemma_tail_len(bytes.drop_last(), mark, n - 1);
    }
}

/// A run of `n` bytes that are no blanks, up to a blank or the end, is the word.
proof fn lemma_word_len(bytes: Seq<u8>, n: int)
    requires
        0 <= n <= bytes.len(),
        forall|i: int| 0 <= i < n ==> !is_blank(#[trigger] bytes[i]),
        n < bytes.len() ==> is_blank(bytes[n]),
    ensures
        word_len(bytes) == n,
    decreases n,
{
    if n > 0 {
        assert(!is_blank(bytes[0]));
        let rest = bytes.skip(1);
        assert forall|i: int| 0 <= i < n - 1 implies !is_blank(#[trigger] rest[i]) by {
            assert(!is_blank(bytes[i + 1]));
        }
        lemma_word_len(rest, n - 1);
    }
}

/// More digits never write a smaller number.
proof fn lemma_decimal_grows(digits: Seq<u8>, n: int)
    requires
        0 <= n <= digits.len(),
    ensures
        decimal(digits.take(n)) <= decimal(digits),
    decreases digits.len(),
{
    if n == digits.len() {
        assert(digits.take(n) =~= digits);
    } else {
        let front = digits.drop_last();
        lemma_decimal_grows(front, n);
        assert(front.take(n) =~= digits.take(n));
    }
}

fn blank(b: u8) -> (r: bool)
    ensures
        r == is_blank(b),
{
    b == 0x20 || b == 0x09 || b == 0x0a || b == 0x0c || b == 0x0d
}

fn skip_blanks(bytes: &[u8]) -> (r: &[u8])
    ensures
        r@ == trim_front(bytes@),
{
    let mut n: usize = 0;
    while n < bytes.len() && blank(bytes[n])
        invariant
            n <= bytes.len(),
            forall|i: int| 0 <= i < n ==> is_blank(#[trigger] bytes@[i]),
        decreases bytes.len() - n,
    {
        n += 1;
    }
    proof {
        lemma_trim_front(bytes@, n as int);
    }
    slice_subrange(bytes, n, bytes.len())
}

/// The bytes without the blanks at both ends.
pub fn trim_ascii_whitespace(bytes: &[u8]) -> (r: &[u8])
    ensures
        r@ == trim_back(trim_front(bytes@)),
{
    let text = skip_blanks(bytes);
    let mut n: usize = text.len();
    while n > 0 && blank(text[n - 1])
        invariant
            n <= text.len(),
            forall|i: int| n <= i < text.len() ==> is_blank(#[trigger] text@[i]),
        decreases n,
    {
        n -= 1;
    }
    proof {
        lemma_trim_back(text@, n as int);
    }
    slice_subrange(text, 0, n)
}

/// The bytes before the first `mark`, or all of them where there is none.
pub fn up_to(bytes: &[u8], mark: u8) -> (r: &[u8])
    ensures
        r@ == before_first(bytes@, mark),
        r@.len() == head_len(bytes@, mark),
        r@.len() <= bytes@.len(),
{
    let mut n: usize = 0;
    while n < bytes.len() && bytes[n] != mark
        invariant
            n <= bytes.len(),
            forall|i: int| 0 <= i < n ==> #[trigger] bytes@[i] != mark,
        decreases bytes.len() - n,
    {
        n += 1;
    }
    proof {
        lemma_head_len(bytes@, mark, n as int);
    }
    slice_subrange(bytes, 0, n)
}

/// The bytes behind the last `mark`, or all of them where there is none.
pub fn behind_last(bytes: &[u8], mark: u8) -> (r: &[u8])
    ensures
        r@ == after_last(bytes@, mark),
        r@.len() == tail_len(bytes@, mark),
        r@.len() <= bytes@.len(),
{
    let mut start: usize = bytes.len();
    while start > 0 && bytes[start - 1] != mark
        invariant
            start <= bytes.len(),
            forall|i: int| start <= i < bytes.len() ==> #[trigger] bytes@[i] != mark,
        decreases start,
    {
        start -= 1;
    }
    proof {
        lemma_tail_len(bytes@, mark, bytes.len() - start);
    }
    slice_subrange(bytes, start, bytes.len())
}

/// The last component of a path whose components stand between slashes, as
/// `std::path::Path::file_name` finds it on a Unix system.
pub fn file_name(path: &[u8]) -> (r: Option<&[u8]>)
    ensures
        match r {
            Some(name) => file_name_of(path@) == Some(name@) && name@.len() > 0,
            None => file_name_of(path@) is None,
        },
{
    let mut rest = path;
    loop
        invariant
            file_name_of(rest@) == file_name_of(path@),
        decreases rest@.len(),
    {
        let component = behind_last(rest, SLASH);
        let len = component.len();
        if len == 2 && component[0] == DOT && component[1] == DOT {
            assert(component@ =~= seq![DOT, DOT]);
            return None;
        }
        if len > 0 && !(len == 1 && component[0] == DOT) {
            proof {
                if component@ == seq![DOT, DOT] {
                    assert(component@[0] == DOT && component@[1] == DOT);
                }
                if component@ == seq![DOT] {
                    assert(component@[0] == DOT);
                }
            }
            return Some(component);
        }
        assert(component@.len() > 0 ==> component@ =~= seq![DOT]);
        assert(component@ != seq![DOT, DOT]) by {
            assert(seq![DOT, DOT].len() == 2);
        }
        if len == rest.len() {
            return None;
        }
        rest = slice_subrange(rest, 0, rest.len() - len - 1);
    }
}

/// The word at place `n`, counted from zero.
pub fn find_word(bytes: &[u8], n: usize) -> (r: Option<&[u8]>)
    ensures
        match r {
            Some(text) => word(bytes@, n as nat) == Some(text@),
            None => word(bytes@, n as nat) is None,
        },
{
    let mut rest = bytes;
    let mut left: usize = n;
    loop
        invariant
            word(bytes@, n as nat) == word(rest@, left as nat),
        decreases left,
    {
        let text = skip_blanks(rest);
        if text.len() == 0 {
            return None;
        }
        let mut len: usize = 0;
        while len < text.len() && !blank(text[len])
            invariant
                len <= text.len(),
                forall|i: int| 0 <= i < len ==> !is_blank(#[trigger] text@[i]),
            decreases text.len() - len,
        {
            len += 1;
        }
        proof {
            lemma_word_len(text@, len as int);
        }
        if left == 0 {
            return Some(slice_subrange(text, 0, len));
        }
        rest = slice_subrange(text, len, text.len());
        left -= 1;
    }
}

/// The number that the text writes in decimal.
pub fn parse_number(text: &[u8]) -> (r: Option<u64>)
    ensures
        r == number(text@),
{
    let digits = if text.len() > 0 && text[0] == PLUS {
        slice_subrange(text, 1, text.len())
    } else {
        text
    };
    assert(digits@ =~= unsigned(text@));
    if digits.len() == 0 {
        return None;
    }
    let mut value: u64 = 0;
    let mut i: usize = 0;
    assert(digits@.take(0) =~= Seq::<u8>::empty());
    while i < digits.len()
        invariant
            i <= digits.len(),
            digits@.len() > 0,
            digits@ == unsigned(text@),
            value == decimal(digits@.take(i as int)),
            all_digits(digits@.take(i as int)),
        decreases digits.len() - i,
    {
        let b = digits[i];
        proof {
            assert(digits@.take(i + 1).drop_last() =~= digits@.take(i as int));
            assert(digits@.take(i + 1).last() == b);
            lemma_decimal_grows(digits@, i + 1);
        }
        if b < 0x30 || b > 0x39 {
            assert(!is_digit(digits@[i as int]));
            return None;
        }
        let digit: u64 = (b - 0x30) as u64;
        match value.checked_mul(10) {
            Some(tens) => {
                match tens.checked_add(digit) {
                    Some(next) => {
                        value = next;
                    },
                    None => {
                        return None;
                    },
                }
            },
            None => {
                return None;
            },
        }
        assert(all_digits(digits@.take(i + 1))) by {
            assert forall|j: int| 0 <= j < i + 1 implies is_digit(
                #[trigger] digits@.take(i + 1)[j],
            ) by {
                if j < i {
                    assert(is_digit(digits@.take(i as int)[j]));
                }
            }
        }
        i += 1;
    }
    assert(digits@.take(digits.len() as int) =~= digits@);
    Some(value)
}

/// Whether the bytes start with `start`.
pub fn starts_with(bytes: &[u8], start: &[u8]) -> (r: bool)
    ensures
        r == start@.is_prefix_of(bytes@),
{
    if start.len() > bytes.len() {
        return false;
    }
    let mut i: usize = 0;
    while i < start.len()
        invariant
            i <= start.len() <= bytes.len(),
            forall|j: int| 0 <= j < i ==> bytes@[j] == #[trigger] start@[j],
        decreases start.len() - i,
    {
        if bytes[i] != start[i] {
            assert(bytes@.subrange(0, start@.len() as int)[i as int] != start@[i as int]);
            return false;
        }
        i += 1;
    }
    assert(bytes@.subrange(0, start@.len() as int) =~= start@);
    true
}

pub(crate) fn read_u32(bytes: &[u8], at: usize) -> (r: u32)
    requires
        at + 4 <= bytes@.len(),
    ensures
        r == u32_at(bytes@, at as int),
{
    assert(bytes.len() == bytes@.len());
    (bytes[at] as u32) + 0x100 * (bytes[at + 1] as u32) + 0x1_0000 * (bytes[at + 2] as u32)
        + 0x100_0000 * (bytes[at + 3] as u32)
}

pub(crate) fn read_u64(bytes: &[u8], at: usize) -> (r: u64)
    requires
        at + 8 <= bytes@.len(),
    ensures
        r == u64_at(bytes@, at as int),
{
    assert(bytes.len() == bytes@.len());
    (read_u32(bytes, at) as u64) + 0x1_0000_0000 * (read_u32(bytes, at + 4) as u64)
}

fn read_u32_be(bytes: &[u8], at: usize) -> (r: u32)
    requires
        at + 4 <= bytes@.len(),
    ensures
        r == u32_be_at(bytes@, at as int),
{
    assert(bytes.len() == bytes@.len());
    0x100_0000 * (bytes[at] as u32) + 0x1_0000 * (bytes[at + 1] as u32) + 0x100 * (bytes[at
        + 2] as u32) + (bytes[at + 3] as u32)
}

fn read_u64_be(bytes: &[u8], at: usize) -> (r: u64)
    requires
        at + 8 <= bytes@.len(),
    ensures
        r == u64_be_at(bytes@, at as int),
{
    assert(bytes.len() == bytes@.len());
    0x1_0000_0000 * (read_u32_be(bytes, at) as u64) + (read_u32_be(bytes, at + 4) as u64)
}

pub(crate) fn read_word(bytes: &[u8], at: usize, word: usize, little: bool) -> (r: u64)
    requires
        word == 4 || word == 8,
        at + word <= bytes@.len(),
    ensures
        r == word_at(bytes@, at as int, word, little),
{
    if word == 4 {
        if little {
            read_u32(bytes, at) as u64
        } else {
            read_u32_be(bytes, at) as u64
        }
    } else {
        if little {
            read_u64(bytes, at)
        } else {
            read_u64_be(bytes, at)
        }
    }
}

/// A text falls into two at any ASCII character in it.
proof fn lemma_utf8_splits_at_ascii(bytes: Seq<u8>, k: int)
    requires
        valid_utf8(bytes),
        0 <= k < bytes.len(),
        bytes[k] < 0x80,
    ensures
        valid_utf8(bytes.take(k)),
        valid_utf8(bytes.skip(k + 1)),
{
    is_char_boundary_iff_not_is_continuation_byte(bytes, k);
    assert(!is_continuation_byte(bytes[k]));
    valid_utf8_split(bytes, k);
    let rest = bytes.subrange(k, bytes.len() as int);
    assert(rest[0] == bytes[k]);
    assert(bytes.subrange(0, k) =~= bytes.take(k));
    assert(pop_first_scalar(rest) =~= bytes.skip(k + 1));
}

/// In front of the tail stands the mark.
proof fn lemma_mark_before_tail(bytes: Seq<u8>, mark: u8)
    ensures
        tail_len(bytes, mark) <= bytes.len(),
        tail_len(bytes, mark) < bytes.len() ==> bytes[bytes.len() - tail_len(bytes, mark) - 1]
            == mark,
    decreases bytes.len(),
{
    if bytes.len() > 0 {
        lemma_mark_before_tail(bytes.drop_last(), mark);
    }
}

/// The file name in a path that is valid text is valid text.
pub proof fn law_file_name_of_text_is_text(path: Seq<u8>)
    requires
        valid_utf8(path),
    ensures
        file_name_of(path) matches Some(name) ==> valid_utf8(name),
    decreases path.len(),
{
    let len = tail_len(path, SLASH);
    lemma_mark_before_tail(path, SLASH);
    if len < path.len() {
        let at = path.len() - len - 1;
        lemma_utf8_splits_at_ascii(path, at);
        law_file_name_of_text_is_text(path.take(at));
    } else {
        assert(after_last(path, SLASH) =~= path);
    }
}

/// A byte is a blank just where it is a space or one of the control characters
/// from tab to carriage return, but for the vertical tab.
pub proof fn law_blank_bytes(b: u8)
    ensures
        is_blank(b) <==> b == 0x20 || (0x09 <= b <= 0x0d && b != 0x0b),
{
}

/// A byte is a digit just where it is none of those before `0` and behind `9`.
pub proof fn law_digit_bytes(b: u8)
    ensures
        !is_digit(b) <==> b < 0x30 || b > 0x39,
{
}

/// Every byte is a blank.
pub open spec fn all_blanks(bytes: Seq<u8>) -> bool {
    forall|i: int| 0 <= i < bytes.len() ==> is_blank(#[trigger] bytes[i])
}

/// No byte is a blank.
pub open spec fn no_blanks(bytes: Seq<u8>) -> bool {
    forall|i: int| 0 <= i < bytes.len() ==> !is_blank(#[trigger] bytes[i])
}

/// No byte is the mark.
pub open spec fn lacks(bytes: Seq<u8>, mark: u8) -> bool {
    forall|i: int| 0 <= i < bytes.len() ==> #[trigger] bytes[i] != mark
}

/// Trimming takes away the blanks at both ends, however many there are, and
/// keeps everything between the first and the last byte that is none.
pub proof fn law_blanks_are_trimmed(front: Seq<u8>, text: Seq<u8>, back: Seq<u8>)
    requires
        all_blanks(front),
        all_blanks(back),
        text.len() > 0 ==> !is_blank(text[0]) && !is_blank(text.last()),
    ensures
        trim_back(trim_front(front + text + back)) == text,
{
    let whole = front + text + back;
    if text.len() == 0 {
        assert forall|i: int| 0 <= i < whole.len() implies is_blank(#[trigger] whole[i]) by {
            if i < front.len() {
                assert(whole[i] == front[i]);
            } else {
                assert(whole[i] == back[i - front.len()]);
            }
        }
        lemma_trim_front(whole, whole.len() as int);
        assert(whole.skip(whole.len() as int) =~= text);
    } else {
        assert forall|i: int| 0 <= i < front.len() implies is_blank(#[trigger] whole[i]) by {
            assert(whole[i] == front[i]);
        }
        assert(whole[front.len() as int] == text[0]);
        lemma_trim_front(whole, front.len() as int);
        let rest = whole.skip(front.len() as int);
        assert(rest =~= text + back);
        assert forall|i: int| text.len() <= i < rest.len() implies is_blank(
            #[trigger] rest[i],
        ) by {
            assert(rest[i] == back[i - text.len()]);
        }
        assert(rest[text.len() - 1] == text.last());
        lemma_trim_back(rest, text.len() as int);
        assert(rest.take(text.len() as int) =~= text);
    }
}

/// Blanks in front of the rest make no difference to its words.
proof fn lemma_trim_front_passes(gap: Seq<u8>, rest: Seq<u8>)
    requires
        all_blanks(gap),
    ensures
        trim_front(gap + rest) == trim_front(rest),
    decreases gap.len(),
{
    if gap.len() == 0 {
        assert(gap + rest =~= rest);
    } else {
        assert(is_blank(gap[0]));
        assert((gap + rest)[0] == gap[0]);
        let fewer = gap.skip(1);
        assert forall|i: int| 0 <= i < fewer.len() implies is_blank(#[trigger] fewer[i]) by {
            assert(is_blank(gap[i + 1]));
        }
        lemma_trim_front_passes(fewer, rest);
        assert((gap + rest).skip(1) =~= fewer + rest);
    }
}

/// Behind blanks, a run without blanks up to a blank or the end is the first word.
proof fn lemma_first_word(front: Seq<u8>, text: Seq<u8>, tail: Seq<u8>)
    requires
        all_blanks(front),
        text.len() > 0,
        no_blanks(text),
        tail.len() > 0 ==> is_blank(tail[0]),
    ensures
        trim_front(front + text + tail) == text + tail,
        word_len(text + tail) == text.len(),
        (text + tail).take(text.len() as int) == text,
        (text + tail).skip(text.len() as int) == tail,
{
    let whole = text + tail;
    assert(front + text + tail =~= front + whole);
    lemma_trim_front_passes(front, whole);
    assert(whole[0] == text[0]);
    assert forall|i: int| 0 <= i < text.len() implies !is_blank(#[trigger] whole[i]) by {
        assert(whole[i] == text[i]);
    }
    if tail.len() > 0 {
        assert(whole[text.len() as int] == tail[0]);
    }
    lemma_word_len(whole, text.len() as int);
    assert(whole.take(text.len() as int) =~= text);
    assert(whole.skip(text.len() as int) =~= tail);
}

/// Behind blanks, a run without blanks up to a blank or the end is the first
/// word, and the others are those of what follows.
pub proof fn lemma_words(front: Seq<u8>, text: Seq<u8>, tail: Seq<u8>, n: nat)
    requires
        all_blanks(front),
        text.len() > 0,
        no_blanks(text),
        tail.len() > 0 ==> is_blank(tail[0]),
    ensures
        word(front + text + tail, 0) == Some(text),
        word(front + text + tail, n + 1) == word(tail, n),
{
    lemma_first_word(front, text, tail);
    assert((n + 1 - 1) as nat == n);
}

/// Words are set apart by any number of blanks: the first run without blanks
/// is the first word, and the other words are those of what follows the blanks
/// behind it.
pub proof fn law_words_are_set_apart_by_blanks(
    front: Seq<u8>,
    text: Seq<u8>,
    gap: Seq<u8>,
    rest: Seq<u8>,
    n: nat,
)
    requires
        all_blanks(front),
        text.len() > 0,
        no_blanks(text),
        gap.len() > 0,
        all_blanks(gap),
    ensures
        word(front + text + gap + rest, 0) == Some(text),
        word(front + text + gap + rest, n + 1) == word(rest, n),
{
    let tail = gap + rest;
    assert(tail[0] == gap[0]);
    assert(front + text + gap + rest =~= front + text + tail);
    lemma_words(front, text, tail, n);
    lemma_trim_front_passes(gap, rest);
    assert(word(tail, n) == word(rest, n));
}

/// The last word needs no blank behind it, and no word follows it.
pub proof fn law_last_word_ends_with_the_text(front: Seq<u8>, text: Seq<u8>, n: nat)
    requires
        all_blanks(front),
        text.len() > 0,
        no_blanks(text),
    ensures
        word(front + text, 0) == Some(text),
        word(front + text, n + 1) is None,
{
    let none = Seq::<u8>::empty();
    assert(front + text + none =~= front + text);
    lemma_words(front, text, none, n);
    assert(word(none, n) is None);
}

/// Blanks alone hold no word.
pub proof fn law_blanks_hold_no_word(front: Seq<u8>, n: nat)
    requires
        all_blanks(front),
    ensures
        word(front, n) is None,
{
    let none = Seq::<u8>::empty();
    lemma_trim_front_passes(front, none);
    assert(front + none =~= front);
}

/// What stands before the first mark is what there is up to it, whatever
/// follows; without a mark it is everything.
pub proof fn law_before_first_mark(head: Seq<u8>, mark: u8, rest: Seq<u8>)
    requires
        lacks(head, mark),
    ensures
        before_first(head + seq![mark] + rest, mark) == head,
        before_first(head, mark) == head,
{
    let whole = head + seq![mark] + rest;
    assert forall|i: int| 0 <= i < head.len() implies #[trigger] whole[i] != mark by {
        assert(whole[i] == head[i]);
    }
    assert(whole[head.len() as int] == mark);
    lemma_head_len(whole, mark, head.len() as int);
    lemma_head_len(head, mark, head.len() as int);
    assert(whole.take(head.len() as int) =~= head);
    assert(head.take(head.len() as int) =~= head);
}

/// What stands behind the last mark is what there is after it, whatever comes
/// before; without a mark it is everything.
pub proof fn law_after_last_mark(rest: Seq<u8>, mark: u8, tail: Seq<u8>)
    requires
        lacks(tail, mark),
    ensures
        after_last(rest + seq![mark] + tail, mark) == tail,
        after_last(tail, mark) == tail,
        tail_len(rest + seq![mark] + tail, mark) == tail.len(),
        tail_len(tail, mark) == tail.len(),
{
    let whole = rest + seq![mark] + tail;
    assert forall|i: int| whole.len() - tail.len() <= i < whole.len() implies #[trigger] whole[i]
        != mark by {
        assert(whole[i] == tail[i - rest.len() - 1]);
    }
    assert(whole[whole.len() - tail.len() - 1] == mark);
    lemma_tail_len(whole, mark, tail.len() as int);
    lemma_tail_len(tail, mark, tail.len() as int);
    assert(whole.skip(whole.len() - tail.len()) =~= tail);
    assert(tail.skip(0) =~= tail);
}

/// The decimal digits of a number, without zeros in front.
pub open spec fn digits_of(n: nat) -> Seq<u8>
    decreases n,
{
    if n < 10 {
        seq![(0x30 + n) as u8]
    } else {
        digits_of(n / 10).push((0x30 + n % 10) as u8)
    }
}

/// The digits of a number are digits, and write that number.
pub proof fn lemma_digits_of(n: nat)
    ensures
        digits_of(n).len() > 0,
        all_digits(digits_of(n)),
        no_blanks(digits_of(n)),
        decimal(digits_of(n)) == n,
    decreases n,
{
    let digits = digits_of(n);
    if n < 10 {
        assert(digits.drop_last() =~= Seq::<u8>::empty());
        assert(decimal(digits.drop_last()) == 0);
    } else {
        let front = digits_of(n / 10);
        lemma_digits_of(n / 10);
        assert(digits.drop_last() =~= front);
        assert forall|i: int| 0 <= i < digits.len() implies is_digit(#[trigger] digits[i]) by {
            if i < front.len() {
                assert(digits[i] == front[i]);
            }
        }
    }
    assert forall|i: int| 0 <= i < digits.len() implies !is_blank(#[trigger] digits[i]) by {
        assert(is_digit(digits[i]));
    }
}

/// The digits of a number are read as that number, where it fits.
pub proof fn law_number_reads_its_digits(n: nat)
    ensures
        number(digits_of(n)) == (if n <= 0xffff_ffff_ffff_ffff {
            Some(n as u64)
        } else {
            None
        }),
{
    lemma_digits_of(n);
    assert(is_digit(digits_of(n)[0]));
}

/// One more digit makes ten times the number and the digit, where that fits. So
/// zeros in front make no difference.
pub proof fn law_one_more_digit(text: Seq<u8>, digit: u8)
    requires
        text.len() > 0,
        forall|i: int| 0 <= i < text.len() ==> 0x30 <= #[trigger] text[i] <= 0x39,
        0x30 <= digit <= 0x39,
    ensures
        number(seq![digit]) == Some((digit - 0x30) as u64),
        number(text.push(digit)) == (match number(text) {
            Some(value) => if 10 * value + digit - 0x30 <= 0xffff_ffff_ffff_ffff {
                Some((10 * value + digit - 0x30) as u64)
            } else {
                None
            },
            None => None,
        }),
{
    let one = seq![digit];
    assert(one.drop_last() =~= Seq::<u8>::empty());
    assert(decimal(one.drop_last()) == 0);
    assert forall|i: int| 0 <= i < text.len() implies is_digit(#[trigger] text[i]) by {
        assert(0x30 <= text[i] <= 0x39);
    }
    let more = text.push(digit);
    assert(more.drop_last() =~= text);
    assert forall|i: int| 0 <= i < more.len() implies is_digit(#[trigger] more[i]) by {
        if i < text.len() {
            assert(is_digit(text[i]));
        }
    }
    assert(0x30 <= text[0] <= 0x39);
    assert(more[0] == text[0]);
}

/// A plus sign in front of digits changes nothing, but alone it is no number.
pub proof fn law_plus_sign_is_passed(text: Seq<u8>)
    requires
        forall|i: int| 0 <= i < text.len() ==> 0x30 <= #[trigger] text[i] <= 0x39,
    ensures
        number(seq![0x2bu8] + text) == number(text),
        text.len() == 0 ==> number(text) is None,
{
    let signed = seq![0x2bu8] + text;
    assert(signed.skip(1) =~= text);
    if text.len() > 0 {
        assert(0x30 <= text[0] <= 0x39);
    }
}

/// Text with anything in it but digits is no number, unless that is a plus
/// sign in front.
pub proof fn law_only_digits_are_a_number(text: Seq<u8>, i: int)
    requires
        0 <= i < text.len(),
        !(0x30 <= text[i] <= 0x39),
        !(i == 0 && text[i] == 0x2b),
    ensures
        number(text) is None,
{
    let digits = unsigned(text);
    if text[0] == PLUS {
        assert(digits[i - 1] == text[i]);
        assert(!is_digit(digits[i - 1]));
    } else {
        assert(digits[i] == text[i]);
        assert(!is_digit(digits[i]));
    }
}

/// A component that names something: it is neither empty nor `.` nor `..`, and
/// holds no slash.
pub open spec fn is_name(name: Seq<u8>) -> bool {
    &&& name.len() > 0
    &&& name != seq![0x2eu8]
    &&& name != seq![0x2eu8, 0x2eu8]
    &&& lacks(name, 0x2f)
}

/// The file name in a path is the name behind its last slash, whatever the
/// directory; a name without a directory is its own.
pub proof fn law_file_name_is_the_last_name(dir: Seq<u8>, name: Seq<u8>)
    requires
        is_name(name),
    ensures
        file_name_of(dir + seq![0x2fu8] + name) == Some(name),
        file_name_of(name) == Some(name),
{
    law_after_last_mark(dir, SLASH, name);
}

/// A slash at the end of a path, or a component `.`, makes no difference to
/// the file name.
pub proof fn law_trailing_slash_is_passed(path: Seq<u8>)
    ensures
        file_name_of(path + seq![0x2fu8]) == file_name_of(path),
        file_name_of(path + seq![0x2fu8, 0x2eu8]) == file_name_of(path),
{
    let none = Seq::<u8>::empty();
    let dot = seq![DOT];
    law_after_last_mark(path, SLASH, none);
    law_after_last_mark(path, SLASH, dot);
    let slash = path + seq![0x2fu8];
    assert(path + seq![SLASH] + none =~= slash);
    assert(slash.take(path.len() as int) =~= path);
    assert(seq![DOT, DOT].len() == 2);
    let here = path + seq![0x2fu8, 0x2eu8];
    assert(path + seq![SLASH] + dot =~= here);
    assert(here.take(path.len() as int) =~= path);
}

/// A path that ends in the parent directory, or has no component that names
/// something, has no file name.
pub proof fn law_no_file_name(dir: Seq<u8>)
    ensures
        file_name_of(dir + seq![0x2fu8, 0x2eu8, 0x2eu8]) is None,
        file_name_of(seq![0x2eu8, 0x2eu8]) is None,
        file_name_of(seq![0x2eu8]) is None,
        file_name_of(Seq::<u8>::empty()) is None,
{
    let up = seq![DOT, DOT];
    law_after_last_mark(dir, SLASH, up);
    assert(dir + seq![SLASH] + up =~= dir + seq![0x2fu8, 0x2eu8, 0x2eu8]);
    law_after_last_mark(dir, SLASH, seq![DOT]);
    law_after_last_mark(dir, SLASH, Seq::<u8>::empty());
    assert(seq![DOT].len() == 1);
    assert(up.len() == 2);
}

/// A number that was made of a byte and what stands above it falls into them.
proof fn lemma_byte_and_above(low: u8, above: int)
    requires
        0 <= above,
    ensures
        (low + 0x100 * above) % 0x100 == low,
        (low + 0x100 * above) / 0x100 == above,
{
}

/// A number that was made of two halves falls into them.
proof fn lemma_two_halves(low: u32, high: u32)
    ensures
        (low + 0x1_0000_0000 * high) % 0x1_0000_0000 == low,
        (low + 0x1_0000_0000 * high) / 0x1_0000_0000 == high,
        low + 0x1_0000_0000 * high <= u64::MAX,
{
}

/// A little-endian number has the first of its bytes lowest: dividing it by the
/// number of bytes that there are takes them off one by one.
pub proof fn law_little_endian(bytes: Seq<u8>, at: int)
    ensures
        u32_at(bytes, at) as int % 0x100 == bytes[at],
        u32_at(bytes, at) as int / 0x100 % 0x100 == bytes[at + 1],
        u32_at(bytes, at) as int / 0x100 / 0x100 % 0x100 == bytes[at + 2],
        u32_at(bytes, at) as int / 0x100 / 0x100 / 0x100 == bytes[at + 3],
        u64_at(bytes, at) as int % 0x1_0000_0000 == u32_at(bytes, at),
        u64_at(bytes, at) as int / 0x1_0000_0000 == u32_at(bytes, at + 4),
{
    let (b0, b1, b2, b3) = (bytes[at], bytes[at + 1], bytes[at + 2], bytes[at + 3]);
    let above_one = b2 + 0x100 * b3;
    let above = b1 + 0x100 * above_one;
    assert(u32_at(bytes, at) as int == b0 + 0x100 * above);
    lemma_byte_and_above(b0, above);
    lemma_byte_and_above(b1, above_one);
    lemma_byte_and_above(b2, b3 as int);
    lemma_two_halves(u32_at(bytes, at), u32_at(bytes, at + 4));
}

/// A big-endian number is what its bytes in reverse are as a little-endian one.
pub proof fn law_big_endian(bytes: Seq<u8>, at: int)
    ensures
        u32_be_at(bytes, at) == u32_at(
            seq![bytes[at + 3], bytes[at + 2], bytes[at + 1], bytes[at]],
            0,
        ),
        u64_be_at(bytes, at) as int % 0x1_0000_0000 == u32_be_at(bytes, at + 4),
        u64_be_at(bytes, at) as int / 0x1_0000_0000 == u32_be_at(bytes, at),
{
    lemma_two_halves(u32_be_at(bytes, at + 4), u32_be_at(bytes, at));
}

/// A machine word has four bytes or eight, in either order.
pub proof fn law_machine_words(bytes: Seq<u8>, at: int)
    ensures
        word_at(bytes, at, 4, true) == u32_at(bytes, at),
        word_at(bytes, at, 4, false) == u32_be_at(bytes, at),
        word_at(bytes, at, 8, true) == u64_at(bytes, at),
        word_at(bytes, at, 8, false) == u64_be_at(bytes, at),
{
}

/// The words that are found are those set apart by blanks: the first is found
/// at place zero, and behind it those of the rest.
pub proof fn law_words_are_found_in_turn(
    bytes: &[u8],
    n: usize,
    r: Option<&[u8]>,
    front: Seq<u8>,
    text: Seq<u8>,
    gap: Seq<u8>,
    rest: &[u8],
    of_rest: Option<&[u8]>,
)
    requires
        call_ensures(find_word, (bytes, n), r),
        n > 0 ==> call_ensures(find_word, (rest, (n - 1) as usize), of_rest),
        bytes@ == front + text + gap + rest@,
        all_blanks(front),
        text.len() > 0,
        no_blanks(text),
        gap.len() > 0,
        all_blanks(gap),
    ensures
        n == 0 ==> (r matches Some(found) && found@ == text),
        n > 0 ==> (r is Some <==> of_rest is Some),
        n > 0 ==> (r matches Some(found) ==> found@ == of_rest->0@),
{
    law_words_are_set_apart_by_blanks(front, text, gap, rest@, (n - 1) as nat);
}

/// The file name that is found is the name behind the last slash, whatever the
/// directory and however many slashes end the path.
pub proof fn law_file_name_is_found(
    path: &[u8],
    r: Option<&[u8]>,
    with_slash: &[u8],
    of_slash: Option<&[u8]>,
    dir: Seq<u8>,
    name: Seq<u8>,
)
    requires
        call_ensures(file_name, (path,), r),
        call_ensures(file_name, (with_slash,), of_slash),
        with_slash@ == path@ + seq![0x2fu8],
    ensures
        is_name(name) && (path@ == dir + seq![0x2fu8] + name || path@ == name) ==> (
        r matches Some(found) && found@ == name),
        r is Some <==> of_slash is Some,
        r matches Some(found) ==> found@ == of_slash->0@,
{
    law_trailing_slash_is_passed(path@);
    if is_name(name) {
        law_file_name_is_the_last_name(dir, name);
    }
}

/// A number is read from its digits, where it fits.
pub proof fn law_number_is_parsed(text: &[u8], r: Option<u64>, n: nat)
    requires
        call_ensures(parse_number, (text,), r),
        text@ == digits_of(n),
    ensures
        n <= 0xffff_ffff_ffff_ffff ==> r is Some && r->0 == n,
        n > 0xffff_ffff_ffff_ffff ==> r is None,
{
    law_number_reads_its_digits(n);
}

} // verus!
