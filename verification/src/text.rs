//! Reading what the system hands out as text.

use vstd::prelude::*;
use vstd::utf8::{
    decode_utf8, encode_utf8, encode_utf8_decode_utf8, encode_utf8_valid_utf8, valid_utf8,
};

verus! {

/// A name that the system reported, and what is to be done to it before it is
/// shown. `P` is the type of paths.
#[derive(Debug)]
pub enum Label<P> {
    /// The file name of a program, to be brought into its usual form, and the
    /// path of the program.
    Clean { name: String, path: P },
    /// To be shown as it is, but for what a terminal must not be sent.
    Sanitize(String),
    /// To be shown as it is.
    Fixed(String),
}

/// A `Label` as a mathematical value.
pub enum LabelView<P> {
    Clean { name: Seq<char>, path: P },
    Sanitize(Seq<char>),
    Fixed(Seq<char>),
}

impl<P: View> View for Label<P> {
    type V = LabelView<P::V>;

    open spec fn view(&self) -> LabelView<P::V> {
        match self {
            Label::Clean { name, path } => LabelView::Clean { name: name@, path: path@ },
            Label::Sanitize(name) => LabelView::Sanitize(name@),
            Label::Fixed(name) => LabelView::Fixed(name@),
        }
    }
}

/// The text of a label.
pub open spec fn label_text<P>(label: LabelView<P>) -> Seq<char> {
    match label {
        LabelView::Clean { name, path } => name,
        LabelView::Sanitize(name) => name,
        LabelView::Fixed(name) => name,
    }
}

/// The label that there may be, as a mathematical value.
pub open spec fn label_view<P: View>(label: Option<Label<P>>) -> Option<LabelView<P::V>> {
    match label {
        Some(label) => Some(label@),
        None => None,
    }
}

/// A program's file name, to be brought into its usual form or not. Where it is
/// not, the name stands here exactly as it was reported: only when it is shown
/// is that taken out of it which a terminal must not be sent.
pub open spec fn program_view<P>(name: Seq<char>, path: P, prettify: bool) -> LabelView<P> {
    if prettify {
        LabelView::Clean { name, path }
    } else {
        LabelView::Sanitize(name)
    }
}

/// Labels a program by its file name.
pub fn program_label<P: View>(name: String, path: P, prettify: bool) -> (r: Label<P>)
    ensures
        r@ == program_view(name@, path@, prettify),
{
    if prettify {
        Label::Clean { name, path }
    } else {
        Label::Sanitize(name)
    }
}

/// What `String::from_utf8_lossy` makes of some bytes.
pub uninterp spec fn utf8_lossy(bytes: Seq<u8>) -> Seq<char>;

/// The text that some bytes are shown as: the one they encode, where they are
/// valid UTF-8.
pub open spec fn lossy_text(bytes: Seq<u8>) -> Seq<char> {
    if valid_utf8(bytes) {
        decode_utf8(bytes)
    } else {
        utf8_lossy(bytes)
    }
}

/// Calls `String::from_utf8_lossy`. Its result depends on the bytes alone. It
/// is the text they encode where they are valid UTF-8, and never empty where
/// there are bytes, as what is invalid is replaced and not dropped. Which
/// replacement characters stand for which invalid bytes is left to the name.
#[verifier::external_body]
pub(crate) fn from_utf8_lossy(bytes: &[u8]) -> (r: String)
    ensures
        r@ == utf8_lossy(bytes@),
        valid_utf8(bytes@) ==> r@ == decode_utf8(bytes@),
        bytes@.len() > 0 ==> r@.len() > 0,
{
    String::from_utf8_lossy(bytes).into_owned()
}

/// Calls `std::str::from_utf8`. It succeeds just where the bytes are valid
/// UTF-8, and then gives the text they encode.
#[verifier::external_body]
pub(crate) fn from_utf8(bytes: &[u8]) -> (r: Option<&str>)
    ensures
        match r {
            Some(text) => valid_utf8(bytes@) && text@ == decode_utf8(bytes@),
            None => !valid_utf8(bytes@),
        },
{
    std::str::from_utf8(bytes).ok()
}

/// The text that UTF-16 code units encode. A surrogate without its other half
/// stands as the replacement character.
pub open spec fn utf16_text(units: Seq<u16>) -> Seq<char>
    decreases units.len(),
{
    if units.len() == 0 {
        Seq::empty()
    } else if units[0] < 0xd800 || units[0] > 0xdfff {
        seq![units[0] as char] + utf16_text(units.skip(1))
    } else if units[0] < 0xdc00 && units.len() > 1 && 0xdc00 <= units[1] <= 0xdfff {
        let high = units[0] - 0xd800;
        let low = units[1] - 0xdc00;
        seq![(0x10000 + 0x400 * high + low) as char] + utf16_text(units.skip(2))
    } else {
        seq!['\u{fffd}'] + utf16_text(units.skip(1))
    }
}

/// Calls `String::from_utf16_lossy`. It decodes the code units as UTF-16, with
/// a replacement character for each surrogate without its other half.
#[verifier::external_body]
pub(crate) fn from_utf16_lossy(units: &[u16]) -> (r: String)
    ensures
        r@ == utf16_text(units@),
{
    String::from_utf16_lossy(units)
}

/// The characters that Unicode calls white space.
pub open spec fn is_white_space(c: char) -> bool {
    let n = c as u32;
    ||| 0x09 <= n <= 0x0d
    ||| n == 0x20
    ||| n == 0x85
    ||| n == 0xa0
    ||| n == 0x1680
    ||| 0x2000 <= n <= 0x200a
    ||| n == 0x2028
    ||| n == 0x2029
    ||| n == 0x202f
    ||| n == 0x205f
    ||| n == 0x3000
}

/// The text without the white space in front.
pub open spec fn trim_text_front(text: Seq<char>) -> Seq<char>
    decreases text.len(),
{
    if text.len() > 0 && is_white_space(text[0]) {
        trim_text_front(text.skip(1))
    } else {
        text
    }
}

/// The text without the white space at the end.
pub open spec fn trim_text_back(text: Seq<char>) -> Seq<char>
    decreases text.len(),
{
    if text.len() > 0 && is_white_space(text.last()) {
        trim_text_back(text.drop_last())
    } else {
        text
    }
}

/// The text without the white space at both ends.
pub open spec fn trim_text(text: Seq<char>) -> Seq<char> {
    trim_text_back(trim_text_front(text))
}

/// The text without `end`, where it ends so.
pub open spec fn without_end(text: Seq<char>, end: Seq<char>) -> Seq<char> {
    if end.is_suffix_of(text) {
        text.take(text.len() - end.len())
    } else {
        text
    }
}

/// How many characters stand behind the last slash, forward or backward: all
/// of them where there is none.
pub open spec fn component_len(path: Seq<char>) -> nat
    decreases path.len(),
{
    if path.len() > 0 && path.last() != '/' && path.last() != '\\' {
        1 + component_len(path.drop_last())
    } else {
        0
    }
}

/// The text behind the last slash, forward or backward.
pub open spec fn last_component(path: Seq<char>) -> Seq<char> {
    path.skip(path.len() - component_len(path))
}

proof fn lemma_trim_text_front(text: Seq<char>, n: int)
    requires
        0 <= n <= text.len(),
        forall|i: int| 0 <= i < n ==> is_white_space(#[trigger] text[i]),
        n < text.len() ==> !is_white_space(text[n]),
    ensures
        trim_text_front(text) == text.skip(n),
    decreases n,
{
    if n == 0 {
        assert(text.skip(0) =~= text);
    } else {
        assert(is_white_space(text[0]));
        let rest = text.skip(1);
        assert forall|i: int| 0 <= i < n - 1 implies is_white_space(#[trigger] rest[i]) by {
            assert(is_white_space(text[i + 1]));
        }
        lemma_trim_text_front(rest, n - 1);
        assert(rest.skip(n - 1) =~= text.skip(n));
    }
}

proof fn lemma_trim_text_back(text: Seq<char>, n: int)
    requires
        0 <= n <= text.len(),
        forall|i: int| n <= i < text.len() ==> is_white_space(#[trigger] text[i]),
        n > 0 ==> !is_white_space(text[n - 1]),
    ensures
        trim_text_back(text) == text.take(n),
    decreases text.len(),
{
    if n == text.len() {
        assert(text.take(n) =~= text);
    } else {
        assert(is_white_space(text[text.len() - 1]));
        let rest = text.drop_last();
        lemma_trim_text_back(rest, n);
        assert(rest.take(n) =~= text.take(n));
    }
}

proof fn lemma_component_len(path: Seq<char>, start: int)
    requires
        0 <= start <= path.len(),
        forall|i: int| start <= i < path.len() ==> #[trigger] path[i] != '/' && path[i] != '\\',
        start > 0 ==> path[start - 1] == '/' || path[start - 1] == '\\',
    ensures
        component_len(path) == path.len() - start,
    decreases path.len(),
{
    if start < path.len() {
        assert(path[path.len() - 1] != '/' && path[path.len() - 1] != '\\');
        lemma_component_len(path.drop_last(), start);
    }
}

fn white_space(c: char) -> (r: bool)
    ensures
        r == is_white_space(c),
{
    let n: u32 = c as u32;
    (0x09 <= n && n <= 0x0d) || n == 0x20 || n == 0x85 || n == 0xa0 || n == 0x1680 || (0x2000 <= n
        && n <= 0x200a) || n == 0x2028 || n == 0x2029 || n == 0x202f || n == 0x205f || n == 0x3000
}

/// The text without the white space at both ends.
pub fn trim(text: &str) -> (r: &str)
    ensures
        r@ == trim_text(text@),
{
    let mut start: usize = 0;
    let mut end: usize = 0;
    let mut i: usize = 0;
    let len = text.unicode_len();
    for c in it: text.chars()
        invariant
            it.seq() == text@,
            i == it.index(),
            len == text@.len(),
            start <= end <= i,
            forall|k: int| 0 <= k < start ==> is_white_space(#[trigger] text@[k]),
            forall|k: int| end <= k < i ==> is_white_space(#[trigger] text@[k]),
            start < i ==> start < end && !is_white_space(text@[start as int]) && !is_white_space(
                text@[end - 1],
            ),
    {
        if white_space(c) {
            if start == i {
                start += 1;
                end += 1;
            }
        } else {
            end = i + 1;
        }
        i += 1;
    }
    proof {
        lemma_trim_text_front(text@, start as int);
        let rest = text@.skip(start as int);
        lemma_trim_text_back(rest, end - start);
        assert(rest.take(end - start) =~= text@.subrange(start as int, end as int));
    }
    text.substring_char(start, end)
}

/// The text behind the last slash, forward or backward, or all of it where
/// there is none.
pub fn behind_last_slash(path: &str) -> (r: &str)
    ensures
        r@ == last_component(path@),
{
    let mut start: usize = 0;
    let mut i: usize = 0;
    let len = path.unicode_len();
    for c in it: path.chars()
        invariant
            it.seq() == path@,
            i == it.index(),
            len == path@.len(),
            start <= i,
            forall|k: int| start <= k < i ==> #[trigger] path@[k] != '/' && path@[k] != '\\',
            start > 0 ==> path@[start - 1] == '/' || path@[start - 1] == '\\',
    {
        i += 1;
        if c == '/' || c == '\\' {
            start = i;
        }
    }
    proof {
        lemma_component_len(path@, start as int);
        assert(last_component(path@) =~= path@.subrange(start as int, len as int));
    }
    path.substring_char(start, len)
}

/// Whether `text` holds `part` from place `from` on.
fn holds_at(text: &str, part: &str, from: usize) -> (r: bool)
    requires
        from + part@.len() <= text@.len(),
    ensures
        r == (text@.subrange(from as int, from + part@.len()) == part@),
{
    let text_len = text.unicode_len();
    let len = part.unicode_len();
    let mut i: usize = 0;
    while i < len
        invariant
            i <= len,
            len == part@.len(),
            text_len == text@.len(),
            from + len <= text_len,
            forall|k: int| 0 <= k < i ==> text@[from + k] == #[trigger] part@[k],
        decreases len - i,
    {
        if text.get_char(from + i) != part.get_char(i) {
            assert(text@.subrange(from as int, from + len)[i as int] != part@[i as int]);
            return false;
        }
        i += 1;
    }
    assert(text@.subrange(from as int, from + len) =~= part@);
    true
}

/// The text without `end`, where it ends so.
pub fn strip_end<'a>(text: &'a str, end: &str) -> (r: &'a str)
    ensures
        r@ == without_end(text@, end@),
{
    let len = text.unicode_len();
    let end_len = end.unicode_len();
    if end_len <= len && holds_at(text, end, len - end_len) {
        text.substring_char(0, len - end_len)
    } else {
        text
    }
}

/// The decimal digits of a number.
pub open spec fn decimal_text(n: nat) -> Seq<char>
    decreases n,
{
    let digit = (0x30 + n % 10) as char;
    if n < 10 {
        seq![digit]
    } else {
        decimal_text(n / 10).push(digit)
    }
}

/// A number in decimal, with a minus sign where it is negative.
pub open spec fn number_text(n: int) -> Seq<char> {
    if n < 0 {
        seq!['-'] + decimal_text((-n) as nat)
    } else {
        decimal_text(n as nat)
    }
}

fn append_decimal(text: &mut String, n: u32)
    ensures
        final(text)@ == old(text)@ + decimal_text(n as nat),
    decreases n,
{
    if n >= 10 {
        append_decimal(text, n / 10);
    }
    let digit: usize = (n % 10) as usize;
    proof {
        reveal_strlit("0123456789");
    }
    let digits = "0123456789";
    text.append(digits.substring_char(digit, digit + 1));
    assert(digits@.subrange(digit as int, digit + 1) =~= seq![(0x30 + n % 10) as char]);
    assert(text@ =~= old(text)@ + decimal_text(n as nat));
}

/// Appends a number in decimal, with a minus sign where it is negative.
pub fn append_number(text: &mut String, n: i32)
    ensures
        final(text)@ == old(text)@ + number_text(n as int),
{
    if n < 0 {
        proof {
            reveal_strlit("-");
        }
        text.append("-");
        append_decimal(text, (-(n as i64)) as u32);
        assert(text@ =~= old(text)@ + number_text(n as int));
    } else {
        append_decimal(text, n as u32);
    }
}

/// A program's label keeps the name as it was reported. It is to be cleaned
/// just where names are to be brought into their usual form, and then keeps
/// the path too.
pub proof fn law_program_label_keeps_the_name<P: View>(
    name: String,
    path: P,
    prettify: bool,
    r: Label<P>,
)
    requires
        call_ensures(program_label::<P>, (name, path, prettify), r),
    ensures
        prettify ==> r@ == (LabelView::<P::V>::Clean { name: name@, path: path@ }),
        !prettify ==> r@ == LabelView::<P::V>::Sanitize(name@),
{
}

/// Text that was written as UTF-8 is read back as it was.
pub proof fn law_text_is_read_back(text: Seq<char>)
    ensures
        lossy_text(encode_utf8(text)) == text,
{
    encode_utf8_valid_utf8(text);
    encode_utf8_decode_utf8(text);
}

/// Which characters are white space.
pub proof fn law_white_space(c: char)
    ensures
        is_white_space(c) <==> ('\t' <= c <= '\r' || c == ' ' || c == '\u{85}' || c == '\u{a0}'
            || c == '\u{1680}' || '\u{2000}' <= c <= '\u{200a}' || c == '\u{2028}' || c
            == '\u{2029}' || c == '\u{202f}' || c == '\u{205f}' || c == '\u{3000}'),
{
}

/// Every character is white space.
pub open spec fn all_white_space(text: Seq<char>) -> bool {
    forall|i: int| 0 <= i < text.len() ==> is_white_space(#[trigger] text[i])
}

/// Trimming takes away the white space at both ends, however much there is, and
/// keeps everything between.
pub proof fn law_white_space_is_trimmed(front: Seq<char>, inner: Seq<char>, back: Seq<char>)
    requires
        all_white_space(front),
        all_white_space(back),
        inner.len() > 0 ==> !is_white_space(inner[0]) && !is_white_space(inner.last()),
    ensures
        trim_text(front + inner + back) == inner,
{
    let whole = front + inner + back;
    if inner.len() == 0 {
        assert forall|i: int| 0 <= i < whole.len() implies is_white_space(
            #[trigger] whole[i],
        ) by {
            if i < front.len() {
                assert(whole[i] == front[i]);
            } else {
                assert(whole[i] == back[i - front.len()]);
            }
        }
        lemma_trim_text_front(whole, whole.len() as int);
        assert(whole.skip(whole.len() as int) =~= inner);
    } else {
        assert forall|i: int| 0 <= i < front.len() implies is_white_space(
            #[trigger] whole[i],
        ) by {
            assert(whole[i] == front[i]);
        }
        assert(whole[front.len() as int] == inner[0]);
        lemma_trim_text_front(whole, front.len() as int);
        let rest = whole.skip(front.len() as int);
        assert(rest =~= inner + back);
        assert forall|i: int| inner.len() <= i < rest.len() implies is_white_space(
            #[trigger] rest[i],
        ) by {
            assert(rest[i] == back[i - inner.len()]);
        }
        assert(rest[inner.len() - 1] == inner.last());
        lemma_trim_text_back(rest, inner.len() as int);
        assert(rest.take(inner.len() as int) =~= inner);
    }
}

/// An end is taken off once, where it is there, and nothing else is changed.
pub proof fn law_end_is_taken_off_once(text: Seq<char>, end: Seq<char>)
    ensures
        without_end(text + end, end) == text,
        !end.is_suffix_of(text) ==> without_end(text, end) == text,
{
    let whole = text + end;
    assert(end =~= whole.subrange(whole.len() - end.len(), whole.len() as int));
    assert(whole.take(text.len() as int) =~= text);
}

/// The last component of a path is what stands behind its last slash, forward
/// or backward, whatever comes before; without a slash it is the whole path.
pub proof fn law_last_component(dir: Seq<char>, slash: char, name: Seq<char>)
    requires
        slash == '/' || slash == '\\',
        forall|i: int| 0 <= i < name.len() ==> #[trigger] name[i] != '/' && name[i] != '\\',
    ensures
        last_component(dir + seq![slash] + name) == name,
        last_component(name) == name,
{
    let whole = dir + seq![slash] + name;
    assert forall|i: int| dir.len() + 1 <= i < whole.len() implies #[trigger] whole[i] != '/'
        && whole[i] != '\\' by {
        assert(whole[i] == name[i - dir.len() - 1]);
    }
    assert(whole[dir.len() as int] == slash);
    lemma_component_len(whole, dir.len() as int + 1);
    lemma_component_len(name, 0);
    assert(whole.skip(whole.len() - name.len()) =~= name);
    assert(name.skip(0) =~= name);
}

/// A code unit that is no surrogate is a character of that number, a high
/// surrogate before a low one makes one character with it, and any other
/// surrogate is replaced.
pub proof fn law_utf16_text(units: Seq<u16>)
    requires
        units.len() > 0,
    ensures
        utf16_text(Seq::empty()) == Seq::<char>::empty(),
        !(0xd800 <= units[0] <= 0xdfff) ==> {
            &&& utf16_text(units)[0] as u32 == units[0]
            &&& utf16_text(units).skip(1) == utf16_text(units.skip(1))
        },
        units.len() > 1 && 0xd800 <= units[0] <= 0xdbff && 0xdc00 <= units[1] <= 0xdfff ==> {
            &&& (utf16_text(units)[0] as u32 - 0x1_0000) / 0x400 == units[0] - 0xd800
            &&& (utf16_text(units)[0] as u32 - 0x1_0000) % 0x400 == units[1] - 0xdc00
            &&& utf16_text(units).skip(1) == utf16_text(units.skip(2))
        },
        0xdc00 <= units[0] <= 0xdfff || (0xd800 <= units[0] <= 0xdbff && (units.len() == 1 || !(
        0xdc00 <= units[1] <= 0xdfff))) ==> {
            &&& utf16_text(units)[0] == '\u{fffd}'
            &&& utf16_text(units).skip(1) == utf16_text(units.skip(1))
        },
{
    let text = utf16_text(units);
    if !(0xd800 <= units[0] <= 0xdfff) {
        assert(text.skip(1) =~= utf16_text(units.skip(1)));
    } else if units[0] < 0xdc00 && units.len() > 1 && 0xdc00 <= units[1] <= 0xdfff {
        assert(text.skip(1) =~= utf16_text(units.skip(2)));
    } else {
        assert(text.skip(1) =~= utf16_text(units.skip(1)));
    }
}

/// The decimal digits of a number end in its last digit, and stand behind those
/// of its tenth part, where that is not zero.
pub proof fn law_decimal_text(n: nat)
    ensures
        decimal_text(n).last() as u32 - '0' as u32 == n % 10,
        n >= 10 ==> decimal_text(n).drop_last() == decimal_text(n / 10),
        n < 10 ==> decimal_text(n).len() == 1,
{
    if n >= 10 {
        assert(decimal_text(n).drop_last() =~= decimal_text(n / 10));
    }
}

/// A number that is not negative is written as its digits, and a negative one as
/// a minus sign and its opposite.
pub proof fn law_number_text(n: int)
    ensures
        n >= 0 ==> number_text(n) == decimal_text(n as nat),
        n < 0 ==> number_text(n)[0] == '-' && number_text(n).skip(1) == number_text(-n),
{
    if n < 0 {
        assert(number_text(n).skip(1) =~= decimal_text((-n) as nat));
    }
}

} // verus!
