//! The formats of the files under `/proc` and `/sys`.

use crate::bytes::{
    all_blanks, before_first, digits_of, find_word, head_len, is_blank, lacks,
    law_before_first_mark, law_blanks_are_trimmed, law_blanks_hold_no_word,
    law_number_reads_its_digits, lemma_digits_of, lemma_words, no_blanks, number, parse_number,
    read_word, starts_with, trim_ascii_whitespace, trim_back, trim_front, up_to, word, word_at,
};
use crate::snapshot::{saturated, saturating_product, Memory, Zram};
use vstd::prelude::*;
use vstd::slice::slice_subrange;
use vstd::utf8::encode_utf8;

verus! {

/// The key of the page size in the auxiliary vector.
pub const AT_PAGESZ: u64 = 6;

/// The byte that ends a line.
pub const LINE_FEED: u8 = 0x0a;

/// The byte `:`.
pub const COLON: u8 = 0x3a;

/// The number that is all there is in the bytes, but for blanks around it.
pub open spec fn single_number(bytes: Seq<u8>) -> Option<u64> {
    number(trim_back(trim_front(bytes)))
}

/// The number that the word at place `n` writes.
pub open spec fn word_number(bytes: Seq<u8>, n: nat) -> Option<u64> {
    match word(bytes, n) {
        Some(text) => number(text),
        None => None,
    }
}

/// Reads a file that holds one number.
pub fn parse_single_u64(text: &str) -> (r: Option<u64>)
    ensures
        r == single_number(encode_utf8(text@)),
{
    parse_number(trim_ascii_whitespace(text.as_bytes()))
}

fn parse_word(bytes: &[u8], n: usize) -> (r: Option<u64>)
    ensures
        r == word_number(bytes@, n as nat),
{
    match find_word(bytes, n) {
        Some(text) => parse_number(text),
        None => None,
    }
}

/// The resident bytes that a `statm` file tells: its second word counts pages.
pub open spec fn statm_rss(bytes: Seq<u8>, page_size: u64) -> Option<u64> {
    match word_number(bytes, 1) {
        Some(pages) => Some(saturated(pages * page_size)),
        None => None,
    }
}

/// Reads the resident bytes of a process from its `statm` file.
pub fn parse_statm_rss(text: &str, page_size: u64) -> (r: Option<u64>)
    ensures
        r == statm_rss(encode_utf8(text@), page_size),
{
    match parse_word(text.as_bytes(), 1) {
        Some(pages) => Some(saturating_product(pages, page_size)),
        None => None,
    }
}

/// The figures that a `mm_stat` file starts with: the bytes stored, their size
/// when compressed, and the memory that holds them.
pub open spec fn mm_stat(bytes: Seq<u8>) -> Option<Zram> {
    match (word_number(bytes, 0), word_number(bytes, 1), word_number(bytes, 2)) {
        (Some(data), Some(compressed), Some(memory_used)) => Some(
            Zram { configured: 0, data, compressed, memory_used },
        ),
        _ => None,
    }
}

/// Reads the `mm_stat` file of a compressed swap device.
pub fn parse_zram_mm_stat(text: &str) -> (r: Option<Zram>)
    ensures
        r == mm_stat(encode_utf8(text@)),
{
    let bytes = text.as_bytes();
    match (parse_word(bytes, 0), parse_word(bytes, 1), parse_word(bytes, 2)) {
        (Some(data), Some(compressed), Some(memory_used)) => Some(
            Zram { configured: 0, data, compressed, memory_used },
        ),
        _ => None,
    }
}

/// The value of the first entry with the key.
pub open spec fn entry_value(entries: Seq<(u64, u64)>, key: u64) -> Option<u64>
    decreases entries.len(),
{
    if entries.len() == 0 {
        None
    } else if entries[0].0 == key {
        Some(entries[0].1)
    } else {
        entry_value(entries.skip(1), key)
    }
}

/// How many pairs of machine words, of four bytes or of eight, are in so many bytes.
pub open spec fn pair_count(len: nat, word: usize) -> nat {
    if word == 4 {
        len / 8
    } else {
        len / 16
    }
}

/// The keys and values of an auxiliary vector, which holds them in turn as
/// machine words. What is left over behind the last whole pair does not count.
pub open spec fn auxv_pairs(bytes: Seq<u8>, word: usize, little: bool) -> Seq<(u64, u64)> {
    Seq::new(
        pair_count(bytes.len(), word),
        |i: int|
            (
                word_at(bytes, 2 * word * i, word, little),
                word_at(bytes, 2 * word * i + word, word, little),
            ),
    )
}

/// Cuts an auxiliary vector into its keys and values. `word` is the size of a
/// machine word in bytes, and `little` says whether it is little-endian.
pub fn auxv_entries(bytes: &[u8], word: usize, little: bool) -> (r: Vec<(u64, u64)>)
    requires
        word == 4 || word == 8,
    ensures
        r@ == auxv_pairs(bytes@, word, little),
        r@.len() == pair_count(bytes@.len(), word),
        forall|i: int|
            0 <= i < r@.len() ==> #[trigger] r@[i] == (
                word_at(bytes@, 2 * word * i, word, little),
                word_at(bytes@, 2 * word * i + word, word, little),
            ),
{
    let mut entries: Vec<(u64, u64)> = Vec::new();
    let size: usize = 2 * word;
    let count: usize = if word == 4 {
        bytes.len() / 8
    } else {
        bytes.len() / 16
    };
    let mut i: usize = 0;
    while i < count
        invariant
            word == 4 || word == 8,
            size == 2 * word,
            count == pair_count(bytes@.len(), word),
            i <= count,
            entries@.len() == i,
            forall|j: int|
                0 <= j < i ==> #[trigger] entries@[j] == (
                    word_at(bytes@, 2 * word * j, word, little),
                    word_at(bytes@, 2 * word * j + word, word, little),
                ),
        decreases count - i,
    {
        assert(bytes.len() == bytes@.len());
        assert(size == 8 ==> size * i == 8 * i);
        assert(size == 16 ==> size * i == 16 * i);
        let at: usize = size * i;
        assert(at == 2 * word * i);
        entries.push(
            (read_word(bytes, at, word, little), read_word(bytes, at + word, word, little)),
        );
        i += 1;
    }
    assert(entries@ =~= auxv_pairs(bytes@, word, little));
    entries
}

/// The page size that the bytes of an auxiliary vector tell.
pub open spec fn auxv_page_size(bytes: Seq<u8>, word: usize, little: bool) -> Option<u64> {
    entry_value(auxv_pairs(bytes, word, little), AT_PAGESZ)
}

/// Finds the page size in an auxiliary vector.
pub fn parse_auxv_page_size(bytes: &[u8], word: usize, little: bool) -> (r: Option<u64>)
    requires
        word == 4 || word == 8,
    ensures
        r == auxv_page_size(bytes@, word, little),
{
    let entries = auxv_entries(bytes, word, little);
    let mut i: usize = 0;
    assert(entries@.skip(0) =~= entries@);
    while i < entries.len()
        invariant
            i <= entries.len(),
            entries@ == auxv_pairs(bytes@, word, little),
            entry_value(entries@, AT_PAGESZ) == entry_value(entries@.skip(i as int), AT_PAGESZ),
        decreases entries.len() - i,
    {
        let (key, value) = entries[i];
        assert(entries@.skip(i as int).skip(1) =~= entries@.skip(i + 1));
        if key == AT_PAGESZ {
            return Some(value);
        }
        i += 1;
    }
    None
}

/// What is left behind the first line.
pub open spec fn next_lines(text: Seq<u8>) -> Seq<u8> {
    let line = before_first(text, LINE_FEED);
    if line.len() < text.len() {
        text.skip(line.len() as int + 1)
    } else {
        Seq::empty()
    }
}

/// Whether the line tells the value of the key.
pub open spec fn is_about(line: Seq<u8>, key: Seq<u8>) -> bool {
    key.len() < line.len() && key.is_prefix_of(line) && line[key.len() as int] == COLON
}

/// The bytes that `meminfo` tells for a key, zero where it tells none. The
/// first line about the key counts; its number is of kibibytes.
pub open spec fn meminfo_bytes(text: Seq<u8>, key: Seq<u8>) -> u64
    decreases text.len(),
{
    let line = before_first(text, LINE_FEED);
    if text.len() == 0 {
        0
    } else if is_about(line, key) {
        match word_number(line.skip(key.len() as int + 1), 0) {
            Some(kibibytes) => saturated(kibibytes * 1024),
            None => 0,
        }
    } else {
        meminfo_bytes(next_lines(text), key)
    }
}

/// The memory figures that `meminfo` tells.
pub open spec fn meminfo_figures(text: Seq<u8>) -> Memory {
    Memory {
        total: meminfo_bytes(text, encode_utf8("MemTotal"@)),
        available: meminfo_bytes(text, encode_utf8("MemAvailable"@)),
        cached: meminfo_bytes(text, encode_utf8("Cached"@)),
        swap_total: meminfo_bytes(text, encode_utf8("SwapTotal"@)),
        swap_free: meminfo_bytes(text, encode_utf8("SwapFree"@)),
        commit_limit: meminfo_bytes(text, encode_utf8("CommitLimit"@)),
        committed: meminfo_bytes(text, encode_utf8("Committed_AS"@)),
    }
}

fn line_is_about(line: &[u8], key: &[u8]) -> (r: bool)
    ensures
        r == is_about(line@, key@),
{
    key.len() < line.len() && line[key.len()] == COLON && starts_with(line, key)
}

fn find_meminfo(text: &[u8], key: &[u8]) -> (r: u64)
    ensures
        r == meminfo_bytes(text@, key@),
{
    let mut rest = text;
    while rest.len() > 0
        invariant
            meminfo_bytes(text@, key@) == meminfo_bytes(rest@, key@),
        decreases rest.len(),
    {
        let line = up_to(rest, LINE_FEED);
        let end: usize = line.len();
        let ghost lines = rest@;
        if line_is_about(line, key) {
            return match parse_word(slice_subrange(line, key.len() + 1, end), 0) {
                Some(kibibytes) => saturating_product(kibibytes, 1024),
                None => 0,
            };
        }
        rest = if end < rest.len() {
            slice_subrange(rest, end + 1, rest.len())
        } else {
            slice_subrange(rest, rest.len(), rest.len())
        };
        assert(rest@ =~= next_lines(lines));
    }
    0
}

/// Reads `/proc/meminfo`.
pub fn parse_meminfo(text: &str) -> (r: Memory)
    ensures
        r == meminfo_figures(encode_utf8(text@)),
{
    let bytes = text.as_bytes();
    Memory {
        total: find_meminfo(bytes, "MemTotal".as_bytes()),
        available: find_meminfo(bytes, "MemAvailable".as_bytes()),
        cached: find_meminfo(bytes, "Cached".as_bytes()),
        swap_total: find_meminfo(bytes, "SwapTotal".as_bytes()),
        swap_free: find_meminfo(bytes, "SwapFree".as_bytes()),
        commit_limit: find_meminfo(bytes, "CommitLimit".as_bytes()),
        committed: find_meminfo(bytes, "Committed_AS".as_bytes()),
    }
}

/// A file of one number holds that number and blanks around it, if any.
/// Whatever else stands between the blanks is read as one text.
pub proof fn law_single_number(
    text: &str,
    r: Option<u64>,
    front: Seq<u8>,
    inner: Seq<u8>,
    back: Seq<u8>,
)
    requires
        call_ensures(parse_single_u64, (text,), r),
        encode_utf8(text@) == front + inner + back,
        all_blanks(front),
        all_blanks(back),
        inner.len() > 0 ==> !is_blank(inner[0]) && !is_blank(inner.last()),
    ensures
        r == number(inner),
{
    law_blanks_are_trimmed(front, inner, back);
}

/// The second word of `statm` is a count of pages, and the resident bytes are
/// those of so many pages, or as many as can be told.
pub proof fn law_statm_counts_pages(
    text: &str,
    page_size: u64,
    r: Option<u64>,
    front: Seq<u8>,
    first: Seq<u8>,
    gap: Seq<u8>,
    second: Seq<u8>,
    tail: Seq<u8>,
)
    requires
        call_ensures(parse_statm_rss, (text, page_size), r),
        encode_utf8(text@) == front + first + gap + second + tail,
        all_blanks(front),
        first.len() > 0,
        no_blanks(first),
        gap.len() > 0,
        all_blanks(gap),
        second.len() > 0,
        no_blanks(second),
        tail.len() > 0 ==> is_blank(tail[0]),
    ensures
        r is Some <==> number(second) is Some,
        number(second) matches Some(pages) ==> r == Some(
            if pages * page_size < 0x1_0000_0000_0000_0000 {
                (pages * page_size) as u64
            } else {
                0xffff_ffff_ffff_ffff
            },
        ),
{
    let behind = gap + second + tail;
    assert(front + first + gap + second + tail =~= front + first + behind);
    assert(behind[0] == gap[0]);
    lemma_words(front, first, behind, 0);
    lemma_words(gap, second, tail, 0);
    if let Some(pages) = number(second) {
        assert(0 <= pages * page_size) by (nonlinear_arith);
    }
}

/// A `statm` file of fewer than two words tells nothing.
pub proof fn law_short_statm_tells_nothing(
    text: &str,
    page_size: u64,
    r: Option<u64>,
    front: Seq<u8>,
    first: Seq<u8>,
    back: Seq<u8>,
)
    requires
        call_ensures(parse_statm_rss, (text, page_size), r),
        encode_utf8(text@) == front + first + back,
        all_blanks(front),
        no_blanks(first),
        all_blanks(back),
    ensures
        r is None,
{
    lemma_at_most_one_word(front, first, back);
}

/// Between blanks there is one word at most.
proof fn lemma_at_most_one_word(front: Seq<u8>, first: Seq<u8>, back: Seq<u8>)
    requires
        all_blanks(front),
        no_blanks(first),
        all_blanks(back),
    ensures
        word(front + first + back, 1) is None,
        first.len() == 0 ==> word(front + first + back, 0) is None,
        forall|n: nat| n > 0 ==> #[trigger] word(front + first + back, n) is None,
{
    let whole = front + first + back;
    if first.len() == 0 {
        assert forall|i: int| 0 <= i < whole.len() implies is_blank(#[trigger] whole[i]) by {
            if i < front.len() {
                assert(whole[i] == front[i]);
            } else {
                assert(whole[i] == back[i - front.len()]);
            }
        }
        assert forall|n: nat| true implies #[trigger] word(whole, n) is None by {
            law_blanks_hold_no_word(whole, n);
        }
        assert(word(whole, 0) is None);
    } else {
        assert forall|n: nat| n > 0 implies #[trigger] word(whole, n) is None by {
            if back.len() > 0 {
                assert(is_blank(back[0]));
            }
            lemma_words(front, first, back, (n - 1) as nat);
            law_blanks_hold_no_word(back, (n - 1) as nat);
        }
    }
    assert(word(whole, 1) is None);
}

/// The first three words of `mm_stat` are the bytes stored, their size when
/// compressed and the memory that holds them, however they are set apart. Where
/// one of them is no number the file tells nothing.
pub proof fn law_mm_stat_starts_with_three_figures(
    text: &str,
    r: Option<Zram>,
    front: Seq<u8>,
    first: Seq<u8>,
    gap: Seq<u8>,
    second: Seq<u8>,
    other_gap: Seq<u8>,
    third: Seq<u8>,
    tail: Seq<u8>,
)
    requires
        call_ensures(parse_zram_mm_stat, (text,), r),
        encode_utf8(text@) == front + first + gap + second + other_gap + third + tail,
        all_blanks(front),
        first.len() > 0,
        no_blanks(first),
        gap.len() > 0,
        all_blanks(gap),
        second.len() > 0,
        no_blanks(second),
        other_gap.len() > 0,
        all_blanks(other_gap),
        third.len() > 0,
        no_blanks(third),
        tail.len() > 0 ==> is_blank(tail[0]),
    ensures
        r is Some <==> number(first) is Some && number(second) is Some && number(third) is Some,
        r matches Some(zram) ==> {
            &&& zram.configured == 0
            &&& number(first) == Some(zram.data)
            &&& number(second) == Some(zram.compressed)
            &&& number(third) == Some(zram.memory_used)
        },
{
    let last = other_gap + third + tail;
    let behind = gap + second + last;
    assert(front + first + gap + second + other_gap + third + tail =~= front + first + behind);
    assert(behind[0] == gap[0]);
    assert(last[0] == other_gap[0]);
    lemma_words(front, first, behind, 0);
    lemma_words(front, first, behind, 1);
    lemma_words(gap, second, last, 0);
    lemma_words(other_gap, third, tail, 0);
}

/// An `mm_stat` file of fewer than three words tells nothing.
pub proof fn law_short_mm_stat_tells_nothing(
    text: &str,
    r: Option<Zram>,
    front: Seq<u8>,
    first: Seq<u8>,
    gap: Seq<u8>,
    second: Seq<u8>,
    back: Seq<u8>,
)
    requires
        call_ensures(parse_zram_mm_stat, (text,), r),
        encode_utf8(text@) == front + first + gap + second + back,
        all_blanks(front),
        no_blanks(first),
        gap.len() > 0,
        all_blanks(gap),
        no_blanks(second),
        all_blanks(back),
    ensures
        r is None,
{
    let behind = gap + second + back;
    assert(front + first + gap + second + back =~= front + first + behind);
    assert(is_blank(gap[0]));
    assert(behind[0] == gap[0]);
    lemma_at_most_one_word(gap, second, back);
    if first.len() > 0 {
        lemma_words(front, first, behind, 1);
    } else {
        let lead = front + gap;
        assert forall|i: int| 0 <= i < lead.len() implies is_blank(#[trigger] lead[i]) by {
            if i < front.len() {
                assert(lead[i] == front[i]);
            } else {
                assert(lead[i] == gap[i - front.len()]);
            }
        }
        assert(front + first + gap + second + back =~= lead + second + back);
        lemma_at_most_one_word(lead, second, back);
    }
}

/// A pair that lies whole in the bytes is among the pairs.
proof fn lemma_pair_lies_whole(len: nat, word: usize, i: int)
    requires
        word == 4 || word == 8,
        0 <= i,
    ensures
        i < pair_count(len, word) <==> 2 * word * i + 2 * word <= len,
{
    if word == 4 {
        assert(2 * word * i == 8 * i) by (nonlinear_arith)
            requires
                word == 4,
        ;
    } else {
        assert(2 * word * i == 16 * i) by (nonlinear_arith)
            requires
                word == 8,
        ;
    }
}

/// The first entry with a key gives its value.
proof fn lemma_first_entry(entries: Seq<(u64, u64)>, key: u64, i: int)
    requires
        0 <= i < entries.len(),
        entries[i].0 == key,
        forall|j: int| 0 <= j < i ==> (#[trigger] entries[j]).0 != key,
    ensures
        entry_value(entries, key) == Some(entries[i].1),
    decreases i,
{
    if i > 0 {
        assert(entries[0].0 != key);
        let rest = entries.skip(1);
        assert forall|j: int| 0 <= j < i - 1 implies (#[trigger] rest[j]).0 != key by {
            assert(rest[j] == entries[j + 1]);
        }
        lemma_first_entry(rest, key, i - 1);
    }
}

/// A key that no entry has has no value.
proof fn lemma_no_entry(entries: Seq<(u64, u64)>, key: u64)
    requires
        forall|j: int| 0 <= j < entries.len() ==> (#[trigger] entries[j]).0 != key,
    ensures
        entry_value(entries, key) is None,
    decreases entries.len(),
{
    if entries.len() > 0 {
        assert(entries[0].0 != key);
        let rest = entries.skip(1);
        assert forall|j: int| 0 <= j < rest.len() implies (#[trigger] rest[j]).0 != key by {
            assert(rest[j] == entries[j + 1]);
        }
        lemma_no_entry(rest, key);
    }
}

/// The entries of an auxiliary vector are its machine words two by two, from
/// the first to the last pair that lies whole in the bytes.
pub proof fn law_entries_are_the_words_two_by_two(
    bytes: &[u8],
    word: usize,
    little: bool,
    r: Vec<(u64, u64)>,
    i: int,
)
    requires
        call_ensures(auxv_entries, (bytes, word, little), r),
        word == 4 || word == 8,
        0 <= i,
    ensures
        i < r@.len() <==> 2 * word * i + 2 * word <= bytes@.len(),
        i < r@.len() ==> r@[i].0 == word_at(bytes@, 2 * word * i, word, little) && r@[i].1
            == word_at(bytes@, 2 * word * i + word, word, little),
{
    lemma_pair_lies_whole(bytes@.len(), word, i);
}

/// The page size is the word behind the first key six, wherever in the
/// auxiliary vector that stands.
pub proof fn law_page_size_stands_behind_its_key(
    bytes: &[u8],
    word: usize,
    little: bool,
    r: Option<u64>,
    i: int,
)
    requires
        call_ensures(parse_auxv_page_size, (bytes, word, little), r),
        word == 4 || word == 8,
        0 <= i,
        2 * word * i + 2 * word <= bytes@.len(),
        word_at(bytes@, 2 * word * i, word, little) == 6,
        forall|j: int| 0 <= j < i ==> #[trigger] word_at(bytes@, 2 * word * j, word, little) != 6,
    ensures
        r == Some(word_at(bytes@, 2 * word * i + word, word, little)),
{
    let pairs = auxv_pairs(bytes@, word, little);
    lemma_pair_lies_whole(bytes@.len(), word, i);
    assert forall|j: int| 0 <= j < i implies (#[trigger] pairs[j]).0 != 6 by {
        assert(word_at(bytes@, 2 * word * j, word, little) != 6);
    }
    lemma_first_entry(pairs, 6, i);
}

/// Without a key six in front of a whole word there is no page size.
pub proof fn law_no_page_size_without_its_key(
    bytes: &[u8],
    word: usize,
    little: bool,
    r: Option<u64>,
)
    requires
        call_ensures(parse_auxv_page_size, (bytes, word, little), r),
        word == 4 || word == 8,
        forall|j: int|
            0 <= j && 2 * word * j + 2 * word <= bytes@.len() ==> #[trigger] word_at(
                bytes@,
                2 * word * j,
                word,
                little,
            ) != 6,
    ensures
        r is None,
{
    let pairs = auxv_pairs(bytes@, word, little);
    assert forall|j: int| 0 <= j < pairs.len() implies (#[trigger] pairs[j]).0 != 6 by {
        lemma_pair_lies_whole(bytes@.len(), word, j);
        assert(word_at(bytes@, 2 * word * j, word, little) != 6);
    }
    lemma_no_entry(pairs, 6);
}

/// No line of the text starts with the key and a colon.
pub open spec fn says_nothing_about(text: Seq<u8>, key: Seq<u8>) -> bool {
    forall|i: int|
        0 <= i < text.len() && (i == 0 || text[i - 1] == 0x0a) ==> !(key
            + seq![0x3au8]).is_prefix_of(#[trigger] text.skip(i))
}

/// The first line of a text, where that is not the last.
proof fn lemma_first_line(line: Seq<u8>, rest: Seq<u8>)
    requires
        lacks(line, 0x0a),
    ensures
        before_first(line + seq![LINE_FEED] + rest, LINE_FEED) == line,
        next_lines(line + seq![LINE_FEED] + rest) == rest,
        before_first(line, LINE_FEED) == line,
        next_lines(line) == Seq::<u8>::empty(),
{
    law_before_first_mark(line, LINE_FEED, rest);
    assert((line + seq![LINE_FEED] + rest).skip(line.len() as int + 1) =~= rest);
}

/// A text is its first line, and where there is more a line feed and the rest.
proof fn lemma_lines(text: Seq<u8>) -> (line: Seq<u8>)
    requires
        text.len() > 0,
    ensures
        line == before_first(text, LINE_FEED),
        lacks(line, 0x0a),
        line.len() < text.len() ==> text == line + seq![LINE_FEED] + next_lines(text),
        line.len() >= text.len() ==> text == line && next_lines(text) == Seq::<u8>::empty(),
{
    let line = before_first(text, LINE_FEED);
    lemma_head(text, LINE_FEED);
    if line.len() < text.len() {
        assert(text =~= line + seq![LINE_FEED] + next_lines(text));
    } else {
        assert(text =~= line);
    }
    line
}

/// No byte of the head is the mark, and the mark follows it.
proof fn lemma_head(bytes: Seq<u8>, mark: u8)
    ensures
        head_len(bytes, mark) <= bytes.len(),
        lacks(before_first(bytes, mark), mark),
        head_len(bytes, mark) < bytes.len() ==> bytes[head_len(bytes, mark) as int] == mark,
    decreases bytes.len(),
{
    if bytes.len() > 0 && bytes[0] != mark {
        let rest = bytes.skip(1);
        lemma_head(rest, mark);
        let head = before_first(bytes, mark);
        assert forall|i: int| 0 <= i < head.len() implies #[trigger] head[i] != mark by {
            if i > 0 {
                assert(before_first(rest, mark)[i - 1] == head[i]);
            }
        }
    }
}

/// The first line of a text that says nothing about the key is not about it,
/// and the other lines say nothing about it either.
proof fn lemma_first_line_says_nothing(text: Seq<u8>, key: Seq<u8>)
    requires
        text.len() > 0,
        says_nothing_about(text, key),
    ensures
        !is_about(before_first(text, LINE_FEED), key),
        says_nothing_about(next_lines(text), key),
{
    let line = lemma_lines(text);
    let rest = next_lines(text);
    assert(text.skip(0) =~= text);
    let start = key + seq![0x3au8];
    if is_about(line, key) {
        assert forall|i: int| 0 <= i < start.len() implies start[i] == #[trigger] text[i] by {
            assert(text[i] == line[i]);
            if i < key.len() {
                assert(line.subrange(0, key.len() as int)[i] == line[i]);
            }
        }
        assert(start =~= text.skip(0).subrange(0, start.len() as int));
    }
    assert forall|i: int|
        0 <= i < rest.len() && (i == 0 || rest[i - 1] == 0x0a) implies !start.is_prefix_of(
        #[trigger] rest.skip(i),
    ) by {
        let at = line.len() + 1 + i;
        assert(text[at - 1] == 0x0a);
        assert(text.skip(at) =~= rest.skip(i));
    }
}

/// Lines that say nothing about the key are passed over.
proof fn lemma_lines_are_passed(before: Seq<u8>, tail: Seq<u8>, key: Seq<u8>)
    requires
        before.len() > 0 ==> before.last() == 0x0a,
        says_nothing_about(before, key),
    ensures
        meminfo_bytes(before + tail, key) == meminfo_bytes(tail, key),
    decreases before.len(),
{
    if before.len() == 0 {
        assert(before + tail =~= tail);
    } else {
        let line = lemma_lines(before);
        lemma_first_line_says_nothing(before, key);
        if line.len() >= before.len() {
            assert(line[line.len() - 1] == 0x0a);
        }
        let more = next_lines(before);
        if more.len() > 0 {
            assert(more.last() == before.last());
        }
        assert(before + tail =~= line + seq![LINE_FEED] + (more + tail));
        lemma_first_line(line, more + tail);
        lemma_lines_are_passed(more, tail, key);
    }
}

/// The first line that starts with the key and a colon is the one that counts,
/// however long the text before and behind it. Its first word is a number of
/// kibibytes.
pub proof fn law_first_line_about_a_key_counts(
    before: Seq<u8>,
    key: Seq<u8>,
    value: Seq<u8>,
    end: Seq<u8>,
)
    requires
        before.len() > 0 ==> before.last() == 0x0a,
        says_nothing_about(before, key),
        lacks(key, 0x0a),
        lacks(value, 0x0a),
        end.len() > 0 ==> end[0] == 0x0a,
    ensures
        meminfo_bytes(before + key + seq![0x3au8] + value + end, key) == (match word_number(
            value,
            0,
        ) {
            Some(kibibytes) => saturated(kibibytes * 1024),
            None => 0,
        }),
{
    let line = key + seq![0x3au8] + value;
    let tail = line + end;
    assert(before + key + seq![0x3au8] + value + end =~= before + tail);
    lemma_lines_are_passed(before, tail, key);
    assert forall|i: int| 0 <= i < line.len() implies #[trigger] line[i] != 0x0a by {
        if i < key.len() {
            assert(line[i] == key[i]);
        } else if i > key.len() {
            assert(line[i] == value[i - key.len() - 1]);
        }
    }
    if end.len() > 0 {
        assert(tail =~= line + seq![LINE_FEED] + end.skip(1));
        lemma_first_line(line, end.skip(1));
    } else {
        assert(tail =~= line);
        lemma_first_line(line, end);
    }
    assert(key =~= line.subrange(0, key.len() as int));
    assert(line.skip(key.len() as int + 1) =~= value);
}

/// A key that no line starts with has no bytes.
proof fn lemma_absent_key(text: Seq<u8>, key: Seq<u8>)
    requires
        says_nothing_about(text, key),
    ensures
        meminfo_bytes(text, key) == 0,
    decreases text.len(),
{
    if text.len() > 0 {
        let line = lemma_lines(text);
        lemma_first_line_says_nothing(text, key);
        lemma_absent_key(next_lines(text), key);
    }
}

/// Each figure of `meminfo` is the number in the first line that starts with
/// its key and a colon, in kibibytes, or as many bytes as can be told. The
/// lines before and behind make no difference, however many they are.
pub proof fn law_meminfo_tells_each_figure(
    text: &str,
    r: Memory,
    before: Seq<u8>,
    key: Seq<u8>,
    blanks: Seq<u8>,
    n: nat,
    after: Seq<u8>,
)
    requires
        call_ensures(parse_meminfo, (text,), r),
        encode_utf8(text@) == before + key + seq![0x3au8] + blanks + digits_of(n)
            + seq![0x20u8, 0x6bu8, 0x42u8, 0x0au8] + after,
        before.len() > 0 ==> before.last() == 0x0a,
        says_nothing_about(before, key),
        lacks(key, 0x0a),
        all_blanks(blanks),
        lacks(blanks, 0x0a),
        n <= 0xffff_ffff_ffff_ffff,
    ensures
        ({
            let bytes = if n * 1024 <= 0xffff_ffff_ffff_ffff {
                n * 1024
            } else {
                0xffff_ffff_ffff_ffff
            };
            &&& key == encode_utf8("MemTotal"@) ==> r.total == bytes
            &&& key == encode_utf8("MemAvailable"@) ==> r.available == bytes
            &&& key == encode_utf8("Cached"@) ==> r.cached == bytes
            &&& key == encode_utf8("SwapTotal"@) ==> r.swap_total == bytes
            &&& key == encode_utf8("SwapFree"@) ==> r.swap_free == bytes
            &&& key == encode_utf8("CommitLimit"@) ==> r.commit_limit == bytes
            &&& key == encode_utf8("Committed_AS"@) ==> r.committed == bytes
        }),
{
    let unit = seq![0x20u8, 0x6bu8, 0x42u8];
    let digits = digits_of(n);
    let value = blanks + digits + unit;
    let end = seq![0x0au8] + after;
    lemma_digits_of(n);
    law_number_reads_its_digits(n);
    lemma_words(blanks, digits, unit, 0);
    assert forall|i: int| 0 <= i < value.len() implies #[trigger] value[i] != 0x0a by {
        if i < blanks.len() {
            assert(value[i] == blanks[i]);
        } else if i < blanks.len() + digits.len() {
            assert(value[i] == digits[i - blanks.len()]);
        }
    }
    law_first_line_about_a_key_counts(before, key, value, end);
    assert(before + key + seq![0x3au8] + blanks + digits + seq![0x20u8, 0x6bu8, 0x42u8, 0x0au8]
        + after =~= before + key + seq![0x3au8] + value + end);
}

/// A figure is zero where no line starts with its key and a colon.
pub proof fn law_meminfo_figures_without_a_line(text: &str, r: Memory)
    requires
        call_ensures(parse_meminfo, (text,), r),
    ensures
        says_nothing_about(encode_utf8(text@), encode_utf8("MemTotal"@)) ==> r.total == 0,
        says_nothing_about(encode_utf8(text@), encode_utf8("MemAvailable"@)) ==> r.available == 0,
        says_nothing_about(encode_utf8(text@), encode_utf8("Cached"@)) ==> r.cached == 0,
        says_nothing_about(encode_utf8(text@), encode_utf8("SwapTotal"@)) ==> r.swap_total == 0,
        says_nothing_about(encode_utf8(text@), encode_utf8("SwapFree"@)) ==> r.swap_free == 0,
        says_nothing_about(encode_utf8(text@), encode_utf8("CommitLimit"@)) ==> r.commit_limit
            == 0,
        says_nothing_about(encode_utf8(text@), encode_utf8("Committed_AS"@)) ==> r.committed == 0,
{
    let bytes = encode_utf8(text@);
    assert forall|key: Seq<u8>| #[trigger] says_nothing_about(bytes, key) implies meminfo_bytes(
        bytes,
        key,
    ) == 0 by {
        lemma_absent_key(bytes, key);
    }
}

} // verus!
