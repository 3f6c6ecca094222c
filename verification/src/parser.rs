//! The candidate extractor: reads raw bytes, which need not be text, and
//! yields every token shaped like a utility class. Bytes at which no
//! candidate can start are skipped; from every other start the recogniser
//! runs forward and never looks back.
//!
//! A candidate is a run of printable ASCII made of segments that colons
//! separate. Every segment but the last is a variant; the last is the
//! utility, which alone may carry a leading `!`, a leading `-` and a trailing
//! `!`. A segment is a name of letters, digits, `%` and the joints `-`, `_`,
//! `.`, `/`, `@`, in which bracketed arbitrary values may stand. A candidate
//! is taken where it starts at the buffer's start or behind white space, a
//! quote or a colon, and ends at the buffer's end or before white space, a
//! quote, `=` or a backslash.

use crate::store::set_insert;
use crate::store::set_new;
use crate::store::set_texts;
use crate::text::string_of;
use fxhash::FxHashSet;
use vstd::prelude::*;

verus! {

/// White space: blank, tab, line feed, vertical tab, form feed, carriage return.
pub open spec fn is_space(b: u8) -> bool {
    b == 0x20 || (0x09 <= b && b <= 0x0d)
}

/// A quote: `"`, `'` or a backtick.
pub open spec fn is_quote(b: u8) -> bool {
    b == 0x22 || b == 0x27 || b == 0x60
}

/// Printable ASCII other than the blank.
pub open spec fn is_graphic(b: u8) -> bool {
    0x21 <= b && b <= 0x7e
}

/// An ASCII letter or digit.
pub open spec fn is_alnum(b: u8) -> bool {
    (0x30 <= b && b <= 0x39) || (0x41 <= b && b <= 0x5a) || (0x61 <= b && b <= 0x7a)
}

/// A byte that may end a name: a letter, a digit or `%`.
pub open spec fn is_word(b: u8) -> bool {
    is_alnum(b) || b == 0x25
}

/// A byte that joins the parts of a name: `-`, `_`, `.`, `/` or `@`.
pub open spec fn is_joint(b: u8) -> bool {
    b == 0x2d || b == 0x5f || b == 0x2e || b == 0x2f || b == 0x40
}

/// A candidate may start behind this byte.
pub open spec fn opens(b: u8) -> bool {
    is_space(b) || is_quote(b) || b == 0x3a
}

/// A candidate may end before this byte.
pub open spec fn closes(b: u8) -> bool {
    is_space(b) || is_quote(b) || b == 0x3d || b == 0x5c
}

/// The deepest nesting of brackets inside a candidate.
pub const MAX_DEPTH: u8 = 255;

/// Where the recogniser stands after the bytes read so far.
#[derive(Debug, Clone, Copy, PartialEq, Eq, Structural)]
pub enum Lex {
    /// A segment begins.
    Start,
    /// Behind the `!` that leads the utility.
    Bang,
    /// Behind the `-` that leads the utility.
    Dash,
    /// In a name, behind a joint: the name cannot end here.
    Joint { prefixed: bool },
    /// In a name, behind a byte that may end it.
    Word { prefixed: bool },
    /// Inside brackets; `fresh` right behind an opening bracket.
    Open { depth: u8, fresh: bool, prefixed: bool },
    /// Behind the `!` that ends the candidate.
    Important,
    /// The bytes read are no beginning of a candidate.
    Fail,
}

/// The state behind one more byte.
pub open spec fn lex_step(state: Lex, b: u8) -> Lex {
    match state {
        Lex::Start => if is_alnum(b) {
            Lex::Word { prefixed: false }
        } else if b == 0x40 {
            Lex::Joint { prefixed: false }
        } else if b == 0x5b {
            Lex::Open { depth: 1, fresh: true, prefixed: false }
        } else if b == 0x21 {
            Lex::Bang
        } else if b == 0x2d {
            Lex::Dash
        } else {
            Lex::Fail
        },
        Lex::Bang => if is_alnum(b) {
            Lex::Word { prefixed: true }
        } else if b == 0x40 {
            Lex::Joint { prefixed: true }
        } else if b == 0x5b {
            Lex::Open { depth: 1, fresh: true, prefixed: true }
        } else if b == 0x2d {
            Lex::Dash
        } else {
            Lex::Fail
        },
        Lex::Dash => if is_alnum(b) {
            Lex::Word { prefixed: true }
        } else if b == 0x5b {
            Lex::Open { depth: 1, fresh: true, prefixed: true }
        } else {
            Lex::Fail
        },
        Lex::Joint { prefixed } => if is_word(b) {
            Lex::Word { prefixed }
        } else if is_joint(b) {
            Lex::Joint { prefixed }
        } else if b == 0x5b {
            Lex::Open { depth: 1, fresh: true, prefixed }
        } else {
            Lex::Fail
        },
        Lex::Word { prefixed } => if is_word(b) {
            Lex::Word { prefixed }
        } else if is_joint(b) {
            Lex::Joint { prefixed }
        } else if b == 0x5b {
            Lex::Open { depth: 1, fresh: true, prefixed }
        } else if b == 0x3a && !prefixed {
            Lex::Start
        } else if b == 0x21 {
            Lex::Important
        } else {
            Lex::Fail
        },
        Lex::Open { depth, fresh, prefixed } => if b == 0x5b {
            if depth < MAX_DEPTH {
                Lex::Open { depth: (depth + 1) as u8, fresh: true, prefixed }
            } else {
                Lex::Fail
            }
        } else if b == 0x5d {
            if fresh || depth == 0 {
                Lex::Fail
            } else if depth == 1 {
                Lex::Word { prefixed }
            } else {
                Lex::Open { depth: (depth - 1) as u8, fresh: false, prefixed }
            }
        } else if is_graphic(b) {
            Lex::Open { depth, fresh: false, prefixed }
        } else {
            Lex::Fail
        },
        Lex::Important => Lex::Fail,
        Lex::Fail => Lex::Fail,
    }
}

/// The state behind a run of bytes.
pub open spec fn lex_run(state: Lex, bytes: Seq<u8>) -> Lex
    decreases bytes.len(),
{
    if bytes.len() == 0 {
        state
    } else {
        lex_step(lex_run(state, bytes.drop_last()), bytes.last())
    }
}

/// A candidate may end in this state.
pub open spec fn accepting(state: Lex) -> bool {
    state is Word || state is Important
}

/// The bytes have the shape of a candidate.
pub open spec fn is_candidate(bytes: Seq<u8>) -> bool {
    accepting(lex_run(Lex::Start, bytes))
}

/// A candidate occupies the bytes from `start` up to `end` of the buffer.
pub open spec fn is_occurrence(buf: Seq<u8>, start: int, end: int) -> bool {
    &&& 0 <= start < end <= buf.len()
    &&& start == 0 || opens(buf[start - 1])
    &&& end == buf.len() || closes(buf[end])
    &&& is_candidate(buf.subrange(start, end))
}

/// Where the candidate that starts at `start` ends, if one starts there.
pub open spec fn candidate_end(buf: Seq<u8>, start: int) -> Option<int> {
    if exists|end: int| is_occurrence(buf, start, end) {
        Some(choose|end: int| is_occurrence(buf, start, end))
    } else {
        None
    }
}

/// ASCII bytes as text.
pub open spec fn text_of(bytes: Seq<u8>) -> Seq<char> {
    Seq::new(bytes.len(), |i: int| bytes[i] as char)
}

/// The candidates that start below `below`, each with the offset at which it
/// starts, in the order of the offsets.
pub open spec fn positions_below(buf: Seq<u8>, below: int) -> Seq<(Seq<char>, int)>
    decreases below,
{
    if below <= 0 {
        Seq::empty()
    } else {
        let head = positions_below(buf, below - 1);
        match candidate_end(buf, below - 1) {
            Some(end) => head.push((text_of(buf.subrange(below - 1, end)), below - 1)),
            None => head,
        }
    }
}

/// All candidates of a buffer with their offsets, in source order.
pub open spec fn positions(buf: Seq<u8>) -> Seq<(Seq<char>, int)> {
    positions_below(buf, buf.len() as int)
}

/// The distinct candidates of a buffer.
pub open spec fn candidates(buf: Seq<u8>) -> Set<Seq<char>> {
    Set::new(
        |text: Seq<char>|
            exists|start: int, end: int|
                is_occurrence(buf, start, end) && text == text_of(buf.subrange(start, end)),
    )
}

/// Once failed, always failed.
pub proof fn lemma_fail_is_final(bytes: Seq<u8>)
    ensures
        lex_run(Lex::Fail, bytes) == Lex::Fail,
    decreases bytes.len(),
{
    if bytes.len() > 0 {
        lemma_fail_is_final(bytes.drop_last());
    }
}

/// Reading `a` and then `b` is reading `a + b`.
pub proof fn lemma_run_concat(state: Lex, a: Seq<u8>, b: Seq<u8>)
    ensures
        lex_run(state, a + b) == lex_run(lex_run(state, a), b),
    decreases b.len(),
{
    if b.len() == 0 {
        assert(a + b =~= a);
    } else {
        assert((a + b).drop_last() =~= a + b.drop_last());
        lemma_run_concat(state, a, b.drop_last());
    }
}

/// A prefix that fails makes the whole fail.
pub proof fn lemma_fail_extends(buf: Seq<u8>, start: int, mid: int, end: int)
    requires
        0 <= start <= mid <= end <= buf.len(),
        lex_run(Lex::Start, buf.subrange(start, mid)) == Lex::Fail,
    ensures
        lex_run(Lex::Start, buf.subrange(start, end)) == Lex::Fail,
{
    assert(buf.subrange(start, end) =~= buf.subrange(start, mid) + buf.subrange(mid, end));
    lemma_run_concat(Lex::Start, buf.subrange(start, mid), buf.subrange(mid, end));
    lemma_fail_is_final(buf.subrange(mid, end));
}

/// At most one candidate starts at a given offset.
pub proof fn lemma_occurrence_unique(buf: Seq<u8>, start: int, a: int, b: int)
    requires
        is_occurrence(buf, start, a),
        is_occurrence(buf, start, b),
    ensures
        a == b,
{
    if a < b {
        lemma_closed(buf, start, a, b);
    }
    if b < a {
        lemma_closed(buf, start, b, a);
    }
}

/// Behind the end of a candidate that a closing byte ends, nothing goes on.
proof fn lemma_closed(buf: Seq<u8>, start: int, a: int, b: int)
    requires
        0 <= start <= a < b <= buf.len(),
        accepting(lex_run(Lex::Start, buf.subrange(start, a))),
        closes(buf[a]),
    ensures
        lex_run(Lex::Start, buf.subrange(start, b)) == Lex::Fail,
{
    assert(buf.subrange(start, a + 1).drop_last() =~= buf.subrange(start, a));
    lemma_fail_extends(buf, start, a + 1, b);
}

/// Every byte of a run that has not failed is printable ASCII.
pub proof fn lemma_run_is_graphic(bytes: Seq<u8>)
    requires
        lex_run(Lex::Start, bytes) != Lex::Fail,
    ensures
        forall|i: int| 0 <= i < bytes.len() ==> is_graphic(#[trigger] bytes[i]),
    decreases bytes.len(),
{
    if bytes.len() > 0 {
        let init = bytes.drop_last();
        if lex_run(Lex::Start, init) == Lex::Fail {
            assert(false);
        }
        lemma_run_is_graphic(init);
        assert forall|i: int| 0 <= i < bytes.len() implies is_graphic(#[trigger] bytes[i]) by {
            if i < bytes.len() - 1 {
                assert(bytes[i] == init[i]);
            }
        }
    }
}

/// A byte with which a candidate may begin: a letter, a digit, `@`, `[`, `!`
/// or `-`.
pub open spec fn is_first(b: u8) -> bool {
    is_alnum(b) || b == 0x40 || b == 0x5b || b == 0x21 || b == 0x2d
}

/// A byte with which a candidate may end: a letter, a digit, `%`, `]` or `!`.
pub open spec fn is_last(b: u8) -> bool {
    is_word(b) || b == 0x5d || b == 0x21
}

/// A run that has not failed began with a byte that may begin a candidate.
proof fn lemma_run_begins(bytes: Seq<u8>)
    requires
        bytes.len() > 0,
        lex_run(Lex::Start, bytes) != Lex::Fail,
    ensures
        is_first(bytes[0]),
    decreases bytes.len(),
{
    let init = bytes.drop_last();
    if init.len() == 0 {
        assert(lex_run(Lex::Start, init) == Lex::Start);
    } else {
        if lex_run(Lex::Start, init) == Lex::Fail {
            assert(false);
        }
        lemma_run_begins(init);
        assert(init[0] == bytes[0]);
    }
}

/// A candidate is not empty, begins with a byte that may begin one and ends
/// with a byte that may end one.
pub proof fn lemma_candidate_shape(bytes: Seq<u8>)
    requires
        is_candidate(bytes),
    ensures
        bytes.len() > 0,
        is_first(bytes[0]),
        is_last(bytes.last()),
{
    lemma_run_begins(bytes);
}

/// A byte that may stand in a candidate outside brackets: a letter, a digit,
/// `%`, a joint, `:` or `!`. It is no white space, no quote and no `=`.
pub open spec fn is_plain(b: u8) -> bool {
    is_word(b) || is_joint(b) || b == 0x3a || b == 0x21
}

/// A run without an opening bracket that has not failed stands outside
/// brackets and has read plain bytes only.
proof fn lemma_run_is_plain(bytes: Seq<u8>)
    requires
        lex_run(Lex::Start, bytes) != Lex::Fail,
        forall|i: int| 0 <= i < bytes.len() ==> #[trigger] bytes[i] != 0x5b,
    ensures
        !(lex_run(Lex::Start, bytes) is Open),
        forall|i: int| 0 <= i < bytes.len() ==> is_plain(#[trigger] bytes[i]),
    decreases bytes.len(),
{
    if bytes.len() > 0 {
        let init = bytes.drop_last();
        if lex_run(Lex::Start, init) == Lex::Fail {
            assert(false);
        }
        assert forall|i: int| 0 <= i < init.len() implies #[trigger] init[i] != 0x5b by {
            assert(init[i] == bytes[i]);
        }
        lemma_run_is_plain(init);
        assert(bytes.last() == bytes[bytes.len() - 1]);
        assert forall|i: int| 0 <= i < bytes.len() implies is_plain(#[trigger] bytes[i]) by {
            if i < bytes.len() - 1 {
                assert(bytes[i] == init[i]);
            }
        }
    }
}

/// A candidate without brackets is made of plain bytes only: white space
/// stands in no candidate, and a quote or `=` only inside brackets.
pub proof fn lemma_plain_candidate(bytes: Seq<u8>)
    requires
        is_candidate(bytes),
        forall|i: int| 0 <= i < bytes.len() ==> #[trigger] bytes[i] != 0x5b,
    ensures
        forall|i: int|
            0 <= i < bytes.len() ==> is_plain(#[trigger] bytes[i]) && !is_space(bytes[i])
                && !is_quote(bytes[i]) && bytes[i] != 0x3d,
{
    lemma_run_is_plain(bytes);
}

/// The text is cut from the buffer between two boundaries, has the shape of
/// a candidate and is made of plain bytes only.
pub open spec fn is_plain_cut(buf: Seq<u8>, text: Seq<char>) -> bool {
    exists|start: int, end: int| #[trigger]
        is_occurrence(buf, start, end) && text == text_of(buf.subrange(start, end)) && forall|
            i: int,
        |
            start <= i < end ==> is_plain(#[trigger] buf[i]) && !is_space(buf[i]) && !is_quote(
                buf[i],
            ) && buf[i] != 0x3d
}

/// Every candidate of a buffer that holds no opening bracket is a piece of
/// the buffer between two boundaries, made of plain bytes only: nothing
/// comes of text that is no candidate.
pub proof fn lemma_candidates_of_plain_buffer(buf: Seq<u8>, text: Seq<char>)
    requires
        forall|i: int| 0 <= i < buf.len() ==> #[trigger] buf[i] != 0x5b,
        candidates(buf).contains(text),
    ensures
        is_plain_cut(buf, text),
{
    let (start, end) = choose|start: int, end: int|
        is_occurrence(buf, start, end) && text == text_of(buf.subrange(start, end));
    let bytes = buf.subrange(start, end);
    assert forall|i: int| 0 <= i < bytes.len() implies #[trigger] bytes[i] != 0x5b by {
        assert(bytes[i] == buf[start + i]);
    }
    lemma_plain_candidate(bytes);
    assert forall|i: int| start <= i < end implies is_plain(#[trigger] buf[i]) && !is_space(buf[i])
        && !is_quote(buf[i]) && buf[i] != 0x3d by {
        assert(bytes[i - start] == buf[i]);
    }
    assert(is_occurrence(buf, start, end));
}

/// A candidate is printable ASCII throughout. So its bytes are valid UTF-8,
/// whatever surrounds them in the buffer, and the text that stands for it
/// is what they decode to: no candidate begins or ends inside a character of
/// several bytes.
pub proof fn lemma_candidate_is_text(bytes: Seq<u8>)
    requires
        is_candidate(bytes),
    ensures
        forall|i: int| 0 <= i < bytes.len() ==> is_graphic(#[trigger] bytes[i]),
        vstd::utf8::valid_utf8(bytes),
        vstd::utf8::encode_utf8(text_of(bytes)) == bytes,
        vstd::utf8::decode_utf8(bytes) == text_of(bytes),
{
    lemma_run_is_graphic(bytes);
    let text = text_of(bytes);
    assert(vstd::utf8::is_ascii_chars(text)) by {
        assert forall|i: int| 0 <= i < text.len() implies '\0' <= #[trigger] text[i] <= '\u{7f}' by {
            assert(is_graphic(bytes[i]));
        }
    }
    vstd::utf8::is_ascii_chars_encode_utf8(text);
    assert(vstd::utf8::encode_utf8(text) =~= bytes) by {
        assert forall|i: int| 0 <= i < bytes.len() implies (text[i] as u8) == bytes[i] by {
            assert(is_graphic(bytes[i]));
        }
    }
    vstd::utf8::encode_utf8_valid_utf8(text);
    vstd::utf8::encode_utf8_decode_utf8(text);
}

/// The bytes of the text are the bytes of the buffer at the offset: the item
/// is a slice of the buffer, and the slice is valid UTF-8.
pub open spec fn is_slice(buf: Seq<u8>, item: (Seq<char>, int)) -> bool {
    &&& 0 <= item.1
    &&& item.1 + item.0.len() <= buf.len()
    &&& vstd::utf8::encode_utf8(item.0) == buf.subrange(item.1, item.1 + item.0.len())
}

/// The views of extracted candidates.
pub open spec fn positions_text(items: Seq<(String, usize)>) -> Seq<(Seq<char>, int)> {
    Seq::new(items.len(), |i: int| (items[i].0@, items[i].1 as int))
}

/// The texts of `items`, as a set.
pub open spec fn texts_in(items: Seq<(Seq<char>, int)>) -> Set<Seq<char>> {
    Set::new(|text: Seq<char>| exists|k: int| 0 <= k < items.len() && items[k].0 == text)
}

/// The item stands for a candidate that occupies the buffer at its offset.
pub open spec fn is_position(buf: Seq<u8>, item: (Seq<char>, int)) -> bool {
    exists|end: int| #[trigger]
        is_occurrence(buf, item.1, end) && item.0 == text_of(buf.subrange(item.1, end))
}

/// Every listed position stands for a candidate of the buffer.
pub proof fn lemma_position_sound(buf: Seq<u8>, below: int, k: int)
    requires
        0 <= below <= buf.len(),
        0 <= k < positions_below(buf, below).len(),
    ensures
        positions_below(buf, below)[k].1 < below,
        is_position(buf, positions_below(buf, below)[k]),
    decreases below,
{
    let head = positions_below(buf, below - 1);
    if k < head.len() {
        lemma_position_sound(buf, below - 1, k);
    } else {
        let end = candidate_end(buf, below - 1)->0;
        assert(is_occurrence(buf, below - 1, end));
    }
}

/// Every candidate of the buffer is listed, at its offset.
pub proof fn lemma_position_complete(buf: Seq<u8>, below: int, start: int, end: int)
    requires
        0 <= start < below <= buf.len(),
        is_occurrence(buf, start, end),
    ensures
        positions_below(buf, below).contains((text_of(buf.subrange(start, end)), start)),
    decreases below,
{
    let head = positions_below(buf, below - 1);
    let all = positions_below(buf, below);
    let item = (text_of(buf.subrange(start, end)), start);
    if start < below - 1 {
        lemma_position_complete(buf, below - 1, start, end);
        let k = choose|k: int| 0 <= k < head.len() && head[k] == item;
        assert(all[k] == item);
    } else {
        lemma_occurrence_unique(buf, start, end, candidate_end(buf, start)->0);
        assert(all[head.len() as int] == item);
    }
}

/// The positions are listed by rising offset, so none is listed twice.
pub proof fn lemma_positions_rise(buf: Seq<u8>, below: int, j: int, k: int)
    requires
        0 <= below <= buf.len(),
        0 <= j < k < positions_below(buf, below).len(),
    ensures
        positions_below(buf, below)[j].1 < positions_below(buf, below)[k].1,
    decreases below,
{
    let head = positions_below(buf, below - 1);
    if k < head.len() {
        lemma_positions_rise(buf, below - 1, j, k);
    } else {
        lemma_position_sound(buf, below - 1, j);
    }
}

/// Every listed position is a slice of the buffer at its byte offset.
pub proof fn lemma_position_is_slice(buf: Seq<u8>, k: int)
    requires
        0 <= k < positions(buf).len(),
    ensures
        is_slice(buf, positions(buf)[k]),
{
    lemma_position_sound(buf, buf.len() as int, k);
    let item = positions(buf)[k];
    let end = choose|end: int| #[trigger]
        is_occurrence(buf, item.1, end) && item.0 == text_of(buf.subrange(item.1, end));
    lemma_candidate_is_text(buf.subrange(item.1, end));
}

/// The distinct candidates of a buffer are the texts of its positions.
pub proof fn lemma_candidates_are_positions(buf: Seq<u8>)
    ensures
        candidates(buf) == texts_in(positions(buf)),
{
    let items = positions(buf);
    assert forall|text: Seq<char>| candidates(buf).contains(text) <==> texts_in(items).contains(
        text,
    ) by {
        if candidates(buf).contains(text) {
            let (start, end) = choose|start: int, end: int|
                is_occurrence(buf, start, end) && text == text_of(buf.subrange(start, end));
            lemma_position_complete(buf, buf.len() as int, start, end);
            let item = (text, start);
            let k = choose|k: int| 0 <= k < items.len() && items[k] == item;
            assert(items[k].0 == text);
        }
        if texts_in(items).contains(text) {
            let k = choose|k: int| 0 <= k < items.len() && items[k].0 == text;
            lemma_position_sound(buf, buf.len() as int, k);
            let end = choose|end: int| #[trigger]
                is_occurrence(buf, items[k].1, end) && items[k].0 == text_of(
                    buf.subrange(items[k].1, end),
                );
            assert(is_occurrence(buf, items[k].1, end));
        }
    }
    assert(candidates(buf) =~= texts_in(items));
}

fn space(b: u8) -> (r: bool)
    ensures
        r == is_space(b),
{
    b == 0x20 || (0x09 <= b && b <= 0x0d)
}

fn quote(b: u8) -> (r: bool)
    ensures
        r == is_quote(b),
{
    b == 0x22 || b == 0x27 || b == 0x60
}

fn alnum(b: u8) -> (r: bool)
    ensures
        r == is_alnum(b),
{
    (0x30 <= b && b <= 0x39) || (0x41 <= b && b <= 0x5a) || (0x61 <= b && b <= 0x7a)
}

fn first(b: u8) -> (r: bool)
    ensures
        r == is_first(b),
{
    alnum(b) || b == 0x40 || b == 0x5b || b == 0x21 || b == 0x2d
}

fn joint(b: u8) -> (r: bool)
    ensures
        r == is_joint(b),
{
    b == 0x2d || b == 0x5f || b == 0x2e || b == 0x2f || b == 0x40
}

/// Advances the recogniser by one byte.
pub fn step(state: Lex, b: u8) -> (next: Lex)
    ensures
        next == lex_step(state, b),
{
    let word = alnum(b) || b == 0x25;
    match state {
        Lex::Start => if alnum(b) {
            Lex::Word { prefixed: false }
        } else if b == 0x40 {
            Lex::Joint { prefixed: false }
        } else if b == 0x5b {
            Lex::Open { depth: 1, fresh: true, prefixed: false }
        } else if b == 0x21 {
            Lex::Bang
        } else if b == 0x2d {
            Lex::Dash
        } else {
            Lex::Fail
        },
        Lex::Bang => if alnum(b) {
            Lex::Word { prefixed: true }
        } else if b == 0x40 {
            Lex::Joint { prefixed: true }
        } else if b == 0x5b {
            Lex::Open { depth: 1, fresh: true, prefixed: true }
        } else if b == 0x2d {
            Lex::Dash
        } else {
            Lex::Fail
        },
        Lex::Dash => if alnum(b) {
            Lex::Word { prefixed: true }
        } else if b == 0x5b {
            Lex::Open { depth: 1, fresh: true, prefixed: true }
        } else {
            Lex::Fail
        },
        Lex::Joint { prefixed } => if word {
            Lex::Word { prefixed }
        } else if joint(b) {
            Lex::Joint { prefixed }
        } else if b == 0x5b {
            Lex::Open { depth: 1, fresh: true, prefixed }
        } else {
            Lex::Fail
        },
        Lex::Word { prefixed } => if word {
            Lex::Word { prefixed }
        } else if joint(b) {
            Lex::Joint { prefixed }
        } else if b == 0x5b {
            Lex::Open { depth: 1, fresh: true, prefixed }
        } else if b == 0x3a && !prefixed {
            Lex::Start
        } else if b == 0x21 {
            Lex::Important
        } else {
            Lex::Fail
        },
        Lex::Open { depth, fresh, prefixed } => if b == 0x5b {
            if depth < MAX_DEPTH {
                Lex::Open { depth: depth + 1, fresh: true, prefixed }
            } else {
                Lex::Fail
            }
        } else if b == 0x5d {
            if fresh || depth == 0 {
                Lex::Fail
            } else if depth == 1 {
                Lex::Word { prefixed }
            } else {
                Lex::Open { depth: depth - 1, fresh: false, prefixed }
            }
        } else if 0x21 <= b && b <= 0x7e {
            Lex::Open { depth, fresh: false, prefixed }
        } else {
            Lex::Fail
        },
        Lex::Important => Lex::Fail,
        Lex::Fail => Lex::Fail,
    }
}

/// Finds the end of the candidate that starts at `start`, if one starts there.
fn scan_from(buf: &[u8], start: usize) -> (r: Option<usize>)
    requires
        start < buf@.len(),
        start == 0 || opens(buf@[start - 1]),
    ensures
        match r {
            Some(end) => candidate_end(buf@, start as int) == Some(end as int) && is_occurrence(
                buf@,
                start as int,
                end as int,
            ),
            None => candidate_end(buf@, start as int) is None,
        },
{
    let len = buf.len();
    let mut state = Lex::Start;
    let mut end: usize = start;
    assert(buf@.subrange(start as int, start as int) =~= Seq::<u8>::empty());
    while end < len
        invariant
            start <= end <= len,
            len == buf@.len(),
            start == 0 || opens(buf@[start - 1]),
            state == lex_run(Lex::Start, buf@.subrange(start as int, end as int)),
            state != Lex::Fail,
            forall|e: int| start < e < end ==> !is_occurrence(buf@, start as int, e),
        decreases len - end,
    {
        let b = buf[end];
        if end > start && (state == Lex::Important || matches!(state, Lex::Word { .. })) && (space(b)
            || quote(b) || b == 0x3d || b == 0x5c) {
            proof {
                assert(is_occurrence(buf@, start as int, end as int));
                lemma_occurrence_unique(
                    buf@,
                    start as int,
                    end as int,
                    candidate_end(buf@, start as int)->0,
                );
            }
            return Some(end);
        }
        proof {
            assert(buf@.subrange(start as int, end + 1).drop_last() =~= buf@.subrange(
                start as int,
                end as int,
            ));
        }
        state = step(state, b);
        end += 1;
        if state == Lex::Fail {
            proof {
                assert forall|e: int| !is_occurrence(buf@, start as int, e) by {
                    if end <= e <= len {
                        lemma_fail_extends(buf@, start as int, end as int, e);
                    }
                }
            }
            return None;
        }
    }
    if end > start && (state == Lex::Important || matches!(state, Lex::Word { .. })) {
        proof {
            assert(is_occurrence(buf@, start as int, end as int));
            lemma_occurrence_unique(
                buf@,
                start as int,
                end as int,
                candidate_end(buf@, start as int)->0,
            );
        }
        Some(end)
    } else {
        None
    }
}

/// The bytes from `start` up to `end` as a string.
fn slice_text(buf: &[u8], start: usize, end: usize) -> (text: String)
    requires
        start <= end <= buf@.len(),
    ensures
        text@ == text_of(buf@.subrange(start as int, end as int)),
{
    let mut chars: Vec<char> = Vec::new();
    let mut i: usize = start;
    while i < end
        invariant
            start <= i <= end <= buf@.len(),
            chars@ == text_of(buf@.subrange(start as int, i as int)),
        decreases end - i,
    {
        chars.push(buf[i] as char);
        assert(chars@ =~= text_of(buf@.subrange(start as int, i + 1)));
        i += 1;
    }
    string_of(&chars)
}

/// Where no candidate starts from `from` up to `to`, the positions below
/// `to` are those below `from`.
proof fn lemma_positions_skip(buf: Seq<u8>, from: int, to: int)
    requires
        0 <= from <= to,
        forall|s: int| from <= s < to ==> candidate_end(buf, s) is None,
    ensures
        positions_below(buf, to) == positions_below(buf, from),
    decreases to - from,
{
    if from < to {
        lemma_positions_skip(buf, from, to - 1);
    }
}

/// No candidate starts at a byte that may not begin one.
proof fn lemma_no_start(buf: Seq<u8>, start: int)
    requires
        0 <= start < buf.len(),
        !is_first(buf[start]),
    ensures
        candidate_end(buf, start) is None,
{
    assert forall|end: int| !is_occurrence(buf, start, end) by {
        if is_occurrence(buf, start, end) {
            lemma_candidate_shape(buf.subrange(start, end));
            assert(buf.subrange(start, end)[0] == buf[start]);
        }
    }
}

/// Skips the bytes at which no candidate can start: returns the first
/// offset from `start` on whose byte may begin a candidate, or the length of
/// the buffer.
pub fn fast_skip(buf: &[u8], start: usize) -> (next: usize)
    requires
        start <= buf@.len(),
    ensures
        start <= next <= buf@.len(),
        next < buf@.len() ==> is_first(buf@[next as int]),
        forall|s: int| start <= s < next ==> !is_first(#[trigger] buf@[s]),
        positions_below(buf@, next as int) == positions_below(buf@, start as int),
{
    let len = buf.len();
    let mut next: usize = start;
    while next < len && !first(buf[next])
        invariant
            start <= next <= len,
            len == buf@.len(),
            forall|s: int| start <= s < next ==> !is_first(#[trigger] buf@[s]),
        decreases len - next,
    {
        next += 1;
    }
    proof {
        assert forall|s: int| start <= s < next implies candidate_end(buf@, s) is None by {
            lemma_no_start(buf@, s);
        }
        lemma_positions_skip(buf@, start as int, next as int);
    }
    next
}

/// The candidate extractor.
pub struct Extractor {}

impl Extractor {
    /// Every candidate of the buffer with the byte offset at which it starts,
    /// in source order; a candidate that occurs twice is listed twice.
    pub fn with_positions(buf: &[u8]) -> (items: Vec<(String, usize)>)
        ensures
            positions_text(items@) == positions(buf@),
            forall|k: int|
                0 <= k < items@.len() ==> is_slice(buf@, #[trigger] positions_text(items@)[k]),
    {
        let len = buf.len();
        let mut items: Vec<(String, usize)> = Vec::new();
        let mut start: usize = fast_skip(buf, 0);
        assert(positions_text(items@) =~= positions_below(buf@, 0));
        while start < len
            invariant
                start <= len,
                len == buf@.len(),
                positions_text(items@) == positions_below(buf@, start as int),
            decreases len - start,
        {
            let ghost before = positions_text(items@);
            let boundary = start == 0 || {
                let b = buf[start - 1];
                space(b) || quote(b) || b == 0x3a
            };
            if boundary {
                match scan_from(buf, start) {
                    Some(end) => {
                        items.push((slice_text(buf, start, end), start));
                        assert(positions_text(items@) =~= before.push(
                            (text_of(buf@.subrange(start as int, end as int)), start as int),
                        ));
                    },
                    None => {},
                }
            }
            start = fast_skip(buf, start + 1);
        }
        proof {
            assert forall|k: int| 0 <= k < items@.len() implies is_slice(
                buf@,
                #[trigger] positions_text(items@)[k],
            ) by {
                lemma_position_is_slice(buf@, k);
            }
        }
        items
    }

    /// Adds the candidates of the buffer to a set.
    pub fn extract_into(set: &mut FxHashSet<String>, buf: &[u8])
        ensures
            set_texts(*final(set)) == set_texts(*old(set)).union(candidates(buf@)),
    {
        let items = Self::with_positions(buf);
        let ghost all = positions_text(items@);
        let ghost given = set_texts(*set);
        let mut i: usize = 0;
        assert(given.union(texts_in(all.take(0))) =~= given);
        while i < items.len()
            invariant
                i <= items@.len(),
                all == positions_text(items@),
                set_texts(*set) == given.union(texts_in(all.take(i as int))),
            decreases items@.len() - i,
        {
            let ghost before = set_texts(*set);
            set_insert(set, items[i].0.clone());
            proof {
                let text = items@[i as int].0@;
                let done = all.take(i as int);
                let next = all.take(i + 1);
                assert(next[i as int].0 == text);
                assert forall|t: Seq<char>| texts_in(next).contains(t) <==> texts_in(done).insert(
                    text,
                ).contains(t) by {
                    if texts_in(next).contains(t) {
                        let k = choose|k: int| 0 <= k < next.len() && next[k].0 == t;
                        if k < i {
                            assert(done[k].0 == t);
                        }
                    }
                    if texts_in(done).contains(t) {
                        let k = choose|k: int| 0 <= k < done.len() && done[k].0 == t;
                        assert(next[k].0 == t);
                    }
                }
                assert(set_texts(*set) =~= given.union(texts_in(all.take(i + 1))));
            }
            i += 1;
        }
        proof {
            assert(all.take(i as int) =~= all);
            lemma_candidates_are_positions(buf@);
        }
    }

    /// The distinct candidates of the buffer.
    pub fn unique(buf: &[u8]) -> (set: FxHashSet<String>)
        ensures
            set_texts(set) == candidates(buf@),
    {
        let mut set = set_new();
        Self::extract_into(&mut set, buf);
        assert(set_texts(set) =~= candidates(buf@));
        set
    }
}

} // verus!
