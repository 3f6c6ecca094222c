//! Conversions between `String` and sequences of characters, and the
//! sequence predicates the rest of the crate is stated in.

use vstd::prelude::*;
use vstd::string::StringExecFns;

verus! {

/// `needle` occurs in `hay` at offset `at`.
pub open spec fn occurs_at<T>(hay: Seq<T>, needle: Seq<T>, at: int) -> bool {
    0 <= at && at + needle.len() <= hay.len() && hay.subrange(at, at + needle.len()) == needle
}

/// `hay` ends with `suffix`.
pub open spec fn ends_with<T>(hay: Seq<T>, suffix: Seq<T>) -> bool {
    occurs_at(hay, suffix, hay.len() - suffix.len())
}

/// `hay` begins with `prefix`.
pub open spec fn starts_with<T>(hay: Seq<T>, prefix: Seq<T>) -> bool {
    occurs_at(hay, prefix, 0)
}

/// The characters of a string, in order.
pub fn chars_of(s: &str) -> (v: Vec<char>)
    ensures
        v@ == s@,
{
    let mut v: Vec<char> = Vec::new();
    for c in it: s.chars()
        invariant
            v@ == it.seq().take(it.index()),
    {
        v.push(c);
    }
    v
}

/// `String::push` appends the character to the string.
pub assume_specification[ String::push ](s: &mut String, c: char)
    ensures
        final(s)@ == old(s)@.push(c),
;

/// The characters as a string.
pub fn string_of(v: &Vec<char>) -> (s: String)
    ensures
        s@ == v@,
{
    let mut s = String::new();
    let mut i: usize = 0;
    while i < v.len()
        invariant
            i <= v@.len(),
            s@ == v@.take(i as int),
        decreases v@.len() - i,
    {
        s.push(v[i]);
        assert(v@.take(i + 1) =~= v@.take(i as int).push(v@[i as int]));
        i += 1;
    }
    assert(v@.take(i as int) =~= v@);
    s
}

/// The text of `a`, then of `b`, then of `c`.
pub fn concat3(a: &str, b: &str, c: &str) -> (s: String)
    ensures
        s@ == a@ + b@ + c@,
{
    let mut s = String::from_str(a);
    s.append(b);
    s.append(c);
    s
}

/// The texts of a list of strings.
pub open spec fn strings_text(strings: Seq<String>) -> Seq<Seq<char>> {
    Seq::new(strings.len(), |i: int| strings[i]@)
}

/// `a` comes before `b` when the two are compared byte by byte: at the first
/// place where they differ `a` holds the lesser byte, or `a` ends there and
/// `b` goes on.
pub open spec fn bytes_before(a: Seq<u8>, b: Seq<u8>) -> bool {
    exists|k: int|
        0 <= k <= a.len() && k <= b.len() && #[trigger] a.take(k) == b.take(k) && if k == a.len() {
            k < b.len()
        } else {
            k < b.len() && a[k] < b[k]
        }
}

/// `a` comes before `b` in the byte-wise order of their UTF-8 encodings.
pub open spec fn before(a: Seq<char>, b: Seq<char>) -> bool {
    bytes_before(vstd::utf8::encode_utf8(a), vstd::utf8::encode_utf8(b))
}

/// The texts stand in strictly rising byte-wise order.
pub open spec fn rising(texts: Seq<Seq<char>>) -> bool {
    forall|i: int, j: int| 0 <= i < j < texts.len() ==> before(#[trigger] texts[i], #[trigger] texts[j])
}

/// `slice::sort` on strings: the same strings, rearranged so that none
/// comes before one that stands earlier. `String` orders by bytes.
#[verifier::external_body]
pub(crate) fn sort_strings(strings: &mut Vec<String>)
    ensures
        strings_text(final(strings)@).to_multiset() == strings_text(old(strings)@).to_multiset(),
        forall|i: int, j: int|
            0 <= i < j < final(strings)@.len() ==> !before(
                #[trigger] final(strings)@[j]@,
                #[trigger] final(strings)@[i]@,
            ),
{
    strings.sort()
}

/// Two byte strings that agree on their first `k` bytes are equal, or one
/// comes before the other.
proof fn lemma_bytes_compare_from(a: Seq<u8>, b: Seq<u8>, k: int)
    requires
        0 <= k <= a.len(),
        k <= b.len(),
        a.take(k) == b.take(k),
    ensures
        a == b || bytes_before(a, b) || bytes_before(b, a),
    decreases a.len() - k,
{
    if k == a.len() {
        if k == b.len() {
            assert(a.take(k) =~= a);
            assert(b.take(k) =~= b);
        } else {
            assert(bytes_before(a, b));
        }
    } else if k == b.len() {
        assert(b.take(k) == a.take(k));
        assert(bytes_before(b, a));
    } else if a[k] < b[k] {
        assert(bytes_before(a, b));
    } else if b[k] < a[k] {
        assert(b.take(k) == a.take(k));
        assert(bytes_before(b, a));
    } else {
        assert(a.take(k + 1) =~= a.take(k).push(a[k]));
        assert(b.take(k + 1) =~= b.take(k).push(b[k]));
        lemma_bytes_compare_from(a, b, k + 1);
    }
}

/// Of two different texts one comes before the other.
pub proof fn lemma_before_total(a: Seq<char>, b: Seq<char>)
    requires
        a != b,
    ensures
        before(a, b) || before(b, a),
{
    let x = vstd::utf8::encode_utf8(a);
    let y = vstd::utf8::encode_utf8(b);
    vstd::utf8::encode_utf8_decode_utf8(a);
    vstd::utf8::encode_utf8_decode_utf8(b);
    assert(x.take(0) =~= y.take(0));
    lemma_bytes_compare_from(x, y, 0);
}

/// No text comes before itself, so a rising list holds nothing twice.
pub proof fn lemma_rising_is_distinct(texts: Seq<Seq<char>>)
    requires
        rising(texts),
    ensures
        texts.no_duplicates(),
{
    assert forall|i: int, j: int| 0 <= i < texts.len() && 0 <= j < texts.len() && i != j implies texts[i]
        != texts[j] by {
        if texts[i] == texts[j] {
            if i < j {
                assert(before(texts[i], texts[j]));
            } else {
                assert(before(texts[j], texts[i]));
            }
        }
    }
}

/// Sorts strings that are all different into strictly rising order.
pub(crate) fn sort_distinct(strings: &mut Vec<String>)
    requires
        strings_text(old(strings)@).no_duplicates(),
    ensures
        rising(strings_text(final(strings)@)),
        strings_text(final(strings)@).to_set() == strings_text(old(strings)@).to_set(),
{
    let ghost given = strings_text(strings@);
    sort_strings(strings);
    proof {
        let sorted = strings_text(strings@);
        given.to_multiset_ensures();
        sorted.to_multiset_ensures();
        given.lemma_multiset_has_no_duplicates();
        sorted.lemma_multiset_has_no_duplicates_conv();
        assert forall|i: int, j: int| 0 <= i < j < sorted.len() implies before(
            #[trigger] sorted[i],
            #[trigger] sorted[j],
        ) by {
            lemma_before_total(sorted[i], sorted[j]);
            assert(sorted[i] == strings@[i]@);
            assert(sorted[j] == strings@[j]@);
        }
        assert forall|text: Seq<char>| sorted.to_set().contains(text) <==> given.to_set().contains(
            text,
        ) by {
            assert(sorted.contains(text) <==> sorted.to_multiset().count(text) > 0);
            assert(given.contains(text) <==> given.to_multiset().count(text) > 0);
        }
        assert(sorted.to_set() =~= given.to_set());
    }
}

/// Where `a` comes before `b`, `b` does not come before `a`.
proof fn lemma_bytes_before_one_way(a: Seq<u8>, b: Seq<u8>)
    requires
        bytes_before(a, b),
    ensures
        !bytes_before(b, a),
{
    if bytes_before(b, a) {
        let k = choose|k: int|
            0 <= k <= a.len() && k <= b.len() && #[trigger] a.take(k) == b.take(k) && if k
                == a.len() {
                k < b.len()
            } else {
                k < b.len() && a[k] < b[k]
            };
        let m = choose|m: int|
            0 <= m <= b.len() && m <= a.len() && #[trigger] b.take(m) == a.take(m) && if m
                == b.len() {
                m < a.len()
            } else {
                m < a.len() && b[m] < a[m]
            };
        if k < m {
            assert(a.take(m)[k] == b.take(m)[k]);
        } else if m < k {
            assert(a.take(k)[m] == b.take(k)[m]);
        }
    }
}

/// A set of texts has only one strictly rising listing: what a scan returns
/// is fixed by the set of candidates alone.
pub proof fn lemma_rising_is_unique(a: Seq<Seq<char>>, b: Seq<Seq<char>>)
    requires
        rising(a),
        rising(b),
        a.to_set() == b.to_set(),
    ensures
        a == b,
    decreases a.len(),
{
    lemma_rising_is_distinct(a);
    lemma_rising_is_distinct(b);
    a.unique_seq_to_set();
    b.unique_seq_to_set();
    if a.len() > 0 {
        let x = a.last();
        let y = b.last();
        assert(a.to_set().contains(x));
        assert(b.contains(x));
        assert(b.to_set().contains(y));
        assert(a.contains(y));
        if x != y {
            let i = choose|i: int| 0 <= i < b.len() && b[i] == x;
            let j = choose|j: int| 0 <= j < a.len() && a[j] == y;
            assert(before(b[i], y));
            assert(before(a[j], x));
            lemma_bytes_before_one_way(
                vstd::utf8::encode_utf8(x),
                vstd::utf8::encode_utf8(y),
            );
        }
        let p = a.drop_last();
        let q = b.drop_last();
        assert forall|t: Seq<char>| p.to_set().contains(t) <==> q.to_set().contains(t) by {
            if p.contains(t) {
                let i = choose|i: int| 0 <= i < p.len() && p[i] == t;
                assert(a[i] == t);
                assert(a.to_set().contains(t));
                assert(b.contains(t));
                let j = choose|j: int| 0 <= j < b.len() && b[j] == t;
                assert(q[j] == t);
            }
            if q.contains(t) {
                let i = choose|i: int| 0 <= i < q.len() && q[i] == t;
                assert(b[i] == t);
                assert(b.to_set().contains(t));
                assert(a.contains(t));
                let j = choose|j: int| 0 <= j < a.len() && a[j] == t;
                assert(p[j] == t);
            }
        }
        assert(p.to_set() =~= q.to_set());
        assert(rising(p)) by {
            assert forall|i: int, j: int| 0 <= i < j < p.len() implies before(
                #[trigger] p[i],
                #[trigger] p[j],
            ) by {
                assert(before(a[i], a[j]));
            }
        }
        assert(rising(q)) by {
            assert forall|i: int, j: int| 0 <= i < j < q.len() implies before(
                #[trigger] q[i],
                #[trigger] q[j],
            ) by {
                assert(before(b[i], b[j]));
            }
        }
        lemma_rising_is_unique(p, q);
        assert(a =~= p.push(x));
        assert(b =~= q.push(y));
    } else {
        assert(a =~= b);
    }
}

} // verus!
