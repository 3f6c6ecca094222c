//! Glob sources: a base directory and a pattern, and the rewrites that keep
//! the set of matched paths while making the walk cheaper.

use crate::text::chars_of;
use crate::text::concat3;
use vstd::prelude::*;
use vstd::string::StrSliceExecFns;

verus! {

/// One match rule: `pattern` is evaluated below `base`.
#[derive(Debug, Clone, PartialEq, Eq)]
pub struct GlobEntry {
    pub base: String,
    pub pattern: String,
}

/// A glob entry as text.
pub ghost struct GlobText {
    pub base: Seq<char>,
    pub pattern: Seq<char>,
}

impl View for GlobEntry {
    type V = GlobText;

    open spec fn view(&self) -> GlobText {
        GlobText { base: self.base@, pattern: self.pattern@ }
    }
}

/// The views of a list of entries.
pub open spec fn texts(entries: Seq<GlobEntry>) -> Seq<GlobText> {
    Seq::new(entries.len(), |i: int| entries[i]@)
}

/// The single glob that an entry stands for: its base, a slash, its pattern.
pub open spec fn full_glob(entry: GlobText) -> Seq<char> {
    entry.base + seq!['/'] + entry.pattern
}

/// Characters that give a pattern segment a meaning beyond its text.
pub open spec fn is_wildcard(c: char) -> bool {
    c == '*' || c == '?' || c == '[' || c == ']' || c == '{' || c == '}' || c == '!' || c == '\\'
}

/// None of the first `n` characters of `pattern` is a wildcard.
pub open spec fn literal_until(pattern: Seq<char>, n: int) -> bool {
    forall|i: int| 0 <= i < n && i < pattern.len() ==> !is_wildcard(#[trigger] pattern[i])
}

/// `at` is a slash that parts a non-empty literal directory prefix from a
/// non-empty rest.
pub open spec fn is_split(pattern: Seq<char>, at: int) -> bool {
    0 < at < pattern.len() - 1 && pattern[at] == '/' && literal_until(pattern, at)
}

/// The last split below `below`, if there is one.
pub open spec fn split_below(pattern: Seq<char>, below: int) -> Option<int>
    decreases below,
{
    if below <= 0 {
        None
    } else if is_split(pattern, below - 1) {
        Some(below - 1)
    } else {
        split_below(pattern, below - 1)
    }
}

/// Where the longest literal directory prefix of `pattern` ends.
pub open spec fn split_point(pattern: Seq<char>) -> Option<int> {
    split_below(pattern, pattern.len() as int)
}

/// The entry with the literal directory prefix of its pattern moved into its base.
pub open spec fn hoisted(entry: GlobText) -> GlobText {
    match split_point(entry.pattern) {
        None => entry,
        Some(at) => GlobText {
            base: entry.base + seq!['/'] + entry.pattern.subrange(0, at),
            pattern: entry.pattern.subrange(at + 1, entry.pattern.len() as int),
        },
    }
}

/// `split_below` finds the greatest split below its bound.
pub proof fn lemma_split_below(pattern: Seq<char>, below: int)
    ensures
        match split_below(pattern, below) {
            Some(at) => 0 <= at < below && is_split(pattern, at) && forall|j: int|
                at < j < below ==> !is_split(pattern, j),
            None => forall|j: int| 0 <= j < below ==> !is_split(pattern, j),
        },
    decreases below,
{
    if below > 0 && !is_split(pattern, below - 1) {
        lemma_split_below(pattern, below - 1);
    }
}

/// Where no position from `from` up to `to` is a split, the bound may be
/// raised from `from` to `to`.
proof fn lemma_split_below_extend(pattern: Seq<char>, from: int, to: int)
    requires
        0 <= from <= to,
        forall|j: int| from <= j < to ==> !is_split(pattern, j),
    ensures
        split_below(pattern, to) == split_below(pattern, from),
    decreases to - from,
{
    if from < to {
        lemma_split_below_extend(pattern, from, to - 1);
    }
}

/// Hoisting never changes the glob that an entry stands for, so it never
/// changes which paths the entry matches; the base only ever grows deeper.
pub proof fn lemma_hoist_keeps_glob(entry: GlobText)
    ensures
        full_glob(hoisted(entry)) == full_glob(entry),
        crate::text::starts_with(hoisted(entry).base, entry.base),
        split_point(entry.pattern) is None ==> hoisted(entry) == entry,
{
    match split_point(entry.pattern) {
        None => {
            assert(entry.base.subrange(0, entry.base.len() as int) == entry.base);
        },
        Some(at) => {
            lemma_split_below(entry.pattern, entry.pattern.len() as int);
            let p = entry.pattern;
            assert(p == p.subrange(0, at) + seq!['/'] + p.subrange(at + 1, p.len() as int));
            assert(full_glob(hoisted(entry)) == full_glob(entry));
            assert(hoisted(entry).base.subrange(0, entry.base.len() as int) == entry.base);
        },
    }
}

fn wildcard(c: char) -> (r: bool)
    ensures
        r == is_wildcard(c),
{
    c == '*' || c == '?' || c == '[' || c == ']' || c == '{' || c == '}' || c == '!' || c == '\\'
}

/// Finds where the longest literal directory prefix of `pattern` ends.
fn find_split(pattern: &Vec<char>) -> (r: Option<usize>)
    ensures
        match r {
            Some(at) => split_point(pattern@) == Some(at as int),
            None => split_point(pattern@) is None,
        },
{
    let len = pattern.len();
    let mut found: Option<usize> = None;
    let mut i: usize = 0;
    while i < len && !wildcard(pattern[i])
        invariant
            i <= len,
            len == pattern@.len(),
            literal_until(pattern@, i as int),
            match found {
                Some(at) => split_below(pattern@, i as int) == Some(at as int),
                None => split_below(pattern@, i as int) is None,
            },
        decreases len - i,
    {
        if pattern[i] == '/' && 0 < i && i < len - 1 {
            found = Some(i);
        }
        i += 1;
    }
    proof {
        assert forall|j: int| i <= j < len implies !is_split(pattern@, j) by {
            if i < len && j > i {
                assert(is_wildcard(pattern@[i as int]));
            }
        }
        lemma_split_below_extend(pattern@, i as int, len as int);
    }
    found
}

impl GlobEntry {
    /// A copy of this entry.
    pub fn duplicate(&self) -> (r: GlobEntry)
        ensures
            r@ == self@,
    {
        GlobEntry { base: self.base.clone(), pattern: self.pattern.clone() }
    }

    /// Moves the longest literal directory prefix of the pattern into the
    /// base. A pattern without such a prefix is left as it is.
    pub fn hoist(&self) -> (r: GlobEntry)
        ensures
            r@ == hoisted(self@),
    {
        let pattern = chars_of(self.pattern.as_str());
        match find_split(&pattern) {
            None => self.duplicate(),
            Some(at) => {
                let len = pattern.len();
                proof {
                    lemma_split_below(self.pattern@, len as int);
                    reveal_strlit("/");
                    assert("/"@ == seq!['/']);
                }
                let prefix = self.pattern.as_str().substring_char(0, at);
                let rest = self.pattern.as_str().substring_char(at + 1, len);
                GlobEntry {
                    base: concat3(self.base.as_str(), "/", prefix),
                    pattern: rest.to_owned(),
                }
            },
        }
    }
}

/// Hoists every entry, in order.
pub fn hoist_static_glob_parts(entries: &Vec<GlobEntry>) -> (r: Vec<GlobEntry>)
    ensures
        r@.len() == entries@.len(),
        forall|i: int| 0 <= i < entries@.len() ==> (#[trigger] r@[i])@ == hoisted(entries@[i]@),
{
    let mut r: Vec<GlobEntry> = Vec::new();
    let mut i: usize = 0;
    while i < entries.len()
        invariant
            i <= entries@.len(),
            r@.len() == i,
            forall|k: int| 0 <= k < i ==> (#[trigger] r@[k])@ == hoisted(entries@[k]@),
        decreases entries@.len() - i,
    {
        r.push(entries[i].hoist());
        i += 1;
    }
    r
}

/// The entries in the order of their first occurrence, each once.
pub open spec fn distinct(entries: Seq<GlobText>) -> Seq<GlobText>
    decreases entries.len(),
{
    if entries.len() == 0 {
        Seq::empty()
    } else {
        let head = distinct(entries.drop_last());
        if head.contains(entries.last()) {
            head
        } else {
            head.push(entries.last())
        }
    }
}

/// `distinct` holds nothing twice, and holds exactly what the list held.
pub proof fn lemma_distinct(entries: Seq<GlobText>)
    ensures
        distinct(entries).no_duplicates(),
        forall|e: GlobText| distinct(entries).contains(e) <==> entries.contains(e),
    decreases entries.len(),
{
    if entries.len() > 0 {
        let init = entries.drop_last();
        let last = entries.last();
        lemma_distinct(init);
        let head = distinct(init);
        assert forall|e: GlobText| distinct(entries).contains(e) <==> entries.contains(e) by {
            assert(head.contains(e) <==> init.contains(e));
            if entries.contains(e) && !distinct(entries).contains(e) {
                let i = choose|i: int| 0 <= i < entries.len() && entries[i] == e;
                if i < entries.len() - 1 {
                    assert(init[i] == e);
                    assert(init.contains(e));
                } else {
                    assert(e == last);
                }
                if !head.contains(last) {
                    assert(head.push(last)[head.len() as int] == last);
                    if head.contains(e) {
                        let k = choose|k: int| 0 <= k < head.len() && head[k] == e;
                        assert(head.push(last)[k] == e);
                    }
                }
            }
            if distinct(entries).contains(e) && !entries.contains(e) {
                if head.contains(e) {
                    let i = choose|i: int| 0 <= i < init.len() && init[i] == e;
                    assert(entries[i] == e);
                } else {
                    let k = choose|k: int| 0 <= k < distinct(entries).len() && distinct(entries)[k] == e;
                    assert(e == last);
                    assert(entries[entries.len() - 1] == e);
                }
            }
        }
    }
}

fn holds(entries: &Vec<GlobEntry>, entry: &GlobEntry) -> (found: bool)
    ensures
        found == texts(entries@).contains(entry@),
{
    let mut i: usize = 0;
    while i < entries.len()
        invariant
            i <= entries@.len(),
            forall|k: int| 0 <= k < i ==> texts(entries@)[k] != entry@,
        decreases entries@.len() - i,
    {
        if entries[i].base == entry.base && entries[i].pattern == entry.pattern {
            assert(texts(entries@)[i as int] == entry@);
            return true;
        }
        i += 1;
    }
    false
}

/// Collapses a list of entries: every entry that repeats an earlier one is
/// dropped, and the others keep their order.
pub fn optimize_patterns(entries: &Vec<GlobEntry>) -> (r: Vec<GlobEntry>)
    ensures
        texts(r@) == distinct(texts(entries@)),
{
    let mut r: Vec<GlobEntry> = Vec::new();
    let mut i: usize = 0;
    assert(texts(entries@).take(0) =~= Seq::<GlobText>::empty());
    assert(texts(r@) =~= Seq::<GlobText>::empty());
    while i < entries.len()
        invariant
            i <= entries@.len(),
            texts(r@) == distinct(texts(entries@).take(i as int)),
        decreases entries@.len() - i,
    {
        let ghost before = texts(r@);
        assert(texts(entries@).take(i + 1).drop_last() =~= texts(entries@).take(i as int));
        assert(texts(entries@).take(i + 1).last() == entries@[i as int]@);
        if !holds(&r, &entries[i]) {
            r.push(entries[i].duplicate());
            assert(texts(r@) =~= before.push(entries@[i as int]@));
        }
        i += 1;
    }
    assert(texts(entries@).take(i as int) =~= texts(entries@));
    r
}

} // verus!
