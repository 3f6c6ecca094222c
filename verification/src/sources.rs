//! Sorting sources into those that are detected automatically and those that
//! are matched as globs, and the paths that the host is asked about.

use crate::glob::texts;
use crate::glob::GlobEntry;
use crate::glob::GlobText;
use crate::matcher::flagged;
use crate::text::chars_of;
use crate::text::concat3;
use crate::text::ends_with;
use vstd::prelude::*;
use vstd::string::StrSliceExecFns;

verus! {

/// The wildcard that selects everything below a directory: `**/*`.
pub open spec fn everything() -> Seq<char> {
    seq!['*', '*', '/', '*']
}

/// `base` and `rel` as one path: `rel` alone where it is absolute or `base`
/// is empty, `base` alone where `rel` is empty, else the two with exactly one
/// slash between them.
pub open spec fn joined(base: Seq<char>, rel: Seq<char>) -> Seq<char> {
    if rel.len() == 0 {
        base
    } else if rel[0] == '/' || base.len() == 0 {
        rel
    } else if base.last() == '/' {
        base + rel
    } else {
        base + seq!['/'] + rel
    }
}

/// The text without the slashes at its end.
pub open spec fn without_trailing_slashes(text: Seq<char>) -> Seq<char>
    decreases text.len(),
{
    if text.len() > 0 && text.last() == '/' {
        without_trailing_slashes(text.drop_last())
    } else {
        text
    }
}

/// The directory that a pattern names once its trailing `**/*` is taken off.
pub open spec fn directory_part(pattern: Seq<char>) -> Seq<char> {
    if ends_with(pattern, everything()) {
        without_trailing_slashes(pattern.subrange(0, pattern.len() - 4))
    } else {
        pattern
    }
}

/// The path whose being a directory decides how the entry is resolved: the
/// base joined with the pattern, a trailing `**/*` taken off.
pub open spec fn probe_of(entry: GlobText) -> Seq<char> {
    joined(entry.base, directory_part(entry.pattern))
}

/// The directory below which an automatically detected entry is enumerated:
/// the path that was probed.
pub open spec fn root_of(entry: GlobText) -> Seq<char> {
    probe_of(entry)
}

/// An entry is detected automatically where its pattern is `**/*` and
/// nothing else, or where its probe path is a directory.
pub open spec fn promoted(entry: GlobText, is_dir: bool) -> bool {
    entry.pattern == everything() || is_dir
}

/// An entry whose pattern is more than `**/*`, and whose probe path is no
/// directory, is matched as a glob, however its pattern ends.
pub proof fn lemma_missing_directory_is_matched(entries: Seq<GlobText>, is_dir: Seq<bool>, i: int)
    requires
        0 <= i < entries.len(),
        entries[i].pattern != everything(),
        !flagged(is_dir, i),
    ensures
        explicit_of(entries, is_dir).contains(entries[i]),
    decreases entries.len(),
{
    let head = explicit_of(entries.drop_last(), is_dir);
    let all = explicit_of(entries, is_dir);
    if i < entries.len() - 1 {
        lemma_missing_directory_is_matched(entries.drop_last(), is_dir, i);
        let k = choose|k: int| 0 <= k < head.len() && head[k] == entries[i];
        assert(all[k] == entries[i]);
    } else {
        assert(all[head.len() as int] == entries[i]);
    }
}

/// The entries that are detected automatically, in order. `is_dir` holds, for
/// each entry, whether its probe path is a directory.
pub open spec fn promoted_of(entries: Seq<GlobText>, is_dir: Seq<bool>) -> Seq<GlobText>
    decreases entries.len(),
{
    if entries.len() == 0 {
        Seq::empty()
    } else {
        let head = promoted_of(entries.drop_last(), is_dir);
        if promoted(entries.last(), flagged(is_dir, entries.len() - 1)) {
            head.push(entries.last())
        } else {
            head
        }
    }
}

/// The entries that are matched as globs, in order.
pub open spec fn explicit_of(entries: Seq<GlobText>, is_dir: Seq<bool>) -> Seq<GlobText>
    decreases entries.len(),
{
    if entries.len() == 0 {
        Seq::empty()
    } else {
        let head = explicit_of(entries.drop_last(), is_dir);
        if promoted(entries.last(), flagged(is_dir, entries.len() - 1)) {
            head
        } else {
            head.push(entries.last())
        }
    }
}

/// Joins a base and a relative path.
pub fn join_path(base: &str, rel: &str) -> (path: String)
    ensures
        path@ == joined(base@, rel@),
{
    let base_chars = chars_of(base);
    let rel_chars = chars_of(rel);
    proof {
        reveal_strlit("/");
        reveal_strlit("");
        assert("/"@ =~= seq!['/']);
        assert(""@ =~= Seq::<char>::empty());
    }
    if rel_chars.len() == 0 {
        base.to_owned()
    } else if rel_chars[0] == '/' || base_chars.len() == 0 {
        rel.to_owned()
    } else if base_chars[base_chars.len() - 1] == '/' {
        let path = concat3(base, rel, "");
        assert(path@ =~= base@ + rel@);
        path
    } else {
        concat3(base, "/", rel)
    }
}

/// Whether a pattern ends in `**/*`.
pub fn selects_everything(pattern: &Vec<char>) -> (r: bool)
    ensures
        r == ends_with(pattern@, everything()),
{
    let n = pattern.len();
    if n < 4 {
        return false;
    }
    let r = pattern[n - 4] == '*' && pattern[n - 3] == '*' && pattern[n - 2] == '/' && pattern[n
        - 1] == '*';
    proof {
        let tail = pattern@.subrange(n - 4, n as int);
        assert(tail.len() == 4);
        assert(tail[0] == pattern@[n - 4]);
        assert(tail[1] == pattern@[n - 3]);
        assert(tail[2] == pattern@[n - 2]);
        assert(tail[3] == pattern@[n - 1]);
        if r {
            assert(tail =~= everything());
        }
    }
    r
}

impl GlobEntry {
    /// The path whose being a directory decides how this entry is resolved.
    pub fn probe_path(&self) -> (path: String)
        ensures
            path@ == probe_of(self@),
    {
        self.detection_root()
    }

    /// Whether this entry is detected automatically, given whether its probe
    /// path is a directory.
    pub fn is_promoted(&self, is_dir: bool) -> (r: bool)
        ensures
            r == promoted(self@, is_dir),
    {
        let pattern = chars_of(self.pattern.as_str());
        let whole = pattern.len() == 4 && selects_everything(&pattern);
        proof {
            if whole {
                assert(pattern@.subrange(0, 4) =~= pattern@);
            }
            if self@.pattern == everything() {
                assert(everything().subrange(0, 4) =~= everything());
            }
        }
        whole || is_dir
    }

    /// The directory below which this entry is enumerated when it is detected
    /// automatically.
    pub fn detection_root(&self) -> (path: String)
        ensures
            path@ == root_of(self@),
    {
        let pattern = chars_of(self.pattern.as_str());
        if !selects_everything(&pattern) {
            return join_path(self.base.as_str(), self.pattern.as_str());
        }
        let ghost stem = pattern@.subrange(0, pattern@.len() - 4);
        let mut end: usize = pattern.len() - 4;
        assert(stem.take(end as int) =~= stem);
        while end > 0 && pattern[end - 1] == '/'
            invariant
                end <= pattern@.len() - 4,
                stem == pattern@.subrange(0, pattern@.len() - 4),
                without_trailing_slashes(stem.take(end as int)) == without_trailing_slashes(stem),
            decreases end,
        {
            assert(stem.take(end as int).drop_last() =~= stem.take(end - 1));
            end -= 1;
        }
        let directory = self.pattern.as_str().substring_char(0, end);
        assert(directory@ =~= stem.take(end as int));
        join_path(self.base.as_str(), directory)
    }
}

/// Parts the entries into those that are detected automatically and those
/// that are matched as globs. `is_dir` holds one answer per entry, in order;
/// a missing answer counts as "no directory".
pub fn partition_sources(entries: &Vec<GlobEntry>, is_dir: &Vec<bool>) -> (parts: (
    Vec<GlobEntry>,
    Vec<GlobEntry>,
))
    ensures
        texts(parts.0@) == promoted_of(texts(entries@), is_dir@),
        texts(parts.1@) == explicit_of(texts(entries@), is_dir@),
{
    let mut auto: Vec<GlobEntry> = Vec::new();
    let mut explicit: Vec<GlobEntry> = Vec::new();
    let ghost all = texts(entries@);
    let mut i: usize = 0;
    assert(all.take(0) =~= Seq::<GlobText>::empty());
    assert(texts(auto@) =~= Seq::<GlobText>::empty());
    assert(texts(explicit@) =~= Seq::<GlobText>::empty());
    while i < entries.len()
        invariant
            i <= entries@.len(),
            all == texts(entries@),
            texts(auto@) == promoted_of(all.take(i as int), is_dir@),
            texts(explicit@) == explicit_of(all.take(i as int), is_dir@),
        decreases entries@.len() - i,
    {
        let ghost auto_before = texts(auto@);
        let ghost explicit_before = texts(explicit@);
        assert(all.take(i + 1).drop_last() =~= all.take(i as int));
        let answer = i < is_dir.len() && is_dir[i];
        if entries[i].is_promoted(answer) {
            auto.push(entries[i].duplicate());
            assert(texts(auto@) =~= auto_before.push(entries@[i as int]@));
        } else {
            explicit.push(entries[i].duplicate());
            assert(texts(explicit@) =~= explicit_before.push(entries@[i as int]@));
        }
        i += 1;
    }
    assert(all.take(i as int) =~= all);
    (auto, explicit)
}

} // verus!
