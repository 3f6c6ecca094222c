//! Automatic source detection: from the paths that the host enumerates
//! below a directory to the files that are scanned and the globs that
//! describe them.

use crate::glob::distinct;
use crate::glob::optimize_patterns;
use crate::glob::texts;
use crate::glob::GlobEntry;
use crate::glob::GlobText;
use crate::matcher::listing_text;
use crate::matcher::EntryText;
use crate::matcher::FileKind;
use crate::matcher::WalkEntry;
use crate::text::chars_of;
use crate::text::concat3;
use crate::text::strings_text;
use vstd::prelude::*;
use vstd::string::StrSliceExecFns;

verus! {

/// `at` is where the file name of `path` begins: just behind its last slash.
pub open spec fn is_name_start(path: Seq<char>, at: int) -> bool {
    &&& 0 <= at <= path.len()
    &&& at == 0 || path[at - 1] == '/'
    &&& forall|j: int| at <= j < path.len() ==> #[trigger] path[j] != '/'
}

/// `at` is the dot before the extension of `path`: the last dot of the file
/// name, with something behind it and something of the name before it.
pub open spec fn is_extension_dot(path: Seq<char>, at: int) -> bool {
    &&& 0 < at < path.len() - 1
    &&& path[at] == '.'
    &&& path[at - 1] != '/'
    &&& forall|j: int| at < j < path.len() ==> #[trigger] path[j] != '.' && path[j] != '/'
}

/// Where the extension of `path` begins, dot included, if it has one.
pub open spec fn extension_dot(path: Seq<char>) -> Option<int> {
    if exists|at: int| is_extension_dot(path, at) {
        Some(choose|at: int| is_extension_dot(path, at))
    } else {
        None
    }
}

/// Where the file name of `path` begins.
pub open spec fn name_start(path: Seq<char>) -> int {
    choose|at: int| is_name_start(path, at)
}

/// The extension of `path`, without its dot.
pub open spec fn extension_of(path: Seq<char>) -> Option<Seq<char>> {
    match extension_dot(path) {
        Some(at) => Some(path.subrange(at + 1, path.len() as int)),
        None => None,
    }
}

/// A path has at most one extension dot.
pub proof fn lemma_extension_dot_unique(path: Seq<char>, a: int, b: int)
    requires
        is_extension_dot(path, a),
        is_extension_dot(path, b),
    ensures
        a == b,
{
    if a < b {
        assert(path[b] != '.');
    }
    if b < a {
        assert(path[a] != '.');
    }
}

/// A path has exactly one place where its file name begins.
pub proof fn lemma_name_start_unique(path: Seq<char>, a: int, b: int)
    requires
        is_name_start(path, a),
        is_name_start(path, b),
    ensures
        a == b,
{
    if a < b {
        assert(path[b - 1] != '/');
    }
    if b < a {
        assert(path[a - 1] != '/');
    }
}

/// The pattern that describes a detected file: every file with its
/// extension, or, where it has none, every file with its name.
pub open spec fn pattern_of(path: Seq<char>) -> Seq<char> {
    match extension_dot(path) {
        Some(at) => seq!['*', '*', '/', '*'] + path.subrange(at, path.len() as int),
        None => seq!['*', '*', '/'] + path.subrange(name_start(path), path.len() as int),
    }
}

/// An entry is kept where it is a regular file whose extension, if it has
/// one, is not among the ignored ones.
pub open spec fn kept(entry: EntryText, ignored: Seq<Seq<char>>) -> bool {
    entry.kind == FileKind::File && match extension_of(entry.path) {
        Some(extension) => !ignored.contains(extension),
        None => true,
    }
}

/// The paths of the kept entries, in order.
pub open spec fn kept_files(listing: Seq<EntryText>, ignored: Seq<Seq<char>>) -> Seq<Seq<char>>
    decreases listing.len(),
{
    if listing.len() == 0 {
        Seq::empty()
    } else {
        let head = kept_files(listing.drop_last(), ignored);
        if kept(listing.last(), ignored) {
            head.push(listing.last().path)
        } else {
            head
        }
    }
}

/// One describing entry per file, under the given base.
pub open spec fn described(base: Seq<char>, files: Seq<Seq<char>>) -> Seq<GlobText> {
    Seq::new(files.len(), |i: int| GlobText { base, pattern: pattern_of(files[i]) })
}

/// The globs of a detection describe every kept file and nothing else:
/// each file's pattern is among them, each of them is some file's pattern,
/// and none is listed twice.
pub proof fn lemma_detection_describes_files(base: Seq<char>, files: Seq<Seq<char>>)
    ensures
        distinct(described(base, files)).no_duplicates(),
        forall|i: int|
            0 <= i < files.len() ==> distinct(described(base, files)).contains(
                GlobText { base, pattern: pattern_of(#[trigger] files[i]) },
            ),
        forall|k: int|
            0 <= k < distinct(described(base, files)).len() ==> exists|i: int|
                0 <= i < files.len() && (#[trigger] distinct(described(base, files))[k])
                    == (GlobText { base, pattern: pattern_of(#[trigger] files[i]) }),
{
    let all = described(base, files);
    let globs = distinct(all);
    crate::glob::lemma_distinct(all);
    assert forall|i: int| 0 <= i < files.len() implies globs.contains(
        GlobText { base, pattern: pattern_of(#[trigger] files[i]) },
    ) by {
        assert(all[i] == GlobText { base, pattern: pattern_of(files[i]) });
        assert(all.contains(all[i]));
    }
    assert forall|k: int| 0 <= k < globs.len() implies exists|i: int|
        0 <= i < files.len() && (#[trigger] globs[k]) == (GlobText {
            base,
            pattern: pattern_of(#[trigger] files[i]),
        }) by {
        assert(globs.contains(globs[k]));
        assert(all.contains(globs[k]));
        let i = choose|i: int| 0 <= i < all.len() && all[i] == globs[k];
        assert(all[i] == GlobText { base, pattern: pattern_of(files[i]) });
    }
}

/// Finds the dot before the extension of a path.
pub fn find_extension_dot(path: &Vec<char>) -> (r: Option<usize>)
    ensures
        match r {
            Some(at) => extension_dot(path@) == Some(at as int) && is_extension_dot(
                path@,
                at as int,
            ),
            None => extension_dot(path@) is None,
        },
{
    let len = path.len();
    let mut j: usize = len;
    while j > 0 && path[j - 1] != '.' && path[j - 1] != '/'
        invariant
            j <= len,
            len == path@.len(),
            forall|k: int| j <= k < len ==> #[trigger] path@[k] != '.' && path@[k] != '/',
        decreases j,
    {
        j -= 1;
    }
    if j > 1 && j < len && path[j - 1] == '.' && path[j - 2] != '/' {
        let at = j - 1;
        proof {
            assert(is_extension_dot(path@, at as int));
            let chosen = choose|c: int| is_extension_dot(path@, c);
            lemma_extension_dot_unique(path@, at as int, chosen);
        }
        Some(at)
    } else {
        proof {
            assert forall|c: int| !is_extension_dot(path@, c) by {
                if is_extension_dot(path@, c) {
                    if j == 0 {
                        assert(path@[c] != '.');
                    } else if c < j - 1 {
                        assert(path@[j - 1] != '.' && path@[j - 1] != '/');
                    } else if c > j - 1 {
                        assert(path@[c] != '.');
                    }
                }
            }
        }
        None
    }
}

/// Finds where the file name of a path begins.
pub fn find_name_start(path: &Vec<char>) -> (at: usize)
    ensures
        at == name_start(path@),
        is_name_start(path@, at as int),
{
    let len = path.len();
    let mut j: usize = len;
    while j > 0 && path[j - 1] != '/'
        invariant
            j <= len,
            len == path@.len(),
            forall|k: int| j <= k < len ==> #[trigger] path@[k] != '/',
        decreases j,
    {
        j -= 1;
    }
    proof {
        assert(is_name_start(path@, j as int));
        lemma_name_start_unique(path@, j as int, name_start(path@));
    }
    j
}

/// The pattern that describes a detected file.
pub fn describing_pattern(path: &str) -> (pattern: String)
    ensures
        pattern@ == pattern_of(path@),
{
    let chars = chars_of(path);
    proof {
        reveal_strlit("**/*");
        reveal_strlit("**/");
        reveal_strlit("");
        assert("**/*"@ =~= seq!['*', '*', '/', '*']);
        assert("**/"@ =~= seq!['*', '*', '/']);
        assert(""@ =~= Seq::<char>::empty());
    }
    match find_extension_dot(&chars) {
        Some(at) => {
            let tail = path.substring_char(at, chars.len());
            let pattern = concat3("**/*", tail, "");
            assert(pattern@ =~= seq!['*', '*', '/', '*'] + path@.subrange(
                at as int,
                path@.len() as int,
            ));
            pattern
        },
        None => {
            let start = find_name_start(&chars);
            let tail = path.substring_char(start, chars.len());
            let pattern = concat3("**/", tail, "");
            assert(pattern@ =~= seq!['*', '*', '/'] + path@.subrange(
                start as int,
                path@.len() as int,
            ));
            pattern
        },
    }
}

fn lists(ignored: &Vec<String>, extension: &String) -> (found: bool)
    ensures
        found == strings_text(ignored@).contains(extension@),
{
    let mut i: usize = 0;
    while i < ignored.len()
        invariant
            i <= ignored@.len(),
            forall|k: int| 0 <= k < i ==> strings_text(ignored@)[k] != extension@,
        decreases ignored@.len() - i,
    {
        if ignored[i] == *extension {
            assert(strings_text(ignored@)[i as int] == extension@);
            return true;
        }
        i += 1;
    }
    false
}

/// The files among the enumerated entries that are kept, in the enumerator's
/// order, and the globs that describe them under `base`: one per extension,
/// and one per name without extension, in the order in which they are first
/// met.
pub fn detect_sources(base: &String, ignored: &Vec<String>, listing: &Vec<WalkEntry>) -> (found: (
    Vec<String>,
    Vec<GlobEntry>,
))
    ensures
        strings_text(found.0@) == kept_files(listing_text(listing@), strings_text(ignored@)),
        texts(found.1@) == distinct(described(base@, strings_text(found.0@))),
{
    let mut files: Vec<String> = Vec::new();
    let mut globs: Vec<GlobEntry> = Vec::new();
    let ghost all = listing_text(listing@);
    let mut i: usize = 0;
    assert(all.take(0) =~= Seq::<EntryText>::empty());
    assert(strings_text(files@) =~= Seq::<Seq<char>>::empty());
    assert(texts(globs@) =~= described(base@, strings_text(files@)));
    while i < listing.len()
        invariant
            i <= listing@.len(),
            all == listing_text(listing@),
            strings_text(files@) == kept_files(all.take(i as int), strings_text(ignored@)),
            texts(globs@) == described(base@, strings_text(files@)),
        decreases listing@.len() - i,
    {
        let ghost files_before = strings_text(files@);
        let ghost globs_before = texts(globs@);
        assert(all.take(i + 1).drop_last() =~= all.take(i as int));
        if keeps(ignored, &listing[i]) {
            let pattern = describing_pattern(listing[i].path.as_str());
            globs.push(GlobEntry { base: base.clone(), pattern });
            files.push(listing[i].path.clone());
            assert(strings_text(files@) =~= files_before.push(listing@[i as int].path@));
            assert(texts(globs@) =~= globs_before.push(
                GlobText { base: base@, pattern: pattern_of(listing@[i as int].path@) },
            ));
            assert(texts(globs@) =~= described(base@, strings_text(files@)));
        }
        i += 1;
    }
    assert(all.take(i as int) =~= all);
    let globs = optimize_patterns(&globs);
    (files, globs)
}

/// Whether the entry is kept as a source file.
pub fn keeps(ignored: &Vec<String>, entry: &WalkEntry) -> (r: bool)
    ensures
        r == kept(entry@, strings_text(ignored@)),
{
    match entry.kind {
        FileKind::File => {
            let chars = chars_of(entry.path.as_str());
            let len = chars.len();
            match find_extension_dot(&chars) {
                Some(at) => {
                    let extension = entry.path.as_str().substring_char(at + 1, len);
                    !lists(ignored, &extension.to_owned())
                },
                None => true,
            }
        },
        _ => false,
    }
}

/// Detects the sources below one directory.
#[derive(Debug, Clone)]
pub struct DetectSources {
    pub base: String,
    pub ignored_extensions: Vec<String>,
}

impl DetectSources {
    /// A detector for `base` that ignores the given extensions.
    pub fn new(base: String, ignored_extensions: Vec<String>) -> (r: DetectSources)
        ensures
            r.base@ == base@,
            r.ignored_extensions@ == ignored_extensions@,
    {
        DetectSources { base, ignored_extensions }
    }

    /// The kept files of the listing and the globs that describe them.
    pub fn detect(&self, listing: &Vec<WalkEntry>) -> (found: (Vec<String>, Vec<GlobEntry>))
        ensures
            strings_text(found.0@) == kept_files(
                listing_text(listing@),
                strings_text(self.ignored_extensions@),
            ),
            texts(found.1@) == distinct(described(self.base@, strings_text(found.0@))),
    {
        detect_sources(&self.base, &self.ignored_extensions, listing)
    }
}

} // verus!
