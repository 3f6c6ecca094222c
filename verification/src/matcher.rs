//! Matching enumerated paths against one glob.

use crate::expand::is_tame;
use crate::expand::tame;
use crate::glob::full_glob;
use crate::glob::GlobEntry;
use crate::glob::GlobText;
use crate::text::chars_of;
use crate::text::concat3;
use crate::text::strings_text;
use globset::Glob;
use vstd::prelude::*;

verus! {

/// What an enumerated path turned out to be.
#[derive(Debug, Clone, Copy, PartialEq, Eq, Structural)]
pub enum FileKind {
    File,
    Directory,
    Unknown,
}

/// One path that the host's enumerator yields, with its kind.
#[derive(Debug, Clone)]
pub struct WalkEntry {
    pub path: String,
    pub kind: FileKind,
}

/// A walk entry as text.
pub ghost struct EntryText {
    pub path: Seq<char>,
    pub kind: FileKind,
}

impl View for WalkEntry {
    type V = EntryText;

    open spec fn view(&self) -> EntryText {
        EntryText { path: self.path@, kind: self.kind }
    }
}

/// The views of a listing.
pub open spec fn listing_text(listing: Seq<WalkEntry>) -> Seq<EntryText> {
    Seq::new(listing.len(), |i: int| listing[i]@)
}

/// The text holds no backslash, which is an escape on some platforms and a
/// path separator on others.
pub open spec fn portable(text: Seq<char>) -> bool {
    forall|i: int| 0 <= i < text.len() ==> #[trigger] text[i] != '\\'
}

/// Whether `globset` accepts the glob.
pub uninterp spec fn glob_parses(glob: Seq<char>) -> bool;

/// Whether the matcher that `globset` compiles from the glob matches the path.
pub uninterp spec fn glob_matches(glob: Seq<char>, path: Seq<char>) -> bool;

/// Builds `globset::Glob::new(glob)`, compiles it with `compile_matcher` and
/// asks `is_match` of every path. `None` means that the glob was refused.
/// `globset` reads a backslash differently from platform to platform, so the
/// contract speaks only of globs and paths without one: for those the glob is
/// accepted exactly when `glob_parses` says so, and each flag is
/// `glob_matches` of the glob and the path. `compile_matcher` takes for
/// granted that the regex it builds stays within its size and nesting limits,
/// which a tame glob does.
#[verifier::external_body]
pub(crate) fn match_flags(glob: &str, paths: &Vec<String>) -> (flags: Option<Vec<bool>>)
    requires
        tame(glob@),
    ensures
        portable(glob@) ==> (flags is Some <==> glob_parses(glob@)),
        flags is Some ==> flags->0@.len() == paths@.len(),
        flags is Some ==> forall|i: int|
            0 <= i < paths@.len() && portable(glob@) && portable(#[trigger] paths@[i]@)
                ==> flags->0@[i] == glob_matches(glob@, paths@[i]@),
{
    match Glob::new(glob) {
        Ok(parsed) => {
            let matcher = parsed.compile_matcher();
            Some(paths.iter().map(|path| matcher.is_match(path)).collect())
        },
        Err(_) => None,
    }
}

/// Whether the flag at `i` is set; a missing flag counts as unset.
pub open spec fn flagged(flags: Seq<bool>, i: int) -> bool {
    0 <= i < flags.len() && flags[i]
}

/// The paths of the regular files of a listing whose flag is set, in order.
pub open spec fn picked(listing: Seq<EntryText>, flags: Seq<bool>) -> Seq<Seq<char>>
    decreases listing.len(),
{
    if listing.len() == 0 {
        Seq::empty()
    } else {
        let head = picked(listing.drop_last(), flags);
        if listing.last().kind == FileKind::File && flagged(flags, listing.len() - 1) {
            head.push(listing.last().path)
        } else {
            head
        }
    }
}

/// Picks from a listing the regular files whose flag is set. An entry of
/// another or of unknown kind is passed over.
pub fn pick_files(listing: &Vec<WalkEntry>, flags: &Vec<bool>) -> (files: Vec<String>)
    ensures
        strings_text(files@) == picked(listing_text(listing@), flags@),
{
    let mut files: Vec<String> = Vec::new();
    let mut i: usize = 0;
    let ghost all = listing_text(listing@);
    assert(all.take(0) =~= Seq::<EntryText>::empty());
    assert(strings_text(files@) =~= Seq::<Seq<char>>::empty());
    while i < listing.len()
        invariant
            i <= listing@.len(),
            all == listing_text(listing@),
            strings_text(files@) == picked(all.take(i as int), flags@),
        decreases listing@.len() - i,
    {
        let ghost before = strings_text(files@);
        assert(all.take(i + 1).drop_last() =~= all.take(i as int));
        let set = i < flags.len() && flags[i];
        match listing[i].kind {
            FileKind::File => {
                if set {
                    files.push(listing[i].path.clone());
                    assert(strings_text(files@) =~= before.push(listing@[i as int].path@));
                }
            },
            _ => {},
        }
        i += 1;
    }
    assert(all.take(i as int) =~= all);
    files
}

/// The flags say of a listing what the matcher of `glob` says of it, as far
/// as that can be said: where glob and path hold no backslash the flag is
/// the matcher's verdict.
pub open spec fn flags_agree(glob: Seq<char>, listing: Seq<EntryText>, flags: Seq<bool>) -> bool {
    portable(glob) ==> forall|i: int|
        0 <= i < listing.len() && portable(#[trigger] listing[i].path) ==> flagged(flags, i)
            == glob_matches(glob, listing[i].path)
}

/// The texts of a selection, where there is one.
pub open spec fn selection_text(selection: Option<Vec<String>>) -> Option<Seq<Seq<char>>> {
    match selection {
        Some(files) => Some(strings_text(files@)),
        None => None,
    }
}

/// `outcome` is what matching the entry against the listing gives: nothing
/// where its glob is not tame or the matcher refuses it, else the regular
/// files that the matcher flags. Of a glob with a backslash it is not said
/// whether the matcher takes it.
pub open spec fn matched(
    entry: GlobText,
    listing: Seq<EntryText>,
    outcome: Option<Seq<Seq<char>>>,
) -> bool {
    let glob = full_glob(entry);
    &&& !tame(glob) ==> outcome is None
    &&& tame(glob) && portable(glob) ==> (outcome is Some <==> glob_parses(glob))
    &&& outcome is Some ==> exists|flags: Seq<bool>|
        outcome->0 == picked(listing, flags) && #[trigger] flags_agree(glob, listing, flags)
}

/// Two entries that stand for the same glob give the same outcome on any
/// listing. A hoisted entry stands for the glob of the entry it was made
/// from, so hoisting never changes what is selected.
pub proof fn lemma_same_glob_same_files(
    a: GlobText,
    b: GlobText,
    listing: Seq<EntryText>,
    outcome: Option<Seq<Seq<char>>>,
)
    requires
        full_glob(a) == full_glob(b),
    ensures
        matched(a, listing, outcome) == matched(b, listing, outcome),
{
}

/// Hoisting an entry leaves what it selects from any listing as it is.
pub proof fn lemma_hoisting_keeps_files(
    entry: GlobText,
    listing: Seq<EntryText>,
    outcome: Option<Seq<Seq<char>>>,
)
    ensures
        matched(crate::glob::hoisted(entry), listing, outcome) == matched(entry, listing, outcome),
{
    crate::glob::lemma_hoist_keeps_glob(entry);
    lemma_same_glob_same_files(crate::glob::hoisted(entry), entry, listing, outcome);
}

/// A glob without a backslash that the matcher refuses, and one that is not
/// tame, give no selection: the source is malformed, and nothing is matched.
pub proof fn lemma_malformed_glob_gives_nothing(
    entry: GlobText,
    listing: Seq<EntryText>,
    outcome: Option<Seq<Seq<char>>>,
)
    requires
        matched(entry, listing, outcome),
        !tame(full_glob(entry)) || (portable(full_glob(entry)) && !glob_parses(full_glob(entry))),
    ensures
        outcome is None,
{
}

/// A path is covered by a list of entries where the glob of one of them is
/// accepted and matches it.
pub open spec fn covers(entries: Seq<GlobText>, path: Seq<char>) -> bool {
    exists|i: int|
        0 <= i < entries.len() && glob_parses(full_glob(#[trigger] entries[i])) && glob_matches(
            full_glob(entries[i]),
            path,
        )
}

/// Collapsing a list of entries leaves the paths it covers as they are.
pub proof fn lemma_collapsing_keeps_cover(entries: Seq<GlobText>, path: Seq<char>)
    ensures
        covers(crate::glob::distinct(entries), path) == covers(entries, path),
{
    let collapsed = crate::glob::distinct(entries);
    crate::glob::lemma_distinct(entries);
    if covers(entries, path) {
        let i = choose|i: int|
            0 <= i < entries.len() && glob_parses(full_glob(#[trigger] entries[i])) && glob_matches(
                full_glob(entries[i]),
                path,
            );
        assert(entries.contains(entries[i]));
        assert(collapsed.contains(entries[i]));
        let k = choose|k: int| 0 <= k < collapsed.len() && collapsed[k] == entries[i];
        assert(glob_parses(full_glob(collapsed[k])));
    }
    if covers(collapsed, path) {
        let k = choose|k: int|
            0 <= k < collapsed.len() && glob_parses(full_glob(#[trigger] collapsed[k]))
                && glob_matches(full_glob(collapsed[k]), path);
        assert(collapsed.contains(collapsed[k]));
        assert(entries.contains(collapsed[k]));
        let i = choose|i: int| 0 <= i < entries.len() && entries[i] == collapsed[k];
        assert(glob_parses(full_glob(entries[i])));
    }
}

/// Hoisting every entry of a list leaves the paths it covers as they are.
pub proof fn lemma_hoisting_keeps_cover(entries: Seq<GlobText>, path: Seq<char>)
    ensures
        covers(Seq::new(entries.len(), |i: int| crate::glob::hoisted(entries[i])), path) == covers(
            entries,
            path,
        ),
{
    let lifted = Seq::new(entries.len(), |i: int| crate::glob::hoisted(entries[i]));
    assert forall|i: int| 0 <= i < entries.len() implies full_glob(#[trigger] lifted[i])
        == full_glob(entries[i]) by {
        crate::glob::lemma_hoist_keeps_glob(entries[i]);
    }
    if covers(entries, path) {
        let i = choose|i: int|
            0 <= i < entries.len() && glob_parses(full_glob(#[trigger] entries[i])) && glob_matches(
                full_glob(entries[i]),
                path,
            );
        assert(glob_parses(full_glob(lifted[i])));
    }
    if covers(lifted, path) {
        let i = choose|i: int|
            0 <= i < lifted.len() && glob_parses(full_glob(#[trigger] lifted[i])) && glob_matches(
                full_glob(lifted[i]),
                path,
            );
        assert(glob_parses(full_glob(entries[i])));
    }
}

fn paths_of(listing: &Vec<WalkEntry>) -> (paths: Vec<String>)
    ensures
        paths@.len() == listing@.len(),
        forall|i: int| 0 <= i < listing@.len() ==> (#[trigger] paths@[i])@ == listing@[i].path@,
{
    let mut paths: Vec<String> = Vec::new();
    let mut i: usize = 0;
    while i < listing.len()
        invariant
            i <= listing@.len(),
            paths@.len() == i,
            forall|k: int| 0 <= k < i ==> (#[trigger] paths@[k])@ == listing@[k].path@,
        decreases listing@.len() - i,
    {
        paths.push(listing[i].path.clone());
        i += 1;
    }
    paths
}

/// The regular files of a listing that the entry's glob matches, in the
/// listing's order. The glob is the entry's base, a slash and its pattern.
/// Where the matcher refuses the glob, or the glob is not tame, no match is
/// tried and there is no selection.
pub fn match_files(entry: &GlobEntry, listing: &Vec<WalkEntry>) -> (files: Option<Vec<String>>)
    ensures
        matched(entry@, listing_text(listing@), selection_text(files)),
{
    proof {
        reveal_strlit("/");
        assert("/"@ =~= seq!['/']);
    }
    let glob = concat3(entry.base.as_str(), "/", entry.pattern.as_str());
    assert(glob@ == full_glob(entry@));
    if !is_tame(glob.as_str()) {
        return None;
    }
    let paths = paths_of(listing);
    match match_flags(glob.as_str(), &paths) {
        None => None,
        Some(flags) => {
            let files = pick_files(listing, &flags);
            assert forall|i: int|
                0 <= i < listing@.len() && portable(glob@) && portable(
                    #[trigger] listing_text(listing@)[i].path,
                ) implies flagged(flags@, i) == glob_matches(
                glob@,
                listing_text(listing@)[i].path,
            ) by {
                assert(paths@[i]@ == listing_text(listing@)[i].path);
            }
            assert(flags_agree(full_glob(entry@), listing_text(listing@), flags@));
            Some(files)
        },
    }
}

} // verus!
