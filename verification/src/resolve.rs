//! Source resolution: from the sources a scanner was made with, and what the
//! host found on disk, to the files that are scanned and the globs that
//! describe them.

use crate::detect::described;
use crate::detect::detect_sources;
use crate::detect::kept_files;
use crate::expand::expand_sources;
use crate::expand::expanded_all;
use crate::glob::distinct;
use crate::glob::hoist_static_glob_parts;
use crate::glob::hoisted;
use crate::glob::optimize_patterns;
use crate::glob::texts;
use crate::glob::GlobEntry;
use crate::glob::GlobText;
use crate::matcher::listing_text;
use crate::matcher::match_files;
use crate::matcher::matched;
use crate::matcher::selection_text;
use crate::expand::tame;
use crate::matcher::EntryText;
use crate::matcher::WalkEntry;
use crate::sources::explicit_of;
use crate::sources::partition_sources;
use crate::sources::probe_of;
use crate::sources::promoted_of;
use crate::sources::root_of;
use crate::text::strings_text;
use vstd::prelude::*;

verus! {

/// The views of the listings that the host hands in.
pub open spec fn listings_text(listings: Seq<Vec<WalkEntry>>) -> Seq<Seq<EntryText>> {
    Seq::new(listings.len(), |k: int| listing_text(listings[k]@))
}

/// The listing for the root at `k`; an empty one where the host gave none.
pub open spec fn listing_at(listings: Seq<Seq<EntryText>>, k: int) -> Seq<EntryText> {
    if 0 <= k < listings.len() {
        listings[k]
    } else {
        Seq::empty()
    }
}

/// Every entry hoisted.
pub open spec fn hoisted_all(entries: Seq<GlobText>) -> Seq<GlobText> {
    Seq::new(entries.len(), |i: int| hoisted(entries[i]))
}

/// The paths to probe: one per entry, in order.
pub open spec fn probes_of(entries: Seq<GlobText>) -> Seq<Seq<char>> {
    Seq::new(entries.len(), |i: int| probe_of(entries[i]))
}

/// The directories below which the host enumerates: first the root of every
/// automatically detected entry, then the base of every hoisted glob.
pub open spec fn roots_of(promoted: Seq<GlobText>, explicit: Seq<GlobText>) -> Seq<Seq<char>> {
    Seq::new(promoted.len(), |i: int| root_of(promoted[i])) + Seq::new(
        explicit.len(),
        |i: int| explicit[i].base,
    )
}

/// The files that automatic detection keeps, root after root.
pub open spec fn detected_files(
    promoted: Seq<GlobText>,
    listings: Seq<Seq<EntryText>>,
    ignored: Seq<Seq<char>>,
) -> Seq<Seq<char>>
    decreases promoted.len(),
{
    if promoted.len() == 0 {
        Seq::empty()
    } else {
        detected_files(promoted.drop_last(), listings, ignored) + kept_files(
            listing_at(listings, promoted.len() - 1),
            ignored,
        )
    }
}

/// The globs that describe what automatic detection keeps, root after root.
pub open spec fn detected_globs(
    promoted: Seq<GlobText>,
    listings: Seq<Seq<EntryText>>,
    ignored: Seq<Seq<char>>,
) -> Seq<GlobText>
    decreases promoted.len(),
{
    if promoted.len() == 0 {
        Seq::empty()
    } else {
        detected_globs(promoted.drop_last(), listings, ignored) + distinct(
            described(
                root_of(promoted.last()),
                kept_files(listing_at(listings, promoted.len() - 1), ignored),
            ),
        )
    }
}

/// The files of the outcomes that are selections, one selection after the
/// other.
pub open spec fn selected_files(outcomes: Seq<Option<Seq<Seq<char>>>>) -> Seq<Seq<char>>
    decreases outcomes.len(),
{
    if outcomes.len() == 0 {
        Seq::empty()
    } else {
        let head = selected_files(outcomes.drop_last());
        match outcomes.last() {
            Some(files) => head + files,
            None => head,
        }
    }
}

/// The globs whose outcome is a selection, in order: those that the matcher
/// accepted. `outcomes` holds one outcome per glob.
pub open spec fn accepted(explicit: Seq<GlobText>, outcomes: Seq<Option<Seq<Seq<char>>>>) -> Seq<
    GlobText,
>
    decreases outcomes.len(),
{
    if outcomes.len() == 0 {
        Seq::empty()
    } else {
        let head = accepted(explicit, outcomes.drop_last());
        if outcomes.last() is Some && outcomes.len() <= explicit.len() {
            head.push(explicit[outcomes.len() - 1])
        } else {
            head
        }
    }
}

/// Each outcome is what matching the glob at its place against its listing
/// gives; the listings of the globs begin at `offset`.
pub open spec fn all_matched(
    explicit: Seq<GlobText>,
    listings: Seq<Seq<EntryText>>,
    offset: int,
    outcomes: Seq<Option<Seq<Seq<char>>>>,
) -> bool {
    outcomes.len() == explicit.len() && forall|j: int|
        0 <= j < explicit.len() ==> matched(
            explicit[j],
            listing_at(listings, offset + j),
            #[trigger] outcomes[j],
        )
}

/// `files` is what the globs select from their listings, glob after glob,
/// and `kept` are the globs that the matcher accepted.
pub open spec fn selected(
    explicit: Seq<GlobText>,
    listings: Seq<Seq<EntryText>>,
    offset: int,
    files: Seq<Seq<char>>,
    kept: Seq<GlobText>,
) -> bool {
    exists|outcomes: Seq<Option<Seq<Seq<char>>>>| #[trigger]
        all_matched(explicit, listings, offset, outcomes) && files == selected_files(outcomes)
            && kept == accepted(explicit, outcomes)
}

/// `files` and `globs` are the resolution of `sources`, given for each
/// expanded source whether its probe path is a directory, and for each root
/// what the host enumerated below it. A glob that is malformed adds no file
/// and is not among the globs.
pub open spec fn resolved(
    sources: Seq<GlobText>,
    ignored: Seq<Seq<char>>,
    is_dir: Seq<bool>,
    listings: Seq<Seq<EntryText>>,
    files: Seq<Seq<char>>,
    globs: Seq<GlobText>,
) -> bool {
    let expanded = expanded_all(sources);
    let promoted = promoted_of(expanded, is_dir);
    let explicit = hoisted_all(explicit_of(expanded, is_dir));
    exists|found: Seq<Seq<char>>, kept: Seq<GlobText>| #[trigger]
        selected(explicit, listings, promoted.len() as int, found, kept) && files
            == detected_files(promoted, listings, ignored) + found && globs == distinct(
            detected_globs(promoted, listings, ignored) + kept,
        )
}

/// Every accepted glob is one of the globs, and its outcome is a selection;
/// a glob whose outcome is no selection is accepted only where the list
/// holds it a second time with one.
pub proof fn lemma_accepted_were_selected(
    explicit: Seq<GlobText>,
    outcomes: Seq<Option<Seq<Seq<char>>>>,
    k: int,
)
    requires
        0 <= k < accepted(explicit, outcomes).len(),
    ensures
        exists|j: int|
            0 <= j < explicit.len() && j < outcomes.len() && (#[trigger] outcomes[j]) is Some
                && explicit[j] == accepted(explicit, outcomes)[k],
    decreases outcomes.len(),
{
    let init = outcomes.drop_last();
    let head = accepted(explicit, init);
    if k < head.len() {
        lemma_accepted_were_selected(explicit, init, k);
        let j = choose|j: int|
            0 <= j < explicit.len() && j < init.len() && (#[trigger] init[j]) is Some && explicit[j]
                == head[k];
        assert(outcomes[j] == init[j]);
    } else {
        assert(outcomes[outcomes.len() - 1] is Some);
    }
}

/// A malformed glob is dropped: where the one glob of a list is not tame, or
/// holds no backslash and is refused by the matcher, no file is selected and
/// no glob is kept.
pub proof fn lemma_malformed_source_is_dropped(
    entry: GlobText,
    listings: Seq<Seq<EntryText>>,
    offset: int,
    files: Seq<Seq<char>>,
    kept: Seq<GlobText>,
)
    requires
        selected(seq![entry], listings, offset, files, kept),
        !tame(crate::glob::full_glob(entry)) || (crate::matcher::portable(
            crate::glob::full_glob(entry),
        ) && !crate::matcher::glob_parses(crate::glob::full_glob(entry))),
    ensures
        files.len() == 0,
        kept.len() == 0,
{
    let outcomes = choose|outcomes: Seq<Option<Seq<Seq<char>>>>| #[trigger]
        all_matched(seq![entry], listings, offset, outcomes) && files == selected_files(outcomes)
            && kept == accepted(seq![entry], outcomes);
    assert(matched(seq![entry][0], listing_at(listings, offset + 0), outcomes[0]));
    assert(outcomes[0] is None);
    let init = outcomes.drop_last();
    assert(init.len() == 0);
    assert(outcomes.last() == outcomes[0]);
    assert(selected_files(init).len() == 0);
    assert(accepted(seq![entry], init).len() == 0);
    assert(selected_files(outcomes) == selected_files(init));
    assert(accepted(seq![entry], outcomes) == accepted(seq![entry], init));
}

/// A glob without a selection leaves no trace: the files and the accepted
/// globs are those of the list without it.
pub proof fn lemma_dropped_leaves_no_trace(
    explicit: Seq<GlobText>,
    outcomes: Seq<Option<Seq<Seq<char>>>>,
    j: int,
)
    requires
        outcomes.len() == explicit.len(),
        0 <= j < outcomes.len(),
        outcomes[j] is None,
    ensures
        selected_files(outcomes.remove(j)) == selected_files(outcomes),
        accepted(explicit.remove(j), outcomes.remove(j)) == accepted(explicit, outcomes),
    decreases outcomes.len(),
{
    let n = outcomes.len();
    if j == n - 1 {
        assert(outcomes.remove(j) =~= outcomes.drop_last());
        lemma_accepted_reads_its_prefix(explicit, explicit.remove(j), outcomes.drop_last());
    } else {
        let init = outcomes.drop_last();
        let shorter = outcomes.remove(j);
        assert(shorter.drop_last() =~= init.remove(j));
        assert(shorter.last() == outcomes.last());
        lemma_dropped_leaves_no_trace(explicit.drop_last(), init, j);
        lemma_accepted_reads_its_prefix(explicit, explicit.drop_last(), init);
        lemma_accepted_reads_its_prefix(
            explicit.remove(j),
            explicit.drop_last().remove(j),
            init.remove(j),
        );
        assert(explicit.remove(j)[shorter.len() - 1] == explicit[n - 1]);
    }
}

/// Which globs are accepted depends only on the globs that have an outcome.
proof fn lemma_accepted_reads_its_prefix(
    a: Seq<GlobText>,
    b: Seq<GlobText>,
    outcomes: Seq<Option<Seq<Seq<char>>>>,
)
    requires
        outcomes.len() <= a.len(),
        outcomes.len() <= b.len(),
        forall|i: int| 0 <= i < outcomes.len() ==> a[i] == b[i],
    ensures
        accepted(a, outcomes) == accepted(b, outcomes),
    decreases outcomes.len(),
{
    if outcomes.len() > 0 {
        lemma_accepted_reads_its_prefix(a, b, outcomes.drop_last());
    }
}

/// Every resolved glob describes detected files, or is a hoisted source whose
/// glob is tame and, where it holds no backslash, accepted by the matcher. A
/// source with a malformed glob is not among the resolved globs on its own
/// account.
pub proof fn lemma_resolved_globs_are_well_formed(
    sources: Seq<GlobText>,
    ignored: Seq<Seq<char>>,
    is_dir: Seq<bool>,
    listings: Seq<Seq<EntryText>>,
    files: Seq<Seq<char>>,
    globs: Seq<GlobText>,
    glob: GlobText,
)
    requires
        resolved(sources, ignored, is_dir, listings, files, globs),
        globs.contains(glob),
    ensures
        detected_globs(
            promoted_of(expanded_all(sources), is_dir),
            listings,
            ignored,
        ).contains(glob) || (hoisted_all(explicit_of(expanded_all(sources), is_dir)).contains(glob)
            && tame(crate::glob::full_glob(glob)) && (crate::matcher::portable(
            crate::glob::full_glob(glob),
        ) ==> crate::matcher::glob_parses(crate::glob::full_glob(glob)))),
{
    let expanded = expanded_all(sources);
    let promoted = promoted_of(expanded, is_dir);
    let explicit = hoisted_all(explicit_of(expanded, is_dir));
    let described = detected_globs(promoted, listings, ignored);
    let (found, kept) = choose|found: Seq<Seq<char>>, kept: Seq<GlobText>| #[trigger]
        selected(explicit, listings, promoted.len() as int, found, kept) && files
            == detected_files(promoted, listings, ignored) + found && globs == distinct(
            described + kept,
        );
    let outcomes = choose|outcomes: Seq<Option<Seq<Seq<char>>>>| #[trigger]
        all_matched(explicit, listings, promoted.len() as int, outcomes) && found
            == selected_files(outcomes) && kept == accepted(explicit, outcomes);
    crate::glob::lemma_distinct(described + kept);
    let both = described + kept;
    assert(both.contains(glob));
    let i = choose|i: int| 0 <= i < both.len() && both[i] == glob;
    if i < described.len() {
        assert(described[i] == glob);
    } else {
        let k = i - described.len();
        assert(kept[k] == glob);
        lemma_accepted_were_selected(explicit, outcomes, k);
        let j = choose|j: int|
            0 <= j < explicit.len() && j < outcomes.len() && (#[trigger] outcomes[j]) is Some
                && explicit[j] == kept[k];
        assert(matched(explicit[j], listing_at(listings, promoted.len() + j), outcomes[j]));
    }
}

/// The paths whose being a directory the host is asked about: one per
/// expanded source, in order.
pub fn plan_probes(sources: &Vec<GlobEntry>) -> (paths: Vec<String>)
    ensures
        strings_text(paths@) == probes_of(expanded_all(texts(sources@))),
{
    let expanded = expand_sources(sources);
    let mut paths: Vec<String> = Vec::new();
    let mut i: usize = 0;
    while i < expanded.len()
        invariant
            i <= expanded@.len(),
            paths@.len() == i,
            forall|k: int| 0 <= k < i ==> (#[trigger] paths@[k])@ == probe_of(expanded@[k]@),
        decreases expanded@.len() - i,
    {
        paths.push(expanded[i].probe_path());
        i += 1;
    }
    assert(strings_text(paths@) =~= probes_of(texts(expanded@)));
    paths
}

/// The directories that the host is asked to enumerate, given the answers to
/// the probes.
pub fn plan_roots(sources: &Vec<GlobEntry>, is_dir: &Vec<bool>) -> (roots: Vec<String>)
    ensures
        strings_text(roots@) == roots_of(
            promoted_of(expanded_all(texts(sources@)), is_dir@),
            hoisted_all(explicit_of(expanded_all(texts(sources@)), is_dir@)),
        ),
{
    let expanded = expand_sources(sources);
    let (promoted, explicit) = partition_sources(&expanded, is_dir);
    let hoisted = hoist_static_glob_parts(&explicit);
    assert(texts(hoisted@) =~= hoisted_all(texts(explicit@)));
    let mut roots: Vec<String> = Vec::new();
    let mut i: usize = 0;
    while i < promoted.len()
        invariant
            i <= promoted@.len(),
            roots@.len() == i,
            forall|k: int| 0 <= k < i ==> (#[trigger] roots@[k])@ == root_of(promoted@[k]@),
        decreases promoted@.len() - i,
    {
        roots.push(promoted[i].detection_root());
        i += 1;
    }
    let mut j: usize = 0;
    while j < hoisted.len()
        invariant
            j <= hoisted@.len(),
            roots@.len() == promoted@.len() + j,
            forall|k: int|
                0 <= k < promoted@.len() ==> (#[trigger] roots@[k])@ == root_of(promoted@[k]@),
            forall|k: int|
                0 <= k < j ==> (#[trigger] roots@[promoted@.len() + k])@ == hoisted@[k].base@,
        decreases hoisted@.len() - j,
    {
        roots.push(hoisted[j].base.clone());
        j += 1;
    }
    proof {
        let wanted = roots_of(texts(promoted@), texts(hoisted@));
        assert forall|i: int| 0 <= i < roots@.len() implies strings_text(roots@)[i] == wanted[i] by {
            if i >= promoted@.len() {
                let k = i - promoted@.len();
                assert(roots@[promoted@.len() + k]@ == hoisted@[k].base@);
            }
        }
        assert(strings_text(roots@) =~= wanted);
    }
    roots
}

/// Runs automatic detection below the root of every promoted entry. The
/// listing of the entry at `k` is the one at `k`.
pub fn detect_all(
    promoted: &Vec<GlobEntry>,
    listings: &Vec<Vec<WalkEntry>>,
    ignored: &Vec<String>,
) -> (found: (Vec<String>, Vec<GlobEntry>))
    ensures
        strings_text(found.0@) == detected_files(
            texts(promoted@),
            listings_text(listings@),
            strings_text(ignored@),
        ),
        texts(found.1@) == detected_globs(
            texts(promoted@),
            listings_text(listings@),
            strings_text(ignored@),
        ),
{
    let mut files: Vec<String> = Vec::new();
    let mut globs: Vec<GlobEntry> = Vec::new();
    let nothing: Vec<WalkEntry> = Vec::new();
    let ghost all = texts(promoted@);
    let ghost given = listings_text(listings@);
    let mut k: usize = 0;
    assert(all.take(0) =~= Seq::<GlobText>::empty());
    assert(strings_text(files@) =~= Seq::<Seq<char>>::empty());
    assert(texts(globs@) =~= Seq::<GlobText>::empty());
    assert(listing_text(nothing@) =~= Seq::<EntryText>::empty());
    while k < promoted.len()
        invariant
            k <= promoted@.len(),
            all == texts(promoted@),
            given == listings_text(listings@),
            listing_text(nothing@) == Seq::<EntryText>::empty(),
            strings_text(files@) == detected_files(all.take(k as int), given, strings_text(ignored@)),
            texts(globs@) == detected_globs(all.take(k as int), given, strings_text(ignored@)),
        decreases promoted@.len() - k,
    {
        let ghost files_before = strings_text(files@);
        let ghost globs_before = texts(globs@);
        assert(all.take(k + 1).drop_last() =~= all.take(k as int));
        let listing = if k < listings.len() {
            &listings[k]
        } else {
            &nothing
        };
        assert(listing_text(listing@) == listing_at(given, k as int));
        let root = promoted[k].detection_root();
        let (mut more_files, mut more_globs) = detect_sources(&root, ignored, listing);
        let ghost added_files = strings_text(more_files@);
        let ghost added_globs = texts(more_globs@);
        files.append(&mut more_files);
        globs.append(&mut more_globs);
        assert(strings_text(files@) =~= files_before + added_files);
        assert(texts(globs@) =~= globs_before + added_globs);
        k += 1;
    }
    assert(all.take(k as int) =~= all);
    (files, globs)
}

/// Matches every glob against its listing. The listing of the glob at `j` is
/// the one at `offset + j`. Returns the files selected, glob after glob, and
/// the globs that the matcher accepted.
pub fn match_all(explicit: &Vec<GlobEntry>, listings: &Vec<Vec<WalkEntry>>, offset: usize) -> (found:
    (Vec<String>, Vec<GlobEntry>))
    ensures
        selected(
            texts(explicit@),
            listings_text(listings@),
            offset as int,
            strings_text(found.0@),
            texts(found.1@),
        ),
{
    let mut files: Vec<String> = Vec::new();
    let mut kept: Vec<GlobEntry> = Vec::new();
    let nothing: Vec<WalkEntry> = Vec::new();
    let ghost all = texts(explicit@);
    let ghost given = listings_text(listings@);
    let ghost mut outcomes: Seq<Option<Seq<Seq<char>>>> = Seq::empty();
    let mut j: usize = 0;
    assert(strings_text(files@) =~= Seq::<Seq<char>>::empty());
    assert(texts(kept@) =~= Seq::<GlobText>::empty());
    assert(listing_text(nothing@) =~= Seq::<EntryText>::empty());
    while j < explicit.len()
        invariant
            j <= explicit@.len(),
            all == texts(explicit@),
            given == listings_text(listings@),
            listing_text(nothing@) == Seq::<EntryText>::empty(),
            outcomes.len() == j,
            forall|i: int|
                0 <= i < j ==> matched(all[i], listing_at(given, offset + i), #[trigger] outcomes[i]),
            strings_text(files@) == selected_files(outcomes),
            texts(kept@) == accepted(all, outcomes),
        decreases explicit@.len() - j,
    {
        let ghost files_before = strings_text(files@);
        let ghost kept_before = texts(kept@);
        let listing = if j < listings.len() && offset < listings.len() - j {
            &listings[offset + j]
        } else {
            &nothing
        };
        assert(listing_text(listing@) == listing_at(given, offset + j));
        let selection = match_files(&explicit[j], listing);
        let ghost outcome = selection_text(selection);
        proof {
            let longer = outcomes.push(outcome);
            assert(longer.drop_last() =~= outcomes);
            outcomes = longer;
        }
        match selection {
            Some(mut more) => {
                let ghost added = strings_text(more@);
                files.append(&mut more);
                kept.push(explicit[j].duplicate());
                assert(strings_text(files@) =~= files_before + added);
                assert(texts(kept@) =~= kept_before.push(all[j as int]));
            },
            None => {},
        }
        j += 1;
    }
    assert(all_matched(all, given, offset as int, outcomes));
    (files, kept)
}

/// Resolves the sources: expands them, parts them by the answers to the
/// probes, detects below the promoted ones, hoists and matches the others,
/// drops those whose glob is malformed, and collapses the globs.
pub fn resolve_sources(
    sources: &Vec<GlobEntry>,
    ignored: &Vec<String>,
    is_dir: &Vec<bool>,
    listings: &Vec<Vec<WalkEntry>>,
) -> (found: (Vec<String>, Vec<GlobEntry>))
    ensures
        resolved(
            texts(sources@),
            strings_text(ignored@),
            is_dir@,
            listings_text(listings@),
            strings_text(found.0@),
            texts(found.1@),
        ),
{
    let expanded = expand_sources(sources);
    let (promoted, explicit) = partition_sources(&expanded, is_dir);
    let (mut files, mut globs) = detect_all(&promoted, listings, ignored);
    let hoisted = hoist_static_glob_parts(&explicit);
    assert(texts(hoisted@) =~= hoisted_all(texts(explicit@)));
    let (mut matches, mut kept) = match_all(&hoisted, listings, promoted.len());
    let ghost detected = strings_text(files@);
    let ghost found = strings_text(matches@);
    let ghost described = texts(globs@);
    let ghost kept_text = texts(kept@);
    files.append(&mut matches);
    globs.append(&mut kept);
    assert(strings_text(files@) =~= detected + found);
    assert(texts(globs@) =~= described + kept_text);
    let globs = optimize_patterns(&globs);
    assert(selected(
        texts(hoisted@),
        listings_text(listings@),
        texts(promoted@).len() as int,
        found,
        kept_text,
    ));
    (files, globs)
}

} // verus!
