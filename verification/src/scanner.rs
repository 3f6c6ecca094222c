//! The scanner: the sources it was made with, their resolution, the
//! modification times it has seen and the candidates it has found.
//!
//! The scanner does no input or output of its own. Its host probes and
//! enumerates the disk, reads modification times and files, and hands the
//! scanner what it found.

use crate::content::batch_text;
use crate::content::blobs_bytes;
use crate::content::candidates_in;
use crate::content::content_of;
use crate::content::contents_of;
use crate::content::extract_all;
use crate::content::extracted;
use crate::content::lemma_extracted;
use crate::content::lemma_novel;
use crate::content::names;
use crate::content::novel;
use crate::content::loaded_bytes;
use crate::content::read_all_files;
use crate::content::read_changed_content;
use crate::content::sorted_items;
use crate::content::ChangedContent;
use crate::content::ChangedText;
use crate::expand::expanded_all;
use crate::parser::candidates;
use crate::parser::positions;
use crate::parser::positions_text;
use crate::parser::Extractor;
use crate::glob::texts;
use crate::glob::GlobEntry;
use crate::glob::GlobText;
use crate::matcher::WalkEntry;
use crate::resolve::hoisted_all;
use crate::resolve::listings_text;
use crate::resolve::plan_probes;
use crate::resolve::plan_roots;
use crate::resolve::probes_of;
use crate::resolve::resolve_sources;
use crate::resolve::resolved;
use crate::resolve::roots_of;
use crate::sources::explicit_of;
use crate::sources::promoted_of;
use crate::store::map_entries;
use crate::store::map_insert;
use crate::store::map_new;
use crate::store::set_contains;
use crate::store::set_insert;
use crate::store::set_new;
use crate::store::set_texts;
use crate::text::rising;
use crate::text::strings_text;
use fxhash::FxHashMap;
use fxhash::FxHashSet;
use vstd::prelude::*;

verus! {

/// What a scan is run with.
#[derive(Debug, Clone)]
pub struct ScanOptions {
    /// Base path to start scanning from.
    pub base: Option<String>,
    /// Glob sources.
    pub sources: Vec<GlobEntry>,
}

/// What a scan gives.
#[derive(Debug, Clone)]
pub struct ScanResult {
    pub candidates: Vec<String>,
    pub files: Vec<String>,
    pub globs: Vec<GlobEntry>,
}

/// Discovers files from glob sources and keeps the set of candidates found
/// in them up to date.
#[derive(Debug)]
pub struct Scanner {
    /// Glob sources.
    sources: Option<Vec<GlobEntry>>,
    /// Extensions of files that automatic detection leaves out.
    ignored_extensions: Vec<String>,
    /// Whether the sources have been resolved.
    ready: bool,
    /// All files that are scanned.
    files: Vec<String>,
    /// All globs that describe them.
    globs: Vec<GlobEntry>,
    /// The modification time last seen of each file.
    mtimes: FxHashMap<String, u128>,
    /// All candidates seen so far.
    candidates: FxHashSet<String>,
}

/// A scanner as plain values.
pub ghost struct ScannerState {
    pub sources: Seq<GlobText>,
    pub ignored: Seq<Seq<char>>,
    pub ready: bool,
    pub files: Seq<Seq<char>>,
    pub globs: Seq<GlobText>,
    pub mtimes: Map<Seq<char>, u128>,
    pub candidates: Set<Seq<char>>,
}

impl View for Scanner {
    type V = ScannerState;

    closed spec fn view(&self) -> ScannerState {
        ScannerState {
            sources: match self.sources {
                Some(sources) => texts(sources@),
                None => Seq::empty(),
            },
            ignored: strings_text(self.ignored_extensions@),
            ready: self.ready,
            files: strings_text(self.files@),
            globs: texts(self.globs@),
            mtimes: map_entries(self.mtimes),
            candidates: set_texts(self.candidates),
        }
    }
}

/// The scanner can work without its host: it is ready, or it has no sources
/// to resolve.
pub open spec fn usable(state: ScannerState) -> bool {
    state.ready || state.sources.len() == 0
}

/// The state once a usable scanner is ready: one that was not ready has
/// resolved to no files and no globs.
pub open spec fn settled(state: ScannerState) -> ScannerState {
    if state.ready {
        state
    } else {
        ScannerState { ready: true, files: Seq::empty(), globs: Seq::empty(), ..state }
    }
}

/// The state with another set of candidates.
pub open spec fn with_candidates(state: ScannerState, candidates: Set<Seq<char>>) -> ScannerState {
    ScannerState { candidates, ..state }
}

/// The state with another record of modification times.
pub open spec fn with_mtimes(state: ScannerState, mtimes: Map<Seq<char>, u128>) -> ScannerState {
    ScannerState { mtimes, ..state }
}

/// The extensions of files that are never scanned unless the scanner is told
/// otherwise: images, fonts, archives and media.
pub open spec fn ignored_by_default() -> Seq<Seq<char>> {
    seq![
        "png"@,
        "jpg"@,
        "jpeg"@,
        "gif"@,
        "ico"@,
        "webp"@,
        "woff"@,
        "woff2"@,
        "ttf"@,
        "eot"@,
        "zip"@,
        "gz"@,
        "pdf"@,
        "mp3"@,
        "mp4"@,
        "wasm"@,
    ]
}

/// The extensions that are ignored by default.
pub fn default_ignored_extensions() -> (list: Vec<String>)
    ensures
        strings_text(list@) == ignored_by_default(),
{
    let mut list: Vec<String> = Vec::new();
    list.push("png".to_owned());
    list.push("jpg".to_owned());
    list.push("jpeg".to_owned());
    list.push("gif".to_owned());
    list.push("ico".to_owned());
    list.push("webp".to_owned());
    list.push("woff".to_owned());
    list.push("woff2".to_owned());
    list.push("ttf".to_owned());
    list.push("eot".to_owned());
    list.push("zip".to_owned());
    list.push("gz".to_owned());
    list.push("pdf".to_owned());
    list.push("mp3".to_owned());
    list.push("mp4".to_owned());
    list.push("wasm".to_owned());
    assert(strings_text(list@) =~= ignored_by_default());
    list
}

/// How many files have a modification time to go with them.
pub open spec fn observed(files: Seq<Seq<char>>, times: Seq<u128>) -> int {
    if files.len() <= times.len() {
        files.len() as int
    } else {
        times.len() as int
    }
}

/// The record of modification times once the first `n` files have been seen
/// with their times.
pub open spec fn stamped(
    mtimes: Map<Seq<char>, u128>,
    files: Seq<Seq<char>>,
    times: Seq<u128>,
    n: int,
) -> Map<Seq<char>, u128>
    decreases n,
{
    if n <= 0 {
        mtimes
    } else {
        stamped(mtimes, files, times, n - 1).insert(files[n - 1], times[n - 1])
    }
}

/// The file at `i` has to be read: no time was on record for it when its
/// turn came, or another time than the one now seen.
pub open spec fn is_stale(
    mtimes: Map<Seq<char>, u128>,
    files: Seq<Seq<char>>,
    times: Seq<u128>,
    i: int,
) -> bool {
    let seen = stamped(mtimes, files, times, i);
    !(seen.dom().contains(files[i]) && seen[files[i]] == times[i])
}

/// The files among the first `n` that have to be read, in order.
pub open spec fn stale(
    mtimes: Map<Seq<char>, u128>,
    files: Seq<Seq<char>>,
    times: Seq<u128>,
    n: int,
) -> Seq<Seq<char>>
    decreases n,
{
    if n <= 0 {
        Seq::empty()
    } else {
        let head = stale(mtimes, files, times, n - 1);
        if is_stale(mtimes, files, times, n - 1) {
            head.push(files[n - 1])
        } else {
            head
        }
    }
}

impl Default for Scanner {
    /// A scanner without sources.
    fn default() -> (scanner: Scanner)
        ensures
            scanner@.sources.len() == 0,
            scanner@.ignored == ignored_by_default(),
            !scanner@.ready,
            scanner@.files.len() == 0,
            scanner@.globs.len() == 0,
            scanner@.mtimes == Map::<Seq<char>, u128>::empty(),
            scanner@.candidates == Set::<Seq<char>>::empty(),
    {
        Scanner::new(None)
    }
}

/// The request to read each of the files.
pub open spec fn reads_of(files: Seq<Seq<char>>) -> Seq<ChangedText> {
    Seq::new(files.len(), |i: int| ChangedText { file: Some(files[i]), content: None })
}

/// The same file is always seen with the same time.
pub open spec fn consistent(files: Seq<Seq<char>>, times: Seq<u128>, n: int) -> bool {
    forall|i: int, j: int| 0 <= i < n && 0 <= j < n && files[i] == files[j] ==> times[i] == times[j]
}

/// Stamping leaves alone what is on record for every other file.
pub proof fn lemma_stamped_elsewhere(
    mtimes: Map<Seq<char>, u128>,
    files: Seq<Seq<char>>,
    times: Seq<u128>,
    n: int,
    path: Seq<char>,
)
    requires
        forall|j: int| 0 <= j < n ==> files[j] != path,
    ensures
        stamped(mtimes, files, times, n).dom().contains(path) == mtimes.dom().contains(path),
        mtimes.dom().contains(path) ==> stamped(mtimes, files, times, n)[path] == mtimes[path],
    decreases n,
{
    if n > 0 {
        lemma_stamped_elsewhere(mtimes, files, times, n - 1, path);
    }
}

/// The record of modification times only grows: a pass over the files
/// drops no entry.
pub proof fn lemma_record_only_grows(
    mtimes: Map<Seq<char>, u128>,
    files: Seq<Seq<char>>,
    times: Seq<u128>,
    n: int,
)
    ensures
        mtimes.dom().subset_of(stamped(mtimes, files, times, n).dom()),
    decreases n,
{
    if n > 0 {
        lemma_record_only_grows(mtimes, files, times, n - 1);
    }
}

/// Once files have been seen with consistent times, each of them is on
/// record with the time it was seen with.
pub proof fn lemma_stamped_records(
    mtimes: Map<Seq<char>, u128>,
    files: Seq<Seq<char>>,
    times: Seq<u128>,
    n: int,
    i: int,
)
    requires
        0 <= i < n,
        consistent(files, times, n),
    ensures
        stamped(mtimes, files, times, n).dom().contains(files[i]),
        stamped(mtimes, files, times, n)[files[i]] == times[i],
    decreases n,
{
    if i < n - 1 && files[i] != files[n - 1] {
        lemma_stamped_records(mtimes, files, times, n - 1, i);
    }
}

/// A second pass over the same files with the same times reads nothing and
/// leaves the record as it is. So a scan that follows another with nothing
/// changed on disk is handed no content, and returns the same candidates.
pub proof fn lemma_second_pass_reads_nothing(
    mtimes: Map<Seq<char>, u128>,
    files: Seq<Seq<char>>,
    times: Seq<u128>,
    n: int,
    k: int,
)
    requires
        0 <= k <= n,
        consistent(files, times, n),
    ensures
        stale(stamped(mtimes, files, times, n), files, times, k) == Seq::<Seq<char>>::empty(),
        stamped(stamped(mtimes, files, times, n), files, times, k) == stamped(
            mtimes,
            files,
            times,
            n,
        ),
    decreases k,
{
    if k > 0 {
        let first = stamped(mtimes, files, times, n);
        lemma_second_pass_reads_nothing(mtimes, files, times, n, k - 1);
        lemma_stamped_records(mtimes, files, times, n, k - 1);
        assert(first.insert(files[k - 1], times[k - 1]) =~= first);
    }
}

/// A file that has to be read when its turn comes is among the files
/// returned for reading.
pub proof fn lemma_stale_is_listed(
    mtimes: Map<Seq<char>, u128>,
    files: Seq<Seq<char>>,
    times: Seq<u128>,
    n: int,
    i: int,
)
    requires
        0 <= i < n,
        is_stale(mtimes, files, times, i),
    ensures
        stale(mtimes, files, times, n).contains(files[i]),
    decreases n,
{
    let head = stale(mtimes, files, times, n - 1);
    if i < n - 1 {
        lemma_stale_is_listed(mtimes, files, times, n - 1, i);
        let k = choose|k: int| 0 <= k < head.len() && head[k] == files[i];
        if is_stale(mtimes, files, times, n - 1) {
            assert(head.push(files[n - 1])[k] == files[i]);
        }
    } else {
        assert(head.push(files[i])[head.len() as int] == files[i]);
    }
}

/// A file whose time differs from the one on record is read again, whatever
/// it holds: times decide, not content.
pub proof fn lemma_touched_file_is_read_again(
    mtimes: Map<Seq<char>, u128>,
    files: Seq<Seq<char>>,
    times: Seq<u128>,
    n: int,
    i: int,
)
    requires
        0 <= i < n,
        forall|j: int| 0 <= j < i ==> files[j] != files[i],
        mtimes.dom().contains(files[i]) ==> mtimes[files[i]] != times[i],
    ensures
        stale(mtimes, files, times, n).contains(files[i]),
{
    lemma_stamped_elsewhere(mtimes, files, times, i, files[i]);
    lemma_stale_is_listed(mtimes, files, times, n, i);
}

/// Content whose candidates are all known adds nothing: reading a file again
/// that holds what it held leaves the set of candidates as it was.
pub proof fn lemma_known_content_adds_nothing(known: Set<Seq<char>>, blobs: Seq<Seq<u8>>)
    requires
        candidates_in(blobs).subset_of(known),
    ensures
        known.union(candidates_in(blobs)) == known,
{
    assert(known.union(candidates_in(blobs)) =~= known);
}

/// A scan that is handed no content returns what the scan before it
/// returned: the same candidates in the same order.
pub proof fn lemma_scan_without_content_repeats(
    known: Set<Seq<char>>,
    first: Seq<Seq<char>>,
    second: Seq<Seq<char>>,
)
    requires
        rising(first),
        first.to_set() == known,
        rising(second),
        second.to_set() == known.union(candidates_in(Seq::<Seq<u8>>::empty())),
    ensures
        second == first,
{
    assert(known.union(candidates_in(Seq::<Seq<u8>>::empty())) =~= known);
    crate::text::lemma_rising_is_unique(first, second);
}

/// Buffers that were scanned before add nothing when they are scanned
/// again: a file that is read again with the content it had leaves the set
/// of candidates, and so what a scan returns, as it was.
pub proof fn lemma_same_content_adds_nothing(
    known: Set<Seq<char>>,
    scanned: Seq<Seq<u8>>,
    again: Seq<Seq<u8>>,
)
    requires
        forall|i: int| 0 <= i < again.len() ==> scanned.contains(#[trigger] again[i]),
    ensures
        known.union(candidates_in(scanned)).union(candidates_in(again)) == known.union(
            candidates_in(scanned),
        ),
{
    assert forall|t: Seq<char>| candidates_in(again).contains(t) implies candidates_in(
        scanned,
    ).contains(t) by {
        let i = choose|i: int| 0 <= i < again.len() && candidates(again[i]).contains(t);
        assert(scanned.contains(again[i]));
        let j = choose|j: int| 0 <= j < scanned.len() && scanned[j] == again[i];
        assert(candidates(scanned[j]).contains(t));
    }
    assert(known.union(candidates_in(scanned)).union(candidates_in(again)) =~= known.union(
        candidates_in(scanned),
    ));
}

impl Scanner {
    /// A scanner for the given sources. Without sources it discovers no
    /// files and takes only the content that is pushed to it.
    pub fn new(sources: Option<Vec<GlobEntry>>) -> (scanner: Scanner)
        ensures
            scanner@.sources == match sources {
                Some(list) => texts(list@),
                None => Seq::<GlobText>::empty(),
            },
            scanner@.ignored == ignored_by_default(),
            !scanner@.ready,
            scanner@.files.len() == 0,
            scanner@.globs.len() == 0,
            scanner@.mtimes == Map::<Seq<char>, u128>::empty(),
            scanner@.candidates == Set::<Seq<char>>::empty(),
    {
        Scanner::with_ignored_extensions(sources, default_ignored_extensions())
    }

    /// A scanner for the given sources whose automatic detection leaves out
    /// files with the given extensions.
    pub fn with_ignored_extensions(
        sources: Option<Vec<GlobEntry>>,
        ignored_extensions: Vec<String>,
    ) -> (scanner: Scanner)
        ensures
            scanner@.sources == match sources {
                Some(list) => texts(list@),
                None => Seq::<GlobText>::empty(),
            },
            scanner@.ignored == strings_text(ignored_extensions@),
            !scanner@.ready,
            scanner@.files.len() == 0,
            scanner@.globs.len() == 0,
            scanner@.mtimes == Map::<Seq<char>, u128>::empty(),
            scanner@.candidates == Set::<Seq<char>>::empty(),
    {
        Scanner {
            sources,
            ignored_extensions,
            ready: false,
            files: Vec::new(),
            globs: Vec::new(),
            mtimes: map_new(),
            candidates: set_new(),
        }
    }

    /// Whether the sources have been resolved.
    pub fn is_ready(&self) -> (ready: bool)
        ensures
            ready == self@.ready,
    {
        self.ready
    }

    /// The paths of which the host has to say whether they are directories
    /// before the sources can be resolved: none once the scanner is ready,
    /// else one per expanded source, in order.
    pub fn probes(&self) -> (paths: Vec<String>)
        ensures
            strings_text(paths@) == if self@.ready {
                Seq::<Seq<char>>::empty()
            } else {
                probes_of(expanded_all(self@.sources))
            },
    {
        let mut none: Vec<String> = Vec::new();
        assert(strings_text(none@) =~= Seq::<Seq<char>>::empty());
        if self.ready {
            return none;
        }
        match &self.sources {
            Some(sources) => plan_probes(sources),
            None => {
                assert(probes_of(expanded_all(self@.sources)) =~= Seq::<Seq<char>>::empty());
                none
            },
        }
    }

    /// The directories that the host has to enumerate before the sources can
    /// be resolved, given its answers to the probes: none once the scanner is
    /// ready, else the root of every automatically detected source, then the
    /// base of every hoisted glob.
    pub fn roots(&self, is_dir: &Vec<bool>) -> (roots: Vec<String>)
        ensures
            strings_text(roots@) == if self@.ready {
                Seq::<Seq<char>>::empty()
            } else {
                roots_of(
                    promoted_of(expanded_all(self@.sources), is_dir@),
                    hoisted_all(explicit_of(expanded_all(self@.sources), is_dir@)),
                )
            },
    {
        let mut none: Vec<String> = Vec::new();
        assert(strings_text(none@) =~= Seq::<Seq<char>>::empty());
        if self.ready {
            return none;
        }
        match &self.sources {
            Some(sources) => plan_roots(sources, is_dir),
            None => {
                let empty: Vec<GlobEntry> = Vec::new();
                assert(texts(empty@) =~= self@.sources);
                plan_roots(&empty, is_dir)
            },
        }
    }

    /// Resolves the sources, once: the first call takes the host's answers to
    /// the probes and its listings of the roots, fixes the files and globs,
    /// and makes the scanner ready. Every later call changes nothing.
    pub fn prepare(&mut self, is_dir: &Vec<bool>, listings: &Vec<Vec<WalkEntry>>)
        ensures
            old(self)@.ready ==> final(self)@ == old(self)@,
            !old(self)@.ready ==> final(self)@.ready && resolved(
                old(self)@.sources,
                old(self)@.ignored,
                is_dir@,
                listings_text(listings@),
                final(self)@.files,
                final(self)@.globs,
            ),
            final(self)@.sources == old(self)@.sources,
            final(self)@.ignored == old(self)@.ignored,
            final(self)@.mtimes == old(self)@.mtimes,
            final(self)@.candidates == old(self)@.candidates,
    {
        if self.ready {
            return ;
        }
        let (files, globs) = match &self.sources {
            Some(sources) => resolve_sources(sources, &self.ignored_extensions, is_dir, listings),
            None => {
                let empty: Vec<GlobEntry> = Vec::new();
                assert(texts(empty@) =~= self@.sources);
                resolve_sources(&empty, &self.ignored_extensions, is_dir, listings)
            },
        };
        self.files = files;
        self.globs = globs;
        self.ready = true;
    }

    /// Makes the scanner ready where that takes no host, and says whether it
    /// is ready.
    fn settle(&mut self) -> (ok: bool)
        ensures
            ok == usable(old(self)@),
            ok ==> final(self)@ == settled(old(self)@),
            !ok ==> final(self)@ == old(self)@,
    {
        if self.ready {
            return true;
        }
        let empty = match &self.sources {
            Some(sources) => sources.len() == 0,
            None => true,
        };
        if empty {
            self.files = Vec::new();
            self.globs = Vec::new();
            self.ready = true;
            assert(strings_text(self.files@) =~= Seq::<Seq<char>>::empty());
            assert(texts(self.globs@) =~= Seq::<GlobText>::empty());
        }
        empty
    }

    /// The resolved files, or nothing while the sources await the host.
    pub fn get_files(&mut self) -> (files: Option<Vec<String>>)
        ensures
            files is Some <==> usable(old(self)@),
            usable(old(self)@) ==> final(self)@ == settled(old(self)@),
            !usable(old(self)@) ==> final(self)@ == old(self)@,
            files is Some ==> strings_text(files->0@) == final(self)@.files,
    {
        if !self.settle() {
            return None;
        }
        let mut files: Vec<String> = Vec::new();
        let mut i: usize = 0;
        while i < self.files.len()
            invariant
                i <= self.files@.len(),
                files@.len() == i,
                forall|k: int| 0 <= k < i ==> (#[trigger] files@[k])@ == self.files@[k]@,
            decreases self.files@.len() - i,
        {
            files.push(self.files[i].clone());
            i += 1;
        }
        assert(strings_text(files@) =~= strings_text(self.files@));
        Some(files)
    }

    /// The resolved globs, or nothing while the sources await the host.
    pub fn get_globs(&mut self) -> (globs: Option<Vec<GlobEntry>>)
        ensures
            globs is Some <==> usable(old(self)@),
            usable(old(self)@) ==> final(self)@ == settled(old(self)@),
            !usable(old(self)@) ==> final(self)@ == old(self)@,
            globs is Some ==> texts(globs->0@) == final(self)@.globs,
    {
        if !self.settle() {
            return None;
        }
        let mut globs: Vec<GlobEntry> = Vec::new();
        let mut i: usize = 0;
        while i < self.globs.len()
            invariant
                i <= self.globs@.len(),
                globs@.len() == i,
                forall|k: int| 0 <= k < i ==> (#[trigger] globs@[k])@ == self.globs@[k]@,
            decreases self.globs@.len() - i,
        {
            globs.push(self.globs[i].duplicate());
            i += 1;
        }
        assert(texts(globs@) =~= texts(self.globs@));
        Some(globs)
    }

    /// Takes the modification time that the host has read of each resolved
    /// file, in the order of the files, puts it on record, and returns the
    /// files that have to be read: those seen for the first time and those
    /// whose time has changed. Returns nothing, and changes nothing, while
    /// the sources await the host. A file without a time is passed over.
    pub fn changed_files(&mut self, times: &Vec<u128>) -> (changed: Option<Vec<ChangedContent>>)
        ensures
            changed is Some <==> usable(old(self)@),
            !usable(old(self)@) ==> final(self)@ == old(self)@,
            usable(old(self)@) ==> {
                let state = settled(old(self)@);
                let n = observed(state.files, times@);
                &&& final(self)@ == with_mtimes(
                    state,
                    stamped(state.mtimes, state.files, times@, n),
                )
                &&& batch_text(changed->0@) == reads_of(
                    stale(state.mtimes, state.files, times@, n),
                )
            },
    {
        if !self.settle() {
            return None;
        }
        let ghost state = self@;
        let n = if self.files.len() <= times.len() {
            self.files.len()
        } else {
            times.len()
        };
        let mut changed: Vec<ChangedContent> = Vec::new();
        let mut i: usize = 0;
        assert(batch_text(changed@) =~= reads_of(stale(state.mtimes, state.files, times@, 0)));
        while i < n
            invariant
                i <= n,
                n == observed(state.files, times@),
                state.files == strings_text(self.files@),
                self@ == with_mtimes(state, stamped(state.mtimes, state.files, times@, i as int)),
                batch_text(changed@) == reads_of(
                    stale(state.mtimes, state.files, times@, i as int),
                ),
            decreases n - i,
        {
            let ghost before = batch_text(changed@);
            let previous = map_insert(&mut self.mtimes, self.files[i].clone(), times[i]);
            let read = match previous {
                Some(time) => time != times[i],
                None => true,
            };
            assert(read == is_stale(state.mtimes, state.files, times@, i as int));
            if read {
                changed.push(ChangedContent { file: Some(self.files[i].clone()), content: None });
                assert(batch_text(changed@) =~= before.push(
                    ChangedText { file: Some(state.files[i as int]), content: None },
                ));
            }
            assert(batch_text(changed@) =~= reads_of(
                stale(state.mtimes, state.files, times@, i + 1),
            ));
            i += 1;
        }
        Some(changed)
    }

    /// Takes the files that had to be read, `loaded` holding for each of
    /// them what reading it gave, folds their candidates into the set of all
    /// candidates and returns that set, each candidate once, in strictly
    /// rising byte-wise order. Returns nothing, and changes nothing, while
    /// the sources await the host.
    pub fn scan(&mut self, changed: &Vec<ChangedContent>, loaded: &Vec<Option<Vec<u8>>>) -> (list:
        Option<Vec<String>>)
        ensures
            list is Some <==> usable(old(self)@),
            !usable(old(self)@) ==> final(self)@ == old(self)@,
            usable(old(self)@) ==> final(self)@ == with_candidates(
                settled(old(self)@),
                old(self)@.candidates.union(
                    candidates_in(contents_of(batch_text(changed@), loaded_bytes(loaded@))),
                ),
            ),
            list is Some ==> rising(strings_text(list->0@)),
            list is Some ==> strings_text(list->0@).to_set() == final(self)@.candidates,
    {
        if !self.settle() {
            return None;
        }
        let blobs = read_all_files(changed, loaded);
        extract_all(&mut self.candidates, &blobs);
        Some(sorted_items(&self.candidates))
    }

    /// Extracts the candidates of a batch of changed content, `loaded`
    /// holding for each item what reading its file gave, adds them to the
    /// set of all candidates, and returns those that were not in it: each
    /// once, in the order of extraction. Returns nothing, and changes
    /// nothing, while the sources await the host.
    pub fn scan_content(
        &mut self,
        changed_content: &Vec<ChangedContent>,
        loaded: &Vec<Option<Vec<u8>>>,
    ) -> (fresh: Option<Vec<String>>)
        ensures
            fresh is Some <==> usable(old(self)@),
            !usable(old(self)@) ==> final(self)@ == old(self)@,
            usable(old(self)@) ==> {
                let found = contents_of(batch_text(changed_content@), loaded_bytes(loaded@));
                &&& final(self)@ == with_candidates(
                    settled(old(self)@),
                    old(self)@.candidates.union(candidates_in(found)),
                )
                &&& strings_text(fresh->0@) == novel(extracted(found), old(self)@.candidates)
                &&& final(self)@.candidates == old(self)@.candidates.union(
                    strings_text(fresh->0@).to_set(),
                )
                &&& strings_text(fresh->0@).to_set().disjoint(old(self)@.candidates)
            },
    {
        if !self.settle() {
            return None;
        }
        let ghost state = self@;
        let blobs = read_all_files(changed_content, loaded);
        let ghost all = blobs_bytes(blobs@);
        let mut fresh: Vec<String> = Vec::new();
        let mut i: usize = 0;
        assert(all.take(0) =~= Seq::<Seq<u8>>::empty());
        assert(strings_text(fresh@) =~= Seq::<Seq<char>>::empty());
        assert(state.candidates.union(extracted(all.take(0)).to_set()) =~= state.candidates);
        while i < blobs.len()
            invariant
                i <= blobs@.len(),
                all == blobs_bytes(blobs@),
                self@ == with_candidates(
                    state,
                    state.candidates.union(extracted(all.take(i as int)).to_set()),
                ),
                strings_text(fresh@) == novel(extracted(all.take(i as int)), state.candidates),
            decreases blobs@.len() - i,
        {
            let ghost seen = extracted(all.take(i as int));
            assert(all.take(i + 1).drop_last() =~= all.take(i as int));
            assert(all.take(i + 1).last() == blobs@[i as int]@);
            let items = Extractor::with_positions(blobs[i].as_slice());
            let ghost tail = names(positions(blobs@[i as int]@));
            let mut k: usize = 0;
            assert(seen + tail.take(0) =~= seen);
            while k < items.len()
                invariant
                    k <= items@.len(),
                    i < blobs@.len(),
                    positions_text(items@) == positions(blobs@[i as int]@),
                    tail == names(positions(blobs@[i as int]@)),
                    self@ == with_candidates(
                        state,
                        state.candidates.union((seen + tail.take(k as int)).to_set()),
                    ),
                    strings_text(fresh@) == novel(seen + tail.take(k as int), state.candidates),
                decreases items@.len() - k,
            {
                let ghost met = seen + tail.take(k as int);
                let ghost listed = strings_text(fresh@);
                let ghost text = items@[k as int].0@;
                proof {
                    assert(positions_text(items@)[k as int].0 == text);
                    assert(tail[k as int] == text);
                    assert(seen + tail.take(k + 1) =~= met.push(text));
                    assert(met.push(text).drop_last() =~= met);
                    met.lemma_push_to_set_commute(text);
                    lemma_novel(met, state.candidates);
                    assert(met.to_set().contains(text) <==> met.contains(text));
                }
                if !set_contains(&self.candidates, &items[k].0) {
                    set_insert(&mut self.candidates, items[k].0.clone());
                    fresh.push(items[k].0.clone());
                    assert(strings_text(fresh@) =~= listed.push(text));
                }
                assert(self@.candidates =~= state.candidates.union(
                    (seen + tail.take(k + 1)).to_set(),
                ));
                k += 1;
            }
            assert(tail.take(k as int) =~= tail);
            i += 1;
        }
        proof {
            assert(all.take(i as int) =~= all);
            lemma_extracted(all);
            lemma_novel(extracted(all), state.candidates);
            let listed = strings_text(fresh@).to_set();
            assert(state.candidates.union(candidates_in(all)) =~= state.candidates.union(listed));
        }
        Some(fresh)
    }

    /// The candidates of one piece of changed content with the byte offsets
    /// at which they start, in source order; `loaded` is what reading its
    /// file gave. Content that gives no bytes has no candidates. The set of
    /// all candidates stays as it is. Returns nothing, and changes nothing,
    /// while the sources await the host.
    pub fn get_candidates_with_positions(
        &mut self,
        changed_content: &ChangedContent,
        loaded: &Option<Vec<u8>>,
    ) -> (items: Option<Vec<(String, usize)>>)
        ensures
            items is Some <==> usable(old(self)@),
            usable(old(self)@) ==> final(self)@ == settled(old(self)@),
            !usable(old(self)@) ==> final(self)@ == old(self)@,
            items is Some ==> positions_text(items->0@) == positions(
                match content_of(
                    changed_content@,
                    match *loaded {
                        Some(bytes) => Some(bytes@),
                        None => None,
                    },
                ) {
                    Some(bytes) => bytes,
                    None => Seq::empty(),
                },
            ),
    {
        if !self.settle() {
            return None;
        }
        let content = match read_changed_content(changed_content, loaded) {
            Some(bytes) => bytes,
            None => Vec::new(),
        };
        Some(Extractor::with_positions(content.as_slice()))
    }
}

} // verus!
