//! Content handed to the scanner: inline text or a file, and the bytes that
//! are scanned for it.

use crate::detect::extension_of;
use crate::detect::find_extension_dot;
use crate::parser::candidates;
use crate::parser::positions;
use crate::parser::Extractor;
use crate::store::set_insert;
use crate::store::set_items;
use crate::store::set_new;
use crate::store::set_texts;
use crate::text::chars_of;
use crate::text::rising;
use crate::text::sort_distinct;
use crate::text::strings_text;
use fxhash::FxHashSet;
use rayon::iter::IntoParallelRefIterator;
use rayon::iter::ParallelIterator;
use bstr::ByteSlice;
use vstd::prelude::*;
use vstd::string::StrSliceExecFns;
use vstd::utf8::encode_utf8;

verus! {

/// One piece of content to scan: inline text, or else a file to read.
#[derive(Debug, Clone)]
pub struct ChangedContent {
    pub file: Option<String>,
    pub content: Option<String>,
}

/// Changed content as text.
pub ghost struct ChangedText {
    pub file: Option<Seq<char>>,
    pub content: Option<Seq<char>>,
}

impl View for ChangedContent {
    type V = ChangedText;

    open spec fn view(&self) -> ChangedText {
        ChangedText {
            file: match self.file {
                Some(path) => Some(path@),
                None => None,
            },
            content: match self.content {
                Some(text) => Some(text@),
                None => None,
            },
        }
    }
}

impl ChangedContent {
    /// The file that has to be read for this item: its file, unless it comes
    /// with inline content.
    pub fn file_to_read(&self) -> (file: Option<&String>)
        ensures
            file is Some <==> self@.content is None && self@.file is Some,
            file is Some ==> file->0@ == self@.file->0,
    {
        match (&self.content, &self.file) {
            (None, Some(path)) => Some(path),
            _ => None,
        }
    }
}

/// The views of a batch of changed content.
pub open spec fn batch_text(batch: Seq<ChangedContent>) -> Seq<ChangedText> {
    Seq::new(batch.len(), |i: int| batch[i]@)
}

/// The bytes of loaded files; `None` for a file that could not be read.
pub open spec fn loaded_bytes(loaded: Seq<Option<Vec<u8>>>) -> Seq<Option<Seq<u8>>> {
    Seq::new(
        loaded.len(),
        |i: int|
            match loaded[i] {
                Some(bytes) => Some(bytes@),
                None => None,
            },
    )
}

/// The bytes of a list of buffers.
pub open spec fn blobs_bytes(blobs: Seq<Vec<u8>>) -> Seq<Seq<u8>> {
    Seq::new(blobs.len(), |i: int| blobs[i]@)
}

/// `hay` with every occurrence of `needle` replaced by `with`, found from
/// left to right, none overlapping an earlier one.
pub open spec fn replaced(hay: Seq<u8>, needle: Seq<u8>, with: Seq<u8>) -> Seq<u8>
    decreases hay.len(),
{
    if needle.len() == 0 || hay.len() < needle.len() {
        hay
    } else if hay.subrange(0, needle.len() as int) == needle {
        with + replaced(hay.skip(needle.len() as int), needle, with)
    } else {
        seq![hay[0]] + replaced(hay.skip(1), needle, with)
    }
}

/// `bstr::ByteSlice::replace`: all matches of a non-empty needle replaced,
/// the matches being the non-overlapping ones found from the left.
#[verifier::external_body]
pub(crate) fn replace_all(hay: &[u8], needle: &[u8], with: &[u8]) -> (r: Vec<u8>)
    requires
        needle@.len() > 0,
    ensures
        r@ == replaced(hay@, needle@, with@),
{
    hay.replace(needle, with)
}

/// The marker that is taken out of component templates: ` class:`.
pub open spec fn class_directive() -> Seq<u8> {
    seq![0x20u8, 0x63u8, 0x6cu8, 0x61u8, 0x73u8, 0x73u8, 0x3au8]
}

/// The extension of the files whose class directives are taken out.
pub open spec fn component_extension() -> Seq<char> {
    "svelte"@
}

/// The bytes of a file as they are scanned: in a component template every
/// ` class:` gives way to a blank; any other file is scanned as it is.
pub open spec fn normalized(path: Seq<char>, bytes: Seq<u8>) -> Seq<u8> {
    if extension_of(path) == Some(component_extension()) {
        replaced(bytes, class_directive(), seq![0x20u8])
    } else {
        bytes
    }
}

/// The bytes that are scanned for one item. Inline content is used as it is.
/// Without it the item's file decides: `loaded` is what reading it gave, and
/// an item without a file, or with a file that could not be read, gives
/// nothing.
pub open spec fn content_of(item: ChangedText, loaded: Option<Seq<u8>>) -> Option<Seq<u8>> {
    match item.content {
        Some(text) => Some(encode_utf8(text)),
        None => match (item.file, loaded) {
            (Some(path), Some(bytes)) => Some(normalized(path, bytes)),
            _ => None,
        },
    }
}

/// What was loaded for the item at `i`; nothing where the list is too short.
pub open spec fn loaded_at(loaded: Seq<Option<Seq<u8>>>, i: int) -> Option<Seq<u8>> {
    if 0 <= i < loaded.len() {
        loaded[i]
    } else {
        None
    }
}

/// The bytes that are scanned for a batch: those of each item that gives
/// any, in order.
pub open spec fn contents_of(batch: Seq<ChangedText>, loaded: Seq<Option<Seq<u8>>>) -> Seq<Seq<u8>>
    decreases batch.len(),
{
    if batch.len() == 0 {
        Seq::empty()
    } else {
        let head = contents_of(batch.drop_last(), loaded);
        match content_of(batch.last(), loaded_at(loaded, batch.len() - 1)) {
            Some(bytes) => head.push(bytes),
            None => head,
        }
    }
}

/// Prepares the bytes of a file for scanning.
pub fn normalize(path: &str, bytes: &Vec<u8>) -> (r: Vec<u8>)
    ensures
        r@ == normalized(path@, bytes@),
{
    let chars = chars_of(path);
    let len = chars.len();
    let component = match find_extension_dot(&chars) {
        Some(at) => path.substring_char(at + 1, len).to_owned() == "svelte".to_owned(),
        None => false,
    };
    if component {
        let needle: Vec<u8> = vec![0x20u8, 0x63u8, 0x6cu8, 0x61u8, 0x73u8, 0x73u8, 0x3au8];
        let with: Vec<u8> = vec![0x20u8];
        assert(needle@ =~= class_directive());
        assert(with@ =~= seq![0x20u8]);
        replace_all(bytes.as_slice(), needle.as_slice(), with.as_slice())
    } else {
        bytes.clone()
    }
}

/// The bytes to scan for one item, given what reading its file gave.
pub fn read_changed_content(item: &ChangedContent, loaded: &Option<Vec<u8>>) -> (r: Option<Vec<u8>>)
    ensures
        match r {
            Some(bytes) => content_of(
                item@,
                match *loaded {
                    Some(b) => Some(b@),
                    None => None,
                },
            ) == Some(bytes@),
            None => content_of(
                item@,
                match *loaded {
                    Some(b) => Some(b@),
                    None => None,
                },
            ) is None,
        },
{
    match &item.content {
        Some(text) => Some(text.as_str().as_bytes_vec()),
        None => match (&item.file, loaded) {
            (Some(path), Some(bytes)) => Some(normalize(path.as_str(), bytes)),
            _ => None,
        },
    }
}

/// The bytes to scan for a batch. `loaded` holds, for each item in order,
/// what reading its file gave; an item that gives no bytes is left out.
pub fn read_all_files(batch: &Vec<ChangedContent>, loaded: &Vec<Option<Vec<u8>>>) -> (blobs: Vec<
    Vec<u8>,
>)
    ensures
        blobs_bytes(blobs@) == contents_of(batch_text(batch@), loaded_bytes(loaded@)),
{
    let mut blobs: Vec<Vec<u8>> = Vec::new();
    let ghost all = batch_text(batch@);
    let mut i: usize = 0;
    let none: Option<Vec<u8>> = None;
    assert(all.take(0) =~= Seq::<ChangedText>::empty());
    assert(blobs_bytes(blobs@) =~= Seq::<Seq<u8>>::empty());
    while i < batch.len()
        invariant
            i <= batch@.len(),
            all == batch_text(batch@),
            none is None,
            blobs_bytes(blobs@) == contents_of(all.take(i as int), loaded_bytes(loaded@)),
        decreases batch@.len() - i,
    {
        let ghost before = blobs_bytes(blobs@);
        assert(all.take(i + 1).drop_last() =~= all.take(i as int));
        let given = if i < loaded.len() {
            &loaded[i]
        } else {
            &none
        };
        match read_changed_content(&batch[i], given) {
            Some(bytes) => {
                let ghost view = bytes@;
                blobs.push(bytes);
                assert(blobs_bytes(blobs@) =~= before.push(view));
            },
            None => {},
        }
        i += 1;
    }
    assert(all.take(i as int) =~= all);
    blobs
}

/// The candidates of all the buffers together.
pub open spec fn candidates_in(blobs: Seq<Seq<u8>>) -> Set<Seq<char>> {
    Set::new(
        |text: Seq<char>| exists|i: int| 0 <= i < blobs.len() && candidates(blobs[i]).contains(text),
    )
}

/// The texts of positions, in order.
pub open spec fn names(items: Seq<(Seq<char>, int)>) -> Seq<Seq<char>> {
    Seq::new(items.len(), |i: int| items[i].0)
}

/// Every candidate of every buffer in the order of extraction: buffer after
/// buffer, and within a buffer in source order, repeats included.
pub open spec fn extracted(blobs: Seq<Seq<u8>>) -> Seq<Seq<char>>
    decreases blobs.len(),
{
    if blobs.len() == 0 {
        Seq::empty()
    } else {
        extracted(blobs.drop_last()) + names(positions(blobs.last()))
    }
}

/// The texts that are not known, each at the place where it is first met.
pub open spec fn novel(texts: Seq<Seq<char>>, known: Set<Seq<char>>) -> Seq<Seq<char>>
    decreases texts.len(),
{
    if texts.len() == 0 {
        Seq::empty()
    } else {
        let head = novel(texts.drop_last(), known);
        if known.contains(texts.last()) || head.contains(texts.last()) {
            head
        } else {
            head.push(texts.last())
        }
    }
}

/// The novel texts are the texts that are not known, each once.
pub proof fn lemma_novel(texts: Seq<Seq<char>>, known: Set<Seq<char>>)
    ensures
        novel(texts, known).no_duplicates(),
        forall|t: Seq<char>| #[trigger]
            novel(texts, known).contains(t) <==> texts.contains(t) && !known.contains(t),
        novel(texts, known).to_set() == texts.to_set().difference(known),
    decreases texts.len(),
{
    let all = novel(texts, known);
    if texts.len() > 0 {
        let init = texts.drop_last();
        let last = texts.last();
        let head = novel(init, known);
        lemma_novel(init, known);
        assert forall|t: Seq<char>| #[trigger] all.contains(t) <==> texts.contains(t)
            && !known.contains(t) by {
            assert(head.contains(t) <==> init.contains(t) && !known.contains(t));
            if texts.contains(t) {
                let k = choose|k: int| 0 <= k < texts.len() && texts[k] == t;
                if k < init.len() {
                    assert(init[k] == t);
                }
            }
            if init.contains(t) {
                let k = choose|k: int| 0 <= k < init.len() && init[k] == t;
                assert(texts[k] == t);
            }
            assert(texts[texts.len() - 1] == last);
            if all != head {
                assert(all[head.len() as int] == last);
                if head.contains(t) {
                    let k = choose|k: int| 0 <= k < head.len() && head[k] == t;
                    assert(all[k] == t);
                }
                if all.contains(t) {
                    let k = choose|k: int| 0 <= k < all.len() && all[k] == t;
                    if k < head.len() {
                        assert(head[k] == t);
                    }
                }
            }
        }
    }
    assert(all.to_set() =~= texts.to_set().difference(known));
}

/// What is extracted from buffers holds exactly their candidates.
pub proof fn lemma_extracted(blobs: Seq<Seq<u8>>)
    ensures
        extracted(blobs).to_set() == candidates_in(blobs),
    decreases blobs.len(),
{
    if blobs.len() > 0 {
        let init = blobs.drop_last();
        let last = blobs.last();
        lemma_extracted(init);
        crate::parser::lemma_candidates_are_positions(last);
        let tail = names(positions(last));
        vstd::seq_lib::seq_to_set_distributes_over_add(extracted(init), tail);
        assert forall|t: Seq<char>| tail.to_set().contains(t) <==> candidates(last).contains(t) by {
            if tail.contains(t) {
                let k = choose|k: int| 0 <= k < tail.len() && tail[k] == t;
                assert(positions(last)[k].0 == t);
            }
            if crate::parser::texts_in(positions(last)).contains(t) {
                let k = choose|k: int| 0 <= k < positions(last).len() && positions(last)[k].0 == t;
                assert(tail[k] == t);
            }
        }
        assert(tail.to_set() =~= candidates(last));
        assert(blobs =~= init + seq![last]);
        lemma_candidates_of_parts(init, seq![last]);
        assert(candidates_in(seq![last]) =~= candidates(last)) by {
            assert forall|t: Seq<char>| candidates_in(seq![last]).contains(t) <==> candidates(
                last,
            ).contains(t) by {
                if candidates(last).contains(t) {
                    assert(seq![last][0] == last);
                }
            }
        }
    } else {
        assert(extracted(blobs).to_set() =~= candidates_in(blobs));
    }
}

/// The candidates of buffers scanned together are those of any two parts of
/// them scanned apart: how the buffers are shared out among workers does not
/// show in the result.
pub proof fn lemma_candidates_of_parts(a: Seq<Seq<u8>>, b: Seq<Seq<u8>>)
    ensures
        candidates_in(a + b) == candidates_in(a).union(candidates_in(b)),
{
    let whole = a + b;
    assert forall|t: Seq<char>| candidates_in(whole).contains(t) <==> (candidates_in(a).contains(t)
        || candidates_in(b).contains(t)) by {
        if candidates_in(whole).contains(t) {
            let k = choose|k: int| 0 <= k < whole.len() && candidates(whole[k]).contains(t);
            if k < a.len() {
                assert(whole[k] == a[k]);
            } else {
                assert(whole[k] == b[k - a.len()]);
            }
        }
        if candidates_in(a).contains(t) {
            let k = choose|k: int| 0 <= k < a.len() && candidates(a[k]).contains(t);
            assert(whole[k] == a[k]);
        }
        if candidates_in(b).contains(t) {
            let k = choose|k: int| 0 <= k < b.len() && candidates(b[k]).contains(t);
            assert(whole[a.len() + k] == b[k]);
        }
    }
    assert(candidates_in(whole) =~= candidates_in(a).union(candidates_in(b)));
}

/// The order in which buffers are scanned does not show in the result.
pub proof fn lemma_candidates_any_order(a: Seq<Seq<u8>>, b: Seq<Seq<u8>>)
    ensures
        candidates_in(a + b) == candidates_in(b + a),
{
    lemma_candidates_of_parts(a, b);
    lemma_candidates_of_parts(b, a);
    assert(candidates_in(a).union(candidates_in(b)) =~= candidates_in(b).union(candidates_in(a)));
}

/// Every candidate of buffers that hold no opening bracket is a piece of one
/// of them between two boundaries, made of plain bytes only. So what a scan
/// adds from such files holds no white space, no quote and no `=`, and
/// nothing that stands in none of the files.
pub proof fn lemma_plain_content_gives_plain_candidates(blobs: Seq<Seq<u8>>, text: Seq<char>)
    requires
        forall|k: int, i: int|
            0 <= k < blobs.len() && 0 <= i < blobs[k].len() ==> #[trigger] blobs[k][i] != 0x5b,
        candidates_in(blobs).contains(text),
    ensures
        exists|k: int| 0 <= k < blobs.len() && crate::parser::is_plain_cut(#[trigger] blobs[k], text),
{
    let k = choose|k: int| 0 <= k < blobs.len() && candidates(blobs[k]).contains(text);
    crate::parser::lemma_candidates_of_plain_buffer(blobs[k], text);
}

/// The texts of a set, each once, in strictly rising byte-wise order.
pub fn sorted_items(set: &FxHashSet<String>) -> (items: Vec<String>)
    ensures
        rising(strings_text(items@)),
        strings_text(items@).to_set() == set_texts(*set),
{
    let mut items = set_items(set);
    sort_distinct(&mut items);
    items
}

/// Runs `Extractor::unique` on every buffer through `rayon`'s `par_iter`,
/// `map` and `collect`, which hand the buffers out to worker threads and put
/// the results back in the order of the buffers: one set per buffer, each the
/// candidates of its buffer.
#[verifier::external_body]
pub(crate) fn par_unique(blobs: &Vec<Vec<u8>>) -> (sets: Vec<FxHashSet<String>>)
    ensures
        sets@.len() == blobs@.len(),
        forall|i: int|
            0 <= i < blobs@.len() ==> set_texts(#[trigger] sets@[i]) == candidates(blobs@[i]@),
{
    blobs.par_iter().map(|blob| Extractor::unique(blob)).collect()
}

/// Adds the texts of one set to another.
pub fn absorb(target: &mut FxHashSet<String>, source: &FxHashSet<String>)
    ensures
        set_texts(*final(target)) == set_texts(*old(target)).union(set_texts(*source)),
{
    let items = set_items(source);
    let ghost all = strings_text(items@);
    let ghost given = set_texts(*target);
    let mut i: usize = 0;
    assert(given.union(all.take(0).to_set()) =~= given);
    while i < items.len()
        invariant
            i <= items@.len(),
            all == strings_text(items@),
            set_texts(*target) == given.union(all.take(i as int).to_set()),
        decreases items@.len() - i,
    {
        set_insert(target, items[i].clone());
        proof {
            assert(all.take(i + 1) =~= all.take(i as int).push(items@[i as int]@));
            all.take(i as int).lemma_push_to_set_commute(items@[i as int]@);
            assert(set_texts(*target) =~= given.union(all.take(i + 1).to_set()));
        }
        i += 1;
    }
    assert(all.take(i as int) =~= all);
}

/// Adds the candidates of every buffer to a set. The buffers are scanned in
/// parallel; the results are folded into the set one after the other.
pub fn extract_all(set: &mut FxHashSet<String>, blobs: &Vec<Vec<u8>>)
    ensures
        set_texts(*final(set)) == set_texts(*old(set)).union(candidates_in(blobs_bytes(blobs@))),
{
    let sets = par_unique(blobs);
    let ghost all = blobs_bytes(blobs@);
    let ghost given = set_texts(*set);
    let mut i: usize = 0;
    assert(given.union(candidates_in(all.take(0))) =~= given);
    while i < sets.len()
        invariant
            i <= sets@.len(),
            sets@.len() == blobs@.len(),
            all == blobs_bytes(blobs@),
            forall|k: int|
                0 <= k < blobs@.len() ==> set_texts(#[trigger] sets@[k]) == candidates(blobs@[k]@),
            set_texts(*set) == given.union(candidates_in(all.take(i as int))),
        decreases sets@.len() - i,
    {
        absorb(set, &sets[i]);
        proof {
            let added = candidates(blobs@[i as int]@);
            let done = all.take(i as int);
            let next = all.take(i + 1);
            assert(next[i as int] == blobs@[i as int]@);
            assert forall|t: Seq<char>| candidates_in(next).contains(t) <==> (candidates_in(
                done,
            ).contains(t) || added.contains(t)) by {
                if candidates_in(next).contains(t) {
                    let k = choose|k: int| 0 <= k < next.len() && candidates(next[k]).contains(t);
                    if k < i {
                        assert(done[k] == next[k]);
                    }
                }
                if candidates_in(done).contains(t) {
                    let k = choose|k: int| 0 <= k < done.len() && candidates(done[k]).contains(t);
                    assert(next[k] == done[k]);
                }
            }
            assert(set_texts(*set) =~= given.union(candidates_in(all.take(i + 1))));
        }
        i += 1;
    }
    assert(all.take(i as int) =~= all);
}

/// The distinct candidates of all the buffers, in strictly rising byte-wise
/// order.
pub fn parse_all_blobs(blobs: &Vec<Vec<u8>>) -> (r: Vec<String>)
    ensures
        rising(strings_text(r@)),
        strings_text(r@).to_set() == candidates_in(blobs_bytes(blobs@)),
{
    let mut set = set_new();
    extract_all(&mut set, blobs);
    assert(set_texts(set) =~= candidates_in(blobs_bytes(blobs@)));
    sorted_items(&set)
}

} // verus!
