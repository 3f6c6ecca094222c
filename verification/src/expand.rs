//! Brace expansion of glob sources.

use crate::glob::texts;
use crate::glob::GlobEntry;
use crate::glob::GlobText;
use crate::text::chars_of;
use bexpand::Expression;
use vstd::prelude::*;

verus! {

/// The longest pattern that is handed to an outside parser.
pub const MAX_PATTERN_LEN: usize = 4096;

/// The most opening braces that a pattern handed to an outside parser may hold.
pub const MAX_PATTERN_BRACES: usize = 32;

/// How many braces open in `pattern`.
pub open spec fn braces(pattern: Seq<char>) -> nat
    decreases pattern.len(),
{
    if pattern.len() == 0 {
        0
    } else {
        braces(pattern.drop_last()) + if pattern.last() == '{' {
            1nat
        } else {
            0nat
        }
    }
}

/// The pattern is short and shallow enough for the outside parsers, which
/// recurse on nested braces.
pub open spec fn tame(pattern: Seq<char>) -> bool {
    pattern.len() <= MAX_PATTERN_LEN && braces(pattern) <= MAX_PATTERN_BRACES
}

/// Whether a pattern is tame.
pub fn is_tame(pattern: &str) -> (r: bool)
    ensures
        r == tame(pattern@),
{
    let chars = chars_of(pattern);
    chars.len() <= MAX_PATTERN_LEN && count_braces(&chars) <= MAX_PATTERN_BRACES
}

/// Whether a pattern is handed on for expansion.
pub fn is_expandable(pattern: &str) -> (r: bool)
    ensures
        r == expandable(pattern@),
{
    let chars = chars_of(pattern);
    let count = count_braces(&chars);
    0 < count && count <= MAX_PATTERN_BRACES && chars.len() <= MAX_PATTERN_LEN
}

/// Counts the braces that open in a pattern.
pub fn count_braces(chars: &Vec<char>) -> (count: usize)
    ensures
        count == braces(chars@),
{
    let mut count: usize = 0;
    let mut i: usize = 0;
    assert(chars@.take(0) =~= Seq::<char>::empty());
    while i < chars.len()
        invariant
            i <= chars@.len(),
            count == braces(chars@.take(i as int)),
            count <= i,
        decreases chars@.len() - i,
    {
        assert(chars@.take(i + 1).drop_last() =~= chars@.take(i as int));
        if chars[i] == '{' {
            count += 1;
        }
        i += 1;
    }
    assert(chars@.take(i as int) =~= chars@);
    count
}

/// What `bexpand` makes of a pattern: nothing where the pattern is no brace
/// expression, else the expansions in the order in which they are produced,
/// each a text, or nothing where that one expansion could not be built.
pub uninterp spec fn brace_expansion(pattern: Seq<char>) -> Option<Seq<Option<Seq<char>>>>;

/// An expansion as text.
pub open spec fn expansion_text(expansion: Option<Vec<Option<String>>>) -> Option<
    Seq<Option<Seq<char>>>,
> {
    match expansion {
        None => None,
        Some(items) => Some(
            Seq::new(
                items@.len(),
                |i: int|
                    match items@[i] {
                        Some(text) => Some(text@),
                        None => None,
                    },
            ),
        ),
    }
}

/// Parses `pattern` with `bexpand::Expression::try_from` and walks the
/// expression's iterator to its end. The contract names the outcome
/// `brace_expansion(pattern)`: `None` where parsing fails, else one item per
/// expansion, in the iterator's order, `None` for an item that the iterator
/// reports as an error. The parser recurses on nested braces, so only tame
/// patterns are admitted. A numeric sequence is produced whole, however long.
#[verifier::external_body]
pub(crate) fn brace_expand(pattern: &str) -> (expansion: Option<Vec<Option<String>>>)
    requires
        tame(pattern@),
    ensures
        expansion_text(expansion) == brace_expansion(pattern@),
{
    match Expression::try_from(pattern) {
        Ok(expression) => Some(
            expression.into_iter().map(|item| item.ok().map(|text| text.into_owned())).collect(),
        ),
        Err(_) => None,
    }
}

/// The entries that the given expansions of one base stand for: one per
/// expansion that could be built, in order.
pub open spec fn entries_of(base: Seq<char>, items: Seq<Option<Seq<char>>>) -> Seq<GlobText>
    decreases items.len(),
{
    if items.len() == 0 {
        Seq::empty()
    } else {
        let head = entries_of(base, items.drop_last());
        match items.last() {
            Some(pattern) => head.push(GlobText { base, pattern }),
            None => head,
        }
    }
}

/// What a source becomes once its pattern's expansion is known: itself where
/// there is none, else one entry per expansion, under the same base.
pub open spec fn expanded(source: GlobText, expansion: Option<Seq<Option<Seq<char>>>>) -> Seq<
    GlobText,
> {
    match expansion {
        None => seq![source],
        Some(items) => entries_of(source.base, items),
    }
}

/// The pattern holds a brace that may open an alternation group, and is tame.
pub open spec fn expandable(pattern: Seq<char>) -> bool {
    braces(pattern) > 0 && tame(pattern)
}

/// The expansion that is asked of a pattern: none where it is not expandable.
pub open spec fn expansion_of(pattern: Seq<char>) -> Option<Seq<Option<Seq<char>>>> {
    if expandable(pattern) {
        brace_expansion(pattern)
    } else {
        None
    }
}

/// Every entry that comes of a source has the base of the source.
pub proof fn lemma_expansion_keeps_base(base: Seq<char>, items: Seq<Option<Seq<char>>>, k: int)
    requires
        0 <= k < entries_of(base, items).len(),
    ensures
        entries_of(base, items)[k].base == base,
    decreases items.len(),
{
    let head = entries_of(base, items.drop_last());
    if k < head.len() {
        lemma_expansion_keeps_base(base, items.drop_last(), k);
    }
}

/// A source whose pattern opens no brace comes through expansion as it is.
pub proof fn lemma_plain_pattern_is_kept(source: GlobText)
    requires
        braces(source.pattern) == 0,
    ensures
        expanded(source, expansion_of(source.pattern)) == seq![source],
{
}

/// All sources expanded, in order.
pub open spec fn expanded_all(sources: Seq<GlobText>) -> Seq<GlobText>
    decreases sources.len(),
{
    if sources.len() == 0 {
        Seq::empty()
    } else {
        expanded_all(sources.drop_last()) + expanded(
            sources.last(),
            expansion_of(sources.last().pattern),
        )
    }
}

/// Turns a source and the expansion of its pattern into entries.
pub fn expand_entry(source: &GlobEntry, expansion: &Option<Vec<Option<String>>>) -> (r: Vec<
    GlobEntry,
>)
    ensures
        texts(r@) == expanded(source@, expansion_text(*expansion)),
{
    let mut r: Vec<GlobEntry> = Vec::new();
    match expansion {
        None => {
            r.push(source.duplicate());
            assert(texts(r@) =~= seq![source@]);
        },
        Some(items) => {
            let ghost all = expansion_text(*expansion)->0;
            let mut i: usize = 0;
            assert(all.take(0) =~= Seq::<Option<Seq<char>>>::empty());
            assert(texts(r@) =~= Seq::<GlobText>::empty());
            while i < items.len()
                invariant
                    i <= items@.len(),
                    all == expansion_text(Some(*items))->0,
                    all.len() == items@.len(),
                    texts(r@) == entries_of(source@.base, all.take(i as int)),
                decreases items@.len() - i,
            {
                let ghost before = texts(r@);
                assert(all.take(i + 1).drop_last() =~= all.take(i as int));
                match &items[i] {
                    Some(pattern) => {
                        r.push(GlobEntry { base: source.base.clone(), pattern: pattern.clone() });
                        assert(texts(r@) =~= before.push(
                            GlobText { base: source@.base, pattern: pattern@ },
                        ));
                    },
                    None => {},
                }
                i += 1;
            }
            assert(all.take(i as int) =~= all);
        },
    }
    r
}

/// Expands the alternation groups of every source. A pattern that opens no
/// brace, one that is not tame, and one that is no well-formed brace
/// expression come through as they are.
pub fn expand_sources(sources: &Vec<GlobEntry>) -> (r: Vec<GlobEntry>)
    ensures
        texts(r@) == expanded_all(texts(sources@)),
{
    let mut r: Vec<GlobEntry> = Vec::new();
    let mut i: usize = 0;
    assert(texts(sources@).take(0) =~= Seq::<GlobText>::empty());
    assert(texts(r@) =~= Seq::<GlobText>::empty());
    while i < sources.len()
        invariant
            i <= sources@.len(),
            texts(r@) == expanded_all(texts(sources@).take(i as int)),
        decreases sources@.len() - i,
    {
        let ghost before = texts(r@);
        assert(texts(sources@).take(i + 1).drop_last() =~= texts(sources@).take(i as int));
        let source = &sources[i];
        let expansion = if is_expandable(source.pattern.as_str()) {
            brace_expand(source.pattern.as_str())
        } else {
            None
        };
        let mut items = expand_entry(source, &expansion);
        let ghost added = texts(items@);
        r.append(&mut items);
        assert(texts(r@) =~= before + added);
        i += 1;
    }
    assert(texts(sources@).take(i as int) =~= texts(sources@));
    r
}

} // verus!
