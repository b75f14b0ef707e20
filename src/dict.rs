//! The dictionary trie: `trie_rs`'s trie over bytes, as the search sees it.
//!
//! A trie is modelled by the map from each of its words to that word's value;
//! a cursor into it by that map and the bytes it has consumed.
use trie_rs::inc_search::{Answer, IncSearch};
use trie_rs::map::Trie;
use vstd::prelude::*;
use vstd::string::StringSliceAdditionalSpecFns;
use vstd::slice::slice_to_vec;

verus! {

#[verifier::external_type_specification]
#[verifier::external_body]
#[verifier::reject_recursive_types(Label)]
#[verifier::reject_recursive_types(Value)]
pub struct ExTrie<Label, Value>(Trie<Label, Value>);

#[verifier::external_type_specification]
#[verifier::external_body]
#[verifier::reject_recursive_types(Label)]
#[verifier::reject_recursive_types(Value)]
pub struct ExIncSearch<'a, Label, Value>(IncSearch<'a, Label, Value>);

/// The words of a trie, each with its value.
pub uninterp spec fn trie_entries(t: Trie<u8, u64>) -> Map<Seq<u8>, u64>;

/// The words of the trie that a cursor walks, each with its value.
pub uninterp spec fn cursor_entries(c: IncSearch<'_, u8, u64>) -> Map<Seq<u8>, u64>;

/// The bytes that a cursor has consumed since it stood at the root.
pub uninterp spec fn cursor_prefix(c: IncSearch<'_, u8, u64>) -> Seq<u8>;

/// How one byte more relates to the words of a trie.
#[derive(Clone, Copy, Debug, PartialEq, Eq, Structural)]
pub enum Classification {
    /// The bytes so far begin a longer word, and are no word themselves.
    Prefix,
    /// The bytes so far are a word, and no longer word begins with them.
    Match,
    /// The bytes so far are a word and begin a longer one.
    PrefixAndMatch,
}

impl Classification {
    pub open spec fn continues(self) -> bool {
        self is Prefix || self is PrefixAndMatch
    }

    pub open spec fn completes(self) -> bool {
        self is Match || self is PrefixAndMatch
    }

    /// Whether a longer word begins with the bytes so far.
    pub fn is_prefix(&self) -> (r: bool)
        ensures
            r == self.continues(),
    {
        match self {
            Classification::Prefix => true,
            Classification::Match => false,
            Classification::PrefixAndMatch => true,
        }
    }

    /// Whether the bytes so far are a word.
    pub fn is_match(&self) -> (r: bool)
        ensures
            r == self.completes(),
    {
        match self {
            Classification::Prefix => false,
            Classification::Match => true,
            Classification::PrefixAndMatch => true,
        }
    }
}

/// `p` is a strict prefix of `w`.
pub open spec fn strict_prefix(p: Seq<u8>, w: Seq<u8>) -> bool {
    p.len() < w.len() && w.subrange(0, p.len() as int) == p
}

/// Some word of `m` is longer than `q` and begins with it.
pub open spec fn extends(m: Map<Seq<u8>, u64>, q: Seq<u8>) -> bool {
    exists|w: Seq<u8>| m.dom().contains(w) && #[trigger] strict_prefix(q, w)
}

/// The classification of the bytes `q` against the words of `m`, or `None` where
/// no word begins with them.
pub open spec fn classify(m: Map<Seq<u8>, u64>, q: Seq<u8>) -> Option<Classification> {
    if extends(m, q) && m.dom().contains(q) {
        Some(Classification::PrefixAndMatch)
    } else if extends(m, q) {
        Some(Classification::Prefix)
    } else if m.dom().contains(q) {
        Some(Classification::Match)
    } else {
        None
    }
}

/// The value stored at the bytes `q`, where they are a non-empty word of `m`.
pub open spec fn value_at(m: Map<Seq<u8>, u64>, q: Seq<u8>) -> Option<u64> {
    if q.len() > 0 && m.dom().contains(q) {
        Some(m[q])
    } else {
        None
    }
}

/// Relies on `trie_rs::map::Trie::inc_search`: a cursor at the root of the trie.
#[verifier::external_body]
pub fn root_cursor<'a>(t: &'a Trie<u8, u64>) -> (c: IncSearch<'a, u8, u64>)
    ensures
        cursor_entries(c) == trie_entries(*t),
        cursor_prefix(c) == Seq::<u8>::empty(),
{
    t.inc_search()
}

/// Relies on `trie_rs::inc_search::IncSearch::peek`: the answer for the consumed
/// bytes and `b`, without moving the cursor.
#[verifier::external_body]
pub fn peek_cursor(c: &IncSearch<'_, u8, u64>, b: u8) -> (r: Option<Classification>)
    ensures
        r == classify(cursor_entries(*c), cursor_prefix(*c).push(b)),
{
    match c.peek(&b) {
        Some(Answer::Prefix) => Some(Classification::Prefix),
        Some(Answer::Match) => Some(Classification::Match),
        Some(Answer::PrefixAndMatch) => Some(Classification::PrefixAndMatch),
        None => None,
    }
}

/// Relies on `trie_rs::inc_search::IncSearch::query`: as `peek`, and the cursor
/// consumes `b` where some word goes on with it.
#[verifier::external_body]
pub fn query_cursor(c: &mut IncSearch<'_, u8, u64>, b: u8) -> (r: Option<Classification>)
    ensures
        r == classify(cursor_entries(*old(c)), cursor_prefix(*old(c)).push(b)),
        cursor_entries(*final(c)) == cursor_entries(*old(c)),
        cursor_prefix(*final(c)) == if r is Some {
            cursor_prefix(*old(c)).push(b)
        } else {
            cursor_prefix(*old(c))
        },
{
    match c.query(&b) {
        Some(Answer::Prefix) => Some(Classification::Prefix),
        Some(Answer::Match) => Some(Classification::Match),
        Some(Answer::PrefixAndMatch) => Some(Classification::PrefixAndMatch),
        None => None,
    }
}

/// Relies on `trie_rs::inc_search::IncSearch::value`: the value of the word that
/// the consumed bytes form; the root holds none.
#[verifier::external_body]
pub fn cursor_value(c: &IncSearch<'_, u8, u64>) -> (r: Option<u64>)
    ensures
        r == value_at(cursor_entries(*c), cursor_prefix(*c)),
{
    c.value().copied()
}

/// Relies on the `Clone` that `IncSearch` derives: the copy walks the same trie
/// and stands at the same node.
#[verifier::external_body]
pub fn copy_cursor<'a>(c: &IncSearch<'a, u8, u64>) -> (r: IncSearch<'a, u8, u64>)
    ensures
        cursor_entries(r) == cursor_entries(*c),
        cursor_prefix(r) == cursor_prefix(*c),
{
    c.clone()
}

/// The words and values that pushing `pairs` in order leaves in a trie: a later
/// value for a word replaces an earlier one.
pub open spec fn entries_of(pairs: Seq<(Seq<u8>, u64)>) -> Map<Seq<u8>, u64>
    decreases pairs.len(),
{
    if pairs.len() == 0 {
        Map::empty()
    } else {
        entries_of(pairs.drop_last()).insert(pairs.last().0, pairs.last().1)
    }
}

/// The pairs of a list of words and values, as sequences of bytes.
pub open spec fn pairs_view(pairs: Seq<(Vec<u8>, u64)>) -> Seq<(Seq<u8>, u64)> {
    pairs.map_values(|p: (Vec<u8>, u64)| (p.0@, p.1))
}

/// Relies on `FromIterator` for `trie_rs::map::Trie`: it pushes each word with
/// its value in turn, a later value replacing an earlier one; it panics on an
/// empty word.
#[verifier::external_body]
pub(crate) fn trie_of(pairs: Vec<(Vec<u8>, u64)>) -> (t: Trie<u8, u64>)
    requires
        forall|i: int| 0 <= i < pairs.len() ==> pairs@[i].0@.len() > 0,
    ensures
        trie_entries(t) == entries_of(pairs_view(pairs@)),
{
    pairs.into_iter().collect()
}

/// Each of `words` as bytes, with the value 0.
pub open spec fn plain_pairs(words: Seq<&str>) -> Seq<(Seq<u8>, u64)> {
    Seq::new(words.len(), |i: int| (words[i].spec_bytes(), 0u64))
}

/// Builds a dictionary trie of `words`, each word with the value 0.
pub fn build_trie(words: &[&str]) -> (t: Trie<u8, u64>)
    requires
        forall|i: int| 0 <= i < words@.len() ==> (#[trigger] words@[i]).spec_bytes().len() > 0,
    ensures
        trie_entries(t) == entries_of(plain_pairs(words@)),
{
    let mut pairs: Vec<(Vec<u8>, u64)> = Vec::with_capacity(words.len());
    let mut i: usize = 0;
    while i < words.len()
        invariant
            i <= words@.len(),
            pairs.len() == i,
            pairs_view(pairs@) == plain_pairs(words@).subrange(0, i as int),
            forall|j: int| 0 <= j < pairs.len() ==> pairs@[j].0@.len() > 0,
            forall|j: int| 0 <= j < words@.len() ==> (#[trigger] words@[j]).spec_bytes().len() > 0,
        decreases words.len() - i,
    {
        let w: Vec<u8> = slice_to_vec(words[i].as_bytes());
        assert(w@ == words@[i as int].spec_bytes());
        pairs.push((w, 0));
        assert(pairs@[i as int].0@ == words@[i as int].spec_bytes());
        assert(pairs_view(pairs@)[i as int] == plain_pairs(words@)[i as int]);
        i += 1;
        assert(pairs_view(pairs@) =~= plain_pairs(words@).subrange(0, i as int));
    }
    assert(pairs_view(pairs@) =~= plain_pairs(words@));
    trie_of(pairs)
}

} // verus!
