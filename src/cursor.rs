//! Cursor sets: every position in a trie that the bytes consumed on one
//! stream can reach.
use crate::dict::{classify, copy_cursor, cursor_entries, cursor_prefix, query_cursor};
use trie_rs::inc_search::IncSearch;
use vstd::prelude::*;

verus! {

/// A cursor as the search sees it: the words of its trie with their values, and
/// the bytes that it has consumed.
pub type CursorView = (Map<Seq<u8>, u64>, Seq<u8>);

pub open spec fn cursor_view(c: IncSearch<'_, u8, u64>) -> CursorView {
    (cursor_entries(c), cursor_prefix(c))
}

/// Some word of the cursor's trie goes on with `b` after the consumed bytes.
pub open spec fn accepts(c: CursorView, b: u8) -> bool {
    classify(c.0, c.1.push(b)) is Some
}

/// The cursor after consuming `b`.
pub open spec fn stepped(c: CursorView, b: u8) -> CursorView {
    (c.0, c.1.push(b))
}

/// The cursors of `qs` that accept `b`, in their order, each after consuming it.
pub open spec fn advance(qs: Seq<CursorView>, b: u8) -> Seq<CursorView>
    decreases qs.len(),
{
    if qs.len() == 0 {
        Seq::empty()
    } else if accepts(qs.last(), b) {
        advance(qs.drop_last(), b).push(stepped(qs.last(), b))
    } else {
        advance(qs.drop_last(), b)
    }
}

/// The first cursor of `qs` that accepts `b`.
pub open spec fn first_acceptor(qs: Seq<CursorView>, b: u8) -> Option<CursorView>
    decreases qs.len(),
{
    if qs.len() == 0 {
        None
    } else if first_acceptor(qs.drop_last(), b) is Some {
        first_acceptor(qs.drop_last(), b)
    } else if accepts(qs.last(), b) {
        Some(qs.last())
    } else {
        None
    }
}

/// A first acceptor among the first `j` cursors is the first acceptor of all.
pub proof fn lemma_first_acceptor_prefix(qs: Seq<CursorView>, b: u8, j: int)
    requires
        0 <= j <= qs.len(),
        first_acceptor(qs.subrange(0, j), b) is Some,
    ensures
        first_acceptor(qs, b) == first_acceptor(qs.subrange(0, j), b),
    decreases qs.len() - j,
{
    if j < qs.len() {
        assert(qs.subrange(0, j + 1).drop_last() =~= qs.subrange(0, j));
        lemma_first_acceptor_prefix(qs, b, j + 1);
    } else {
        assert(qs.subrange(0, j) =~= qs);
    }
}

/// Every cursor that the bytes consumed so far on one stream can reach.
pub struct Queries<'a> {
    pub inner: Vec<IncSearch<'a, u8, u64>>,
}

impl<'a> View for Queries<'a> {
    type V = Seq<CursorView>;

    open spec fn view(&self) -> Seq<CursorView> {
        self.inner@.map_values(|c: IncSearch<'a, u8, u64>| cursor_view(c))
    }
}

impl<'a> Queries<'a> {
    /// The set of the one cursor `inner`.
    pub fn new(inner: IncSearch<'a, u8, u64>) -> (r: Self)
        ensures
            r@ == seq![cursor_view(inner)],
    {
        let r = Queries { inner: vec![inner] };
        assert(r@ =~= seq![cursor_view(inner)]);
        r
    }

    /// An independent copy of the set.
    pub fn duplicate(&self) -> (r: Self)
        ensures
            r@ == self@,
    {
        let mut v: Vec<IncSearch<'a, u8, u64>> = Vec::with_capacity(self.inner.len());
        let mut i: usize = 0;
        while i < self.inner.len()
            invariant
                i <= self.inner.len(),
                v.len() == i,
                forall|j: int| 0 <= j < i ==> cursor_view(#[trigger] v@[j]) == cursor_view(self.inner@[j]),
            decreases self.inner.len() - i,
        {
            v.push(copy_cursor(&self.inner[i]));
            i += 1;
        }
        let r = Queries { inner: v };
        assert(r@ =~= self@);
        r
    }

    /// Keeps exactly the cursors that accept `q`, each after consuming it; an
    /// empty result is a dead end.
    pub fn advance_all(&mut self, q: u8)
        ensures
            final(self)@ == advance(old(self)@, q),
    {
        let mut out: Vec<IncSearch<'a, u8, u64>> = Vec::with_capacity(self.inner.len());
        let mut i: usize = 0;
        while i < self.inner.len()
            invariant
                i <= self.inner.len(),
                out@.map_values(|c: IncSearch<'a, u8, u64>| cursor_view(c)) == advance(
                    self@.subrange(0, i as int),
                    q,
                ),
            decreases self.inner.len() - i,
        {
            let ghost before = out@;
            let mut c = copy_cursor(&self.inner[i]);
            let found = query_cursor(&mut c, q);
            assert(self@.subrange(0, i + 1).drop_last() =~= self@.subrange(0, i as int));
            if found.is_some() {
                out.push(c);
                assert(out@.map_values(|c: IncSearch<'a, u8, u64>| cursor_view(c)) =~= before.map_values(
                    |c: IncSearch<'a, u8, u64>| cursor_view(c),
                ).push(cursor_view(c)));
            }
            i += 1;
        }
        assert(self@.subrange(0, i as int) =~= self@);
        self.inner = out;
    }
}

} // verus!
