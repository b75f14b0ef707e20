//! The candidate enumerator: the bytes that a stream may consume next, with
//! how each one classifies and the cursor set that follows it.
use crate::alphabet::{charset, separators, special, word_alphabet};
use crate::cursor::{
    advance, cursor_view, first_acceptor, lemma_first_acceptor_prefix, CursorView, Queries,
};
use crate::dict::{
    classify, copy_cursor, cursor_value, peek_cursor, query_cursor, root_cursor, trie_entries,
    value_at, Classification,
};
use trie_rs::map::Trie;
use vstd::prelude::*;

verus! {

/// What a stream must consume next.
#[derive(Clone, Copy, Debug, PartialEq, Eq, Structural)]
pub enum ExpectedNext {
    /// The stream is inside a token: a byte of the word alphabet, against its cursors.
    Word,
    /// The stream has just completed a token: exactly one separator.
    Special,
}

/// A candidate as the search sees it.
pub struct CandidateView {
    pub byte: u8,
    pub class: Classification,
    pub weight: Option<u64>,
    pub cursors: Seq<CursorView>,
}

/// A byte that a stream may consume next: how it classifies, the weight of the
/// word it completes (if any), and the cursor set after it.
pub struct Candidate<'a> {
    pub byte: u8,
    pub class: Classification,
    pub weight: Option<u64>,
    pub cursors: Queries<'a>,
}

impl<'a> View for Candidate<'a> {
    type V = CandidateView;

    open spec fn view(&self) -> CandidateView {
        CandidateView { byte: self.byte, class: self.class, weight: self.weight, cursors: self.cursors@ }
    }
}

pub open spec fn candidates_view<'a>(v: Seq<Candidate<'a>>) -> Seq<CandidateView> {
    v.map_values(|k: Candidate<'a>| k@)
}

/// The candidate for `b` on the cursor set `qs`: classification and weight come
/// from the first cursor that accepts `b`, the cursor set after it from all of them.
pub open spec fn word_candidate(qs: Seq<CursorView>, b: u8) -> Option<CandidateView> {
    match first_acceptor(qs, b) {
        Some(c) => Some(
            CandidateView {
                byte: b,
                class: classify(c.0, c.1.push(b))->0,
                weight: value_at(c.0, c.1.push(b)),
                cursors: advance(qs, b),
            },
        ),
        None => None,
    }
}

/// The candidates among the first `n` bytes of the word alphabet, in its order.
pub open spec fn word_candidates_upto(qs: Seq<CursorView>, n: int) -> Seq<CandidateView>
    decreases n,
{
    if n <= 0 {
        Seq::empty()
    } else {
        match word_candidate(qs, word_alphabet()[n - 1]) {
            Some(k) => word_candidates_upto(qs, n - 1).push(k),
            None => word_candidates_upto(qs, n - 1),
        }
    }
}

/// The candidates of a stream inside a token, in the order of the word alphabet.
pub open spec fn word_candidates(qs: Seq<CursorView>) -> Seq<CandidateView> {
    word_candidates_upto(qs, word_alphabet().len() as int)
}

/// The position of `b` in the word alphabet, or 31 where it is not in it.
pub open spec fn alphabet_rank(b: u8) -> int {
    if 97 <= b <= 122 {
        b - 97
    } else if b == 39 {
        26
    } else if b == 34 {
        27
    } else if b == 32 {
        28
    } else if b == 44 {
        29
    } else if b == 46 {
        30
    } else {
        31
    }
}

/// The candidates among the first `n` bytes of the word alphabet come in the
/// alphabet's order, so no byte comes twice.
pub proof fn lemma_word_candidates_ordered(qs: Seq<CursorView>, n: int)
    requires
        0 <= n <= word_alphabet().len(),
    ensures
        forall|i: int|
            0 <= i < word_candidates_upto(qs, n).len() ==> alphabet_rank(
                (#[trigger] word_candidates_upto(qs, n)[i]).byte,
            ) < n,
        forall|i: int, k: int|
            0 <= i < k < word_candidates_upto(qs, n).len() ==> alphabet_rank(
                (#[trigger] word_candidates_upto(qs, n)[i]).byte,
            ) < alphabet_rank((#[trigger] word_candidates_upto(qs, n)[k]).byte),
    decreases n,
{
    if n > 0 {
        lemma_word_candidates_ordered(qs, n - 1);
        let b = word_alphabet()[n - 1];
        assert(alphabet_rank(b) == n - 1);
    }
}

/// The candidates of a stream that has just completed a token: each separator,
/// as a completed and continuable token, with the cursor set back at the root.
pub open spec fn special_candidates(root: Map<Seq<u8>, u64>) -> Seq<CandidateView> {
    separators().map_values(
        |b: u8|
            CandidateView {
                byte: b,
                class: Classification::PrefixAndMatch,
                weight: None,
                cursors: seq![(root, Seq::<u8>::empty())],
            },
    )
}

pub open spec fn candidates_for(
    qs: Seq<CursorView>,
    e: ExpectedNext,
    root: Map<Seq<u8>, u64>,
) -> Seq<CandidateView> {
    match e {
        ExpectedNext::Word => word_candidates(qs),
        ExpectedNext::Special => special_candidates(root),
    }
}

/// The candidate for `b` on `q`, where some cursor accepts it.
fn word_candidate_exec<'a>(q: &Queries<'a>, b: u8) -> (r: Option<Candidate<'a>>)
    ensures
        match r {
            Some(k) => word_candidate(q@, b) == Some(k@),
            None => word_candidate(q@, b) is None,
        },
{
    let n = q.inner.len();
    let mut j: usize = 0;
    while j < n
        invariant
            n == q.inner.len(),
            j <= n,
            first_acceptor(q@.subrange(0, j as int), b) is None,
        decreases n - j,
    {
        let ans = peek_cursor(&q.inner[j], b);
        assert(q@.subrange(0, j + 1).drop_last() =~= q@.subrange(0, j as int));
        assert(q@[j as int] == cursor_view(q.inner@[j as int]));
        match ans {
            Some(class) => {
                proof {
                    lemma_first_acceptor_prefix(q@, b, j + 1);
                }
                let mut c = copy_cursor(&q.inner[j]);
                query_cursor(&mut c, b);
                let weight = cursor_value(&c);
                let mut cursors = q.duplicate();
                cursors.advance_all(b);
                return Some(Candidate { byte: b, class, weight, cursors });
            },
            None => {},
        }
        j += 1;
    }
    assert(q@.subrange(0, n as int) =~= q@);
    None
}

/// The candidates of a stream inside a token on the cursor set `q`, in the
/// order of the word alphabet, each byte at most once.
pub fn next_states<'a>(q: &Queries<'a>) -> (r: Vec<Candidate<'a>>)
    ensures
        candidates_view(r@) == word_candidates(q@),
        forall|i: int, k: int| 0 <= i < k < r@.len() ==> #[trigger] r@[i].byte != #[trigger] r@[k].byte,
{
    proof {
        lemma_word_candidates_ordered(q@, word_alphabet().len() as int);
    }
    let alphabet = charset();
    let mut r: Vec<Candidate<'a>> = Vec::new();
    let mut i: usize = 0;
    while i < alphabet.len()
        invariant
            alphabet@ == word_alphabet(),
            i <= alphabet.len(),
            candidates_view(r@) == word_candidates_upto(q@, i as int),
        decreases alphabet.len() - i,
    {
        let ghost before = r@;
        match word_candidate_exec(q, alphabet[i]) {
            Some(k) => {
                r.push(k);
                assert(candidates_view(r@) =~= candidates_view(before).push(k@));
            },
            None => {},
        }
        i += 1;
    }
    assert forall|i: int, k: int| 0 <= i < k < r@.len() implies #[trigger] r@[i].byte
        != #[trigger] r@[k].byte by {
        assert(candidates_view(r@)[i] == r@[i]@);
        assert(candidates_view(r@)[k] == r@[k]@);
        assert(word_candidates(q@)[i] == word_candidates_upto(q@, word_alphabet().len() as int)[i]);
    }
    r
}

/// The candidates of a stream that has just completed a token.
pub fn special_states<'a>(root: &'a Trie<u8, u64>) -> (r: Vec<Candidate<'a>>)
    ensures
        candidates_view(r@) == special_candidates(trie_entries(*root)),
{
    let seps = special();
    let mut r: Vec<Candidate<'a>> = Vec::new();
    let mut i: usize = 0;
    while i < seps.len()
        invariant
            seps@ == separators(),
            i <= seps.len(),
            candidates_view(r@) == special_candidates(trie_entries(*root)).subrange(0, i as int),
        decreases seps.len() - i,
    {
        let ghost before = r@;
        let k = Candidate {
            byte: seps[i],
            class: Classification::PrefixAndMatch,
            weight: None,
            cursors: Queries::new(root_cursor(root)),
        };
        r.push(k);
        assert(candidates_view(r@) =~= candidates_view(before).push(k@));
        i += 1;
        assert(candidates_view(r@) =~= special_candidates(trie_entries(*root)).subrange(0, i as int));
    }
    assert(special_candidates(trie_entries(*root)).subrange(0, i as int) =~= special_candidates(
        trie_entries(*root),
    ));
    r
}

/// The candidates of a stream that expects `e`, on the cursor set `q`; `root` is
/// the trie that a completed token starts over in.
pub fn candidates<'a>(q: &Queries<'a>, e: ExpectedNext, root: &'a Trie<u8, u64>) -> (r: Vec<
    Candidate<'a>,
>)
    ensures
        candidates_view(r@) == candidates_for(q@, e, trie_entries(*root)),
{
    match e {
        ExpectedNext::Word => next_states(q),
        ExpectedNext::Special => special_states(root),
    }
}

} // verus!
