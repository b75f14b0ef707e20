//! The joint search over both streams, and the depth-first solver that returns
//! the first solution.
use crate::candidates::{
    candidates, candidates_for, candidates_view, Candidate, CandidateView, ExpectedNext,
};
use crate::cursor::{CursorView, Queries};
use crate::dict::trie_entries;
use trie_rs::map::Trie;
use vstd::prelude::*;
use vstd::slice::slice_to_vec;

verus! {

/// A search state as the search sees it.
pub struct SearchView {
    pub left_cursors: Seq<CursorView>,
    pub right_cursors: Seq<CursorView>,
    pub left_next: ExpectedNext,
    pub right_next: ExpectedNext,
    /// The ciphertext bytes still to explain.
    pub rest: Seq<u8>,
    pub left: Seq<u8>,
    pub right: Seq<u8>,
}

/// The state in which the search of `cipher` starts, on the cursor sets `ql` and `qr`.
pub open spec fn initial_view(cipher: Seq<u8>, ql: Seq<CursorView>, qr: Seq<CursorView>) -> SearchView {
    SearchView {
        left_cursors: ql,
        right_cursors: qr,
        left_next: ExpectedNext::Word,
        right_next: ExpectedNext::Word,
        rest: cipher,
        left: Seq::empty(),
        right: Seq::empty(),
    }
}

/// A state with no ciphertext left is accepted where neither stream is inside a token.
pub open spec fn at_boundary(s: SearchView) -> bool {
    s.left_next == ExpectedNext::Special && s.right_next == ExpectedNext::Special
}

/// The state after the left stream takes `k1` into `e1` and the right one `k2` into `e2`.
pub open spec fn successor(
    s: SearchView,
    k1: CandidateView,
    e1: ExpectedNext,
    k2: CandidateView,
    e2: ExpectedNext,
) -> SearchView {
    SearchView {
        left_cursors: k1.cursors,
        right_cursors: k2.cursors,
        left_next: e1,
        right_next: e2,
        rest: s.rest.drop_first(),
        left: s.left.push(k1.byte),
        right: s.right.push(k2.byte),
    }
}

/// The successors for one left branch and one right candidate: a byte that
/// continues a word keeps its stream inside the token, one that completes a word
/// ends it, and one that does both forks.
pub open spec fn pair_successors(
    s: SearchView,
    k1: CandidateView,
    e1: ExpectedNext,
    k2: CandidateView,
) -> Seq<SearchView> {
    (if k2.class.continues() {
        seq![successor(s, k1, e1, k2, ExpectedNext::Word)]
    } else {
        Seq::empty()
    }) + (if k2.class.completes() {
        seq![successor(s, k1, e1, k2, ExpectedNext::Special)]
    } else {
        Seq::empty()
    })
}

/// The successors for one left branch, over the right candidates whose byte
/// XORs with the left one to the next ciphertext byte.
pub open spec fn right_successors(
    s: SearchView,
    k1: CandidateView,
    e1: ExpectedNext,
    c2: Seq<CandidateView>,
) -> Seq<SearchView>
    decreases c2.len(),
{
    if c2.len() == 0 {
        Seq::empty()
    } else {
        right_successors(s, k1, e1, c2.drop_last()) + (if c2.last().byte == k1.byte ^ s.rest[0] {
            pair_successors(s, k1, e1, c2.last())
        } else {
            Seq::empty()
        })
    }
}

/// The successors for one left candidate, over its branches.
pub open spec fn candidate_successors(
    s: SearchView,
    k1: CandidateView,
    c2: Seq<CandidateView>,
) -> Seq<SearchView> {
    (if k1.class.continues() {
        right_successors(s, k1, ExpectedNext::Word, c2)
    } else {
        Seq::empty()
    }) + (if k1.class.completes() {
        right_successors(s, k1, ExpectedNext::Special, c2)
    } else {
        Seq::empty()
    })
}

/// The successors over the left candidates `c1`, in their order.
pub open spec fn left_successors(
    s: SearchView,
    c1: Seq<CandidateView>,
    c2: Seq<CandidateView>,
) -> Seq<SearchView>
    decreases c1.len(),
{
    if c1.len() == 0 {
        Seq::empty()
    } else {
        left_successors(s, c1.drop_last(), c2) + candidate_successors(s, c1.last(), c2)
    }
}

/// Every successor of `s` in depth-first order; `root` holds the words that a
/// stream starts over in after a separator.
pub open spec fn successors(s: SearchView, root: Map<Seq<u8>, u64>) -> Seq<SearchView> {
    left_successors(
        s,
        candidates_for(s.left_cursors, s.left_next, root),
        candidates_for(s.right_cursors, s.right_next, root),
    )
}

/// Every solution reachable from `s`, in depth-first order: the pair of
/// plaintexts of each accepted state with no ciphertext left.
pub open spec fn solutions(s: SearchView, root: Map<Seq<u8>, u64>) -> Seq<(Seq<u8>, Seq<u8>)>
    decreases s.rest.len(), 0nat,
{
    if s.rest.len() == 0 {
        if at_boundary(s) {
            seq![(s.left, s.right)]
        } else {
            Seq::empty()
        }
    } else {
        solutions_of(successors(s, root), (s.rest.len() - 1) as nat, root)
    }
}

/// The solutions of the states `ss` in their order, each of which has at most
/// `n` ciphertext bytes left.
pub open spec fn solutions_of(ss: Seq<SearchView>, n: nat, root: Map<Seq<u8>, u64>) -> Seq<
    (Seq<u8>, Seq<u8>),
>
    decreases n, ss.len(),
{
    if ss.len() == 0 {
        Seq::empty()
    } else {
        solutions_of(ss.drop_last(), n, root) + (if ss.last().rest.len() <= n {
            solutions(ss.last(), root)
        } else {
            Seq::empty()
        })
    }
}

/// `t` extends `s` by one byte on each stream, and the two bytes XOR to the
/// next ciphertext byte of `s`.
pub open spec fn is_child(s: SearchView, t: SearchView) -> bool {
    &&& s.rest.len() > 0
    &&& t.rest == s.rest.drop_first()
    &&& t.left.len() == s.left.len() + 1
    &&& t.right.len() == s.right.len() + 1
    &&& t.left.drop_last() == s.left
    &&& t.right.drop_last() == s.right
    &&& t.left.last() ^ t.right.last() == s.rest[0]
}

pub open spec fn all_children(s: SearchView, ss: Seq<SearchView>) -> bool {
    forall|i: int| 0 <= i < ss.len() ==> is_child(s, #[trigger] ss[i])
}

proof fn lemma_all_children_concat(s: SearchView, a: Seq<SearchView>, b: Seq<SearchView>)
    requires
        all_children(s, a),
        all_children(s, b),
    ensures
        all_children(s, a + b),
{
    assert forall|i: int| 0 <= i < (a + b).len() implies is_child(s, #[trigger] (a + b)[i]) by {
        if i >= a.len() {
            assert((a + b)[i] == b[i - a.len()]);
        }
    }
}

proof fn lemma_pair_children(s: SearchView, k1: CandidateView, e1: ExpectedNext, k2: CandidateView)
    requires
        s.rest.len() > 0,
        k2.byte == k1.byte ^ s.rest[0],
    ensures
        all_children(s, pair_successors(s, k1, e1, k2)),
{
    let x = k1.byte;
    let c = s.rest[0];
    assert(x ^ (x ^ c) == c) by (bit_vector);
    assert forall|e2: ExpectedNext| is_child(s, #[trigger] successor(s, k1, e1, k2, e2)) by {
        let t = successor(s, k1, e1, k2, e2);
        assert(t.left.drop_last() =~= s.left);
        assert(t.right.drop_last() =~= s.right);
    }
    let w = if k2.class.continues() {
        seq![successor(s, k1, e1, k2, ExpectedNext::Word)]
    } else {
        Seq::empty()
    };
    let m = if k2.class.completes() {
        seq![successor(s, k1, e1, k2, ExpectedNext::Special)]
    } else {
        Seq::empty()
    };
    lemma_all_children_concat(s, w, m);
}

proof fn lemma_right_children(s: SearchView, k1: CandidateView, e1: ExpectedNext, c2: Seq<CandidateView>)
    requires
        s.rest.len() > 0,
    ensures
        all_children(s, right_successors(s, k1, e1, c2)),
    decreases c2.len(),
{
    if c2.len() > 0 {
        lemma_right_children(s, k1, e1, c2.drop_last());
        if c2.last().byte == k1.byte ^ s.rest[0] {
            lemma_pair_children(s, k1, e1, c2.last());
            lemma_all_children_concat(
                s,
                right_successors(s, k1, e1, c2.drop_last()),
                pair_successors(s, k1, e1, c2.last()),
            );
        } else {
            lemma_all_children_concat(
                s,
                right_successors(s, k1, e1, c2.drop_last()),
                Seq::empty(),
            );
        }
    }
}

proof fn lemma_left_children(s: SearchView, c1: Seq<CandidateView>, c2: Seq<CandidateView>)
    requires
        s.rest.len() > 0,
    ensures
        all_children(s, left_successors(s, c1, c2)),
    decreases c1.len(),
{
    if c1.len() > 0 {
        let k1 = c1.last();
        lemma_left_children(s, c1.drop_last(), c2);
        lemma_right_children(s, k1, ExpectedNext::Word, c2);
        lemma_right_children(s, k1, ExpectedNext::Special, c2);
        let w = if k1.class.continues() {
            right_successors(s, k1, ExpectedNext::Word, c2)
        } else {
            Seq::empty()
        };
        let m = if k1.class.completes() {
            right_successors(s, k1, ExpectedNext::Special, c2)
        } else {
            Seq::empty()
        };
        lemma_all_children_concat(s, w, m);
        lemma_all_children_concat(s, left_successors(s, c1.drop_last(), c2), w + m);
    }
}

/// Every successor of a state with ciphertext left is a child of it.
pub proof fn lemma_successors_children(s: SearchView, root: Map<Seq<u8>, u64>)
    requires
        s.rest.len() > 0,
    ensures
        all_children(s, successors(s, root)),
{
    lemma_left_children(
        s,
        candidates_for(s.left_cursors, s.left_next, root),
        candidates_for(s.right_cursors, s.right_next, root),
    );
}

/// The solutions of a concatenation are the concatenation of the solutions.
pub proof fn lemma_solutions_of_concat(
    a: Seq<SearchView>,
    b: Seq<SearchView>,
    n: nat,
    root: Map<Seq<u8>, u64>,
)
    ensures
        solutions_of(a + b, n, root) == solutions_of(a, n, root) + solutions_of(b, n, root),
    decreases b.len(),
{
    if b.len() == 0 {
        assert(a + b =~= a);
        assert(solutions_of(a, n, root) + solutions_of(b, n, root) =~= solutions_of(a, n, root));
    } else {
        assert((a + b).drop_last() =~= a + b.drop_last());
        assert((a + b).last() == b.last());
        lemma_solutions_of_concat(a, b.drop_last(), n, root);
        assert(solutions_of(a + b, n, root) =~= solutions_of(a, n, root) + solutions_of(b, n, root));
    }
}

/// The pair `p` completes the state `s`: it extends the plaintexts of `s` by
/// as many bytes as ciphertext is left, and those bytes XOR to that ciphertext.
pub open spec fn completes_state(s: SearchView, p: (Seq<u8>, Seq<u8>)) -> bool {
    &&& p.0.len() == s.left.len() + s.rest.len()
    &&& p.1.len() == s.right.len() + s.rest.len()
    &&& p.0.subrange(0, s.left.len() as int) == s.left
    &&& p.1.subrange(0, s.right.len() as int) == s.right
    &&& forall|i: int|
        0 <= i < s.rest.len() ==> #[trigger] s.rest[i] == p.0[s.left.len() + i] ^ p.1[s.right.len()
            + i]
}

proof fn lemma_child_completes(s: SearchView, t: SearchView, p: (Seq<u8>, Seq<u8>))
    requires
        is_child(s, t),
        completes_state(t, p),
    ensures
        completes_state(s, p),
{
    assert(p.0.subrange(0, s.left.len() as int) =~= p.0.subrange(0, t.left.len() as int).drop_last());
    assert(p.1.subrange(0, s.right.len() as int) =~= p.1.subrange(0, t.right.len() as int).drop_last());
    assert(t.left.last() == p.0[s.left.len() as int]);
    assert(t.right.last() == p.1[s.right.len() as int]);
    assert forall|i: int| 0 <= i < s.rest.len() implies #[trigger] s.rest[i] == p.0[s.left.len() + i]
        ^ p.1[s.right.len() + i] by {
        if i > 0 {
            assert(s.rest[i] == t.rest[i - 1]);
        }
    }
}

/// Every solution of `s` completes `s`.
pub proof fn lemma_solutions_sound(s: SearchView, root: Map<Seq<u8>, u64>)
    ensures
        forall|j: int|
            0 <= j < solutions(s, root).len() ==> completes_state(s, #[trigger] solutions(s, root)[j]),
    decreases s.rest.len(), 0nat,
{
    if s.rest.len() == 0 {
        if at_boundary(s) {
            assert(s.left.subrange(0, s.left.len() as int) =~= s.left);
            assert(s.right.subrange(0, s.right.len() as int) =~= s.right);
            assert(completes_state(s, (s.left, s.right)));
            assert(solutions(s, root) =~= seq![(s.left, s.right)]);
        }
    } else {
        lemma_successors_children(s, root);
        lemma_solutions_of_sound(s, successors(s, root), (s.rest.len() - 1) as nat, root);
        assert(solutions(s, root) == solutions_of(successors(s, root), (s.rest.len() - 1) as nat, root));
    }
}

proof fn lemma_solutions_of_sound(
    s: SearchView,
    ss: Seq<SearchView>,
    n: nat,
    root: Map<Seq<u8>, u64>,
)
    requires
        all_children(s, ss),
        n + 1 == s.rest.len(),
    ensures
        forall|j: int|
            0 <= j < solutions_of(ss, n, root).len() ==> completes_state(
                s,
                #[trigger] solutions_of(ss, n, root)[j],
            ),
    decreases n, ss.len(),
{
    if ss.len() > 0 {
        let t = ss.last();
        assert(is_child(s, ss[ss.len() - 1]));
        lemma_solutions_of_sound(s, ss.drop_last(), n, root);
        lemma_solutions_sound(t, root);
        let a = solutions_of(ss.drop_last(), n, root);
        let b = solutions(t, root);
        assert forall|j: int|
            0 <= j < solutions_of(ss, n, root).len() implies completes_state(
            s,
            #[trigger] solutions_of(ss, n, root)[j],
        ) by {
            if j >= a.len() {
                assert(solutions_of(ss, n, root)[j] == b[j - a.len()]);
                lemma_child_completes(s, t, b[j - a.len()]);
            } else {
                assert(solutions_of(ss, n, root)[j] == a[j]);
            }
        }
    }
}

/// One state of the joint search: both streams' cursor sets and expectations,
/// the ciphertext from `pos` on still to explain, the two partial plaintexts,
/// and the weight of the words completed so far.
pub struct SearchState<'a, 'b> {
    pub left_cursors: Queries<'a>,
    pub right_cursors: Queries<'a>,
    pub left_next: ExpectedNext,
    pub right_next: ExpectedNext,
    pub cipher: &'b [u8],
    pub pos: usize,
    pub left: Vec<u8>,
    pub right: Vec<u8>,
    pub importance: u64,
}

impl<'a, 'b> View for SearchState<'a, 'b> {
    type V = SearchView;

    open spec fn view(&self) -> SearchView {
        SearchView {
            left_cursors: self.left_cursors@,
            right_cursors: self.right_cursors@,
            left_next: self.left_next,
            right_next: self.right_next,
            rest: self.cipher@.subrange(self.pos as int, self.cipher@.len() as int),
            left: self.left@,
            right: self.right@,
        }
    }
}

impl<'a, 'b> SearchState<'a, 'b> {
    pub open spec fn wf(&self) -> bool {
        self.pos <= self.cipher@.len()
    }

    /// The state in which the search of `cipher` starts: both streams inside a
    /// token, nothing consumed.
    pub fn initial(cipher: &'b [u8], left_cursors: Queries<'a>, right_cursors: Queries<'a>) -> (r: Self)
        ensures
            r.wf(),
            r@ == initial_view(cipher@, left_cursors@, right_cursors@),
            r.importance == 0,
    {
        let r = SearchState {
            left_cursors,
            right_cursors,
            left_next: ExpectedNext::Word,
            right_next: ExpectedNext::Word,
            cipher,
            pos: 0,
            left: Vec::new(),
            right: Vec::new(),
            importance: 0,
        };
        assert(r@.rest =~= cipher@);
        r
    }
}

pub open spec fn states_view<'a, 'b>(v: Seq<SearchState<'a, 'b>>) -> Seq<SearchView> {
    v.map_values(|t: SearchState<'a, 'b>| t@)
}

pub open spec fn all_wf<'a, 'b>(v: Seq<SearchState<'a, 'b>>) -> bool {
    forall|i: int| 0 <= i < v.len() ==> (#[trigger] v[i]).wf()
}

/// A weight that is absent counts as zero.
pub open spec fn weight_or_zero(w: Option<u64>) -> u64 {
    match w {
        Some(x) => x,
        None => 0,
    }
}

fn weight_of(w: Option<u64>) -> (r: u64)
    ensures
        r == weight_or_zero(w),
{
    match w {
        Some(x) => x,
        None => 0,
    }
}

fn make_successor<'a, 'b>(
    s: &SearchState<'a, 'b>,
    k1: &Candidate<'a>,
    e1: ExpectedNext,
    k2: &Candidate<'a>,
    e2: ExpectedNext,
) -> (t: SearchState<'a, 'b>)
    requires
        s.wf(),
        s.pos < s.cipher@.len(),
    ensures
        t.wf(),
        t@ == successor(s@, k1@, e1, k2@, e2),
        t.importance == s.importance.saturating_add(weight_or_zero(k1.weight)).saturating_add(
            weight_or_zero(k2.weight),
        ),
{
    let n = s.cipher.len();
    assert(s.pos < n);
    let mut left = slice_to_vec(s.left.as_slice());
    left.push(k1.byte);
    let mut right = slice_to_vec(s.right.as_slice());
    right.push(k2.byte);
    let importance = s.importance.saturating_add(weight_of(k1.weight)).saturating_add(
        weight_of(k2.weight),
    );
    let t = SearchState {
        left_cursors: k1.cursors.duplicate(),
        right_cursors: k2.cursors.duplicate(),
        left_next: e1,
        right_next: e2,
        cipher: s.cipher,
        pos: s.pos + 1,
        left,
        right,
        importance,
    };
    assert(t@.rest =~= s@.rest.drop_first());
    t
}

fn push_pair<'a, 'b>(
    s: &SearchState<'a, 'b>,
    k1: &Candidate<'a>,
    e1: ExpectedNext,
    k2: &Candidate<'a>,
    out: &mut Vec<SearchState<'a, 'b>>,
)
    requires
        s.wf(),
        s.pos < s.cipher@.len(),
        all_wf(old(out)@),
    ensures
        all_wf(final(out)@),
        states_view(final(out)@) == states_view(old(out)@) + pair_successors(s@, k1@, e1, k2@),
{
    let ghost start = states_view(out@);
    if k2.class.is_prefix() {
        let t = make_successor(s, k1, e1, k2, ExpectedNext::Word);
        out.push(t);
    }
    assert(states_view(out@) =~= start + (if k2@.class.continues() {
        seq![successor(s@, k1@, e1, k2@, ExpectedNext::Word)]
    } else {
        Seq::empty()
    }));
    let ghost mid = states_view(out@);
    if k2.class.is_match() {
        let t = make_successor(s, k1, e1, k2, ExpectedNext::Special);
        out.push(t);
    }
    assert(states_view(out@) =~= mid + (if k2@.class.completes() {
        seq![successor(s@, k1@, e1, k2@, ExpectedNext::Special)]
    } else {
        Seq::empty()
    }));
}

fn push_right<'a, 'b>(
    s: &SearchState<'a, 'b>,
    k1: &Candidate<'a>,
    e1: ExpectedNext,
    c2: &Vec<Candidate<'a>>,
    out: &mut Vec<SearchState<'a, 'b>>,
)
    requires
        s.wf(),
        s.pos < s.cipher@.len(),
        all_wf(old(out)@),
    ensures
        all_wf(final(out)@),
        states_view(final(out)@) == states_view(old(out)@) + right_successors(
            s@,
            k1@,
            e1,
            candidates_view(c2@),
        ),
{
    let ghost start = states_view(out@);
    let want = k1.byte ^ s.cipher[s.pos];
    assert(s@.rest[0] == s.cipher@[s.pos as int]);
    let mut j: usize = 0;
    while j < c2.len()
        invariant
            s.wf(),
            s.pos < s.cipher@.len(),
            want == k1.byte ^ s@.rest[0],
            j <= c2.len(),
            all_wf(out@),
            states_view(out@) == start + right_successors(
                s@,
                k1@,
                e1,
                candidates_view(c2@).subrange(0, j as int),
            ),
        decreases c2.len() - j,
    {
        let ghost before = states_view(out@);
        assert(candidates_view(c2@).subrange(0, j + 1).drop_last() =~= candidates_view(c2@).subrange(
            0,
            j as int,
        ));
        if c2[j].byte == want {
            push_pair(s, k1, e1, &c2[j], out);
        }
        assert(states_view(out@) =~= start + right_successors(
            s@,
            k1@,
            e1,
            candidates_view(c2@).subrange(0, j + 1),
        ));
        j += 1;
    }
    assert(candidates_view(c2@).subrange(0, j as int) =~= candidates_view(c2@));
}

fn push_left<'a, 'b>(
    s: &SearchState<'a, 'b>,
    k1: &Candidate<'a>,
    c2: &Vec<Candidate<'a>>,
    out: &mut Vec<SearchState<'a, 'b>>,
)
    requires
        s.wf(),
        s.pos < s.cipher@.len(),
        all_wf(old(out)@),
    ensures
        all_wf(final(out)@),
        states_view(final(out)@) == states_view(old(out)@) + candidate_successors(
            s@,
            k1@,
            candidates_view(c2@),
        ),
{
    let ghost start = states_view(out@);
    if k1.class.is_prefix() {
        push_right(s, k1, ExpectedNext::Word, c2, out);
    }
    let ghost mid = states_view(out@);
    if k1.class.is_match() {
        push_right(s, k1, ExpectedNext::Special, c2, out);
    }
    let ghost w = if k1@.class.continues() {
        right_successors(s@, k1@, ExpectedNext::Word, candidates_view(c2@))
    } else {
        Seq::empty()
    };
    assert(mid =~= start + w);
    assert(states_view(out@) =~= start + candidate_successors(s@, k1@, candidates_view(c2@)));
}

/// One step of the joint search: every successor of `s`, in depth-first order.
pub fn expand<'a, 'b>(s: &SearchState<'a, 'b>, root: &'a Trie<u8, u64>) -> (r: Vec<
    SearchState<'a, 'b>,
>)
    requires
        s.wf(),
        s.pos < s.cipher@.len(),
    ensures
        all_wf(r@),
        states_view(r@) == successors(s@, trie_entries(*root)),
{
    let c1 = candidates(&s.left_cursors, s.left_next, root);
    let c2 = candidates(&s.right_cursors, s.right_next, root);
    let mut out: Vec<SearchState<'a, 'b>> = Vec::new();
    let mut i: usize = 0;
    while i < c1.len()
        invariant
            s.wf(),
            s.pos < s.cipher@.len(),
            i <= c1.len(),
            all_wf(out@),
            states_view(out@) == left_successors(
                s@,
                candidates_view(c1@).subrange(0, i as int),
                candidates_view(c2@),
            ),
        decreases c1.len() - i,
    {
        assert(candidates_view(c1@).subrange(0, i + 1).drop_last() =~= candidates_view(c1@).subrange(
            0,
            i as int,
        ));
        push_left(s, &c1[i], &c2, &mut out);
        i += 1;
    }
    assert(candidates_view(c1@).subrange(0, i as int) =~= candidates_view(c1@));
    out
}

/// The first of `sols`, if any.
pub open spec fn first_of(sols: Seq<(Seq<u8>, Seq<u8>)>) -> Option<(Seq<u8>, Seq<u8>)> {
    if sols.len() > 0 {
        Some(sols[0])
    } else {
        None
    }
}

pub open spec fn pair_view(r: Option<(Vec<u8>, Vec<u8>)>) -> Option<(Seq<u8>, Seq<u8>)> {
    match r {
        Some(p) => Some((p.0@, p.1@)),
        None => None,
    }
}

/// Depth-first search from `s`: tries the successors in order and returns the
/// first solution met on a complete path.
fn search_from<'a, 'b>(s: &SearchState<'a, 'b>, root: &'a Trie<u8, u64>) -> (r: Option<
    (Vec<u8>, Vec<u8>),
>)
    requires
        s.wf(),
    ensures
        pair_view(r) == first_of(solutions(s@, trie_entries(*root))),
    decreases s@.rest.len(),
{
    let ghost m = trie_entries(*root);
    if s.pos == s.cipher.len() {
        assert(s@.rest.len() == 0);
        let done = match (s.left_next, s.right_next) {
            (ExpectedNext::Special, ExpectedNext::Special) => true,
            _ => false,
        };
        if done {
            return Some((slice_to_vec(s.left.as_slice()), slice_to_vec(s.right.as_slice())));
        }
        return None;
    }
    let succ = expand(s, root);
    let ghost ss = states_view(succ@);
    let ghost n = (s@.rest.len() - 1) as nat;
    proof {
        lemma_successors_children(s@, m);
    }
    let mut i: usize = 0;
    while i < succ.len()
        invariant
            all_wf(succ@),
            m == trie_entries(*root),
            ss == states_view(succ@),
            ss == successors(s@, m),
            all_children(s@, ss),
            n + 1 == s@.rest.len(),
            i <= succ.len(),
            solutions_of(ss.subrange(0, i as int), n, m).len() == 0,
        decreases succ.len() - i,
    {
        assert(ss[i as int] == succ@[i as int]@);
        assert(is_child(s@, ss[i as int]));
        let found = search_from(&succ[i], root);
        let ghost head = ss.subrange(0, i + 1);
        assert(head.drop_last() =~= ss.subrange(0, i as int));
        assert(head.last() == ss[i as int]);
        assert(ss[i as int].rest.len() == n);
        assert(solutions_of(head, n, m) == solutions_of(ss.subrange(0, i as int), n, m) + solutions(
            ss[i as int],
            m,
        ));
        assert(solutions(s@, m) == solutions_of(ss, n, m));
        match found {
            Some(x) => {
                proof {
                    lemma_solutions_of_concat(head, ss.subrange(i + 1, ss.len() as int), n, m);
                    assert(head + ss.subrange(i + 1, ss.len() as int) =~= ss);
                }
                return Some(x);
            },
            None => {},
        }
        i += 1;
    }
    assert(ss.subrange(0, i as int) =~= ss);
    None
}

/// The byte-wise XOR of `a` and `b` is `cipher`.
pub open spec fn xors_to(a: Seq<u8>, b: Seq<u8>, cipher: Seq<u8>) -> bool {
    &&& a.len() == cipher.len()
    &&& b.len() == cipher.len()
    &&& forall|i: int| 0 <= i < cipher.len() ==> #[trigger] cipher[i] == a[i] ^ b[i]
}

/// The solutions of the search of `cipher` from the cursor sets `ql` and `qr`,
/// with `root` the words a stream starts over in after a separator.
pub open spec fn cipher_solutions(
    cipher: Seq<u8>,
    ql: Seq<CursorView>,
    qr: Seq<CursorView>,
    root: Map<Seq<u8>, u64>,
) -> Seq<(Seq<u8>, Seq<u8>)> {
    solutions(initial_view(cipher, ql, qr), root)
}

/// Every solution of a search reproduces its ciphertext.
pub proof fn lemma_cipher_solutions_xor(
    cipher: Seq<u8>,
    ql: Seq<CursorView>,
    qr: Seq<CursorView>,
    root: Map<Seq<u8>, u64>,
)
    ensures
        forall|j: int|
            0 <= j < cipher_solutions(cipher, ql, qr, root).len() ==> xors_to(
                (#[trigger] cipher_solutions(cipher, ql, qr, root)[j]).0,
                cipher_solutions(cipher, ql, qr, root)[j].1,
                cipher,
            ),
{
    let s = initial_view(cipher, ql, qr);
    lemma_solutions_sound(s, root);
    assert forall|j: int| 0 <= j < solutions(s, root).len() implies xors_to(
        (#[trigger] solutions(s, root)[j]).0,
        solutions(s, root)[j].1,
        cipher,
    ) by {
        let p = solutions(s, root)[j];
        assert(completes_state(s, p));
        assert forall|i: int| 0 <= i < cipher.len() implies #[trigger] cipher[i] == p.0[i] ^ p.1[i] by {
            assert(s.rest[i] == p.0[s.left.len() + i] ^ p.1[s.right.len() + i]);
        }
    }
}

/// Backtracking search for the first pair of plaintexts, in depth-first order,
/// that XOR to `cipher` and tokenize against the dictionary: `t1` and `t2` are
/// the streams' starting cursor sets, `root` the trie that each token after a
/// separator starts in. An empty ciphertext is rejected with `None`.
pub fn crack<'a>(
    cipher: &[u8],
    root: &'a Trie<u8, u64>,
    t1: Queries<'a>,
    t2: Queries<'a>,
) -> (r: Option<(Vec<u8>, Vec<u8>)>)
    ensures
        pair_view(r) == first_of(cipher_solutions(cipher@, t1@, t2@, trie_entries(*root))),
        cipher@.len() == 0 ==> r is None,
        r matches Some(p) ==> xors_to(p.0@, p.1@, cipher@),
{
    proof {
        lemma_cipher_solutions_xor(cipher@, t1@, t2@, trie_entries(*root));
    }
    if cipher.len() == 0 {
        return None;
    }
    let start = SearchState::initial(cipher, t1, t2);
    search_from(&start, root)
}

} // verus!
