//! What holds of the search as a whole: the solutions are exactly the pairs of
//! tokenizable plaintexts that reproduce the ciphertext, a pair of dictionary
//! words is always found again, the backtracking search is deterministic, and
//! weights grow with length and frequency.
use crate::all::{floor_log2, ranked_solutions, weight};
use crate::alphabet::word_alphabet;
use crate::candidates::{
    candidates_for, word_candidate, word_candidates, word_candidates_upto, CandidateView,
    ExpectedNext,
};
use crate::cursor::{accepts, advance, first_acceptor, CursorView};
use crate::dict::{classify, strict_prefix, Classification};
use crate::search::{
    at_boundary, candidate_successors, is_child, lemma_cipher_solutions_xor, lemma_successors_children, cipher_solutions, completes_state, first_of, initial_view,
    lemma_solutions_sound, left_successors, pair_successors, right_successors, solutions,
    solutions_of, successor, successors, xors_to, SearchView,
};
use crate::xor::xor_seq;
use vstd::prelude::*;

verus! {

/// A stream whose candidate has classification `class` may go on expecting `e`.
pub open spec fn branch_ok(class: Classification, e: ExpectedNext) -> bool {
    ||| e == ExpectedNext::Word && class.continues()
    ||| e == ExpectedNext::Special && class.completes()
}

/// One stream, from the cursor set `qs` and expecting `e`, can consume exactly
/// the bytes `w` and end at a token boundary; `root` holds the words that a token
/// after a separator is read against.
pub open spec fn stream_accepts(
    qs: Seq<CursorView>,
    e: ExpectedNext,
    w: Seq<u8>,
    root: Map<Seq<u8>, u64>,
) -> bool
    decreases w.len(), 0nat,
{
    if w.len() == 0 {
        e == ExpectedNext::Special
    } else {
        candidate_accepts(candidates_for(qs, e, root), w[0], w.drop_first(), root)
    }
}

/// Some candidate of `cands` for the byte `b` leads to a stream that accepts `tail`.
pub open spec fn candidate_accepts(
    cands: Seq<CandidateView>,
    b: u8,
    tail: Seq<u8>,
    root: Map<Seq<u8>, u64>,
) -> bool
    decreases tail.len(), cands.len(),
{
    if cands.len() == 0 {
        false
    } else {
        ||| candidate_accepts(cands.drop_last(), b, tail, root)
        ||| cands.last().byte == b && cands.last().class.continues() && stream_accepts(
            cands.last().cursors,
            ExpectedNext::Word,
            tail,
            root,
        )
        ||| cands.last().byte == b && cands.last().class.completes() && stream_accepts(
            cands.last().cursors,
            ExpectedNext::Special,
            tail,
            root,
        )
    }
}

proof fn lemma_candidate_accepts(
    cands: Seq<CandidateView>,
    b: u8,
    tail: Seq<u8>,
    root: Map<Seq<u8>, u64>,
)
    ensures
        candidate_accepts(cands, b, tail, root) <==> exists|i: int, e: ExpectedNext|
            0 <= i < cands.len() && cands[i].byte == b && branch_ok(cands[i].class, e)
                && #[trigger] stream_accepts(cands[i].cursors, e, tail, root),
    decreases cands.len(),
{
    if cands.len() > 0 {
        let rest = cands.drop_last();
        let k = cands.last();
        lemma_candidate_accepts(rest, b, tail, root);
        if candidate_accepts(cands, b, tail, root) {
            if candidate_accepts(rest, b, tail, root) {
                let (i, e) = choose|i: int, e: ExpectedNext|
                    0 <= i < rest.len() && rest[i].byte == b && branch_ok(rest[i].class, e)
                        && #[trigger] stream_accepts(rest[i].cursors, e, tail, root);
                assert(cands[i] == rest[i]);
            } else if k.byte == b && k.class.continues() && stream_accepts(
                k.cursors,
                ExpectedNext::Word,
                tail,
                root,
            ) {
                assert(cands[cands.len() - 1] == k);
                assert(stream_accepts(cands[cands.len() - 1].cursors, ExpectedNext::Word, tail, root));
            } else {
                assert(cands[cands.len() - 1] == k);
                assert(stream_accepts(
                    cands[cands.len() - 1].cursors,
                    ExpectedNext::Special,
                    tail,
                    root,
                ));
            }
        }
        if exists|i: int, e: ExpectedNext|
            0 <= i < cands.len() && cands[i].byte == b && branch_ok(cands[i].class, e)
                && #[trigger] stream_accepts(cands[i].cursors, e, tail, root) {
            let (i, e) = choose|i: int, e: ExpectedNext|
                0 <= i < cands.len() && cands[i].byte == b && branch_ok(cands[i].class, e)
                    && #[trigger] stream_accepts(cands[i].cursors, e, tail, root);
            if i < cands.len() - 1 {
                assert(rest[i] == cands[i]);
                assert(stream_accepts(rest[i].cursors, e, tail, root));
            }
        }
    }
}

proof fn lemma_concat_contains<A>(a: Seq<A>, b: Seq<A>, x: A)
    ensures
        (a + b).contains(x) <==> a.contains(x) || b.contains(x),
{
    if a.contains(x) {
        let i = choose|i: int| 0 <= i < a.len() && a[i] == x;
        assert((a + b)[i] == x);
    }
    if b.contains(x) {
        let i = choose|i: int| 0 <= i < b.len() && b[i] == x;
        assert((a + b)[a.len() + i] == x);
    }
    if (a + b).contains(x) {
        let i = choose|i: int| 0 <= i < (a + b).len() && (a + b)[i] == x;
        if i < a.len() {
            assert(a[i] == x);
        } else {
            assert(b[i - a.len()] == x);
        }
    }
}

/// The successor for `c1[i1]` and `c2[i2]`, where they and the branches are allowed.
pub open spec fn from_candidates(
    s: SearchView,
    c1: Seq<CandidateView>,
    c2: Seq<CandidateView>,
    t: SearchView,
) -> bool {
    exists|i1: int, i2: int, e1: ExpectedNext, e2: ExpectedNext|
        0 <= i1 < c1.len() && 0 <= i2 < c2.len() && c2[i2].byte == c1[i1].byte ^ s.rest[0]
            && branch_ok(c1[i1].class, e1) && branch_ok(c2[i2].class, e2) && t == #[trigger] successor(
            s,
            c1[i1],
            e1,
            c2[i2],
            e2,
        )
}

proof fn lemma_pair_contains(s: SearchView, k1: CandidateView, e1: ExpectedNext, k2: CandidateView, t: SearchView)
    ensures
        pair_successors(s, k1, e1, k2).contains(t) <==> exists|e2: ExpectedNext|
            branch_ok(k2.class, e2) && t == #[trigger] successor(s, k1, e1, k2, e2),
{
    let w = if k2.class.continues() {
        seq![successor(s, k1, e1, k2, ExpectedNext::Word)]
    } else {
        Seq::empty()
    };
    let m = if k2.class.completes() {
        seq![successor(s, k1, e1, k2, ExpectedNext::Special)]
    } else {
        Seq::empty()
    };
    lemma_concat_contains(w, m, t);
    if k2.class.continues() {
        assert(w[0] == successor(s, k1, e1, k2, ExpectedNext::Word));
    }
    if k2.class.completes() {
        assert(m[0] == successor(s, k1, e1, k2, ExpectedNext::Special));
    }
}

proof fn lemma_right_contains(
    s: SearchView,
    k1: CandidateView,
    e1: ExpectedNext,
    c2: Seq<CandidateView>,
    t: SearchView,
)
    ensures
        right_successors(s, k1, e1, c2).contains(t) <==> exists|i2: int, e2: ExpectedNext|
            0 <= i2 < c2.len() && c2[i2].byte == k1.byte ^ s.rest[0] && branch_ok(c2[i2].class, e2)
                && t == #[trigger] successor(s, k1, e1, c2[i2], e2),
    decreases c2.len(),
{
    if c2.len() > 0 {
        let rest = c2.drop_last();
        let k2 = c2.last();
        lemma_right_contains(s, k1, e1, rest, t);
        let tail = if k2.byte == k1.byte ^ s.rest[0] {
            pair_successors(s, k1, e1, k2)
        } else {
            Seq::empty()
        };
        lemma_concat_contains(right_successors(s, k1, e1, rest), tail, t);
        lemma_pair_contains(s, k1, e1, k2, t);
        if exists|i2: int, e2: ExpectedNext|
            0 <= i2 < c2.len() && c2[i2].byte == k1.byte ^ s.rest[0] && branch_ok(c2[i2].class, e2)
                && t == #[trigger] successor(s, k1, e1, c2[i2], e2) {
            let (i2, e2) = choose|i2: int, e2: ExpectedNext|
                0 <= i2 < c2.len() && c2[i2].byte == k1.byte ^ s.rest[0] && branch_ok(
                    c2[i2].class,
                    e2,
                ) && t == #[trigger] successor(s, k1, e1, c2[i2], e2);
            if i2 < c2.len() - 1 {
                assert(rest[i2] == c2[i2]);
            } else {
                assert(c2[i2] == k2);
            }
        }
        if right_successors(s, k1, e1, c2).contains(t) {
            if right_successors(s, k1, e1, rest).contains(t) {
                let (i2, e2) = choose|i2: int, e2: ExpectedNext|
                    0 <= i2 < rest.len() && rest[i2].byte == k1.byte ^ s.rest[0] && branch_ok(
                        rest[i2].class,
                        e2,
                    ) && t == #[trigger] successor(s, k1, e1, rest[i2], e2);
                assert(c2[i2] == rest[i2]);
            } else {
                let e2 = choose|e2: ExpectedNext|
                    branch_ok(k2.class, e2) && t == #[trigger] successor(s, k1, e1, k2, e2);
                assert(c2[c2.len() - 1] == k2);
                assert(t == successor(s, k1, e1, c2[c2.len() - 1], e2));
            }
        }
    }
}

proof fn lemma_candidate_contains(
    s: SearchView,
    k1: CandidateView,
    c2: Seq<CandidateView>,
    t: SearchView,
)
    ensures
        candidate_successors(s, k1, c2).contains(t) <==> exists|
            i2: int,
            e1: ExpectedNext,
            e2: ExpectedNext,
        |
            0 <= i2 < c2.len() && c2[i2].byte == k1.byte ^ s.rest[0] && branch_ok(k1.class, e1)
                && branch_ok(c2[i2].class, e2) && t == #[trigger] successor(s, k1, e1, c2[i2], e2),
{
    let w = if k1.class.continues() {
        right_successors(s, k1, ExpectedNext::Word, c2)
    } else {
        Seq::empty()
    };
    let m = if k1.class.completes() {
        right_successors(s, k1, ExpectedNext::Special, c2)
    } else {
        Seq::empty()
    };
    lemma_concat_contains(w, m, t);
    lemma_right_contains(s, k1, ExpectedNext::Word, c2, t);
    lemma_right_contains(s, k1, ExpectedNext::Special, c2, t);
    if exists|i2: int, e1: ExpectedNext, e2: ExpectedNext|
        0 <= i2 < c2.len() && c2[i2].byte == k1.byte ^ s.rest[0] && branch_ok(k1.class, e1)
            && branch_ok(c2[i2].class, e2) && t == #[trigger] successor(s, k1, e1, c2[i2], e2) {
        let (i2, e1, e2) = choose|i2: int, e1: ExpectedNext, e2: ExpectedNext|
            0 <= i2 < c2.len() && c2[i2].byte == k1.byte ^ s.rest[0] && branch_ok(k1.class, e1)
                && branch_ok(c2[i2].class, e2) && t == #[trigger] successor(
                s,
                k1,
                e1,
                c2[i2],
                e2,
            );
        if e1 == ExpectedNext::Word {
            assert(w.contains(t));
        } else {
            assert(m.contains(t));
        }
    }
}

proof fn lemma_left_contains(s: SearchView, c1: Seq<CandidateView>, c2: Seq<CandidateView>, t: SearchView)
    ensures
        left_successors(s, c1, c2).contains(t) <==> from_candidates(s, c1, c2, t),
    decreases c1.len(),
{
    if c1.len() == 0 {
    } else {
        let rest = c1.drop_last();
        let k1 = c1.last();
        lemma_left_contains(s, rest, c2, t);
        lemma_concat_contains(left_successors(s, rest, c2), candidate_successors(s, k1, c2), t);
        lemma_candidate_contains(s, k1, c2, t);
        if from_candidates(s, c1, c2, t) {
            let (i1, i2, e1, e2) = choose|i1: int, i2: int, e1: ExpectedNext, e2: ExpectedNext|
                0 <= i1 < c1.len() && 0 <= i2 < c2.len() && c2[i2].byte == c1[i1].byte ^ s.rest[0]
                    && branch_ok(c1[i1].class, e1) && branch_ok(c2[i2].class, e2) && t
                    == #[trigger] successor(s, c1[i1], e1, c2[i2], e2);
            if i1 < c1.len() - 1 {
                assert(rest[i1] == c1[i1]);
                assert(from_candidates(s, rest, c2, t));
            } else {
                assert(c1[i1] == k1);
            }
        }
        if left_successors(s, c1, c2).contains(t) {
            if left_successors(s, rest, c2).contains(t) {
                let (i1, i2, e1, e2) = choose|
                    i1: int,
                    i2: int,
                    e1: ExpectedNext,
                    e2: ExpectedNext,
                |
                    0 <= i1 < rest.len() && 0 <= i2 < c2.len() && c2[i2].byte == rest[i1].byte
                        ^ s.rest[0] && branch_ok(rest[i1].class, e1) && branch_ok(c2[i2].class, e2)
                        && t == #[trigger] successor(s, rest[i1], e1, c2[i2], e2);
                assert(c1[i1] == rest[i1]);
                assert(t == successor(s, c1[i1], e1, c2[i2], e2));
            } else {
                let (i2, e1, e2) = choose|i2: int, e1: ExpectedNext, e2: ExpectedNext|
                    0 <= i2 < c2.len() && c2[i2].byte == k1.byte ^ s.rest[0] && branch_ok(
                        k1.class,
                        e1,
                    ) && branch_ok(c2[i2].class, e2) && t == #[trigger] successor(
                        s,
                        k1,
                        e1,
                        c2[i2],
                        e2,
                    );
                assert(c1[c1.len() - 1] == k1);
                assert(t == successor(s, c1[c1.len() - 1], e1, c2[i2], e2));
            }
        }
    }
}

proof fn lemma_solutions_of_contains(
    ss: Seq<SearchView>,
    n: nat,
    root: Map<Seq<u8>, u64>,
    p: (Seq<u8>, Seq<u8>),
)
    ensures
        solutions_of(ss, n, root).contains(p) <==> exists|j: int|
            0 <= j < ss.len() && ss[j].rest.len() <= n && #[trigger] solutions(ss[j], root).contains(p),
    decreases ss.len(),
{
    if ss.len() > 0 {
        let rest = ss.drop_last();
        let t = ss.last();
        let tail = if t.rest.len() <= n {
            solutions(t, root)
        } else {
            Seq::empty()
        };
        lemma_solutions_of_contains(rest, n, root, p);
        lemma_concat_contains(solutions_of(rest, n, root), tail, p);
        if exists|j: int|
            0 <= j < ss.len() && ss[j].rest.len() <= n && #[trigger] solutions(ss[j], root).contains(p) {
            let j = choose|j: int|
                0 <= j < ss.len() && ss[j].rest.len() <= n && #[trigger] solutions(
                    ss[j],
                    root,
                ).contains(p);
            if j < ss.len() - 1 {
                assert(rest[j] == ss[j]);
            }
        }
        if solutions_of(ss, n, root).contains(p) {
            if solutions_of(rest, n, root).contains(p) {
                let j = choose|j: int|
                    0 <= j < rest.len() && rest[j].rest.len() <= n && #[trigger] solutions(
                        rest[j],
                        root,
                    ).contains(p);
                assert(ss[j] == rest[j]);
            } else {
                assert(ss[ss.len() - 1] == t);
            }
        }
    }
}

/// The bytes `l` and `r` complete the state `s` as a solution: they are as long
/// as the ciphertext left, XOR to it, and each stream accepts its bytes.
pub open spec fn accepted_pair(
    s: SearchView,
    l: Seq<u8>,
    r: Seq<u8>,
    root: Map<Seq<u8>, u64>,
) -> bool {
    &&& l.len() == s.rest.len()
    &&& r.len() == s.rest.len()
    &&& forall|i: int| 0 <= i < s.rest.len() ==> #[trigger] s.rest[i] == l[i] ^ r[i]
    &&& stream_accepts(s.left_cursors, s.left_next, l, root)
    &&& stream_accepts(s.right_cursors, s.right_next, r, root)
}

proof fn lemma_solutions_exact(s: SearchView, root: Map<Seq<u8>, u64>, l: Seq<u8>, r: Seq<u8>)
    ensures
        solutions(s, root).contains((s.left + l, s.right + r)) <==> accepted_pair(s, l, r, root),
    decreases s.rest.len(),
{
    let p = (s.left + l, s.right + r);
    if s.rest.len() == 0 {
        if l.len() == 0 && r.len() == 0 {
            assert(s.left + l =~= s.left);
            assert(s.right + r =~= s.right);
            if at_boundary(s) {
                assert(solutions(s, root)[0] == p);
            }
        } else {
            if solutions(s, root).contains(p) {
                assert(solutions(s, root)[0] == p);
                assert(p.0.len() == s.left.len());
            }
        }
    } else {
        let n = (s.rest.len() - 1) as nat;
        let c = s.rest[0];
        let c1 = candidates_for(s.left_cursors, s.left_next, root);
        let c2 = candidates_for(s.right_cursors, s.right_next, root);
        let ss = successors(s, root);
        lemma_successors_children(s, root);
        lemma_solutions_of_contains(ss, n, root, p);
        if accepted_pair(s, l, r, root) {
            let x = l[0];
            let y = r[0];
            lemma_candidate_accepts(c1, x, l.drop_first(), root);
            lemma_candidate_accepts(c2, y, r.drop_first(), root);
            let (i1, e1) = choose|i: int, e: ExpectedNext|
                0 <= i < c1.len() && c1[i].byte == x && branch_ok(c1[i].class, e)
                    && #[trigger] stream_accepts(c1[i].cursors, e, l.drop_first(), root);
            let (i2, e2) = choose|i: int, e: ExpectedNext|
                0 <= i < c2.len() && c2[i].byte == y && branch_ok(c2[i].class, e)
                    && #[trigger] stream_accepts(c2[i].cursors, e, r.drop_first(), root);
            assert(c == x ^ y);
            assert(x ^ (x ^ y) == y) by (bit_vector);
            let t = successor(s, c1[i1], e1, c2[i2], e2);
            assert(from_candidates(s, c1, c2, t));
            lemma_left_contains(s, c1, c2, t);
            let j = choose|j: int| 0 <= j < ss.len() && ss[j] == t;
            assert(is_child(s, ss[j]));
            assert forall|i: int| 0 <= i < t.rest.len() implies #[trigger] t.rest[i] == l.drop_first()[i]
                ^ r.drop_first()[i] by {
                assert(s.rest[i + 1] == l[i + 1] ^ r[i + 1]);
            }
            lemma_solutions_exact(t, root, l.drop_first(), r.drop_first());
            assert(t.left + l.drop_first() =~= s.left + l);
            assert(t.right + r.drop_first() =~= s.right + r);
            assert(solutions(ss[j], root).contains(p));
        }
        if solutions(s, root).contains(p) {
            let j = choose|j: int|
                0 <= j < ss.len() && ss[j].rest.len() <= n && #[trigger] solutions(ss[j], root).contains(
                    p,
                );
            let t = ss[j];
            assert(ss.contains(t));
            lemma_left_contains(s, c1, c2, t);
            let (i1, i2, e1, e2) = choose|i1: int, i2: int, e1: ExpectedNext, e2: ExpectedNext|
                0 <= i1 < c1.len() && 0 <= i2 < c2.len() && c2[i2].byte == c1[i1].byte ^ s.rest[0]
                    && branch_ok(c1[i1].class, e1) && branch_ok(c2[i2].class, e2) && t
                    == #[trigger] successor(s, c1[i1], e1, c2[i2], e2);
            lemma_solutions_sound(t, root);
            let k = choose|k: int| 0 <= k < solutions(t, root).len() && solutions(t, root)[k] == p;
            assert(completes_state(t, p));
            let x = c1[i1].byte;
            let y = c2[i2].byte;
            assert(p.0[s.left.len() as int] == p.0.subrange(0, t.left.len() as int)[s.left.len() as int]);
            assert(p.1[s.right.len() as int] == p.1.subrange(0, t.right.len() as int)[s.right.len() as int]);
            assert(l[0] == x);
            assert(r[0] == y);
            let lt = l.drop_first();
            let rt = r.drop_first();
            assert(t.left + lt =~= s.left + l);
            assert(t.right + rt =~= s.right + r);
            lemma_solutions_exact(t, root, lt, rt);
            lemma_candidate_accepts(c1, x, lt, root);
            lemma_candidate_accepts(c2, y, rt, root);
            assert(stream_accepts(c1[i1].cursors, e1, lt, root));
            assert(stream_accepts(c2[i2].cursors, e2, rt, root));
            assert(x ^ (x ^ c) == c) by (bit_vector);
            assert forall|i: int| 0 <= i < s.rest.len() implies #[trigger] s.rest[i] == l[i] ^ r[i] by {
                if i > 0 {
                    assert(t.rest[i - 1] == lt[i - 1] ^ rt[i - 1]);
                }
            }
        }
    }
}

/// Exhaustiveness: a pair of plaintexts is among the solutions of the search of
/// `cipher` exactly when the two XOR to `cipher` and each stream, from its
/// starting cursor set, reads its plaintext as whole tokens. With the ranked
/// enumerator returning every solution, it omits no such pair and adds none.
pub proof fn law_solutions_exact(
    cipher: Seq<u8>,
    ql: Seq<CursorView>,
    qr: Seq<CursorView>,
    root: Map<Seq<u8>, u64>,
    l: Seq<u8>,
    r: Seq<u8>,
)
    ensures
        cipher_solutions(cipher, ql, qr, root).contains((l, r)) <==> {
            &&& xors_to(l, r, cipher)
            &&& stream_accepts(ql, ExpectedNext::Word, l, root)
            &&& stream_accepts(qr, ExpectedNext::Word, r, root)
        },
{
    let s = initial_view(cipher, ql, qr);
    assert(s.left + l =~= l);
    assert(s.right + r =~= r);
    lemma_solutions_exact(s, root, l, r);
}

/// Every byte of `w` is in the word alphabet.
pub open spec fn over_alphabet(w: Seq<u8>) -> bool {
    forall|i: int| 0 <= i < w.len() ==> word_alphabet().contains(#[trigger] w[i])
}

proof fn lemma_word_candidates_contains(qs: Seq<CursorView>, j: int, n: int, k: CandidateView)
    requires
        0 <= j < n,
        word_candidate(qs, word_alphabet()[j]) == Some(k),
    ensures
        word_candidates_upto(qs, n).contains(k),
    decreases n,
{
    if n - 1 == j {
        let prev = word_candidates_upto(qs, n - 1);
        assert(word_candidates_upto(qs, n) == prev.push(k));
        assert(prev.push(k)[prev.len() as int] == k);
    } else {
        lemma_word_candidates_contains(qs, j, n - 1, k);
        let prev = word_candidates_upto(qs, n - 1);
        let i = choose|i: int| 0 <= i < prev.len() && prev[i] == k;
        assert(word_candidates_upto(qs, n)[i] == k);
    }
}

/// A stream standing at `pre` inside a word `pre + w` of the dictionary reads
/// `w` to the end of that word.
proof fn lemma_word_stream(m: Map<Seq<u8>, u64>, pre: Seq<u8>, w: Seq<u8>)
    requires
        w.len() > 0,
        m.dom().contains(pre + w),
        over_alphabet(w),
    ensures
        stream_accepts(seq![(m, pre)], ExpectedNext::Word, w, m),
    decreases w.len(),
{
    let b = w[0];
    let q = pre.push(b);
    let qs: Seq<CursorView> = seq![(m, pre)];
    let tail = w.drop_first();
    assert(q + tail =~= pre + w);
    if w.len() > 1 {
        assert((pre + w).subrange(0, q.len() as int) =~= q);
        assert(strict_prefix(q, pre + w));
    } else {
        assert(q =~= pre + w);
    }
    assert(classify(m, q) is Some);
    assert(qs.drop_last() =~= Seq::<CursorView>::empty());
    assert(first_acceptor(Seq::<CursorView>::empty(), b) is None);
    assert(advance(Seq::<CursorView>::empty(), b) == Seq::<CursorView>::empty());
    assert(qs.last() == (m, pre));
    assert(accepts(qs.last(), b));
    assert(first_acceptor(qs, b) == Some((m, pre)));
    assert(advance(qs, b) =~= seq![(m, q)]);
    let k = word_candidate(qs, b)->0;
    assert(k.cursors == seq![(m, q)]);
    assert(word_alphabet().contains(w[0]));
    let j = choose|j: int| 0 <= j < word_alphabet().len() && word_alphabet()[j] == b;
    lemma_word_candidates_contains(qs, j, word_alphabet().len() as int, k);
    let cands = word_candidates(qs);
    let i = choose|i: int| 0 <= i < cands.len() && cands[i] == k;
    lemma_candidate_accepts(cands, b, tail, m);
    if w.len() > 1 {
        assert forall|x: int| 0 <= x < tail.len() implies word_alphabet().contains(#[trigger] tail[x]) by {
            assert(tail[x] == w[x + 1]);
        }
        lemma_word_stream(m, q, tail);
        assert(stream_accepts(cands[i].cursors, ExpectedNext::Word, tail, m));
    } else {
        assert(tail.len() == 0);
        assert(stream_accepts(cands[i].cursors, ExpectedNext::Special, tail, m));
    }
}

/// Round trip: where two plaintexts of one non-zero length over the word
/// alphabet are both words of the dictionary, the pair is among the solutions
/// of their XOR, so the search returns some pair, and every pair it returns
/// XORs to that ciphertext.
pub proof fn law_round_trip(plain1: Seq<u8>, plain2: Seq<u8>, m: Map<Seq<u8>, u64>)
    requires
        plain1.len() == plain2.len(),
        plain1.len() > 0,
        m.dom().contains(plain1),
        m.dom().contains(plain2),
        over_alphabet(plain1),
        over_alphabet(plain2),
    ensures
        ranked_solutions(xor_seq(plain1, plain2), m).contains((plain1, plain2)),
        first_of(ranked_solutions(xor_seq(plain1, plain2), m)) matches Some(q) && xors_to(
            q.0,
            q.1,
            xor_seq(plain1, plain2),
        ),
{
    let c = xor_seq(plain1, plain2);
    let root: Seq<CursorView> = seq![(m, Seq::<u8>::empty())];
    assert(Seq::<u8>::empty() + plain1 =~= plain1);
    assert(Seq::<u8>::empty() + plain2 =~= plain2);
    lemma_word_stream(m, Seq::empty(), plain1);
    lemma_word_stream(m, Seq::empty(), plain2);
    law_solutions_exact(c, root, root, m, plain1, plain2);
    lemma_cipher_solutions_xor(c, root, root, m);
    let sols = ranked_solutions(c, m);
    assert(sols.len() > 0);
    assert(xors_to(sols[0].0, sols[0].1, c));
}

/// Determinism: the backtracking search's answer is a function of the
/// ciphertext, the views of the starting cursor sets and the dictionary, so
/// runs on identical inputs return the identical first solution, or none.
pub proof fn law_backtracking_deterministic(
    cipher: Seq<u8>,
    ql: Seq<CursorView>,
    qr: Seq<CursorView>,
    root: Map<Seq<u8>, u64>,
    cipher2: Seq<u8>,
    ql2: Seq<CursorView>,
    qr2: Seq<CursorView>,
    root2: Map<Seq<u8>, u64>,
)
    requires
        cipher == cipher2,
        ql == ql2,
        qr == qr2,
        root == root2,
    ensures
        first_of(cipher_solutions(cipher, ql, qr, root)) == first_of(
            cipher_solutions(cipher2, ql2, qr2, root2),
        ),
{
}

proof fn lemma_floor_log2_monotone(a: nat, b: nat)
    requires
        a <= b,
    ensures
        floor_log2(a) <= floor_log2(b),
    decreases b,
{
    if a > 1 {
        lemma_floor_log2_monotone(a / 2, b / 2);
    }
}

/// Weight grows with length: of two words seen equally often, the longer one
/// weighs more.
pub proof fn law_weight_grows_with_length(len1: nat, len2: nat, freq: nat)
    requires
        len1 < len2,
    ensures
        weight(len1, freq) < weight(len2, freq),
{
}

/// Weight grows with frequency: of two words of one length, the one seen more
/// often weighs no less, and strictly more once it is seen at least twice as
/// often (the logarithm is taken in whole bits).
pub proof fn law_weight_grows_with_frequency(len: nat, freq1: nat, freq2: nat)
    requires
        freq1 <= freq2,
    ensures
        weight(len, freq1) <= weight(len, freq2),
        1 <= freq1 && 2 * freq1 <= freq2 ==> weight(len, freq1) < weight(len, freq2),
{
    lemma_floor_log2_monotone(freq1, freq2);
    if 1 <= freq1 && 2 * freq1 <= freq2 {
        assert((2 * freq1) / 2 == freq1);
        assert(floor_log2(2 * freq1) == 1 + floor_log2(freq1));
        lemma_floor_log2_monotone(2 * freq1, freq2);
    }
}

} // verus!
