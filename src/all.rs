//! Weighted dictionaries and the ranked enumerator of every solution.
use crate::candidates::ExpectedNext;
use crate::cursor::Queries;
use crate::dict::{entries_of, pairs_view, root_cursor, trie_entries, trie_of};
use crate::search::{
    all_children, all_wf, cipher_solutions, expand, lemma_successors_children, solutions,
    solutions_of, states_view, successors, SearchState, SearchView,
};
use trie_rs::map::Trie;
use vstd::multiset::Multiset;
use vstd::prelude::*;
use vstd::seq_lib::lemma_multiset_commutative;
use vstd::slice::slice_to_vec;
use vstd::string::StringSliceAdditionalSpecFns;

verus! {

/// The solutions of the states `ss`, in their order.
pub open spec fn forest_solutions(ss: Seq<SearchView>, root: Map<Seq<u8>, u64>) -> Seq<
    (Seq<u8>, Seq<u8>),
>
    decreases ss.len(),
{
    if ss.len() == 0 {
        Seq::empty()
    } else {
        forest_solutions(ss.drop_last(), root) + solutions(ss.last(), root)
    }
}

/// The number of states in the search tree below `s`, `s` included.
pub open spec fn tree_size(s: SearchView, root: Map<Seq<u8>, u64>) -> nat
    decreases s.rest.len(), 0nat,
{
    if s.rest.len() == 0 {
        1
    } else {
        1 + trees_size(successors(s, root), (s.rest.len() - 1) as nat, root)
    }
}

/// The number of states in the search trees below the states `ss`, each of
/// which has at most `n` ciphertext bytes left.
pub open spec fn trees_size(ss: Seq<SearchView>, n: nat, root: Map<Seq<u8>, u64>) -> nat
    decreases n, ss.len(),
{
    if ss.len() == 0 {
        0
    } else {
        trees_size(ss.drop_last(), n, root) + (if ss.last().rest.len() <= n {
            tree_size(ss.last(), root)
        } else {
            0
        })
    }
}

/// The number of states in the search trees below the states `ss`.
pub open spec fn forest_size(ss: Seq<SearchView>, root: Map<Seq<u8>, u64>) -> nat
    decreases ss.len(),
{
    if ss.len() == 0 {
        0
    } else {
        forest_size(ss.drop_last(), root) + tree_size(ss.last(), root)
    }
}

proof fn lemma_forest_guarded(ss: Seq<SearchView>, n: nat, root: Map<Seq<u8>, u64>)
    requires
        forall|i: int| 0 <= i < ss.len() ==> (#[trigger] ss[i]).rest.len() <= n,
    ensures
        forest_solutions(ss, root) == solutions_of(ss, n, root),
        forest_size(ss, root) == trees_size(ss, n, root),
    decreases ss.len(),
{
    if ss.len() > 0 {
        assert(ss.last() == ss[ss.len() - 1]);
        lemma_forest_guarded(ss.drop_last(), n, root);
    }
}

proof fn lemma_forest_concat(a: Seq<SearchView>, b: Seq<SearchView>, root: Map<Seq<u8>, u64>)
    ensures
        forest_solutions(a + b, root) == forest_solutions(a, root) + forest_solutions(b, root),
        forest_size(a + b, root) == forest_size(a, root) + forest_size(b, root),
    decreases b.len(),
{
    if b.len() == 0 {
        assert(a + b =~= a);
        assert(forest_solutions(a, root) + forest_solutions(b, root) =~= forest_solutions(a, root));
    } else {
        assert((a + b).drop_last() =~= a + b.drop_last());
        assert((a + b).last() == b.last());
        lemma_forest_concat(a, b.drop_last(), root);
        assert(forest_solutions(a + b, root) =~= forest_solutions(a, root) + forest_solutions(
            b,
            root,
        ));
    }
}

proof fn lemma_forest_remove(ss: Seq<SearchView>, i: int, root: Map<Seq<u8>, u64>)
    requires
        0 <= i < ss.len(),
    ensures
        forest_solutions(ss, root).to_multiset() == forest_solutions(ss.remove(i), root).to_multiset().add(
            solutions(ss[i], root).to_multiset(),
        ),
        forest_size(ss, root) == forest_size(ss.remove(i), root) + tree_size(ss[i], root),
    decreases ss.len(),
{
    let last = ss.last();
    lemma_multiset_commutative(forest_solutions(ss.drop_last(), root), solutions(last, root));
    if i == ss.len() - 1 {
        assert(ss.remove(i) =~= ss.drop_last());
    } else {
        let rest = ss.drop_last();
        assert(ss.remove(i).drop_last() =~= rest.remove(i));
        assert(ss.remove(i).last() == last);
        assert(rest[i] == ss[i]);
        lemma_forest_remove(rest, i, root);
        lemma_multiset_commutative(forest_solutions(rest.remove(i), root), solutions(last, root));
        assert(forest_solutions(ss, root).to_multiset() =~= forest_solutions(
            ss.remove(i),
            root,
        ).to_multiset().add(solutions(ss[i], root).to_multiset()));
    }
}

/// A state's solutions and subtree, from those of its successors.
proof fn lemma_tree_unfold(s: SearchView, root: Map<Seq<u8>, u64>)
    requires
        s.rest.len() > 0,
    ensures
        solutions(s, root) == forest_solutions(successors(s, root), root),
        tree_size(s, root) == 1 + forest_size(successors(s, root), root),
{
    let n = (s.rest.len() - 1) as nat;
    lemma_successors_children(s, root);
    let ss = successors(s, root);
    assert forall|i: int| 0 <= i < ss.len() implies (#[trigger] ss[i]).rest.len() <= n by {
        assert(all_children(s, ss));
    }
    lemma_forest_guarded(ss, n, root);
}

proof fn lemma_multiset_of_small<A>(x: A)
    ensures
        Seq::<A>::empty().to_multiset() == Multiset::<A>::empty(),
        seq![x].to_multiset() == Multiset::<A>::empty().insert(x),
{
    broadcast use vstd::seq_lib::group_to_multiset_ensures;
    broadcast use vstd::multiset::lemma_multiset_empty_len;

    assert(Seq::<A>::empty().to_multiset().len() == 0);
    assert(seq![x] =~= Seq::<A>::empty().push(x));
}

/// `a` leaves the queue no later than `b`: it is more important, or as important
/// with at least as much ciphertext left.
pub open spec fn ranks_before_or_with<'a, 'b>(a: SearchState<'a, 'b>, b: SearchState<'a, 'b>) -> bool {
    ||| a.importance > b.importance
    ||| a.importance == b.importance && a.cipher@.len() - a.pos >= b.cipher@.len() - b.pos
}

/// Every solution of `cipher` with both streams starting at the root of the
/// dictionary `m`, in depth-first order.
pub open spec fn ranked_solutions(cipher: Seq<u8>, m: Map<Seq<u8>, u64>) -> Seq<(Seq<u8>, Seq<u8>)> {
    cipher_solutions(cipher, seq![(m, Seq::<u8>::empty())], seq![(m, Seq::<u8>::empty())], m)
}

/// What one step of the ranked enumerator did.
pub enum Step {
    /// Nothing was left to explore.
    Exhausted,
    /// The best state was expanded into its successors.
    Expanded,
    /// The best state had no ciphertext left but a stream inside a token.
    DeadEnd,
    /// The best state was a solution: the two plaintexts and their importance.
    Found(Vec<u8>, Vec<u8>, u64),
}

/// Best-first enumeration of every solution. The states wait in a queue from
/// which the one of greatest importance leaves first, and among equally
/// important ones the one with the most ciphertext left. The queue is bounded
/// only by the size of the search tree: a caller that needs a bound stops
/// stepping.
pub struct RankedSearch<'a, 'b> {
    pub root: &'a Trie<u8, u64>,
    pub queue: Vec<SearchState<'a, 'b>>,
}

impl<'a, 'b> RankedSearch<'a, 'b> {
    pub open spec fn wf(&self) -> bool {
        all_wf(self.queue@)
    }

    /// The solutions still to be found, in no particular order.
    pub open spec fn pending(&self) -> Seq<(Seq<u8>, Seq<u8>)> {
        forest_solutions(states_view(self.queue@), trie_entries(*self.root))
    }

    /// The number of states still to be visited.
    pub open spec fn remaining(&self) -> nat {
        forest_size(states_view(self.queue@), trie_entries(*self.root))
    }

    /// The enumeration of `cipher` over the dictionary `root`, with both streams
    /// at its root.
    pub fn new(cipher: &'b [u8], root: &'a Trie<u8, u64>) -> (r: Self)
        ensures
            r.wf(),
            r.root == root,
            r.pending() == ranked_solutions(cipher@, trie_entries(*root)),
    {
        let start = SearchState::initial(
            cipher,
            Queries::new(root_cursor(root)),
            Queries::new(root_cursor(root)),
        );
        let r = RankedSearch { root, queue: vec![start] };
        assert(states_view(r.queue@).drop_last() =~= Seq::<SearchView>::empty());
        assert(states_view(r.queue@).last() == start@);
        assert(forest_solutions(Seq::<SearchView>::empty(), trie_entries(*root)) == Seq::<
            (Seq<u8>, Seq<u8>),
        >::empty());
        assert(r.pending() =~= solutions(start@, trie_entries(*root)));
        r
    }

    /// The index of the state that leaves the queue first.
    fn best(&self) -> (i: usize)
        requires
            self.wf(),
            self.queue.len() > 0,
        ensures
            i < self.queue.len(),
            forall|j: int|
                0 <= j < self.queue.len() ==> ranks_before_or_with(
                    self.queue@[i as int],
                    #[trigger] self.queue@[j],
                ),
    {
        let mut b: usize = 0;
        let mut j: usize = 1;
        while j < self.queue.len()
            invariant
                self.wf(),
                b < j <= self.queue.len(),
                forall|k: int|
                    0 <= k < j ==> ranks_before_or_with(self.queue@[b as int], #[trigger] self.queue@[k]),
            decreases self.queue.len() - j,
        {
            let x = &self.queue[b];
            let y = &self.queue[j];
            let lx = x.cipher.len() - x.pos;
            let ly = y.cipher.len() - y.pos;
            if y.importance > x.importance || (y.importance == x.importance && ly > lx) {
                b = j;
            }
            j += 1;
        }
        b
    }

    /// Takes the best state from the queue: records it where it is a solution,
    /// drops it where it is a dead end, and otherwise queues its successors.
    pub fn step(&mut self) -> (r: Step)
        requires
            old(self).wf(),
        ensures
            final(self).wf(),
            final(self).root == old(self).root,
            r is Exhausted <==> old(self).queue.len() == 0,
            r is Exhausted ==> final(self).remaining() == old(self).remaining(),
            !(r is Exhausted) ==> final(self).remaining() < old(self).remaining(),
            match r {
                Step::Found(a, b, w) => {
                    &&& old(self).pending().to_multiset() == final(self).pending().to_multiset().insert((a@, b@))
                    &&& forall|j: int| 0 <= j < old(self).queue.len() ==> (#[trigger] old(self).queue@[j]).importance <= w
                },
                _ => old(self).pending().to_multiset() == final(self).pending().to_multiset(),
            },
    {
        if self.queue.len() == 0 {
            return Step::Exhausted;
        }
        let ghost m = trie_entries(*self.root);
        let ghost before = states_view(self.queue@);
        let i = self.best();
        let ghost old_queue = self.queue@;
        let s = self.queue.remove(i);
        assert(all_wf(self.queue@)) by {
            assert forall|k: int| 0 <= k < self.queue@.len() implies (#[trigger] self.queue@[k]).wf() by {
                if k >= i {
                    assert(self.queue@[k] == old_queue[k + 1]);
                } else {
                    assert(self.queue@[k] == old_queue[k]);
                }
            }
        }
        assert(s == old_queue[i as int]);
        assert(forall|j: int| 0 <= j < old_queue.len() ==> ranks_before_or_with(s, #[trigger] old_queue[j]));
        proof {
            assert(states_view(self.queue@) =~= before.remove(i as int));
            assert(before[i as int] == s@);
            lemma_forest_remove(before, i as int, m);
        }
        if s.pos == s.cipher.len() {
            assert(s@.rest.len() == 0);
            assert(tree_size(s@, m) == 1);
            let done = match (s.left_next, s.right_next) {
                (ExpectedNext::Special, ExpectedNext::Special) => true,
                _ => false,
            };
            if done {
                assert(solutions(s@, m) =~= seq![(s.left@, s.right@)]);
                proof {
                    lemma_multiset_of_small((s.left@, s.right@));
                }
                assert(forest_solutions(before, m).to_multiset() =~= self.pending().to_multiset().insert(
                    (s.left@, s.right@),
                ));
                return Step::Found(s.left, s.right, s.importance);
            }
            proof {
                lemma_multiset_of_small((s.left@, s.right@));
            }
            assert(solutions(s@, m) =~= Seq::empty());
            assert(forest_solutions(before, m).to_multiset() =~= self.pending().to_multiset());
            return Step::DeadEnd;
        }
        let mut succ = expand(&s, self.root);
        let ghost ss = states_view(succ@);
        let ghost kept = states_view(self.queue@);
        proof {
            lemma_tree_unfold(s@, m);
            lemma_forest_concat(kept, ss, m);
            lemma_multiset_commutative(forest_solutions(kept, m), forest_solutions(ss, m));
        }
        let ghost added = succ@;
        let ghost queued = self.queue@;
        self.queue.append(&mut succ);
        assert(states_view(self.queue@) =~= kept + ss);
        assert(self.wf()) by {
            assert forall|k: int| 0 <= k < self.queue@.len() implies (#[trigger] self.queue@[k]).wf() by {
                if k >= queued.len() {
                    assert(self.queue@[k] == added[k - queued.len()]);
                } else {
                    assert(self.queue@[k] == queued[k]);
                }
            }
        }
        Step::Expanded
    }
}

proof fn lemma_map_multiset<A, B>(a: Seq<A>, b: Seq<A>, f: spec_fn(A) -> B)
    requires
        a.to_multiset() == b.to_multiset(),
    ensures
        a.map_values(f).to_multiset() == b.map_values(f).to_multiset(),
    decreases a.len(),
{
    broadcast use vstd::seq_lib::group_to_multiset_ensures;
    broadcast use vstd::multiset::group_multiset_axioms;

    if a.len() == 0 {
        assert(a.to_multiset().len() == 0);
        assert(b.to_multiset().len() == b.len());
        assert(b.len() == 0);
        assert(a.map_values(f) =~= b.map_values(f));
    } else {
        let x = a.last();
        let rest = a.drop_last();
        assert(rest.push(x) =~= a);
        assert(a.contains(x)) by {
            assert(a[a.len() - 1] == x);
        }
        assert(b.to_multiset().count(x) > 0);
        assert(b.contains(x));
        let j = choose|j: int| 0 <= j < b.len() && b[j] == x;
        assert(rest.to_multiset() =~= a.to_multiset().remove(x));
        assert(b.remove(j).to_multiset() =~= b.to_multiset().remove(x));
        lemma_map_multiset(rest, b.remove(j), f);
        assert(rest.map_values(f).push(f(x)) =~= a.map_values(f));
        assert(b.map_values(f).remove(j) =~= b.remove(j).map_values(f));
        assert(b.map_values(f)[j] == f(x));
        let mb = b.map_values(f).to_multiset();
        assert(mb.count(f(x)) > 0) by {
            assert(b.map_values(f).contains(f(x)));
        }
        assert(b.map_values(f).remove(j).to_multiset() == mb.remove(f(x)));
        assert(mb.remove(f(x)).insert(f(x)) =~= mb);
    }
}

/// Relies on `String::push`: the character goes at the end.
#[verifier::external_body]
fn push_char(s: &mut String, c: char)
    ensures
        final(s)@ == old(s)@.push(c),
{
    s.push(c)
}

/// Bytes read as text, each byte the character of that code.
pub open spec fn text_of(b: Seq<u8>) -> Seq<char> {
    b.map_values(|x: u8| x as char)
}

pub open spec fn text_pair(p: (Seq<u8>, Seq<u8>)) -> (Seq<char>, Seq<char>) {
    (text_of(p.0), text_of(p.1))
}

pub open spec fn texts_of(v: Seq<(Seq<u8>, Seq<u8>)>) -> Seq<(Seq<char>, Seq<char>)> {
    v.map_values(|p: (Seq<u8>, Seq<u8>)| text_pair(p))
}

pub open spec fn texts_view(v: Seq<(String, String)>) -> Seq<(Seq<char>, Seq<char>)> {
    v.map_values(|p: (String, String)| (p.0@, p.1@))
}

fn to_text(b: &Vec<u8>) -> (s: String)
    ensures
        s@ == text_of(b@),
{
    let mut s = String::new();
    let mut i: usize = 0;
    while i < b.len()
        invariant
            i <= b.len(),
            s@ == text_of(b@.subrange(0, i as int)),
        decreases b.len() - i,
    {
        push_char(&mut s, b[i] as char);
        i += 1;
        assert(s@ =~= text_of(b@.subrange(0, i as int)));
    }
    assert(b@.subrange(0, i as int) =~= b@);
    s
}

/// Every pair of plaintexts that XOR to `cipher` and tokenize against the
/// dictionary `root`, both streams starting at its root, in ranked order. No
/// solution is left out and none is repeated beyond the search paths that reach
/// it; an empty ciphertext is rejected with no solution.
pub fn crack_non_rec(cipher: &[u8], root: &Trie<u8, u64>) -> (r: Vec<(String, String)>)
    ensures
        texts_view(r@).to_multiset() == texts_of(ranked_solutions(cipher@, trie_entries(*root))).to_multiset(),
        cipher@.len() == 0 ==> r@.len() == 0,
{
    let ghost all = ranked_solutions(cipher@, trie_entries(*root));
    let mut res: Vec<(String, String)> = Vec::new();
    if cipher.len() == 0 {
        proof {
            lemma_multiset_of_small(0u8);
            lemma_multiset_of_small((Seq::<char>::empty(), Seq::<char>::empty()));
        }
        assert(all =~= Seq::empty());
        assert(texts_view(res@) =~= Seq::empty());
        assert(texts_of(all) =~= Seq::empty());
        return res;
    }
    let mut search = RankedSearch::new(cipher, root);
    let ghost mut found: Seq<(Seq<u8>, Seq<u8>)> = Seq::empty();
    proof {
        lemma_multiset_of_small((Seq::<u8>::empty(), Seq::<u8>::empty()));
        assert(found.to_multiset().add(search.pending().to_multiset()) =~= all.to_multiset());
    }
    while search.queue.len() > 0
        invariant
            search.wf(),
            search.root == root,
            all == ranked_solutions(cipher@, trie_entries(*root)),
            found.to_multiset().add(search.pending().to_multiset()) == all.to_multiset(),
            texts_view(res@) == texts_of(found),
        decreases search.remaining(),
    {
        let ghost pending = search.pending();
        match search.step() {
            Step::Found(a, b, _) => {
                let ghost pair = (a@, b@);
                let ghost old_res = res@;
                let ghost old_found = found;
                let ta = to_text(&a);
                let tb = to_text(&b);
                res.push((ta, tb));
                assert(res@ == old_res.push((ta, tb)));
                assert(texts_view(res@) =~= texts_view(old_res).push((text_of(a@), text_of(b@))));
                proof {
                    broadcast use vstd::seq_lib::group_to_multiset_ensures;
                    broadcast use vstd::multiset::group_multiset_axioms;

                    assert(found.push(pair).to_multiset() =~= found.to_multiset().insert(pair));
                    assert(found.push(pair).to_multiset().add(search.pending().to_multiset())
                        =~= found.to_multiset().add(pending.to_multiset()));
                    found = found.push(pair);
                }
                assert(texts_of(found) =~= texts_of(old_found).push(text_pair(pair)));
            },
            _ => {},
        }
    }
    proof {
        lemma_multiset_of_small((Seq::<u8>::empty(), Seq::<u8>::empty()));
        assert(states_view(search.queue@) =~= Seq::empty());
        assert(search.pending() =~= Seq::empty());
        assert(found.to_multiset().add(Multiset::empty()) =~= found.to_multiset());
        let f = |p: (Seq<u8>, Seq<u8>)| text_pair(p);
        lemma_map_multiset(found, all, f);
        assert(texts_of(found) =~= found.map_values(f));
        assert(texts_of(all) =~= all.map_values(f));
    }
    res
}

/// The integer part of the base-2 logarithm of `x`; 0 where `x` is 0 or 1.
pub open spec fn floor_log2(x: nat) -> nat
    decreases x,
{
    if x <= 1 {
        0
    } else {
        1 + floor_log2(x / 2)
    }
}

/// The plausibility weight of a word of `len` bytes seen `freq` times:
/// `log2(freq) + 2 * len`.
pub open spec fn weight(len: nat, freq: nat) -> nat {
    floor_log2(freq) + 2 * len
}

proof fn lemma_floor_log2_bound(x: nat, k: nat)
    requires
        x < vstd::arithmetic::power2::pow2(k),
        k >= 1,
    ensures
        floor_log2(x) < k,
    decreases k,
{
    vstd::arithmetic::power2::lemma_pow2_unfold(k);
    vstd::arithmetic::power2::lemma2_to64();
    if x > 1 {
        lemma_floor_log2_bound(x / 2, (k - 1) as nat);
    }
}

/// The integer part of the base-2 logarithm of `x`; 0 where `x` is 0.
fn log2(x: u64) -> (r: u64)
    ensures
        r == floor_log2(x as nat),
        r < 64,
{
    proof {
        vstd::arithmetic::power2::lemma2_to64();
        lemma_floor_log2_bound(x as nat, 64);
    }
    let mut y = x;
    let mut r: u64 = 0;
    while y > 1
        invariant
            r + floor_log2(y as nat) == floor_log2(x as nat),
            floor_log2(x as nat) < 64,
        decreases y,
    {
        y = y / 2;
        r = r + 1;
    }
    r
}

/// Each of `words` as bytes, with its weight for its frequency.
pub open spec fn weighted_pairs(words: Seq<(&str, u64)>) -> Seq<(Seq<u8>, u64)> {
    Seq::new(
        words.len(),
        |i: int| (words[i].0.spec_bytes(), weight(words[i].0.spec_bytes().len(), words[i].1 as nat) as u64),
    )
}

/// Builds a dictionary trie of `words`, each word with its weight for its
/// frequency.
pub fn build_trie_importance(words: &[(&str, u64)]) -> (t: Trie<u8, u64>)
    requires
        forall|i: int|
            0 <= i < words@.len() ==> 0 < (#[trigger] words@[i]).0.spec_bytes().len() && 2 * words@[i].0.spec_bytes().len() + 63 <= u64::MAX,
    ensures
        trie_entries(t) == entries_of(weighted_pairs(words@)),
{
    let mut pairs: Vec<(Vec<u8>, u64)> = Vec::with_capacity(words.len());
    let mut i: usize = 0;
    while i < words.len()
        invariant
            i <= words@.len(),
            pairs.len() == i,
            pairs_view(pairs@) == weighted_pairs(words@).subrange(0, i as int),
            forall|j: int| 0 <= j < pairs.len() ==> pairs@[j].0@.len() > 0,
            forall|j: int|
                0 <= j < words@.len() ==> 0 < (#[trigger] words@[j]).0.spec_bytes().len() && 2 * words@[j].0.spec_bytes().len() + 63 <= u64::MAX,
        decreases words.len() - i,
    {
        let (word, freq) = words[i];
        let bytes = word.as_bytes();
        assert(bytes@ == words@[i as int].0.spec_bytes());
        let len = bytes.len() as u64;
        let w = log2(freq) + 2 * len;
        let v: Vec<u8> = slice_to_vec(bytes);
        pairs.push((v, w));
        assert(pairs@[i as int].0@ == words@[i as int].0.spec_bytes());
        assert(pairs_view(pairs@)[i as int] == weighted_pairs(words@)[i as int]);
        i += 1;
        assert(pairs_view(pairs@) =~= weighted_pairs(words@).subrange(0, i as int));
    }
    assert(pairs_view(pairs@) =~= weighted_pairs(words@));
    trie_of(pairs)
}

} // verus!
