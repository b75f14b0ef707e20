use xoracle::all::build_trie_importance;
use xoracle::build_trie;
use xoracle::candidates::{candidates, next_states, special_states, ExpectedNext};
use xoracle::dict::Classification;
use xoracle::Queries;

#[test]
fn next_state_iterator() {
    let trie = build_trie(&["yes", "year", "you", "cyan"]);

    let mut cy = trie.inc_search();
    cy.query(&b'c');

    let q = Queries {
        inner: vec![trie.inc_search(), cy],
    };

    let mut states = next_states(&q).iter().map(|x| x.byte).collect::<Vec<_>>();
    states.sort();

    assert_eq!(states, [b'c', b'y']);
}

#[test]
fn next_state_iterator_advances_correctly() {
    let trie = build_trie(&["yes", "year", "you", "cyan"]);

    let mut cy = trie.inc_search();
    cy.query(&b'c');

    let q = Queries {
        inner: vec![trie.inc_search(), cy],
    };

    let found = next_states(&q)
        .into_iter()
        .find(|x| x.byte == b'y')
        .expect("y is a valid next char");

    assert!(!found.class.is_match());

    let mut states = next_states(&found.cursors)
        .iter()
        .map(|x| x.byte)
        .collect::<Vec<_>>();
    states.sort();

    assert_eq!(states, [b'a', b'e', b'o']);
}

#[test]
fn weighted_dictionary_candidates_and_weights() {
    let trie = build_trie_importance(&[("yes", 100), ("year", 10), ("you", 50), ("cyan", 5)]);

    let mut cy = trie.inc_search();
    cy.query(&b'c');
    let q = Queries {
        inner: vec![trie.inc_search(), cy],
    };
    let first = next_states(&q);
    assert_eq!(first.iter().map(|k| k.byte).collect::<Vec<_>>(), vec![b'c', b'y']);
    let y = &first[1];
    assert_eq!(y.class, Classification::Prefix);
    assert_eq!(y.weight, None);
    assert_eq!(y.cursors.inner.len(), 2);

    let second = next_states(&y.cursors);
    assert_eq!(
        second.iter().map(|k| k.byte).collect::<Vec<_>>(),
        vec![b'a', b'e', b'o']
    );
    let ye = &second[1];
    let third = next_states(&ye.cursors);
    assert_eq!(third.iter().map(|k| k.byte).collect::<Vec<_>>(), vec![b'a', b's']);
    assert_eq!(third[1].class, Classification::Match);
    assert_eq!(third[1].weight, Some(12));
    assert_eq!(third[0].class, Classification::Prefix);
    assert_eq!(third[0].weight, None);
}

#[test]
fn weights_follow_log2_and_length() {
    let trie = build_trie_importance(&[("yes", 100), ("year", 10), ("you", 50), ("cyan", 5), ("a", 0), ("i", 1)]);
    assert_eq!(trie.exact_match("yes"), Some(&12));
    assert_eq!(trie.exact_match("year"), Some(&11));
    assert_eq!(trie.exact_match("you"), Some(&11));
    assert_eq!(trie.exact_match("cyan"), Some(&10));
    assert_eq!(trie.exact_match("a"), Some(&2));
    assert_eq!(trie.exact_match("i"), Some(&2));
}

#[test]
fn weight_grows_with_length_and_frequency() {
    let trie = build_trie_importance(&[("ab", 8), ("abc", 8), ("xy", 8), ("xz", 16), ("xw", 9)]);
    let ab = *trie.exact_match("ab").unwrap();
    let abc = *trie.exact_match("abc").unwrap();
    let xy = *trie.exact_match("xy").unwrap();
    let xz = *trie.exact_match("xz").unwrap();
    let xw = *trie.exact_match("xw").unwrap();
    assert!(ab < abc);
    assert!(xy < xz);
    assert!(xy <= xw);
    assert_eq!(xy, xw);
}

#[test]
fn later_weight_for_a_word_replaces_earlier() {
    let trie = build_trie_importance(&[("yes", 1), ("yes", 1024)]);
    assert_eq!(trie.exact_match("yes"), Some(&16));
}

#[test]
fn advance_all_keeps_only_accepting_cursors() {
    let trie = build_trie(&["yes", "year", "you", "cyan"]);
    let mut cy = trie.inc_search();
    cy.query(&b'c');
    let mut q = Queries {
        inner: vec![trie.inc_search(), cy],
    };
    q.advance_all(b'y');
    assert_eq!(q.inner.len(), 2);
    q.advance_all(b'a');
    assert_eq!(q.inner.len(), 1);
    q.advance_all(b'z');
    assert_eq!(q.inner.len(), 0);
    assert!(next_states(&q).is_empty());
}

#[test]
fn separators_reset_to_the_root() {
    let trie = build_trie(&["yes", "you"]);
    let seps = special_states(&trie);
    assert_eq!(seps.iter().map(|k| k.byte).collect::<Vec<_>>(), b"'\" ,.".to_vec());
    for k in &seps {
        assert_eq!(k.class, Classification::PrefixAndMatch);
        assert_eq!(k.weight, None);
        let next = next_states(&k.cursors);
        assert_eq!(next.iter().map(|c| c.byte).collect::<Vec<_>>(), vec![b'y']);
    }
    let q = Queries::new(trie.inc_search());
    let word = candidates(&q, ExpectedNext::Word, &trie);
    assert_eq!(word.len(), 1);
    let sep = candidates(&q, ExpectedNext::Special, &trie);
    assert_eq!(sep.len(), 5);
}

#[test]
fn word_and_match_fork_is_reported_once() {
    let trie = build_trie(&["a", "an", "i"]);
    let q = Queries::new(trie.inc_search());
    let first = next_states(&q);
    assert_eq!(first.iter().map(|k| k.byte).collect::<Vec<_>>(), vec![b'a', b'i']);
    assert_eq!(first[0].class, Classification::PrefixAndMatch);
    assert!(first[0].class.is_prefix() && first[0].class.is_match());
    assert_eq!(first[1].class, Classification::Match);
    assert!(!first[1].class.is_prefix());
}

#[test]
fn first_acceptor_decides_classification() {
    // The root accepts 'a' as a prefix of "ab"; the second cursor, after 'x',
    // accepts 'a' as the end of "xa". The first acceptor decides.
    let trie = build_trie(&["ab", "xa"]);
    let mut x = trie.inc_search();
    x.query(&b'x');
    let q = Queries {
        inner: vec![trie.inc_search(), x.clone()],
    };
    let ks = next_states(&q);
    let a = ks.iter().find(|k| k.byte == b'a').unwrap();
    assert_eq!(a.class, Classification::Prefix);
    assert_eq!(a.cursors.inner.len(), 2);

    let q2 = Queries {
        inner: vec![x, trie.inc_search()],
    };
    let ks2 = next_states(&q2);
    let a2 = ks2.iter().find(|k| k.byte == b'a').unwrap();
    assert_eq!(a2.class, Classification::Match);
    assert_eq!(a2.cursors.inner.len(), 2);
}

#[test]
fn alphabets_are_fixed() {
    assert_eq!(xoracle::special(), b"'\" ,.");
    assert_eq!(xoracle::charset(), b"abcdefghijklmnopqrstuvwxyz'\" ,.");
}
