use padd::lex::ecdfa::TransitionTrie;
use padd::lex::{ConsumerStrategy, Transit, TransitionResult, TransitBuilder};

fn chars(s: &str) -> Vec<char> {
    s.chars().collect()
}

fn dest(result: TransitionResult<usize>) -> Option<(usize, usize)> {
    match result {
        TransitionResult::Fail => None,
        TransitionResult::Pass(d) => Some((d.state, d.consumed)),
    }
}

#[test]
fn longest_chain_wins() {
    let mut trie = TransitionTrie::new();
    trie.insert('a', Transit::to(1)).unwrap();
    trie.insert_chain(&chars("ab"), Transit::to(2)).unwrap();
    trie.insert_chain(&chars("abc"), Transit::to(3)).unwrap();
    trie.insert_range('a' as u32..='z' as u32, Transit::to(4)).unwrap();
    trie.set_default(Transit::to(5)).unwrap();

    assert_eq!(dest(trie.transition(&chars("abcd"))), Some((3, 3)));
    assert_eq!(dest(trie.transition(&chars("abd"))), Some((2, 2)));
    assert_eq!(dest(trie.transition(&chars("ax"))), Some((1, 1)));
    assert_eq!(dest(trie.transition(&chars("q"))), Some((4, 1)));
    assert_eq!(dest(trie.transition(&chars("!"))), Some((5, 1)));
    assert_eq!(dest(trie.transition(&chars(""))), None);
}

#[test]
fn duplicate_matchers_refused() {
    let mut trie = TransitionTrie::new();
    trie.insert_chain(&chars("ab"), Transit::to(1)).unwrap();
    assert!(trie.insert_chain(&chars("ab"), Transit::to(2)).is_err());
    assert!(trie.insert('a', Transit::to(3)).is_ok());
    assert!(trie.insert('a', Transit::to(4)).is_err());
    assert!(trie.insert_chain(&chars(""), Transit::to(5)).is_ok());
    trie.set_default(Transit::to(6)).unwrap();
    assert!(trie.set_default(Transit::to(7)).is_err());
    trie.insert_range('0' as u32..='9' as u32, Transit::to(8)).unwrap();
    assert!(trie.insert_range('5' as u32..='7' as u32, Transit::to(9)).is_err());

    assert_eq!(dest(trie.transition(&chars("ab"))), Some((1, 2)));
    assert_eq!(dest(trie.transition(&chars("a"))), Some((3, 1)));
    assert_eq!(dest(trie.transition(&chars("6"))), Some((8, 1)));
}

#[test]
fn non_consuming_transit() {
    let mut trie = TransitionTrie::new();
    let transit = TransitBuilder::to(7).consumer(ConsumerStrategy::Nothing).accept_to(9).build();
    trie.insert_chain(&chars("xy"), transit).unwrap();
    match trie.transition(&chars("xyz")) {
        TransitionResult::Pass(d) => {
            assert_eq!(d.state, 7);
            assert_eq!(d.consumed, 0);
            assert_eq!(d.acceptor_destination, Some(9));
        }
        TransitionResult::Fail => panic!("expected a transition"),
    }
}
