use padd::lex::alphabet::{Alphabet, HashedAlphabet};

#[test]
fn alphabet_contains() {
    let mut alphabet = HashedAlphabet::new();

    alphabet.insert('a');
    assert!(alphabet.contains('a'));
    assert!(!alphabet.contains('c'));
    assert!(!alphabet.contains('e'));

    alphabet.insert('e');
    assert!(alphabet.contains('a'));
    assert!(!alphabet.contains('c'));
    assert!(alphabet.contains('e'));

    alphabet.insert('c');
    assert!(alphabet.contains('a'));
    assert!(alphabet.contains('c'));
    assert!(alphabet.contains('e'));
}
