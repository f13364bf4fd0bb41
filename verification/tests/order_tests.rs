use pdf_pipeline::order::{lex_le_bytes, sorted_names};

fn b(s: &str) -> Vec<u8> {
    s.as_bytes().to_vec()
}

#[test]
fn lex_le_on_common_prefixes() {
    assert!(lex_le_bytes(&b("a"), &b("ab")));
    assert!(!lex_le_bytes(&b("ab"), &b("a")));
    assert!(lex_le_bytes(&b("abc"), &b("abd")));
    assert!(!lex_le_bytes(&b("abd"), &b("abc")));
}

#[test]
fn lex_le_is_reflexive_and_takes_empty_first() {
    assert!(lex_le_bytes(&b(""), &b("")));
    assert!(lex_le_bytes(&b(""), &b("x")));
    assert!(!lex_le_bytes(&b("x"), &b("")));
    assert!(lex_le_bytes(&b("same"), &b("same")));
}

#[test]
fn sorted_names_orders_lexicographically() {
    let names = vec![b("c.pdf"), b("a.pdf"), b("b.pdf")];
    assert_eq!(sorted_names(names), vec![b("a.pdf"), b("b.pdf"), b("c.pdf")]);
}

#[test]
fn sorted_names_keeps_duplicates() {
    let names = vec![b("b"), b("a"), b("b"), b("a")];
    assert_eq!(sorted_names(names), vec![b("a"), b("a"), b("b"), b("b")]);
}

#[test]
fn sorted_names_on_empty_and_singleton() {
    assert_eq!(sorted_names(Vec::new()), Vec::<Vec<u8>>::new());
    assert_eq!(sorted_names(vec![b("only.pdf")]), vec![b("only.pdf")]);
}
