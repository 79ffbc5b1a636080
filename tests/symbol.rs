use phonology::symbol::{DescKey, IdSource, NonTerminal, Symbol, Table, Terminal, Word};
use std::collections::HashSet;

#[test]
fn table_keeps_last_of_duplicates() {
    let mut ids = IdSource::new();
    let first_b = Terminal::new("b", &mut ids);
    let a = Terminal::new("a", &mut ids);
    let last_b = Terminal::new("b", &mut ids);
    let c = Terminal::new("c", &mut ids);
    let table = Table::new(vec![first_b.clone(), c.clone(), a.clone(), last_b.clone()]);
    let descs: Vec<&str> = table.as_slice().iter().map(|t| t.desc()).collect();
    assert_eq!(descs, vec!["a", "b", "c"]);
    assert!(table.find("b").unwrap() == &last_b);
    assert!(table.find("b").unwrap() != &first_b);
    assert!(table.find("a").unwrap() == &a);
}

#[test]
fn table_find_absent_and_empty() {
    let mut ids = IdSource::new();
    let table = Table::new(vec![Terminal::new("p", &mut ids), Terminal::new("k", &mut ids)]);
    assert!(table.find("t").is_none());
    assert!(table.find("").is_none());
    assert!(table.find("pk").is_none());
    assert_eq!(table.find("k").unwrap().desc(), "k");
    let empty: Table<Terminal> = Table::new(Vec::new());
    assert!(empty.find("p").is_none());
    assert_eq!(empty.as_slice().len(), 0);
}

#[test]
fn table_orders_by_code_point() {
    let mut ids = IdSource::new();
    let table = Table::new(vec![
        Terminal::new("ʃ", &mut ids),
        Terminal::new("ab", &mut ids),
        Terminal::new("a", &mut ids),
        Terminal::new("B", &mut ids),
    ]);
    let descs: Vec<&str> = table.as_slice().iter().map(|t| t.desc()).collect();
    assert_eq!(descs, vec!["B", "a", "ab", "ʃ"]);
    assert_eq!(table.find("ʃ").unwrap().desc(), "ʃ");
}

#[test]
fn terminals_with_same_text_differ() {
    let mut ids = IdSource::new();
    let a = Terminal::new("a", &mut ids);
    let b = Terminal::new("a", &mut ids);
    assert!(a != b);
    assert!(a == a);
    assert!(a == a.clone());
}

#[test]
fn contains_follows_nested_classes() {
    let mut ids = IdSource::new();
    let a = Terminal::new("a", &mut ids);
    let i = Terminal::new("i", &mut ids);
    let p = Terminal::new("p", &mut ids);
    let stray = Terminal::new("a", &mut ids);
    let high = NonTerminal::new("High", vec![Symbol::Term(i.clone())], &mut ids);
    let vowels = NonTerminal::new("V", vec![Symbol::Term(a.clone()), Symbol::NonTerm(high.clone())], &mut ids);
    let top = NonTerminal::new("X", vec![Symbol::NonTerm(vowels.clone())], &mut ids);
    assert!(top.contains(&i));
    assert!(top.contains(&a));
    assert!(!top.contains(&p));
    assert!(!top.contains(&stray));
    assert!(!NonTerminal::new("E", Vec::new(), &mut ids).contains(&a));
    assert_eq!(vowels.members().len(), 2);
    assert_eq!(vowels.desc(), "V");
    assert_eq!(Symbol::NonTerm(high).desc(), "High");
    assert!(vowels != NonTerminal::new("V", Vec::new(), &mut ids));
}

#[test]
fn words_tables_and_hashing_follow_identity() {
    let mut ids = IdSource::new();
    let a = Terminal::new("a", &mut ids);
    let other_a = Terminal::new("a", &mut ids);
    let word = Word { symbols: vec![a.clone()] };
    assert_eq!(word, Word { symbols: vec![a.clone()] });
    assert_ne!(word, Word { symbols: vec![other_a.clone()] });
    let table = Table::new(vec![a.clone()]);
    assert_eq!(table, table.clone());
    assert_ne!(table, Table::new(vec![other_a.clone()]));
    let mut seen = HashSet::new();
    seen.insert(a.clone());
    assert!(seen.contains(&a));
    assert!(!seen.contains(&other_a));
}
