use phonology::pat::{Match, MatchSegment, Pattern};
use phonology::symbol::{IdSource, NonTerminal, Symbol, Table, Terminal};

fn terms_for_test(ids: &mut IdSource) -> Table<Terminal> {
    let mut terms = Vec::new();
    for desc in ["a", "i", "u", "p", "c", "q"] {
        terms.push(Terminal::new(desc, ids));
    }
    Table::new(terms)
}

fn find_terms(table: &Table<Terminal>, descs: &[&str]) -> Option<Vec<Terminal>> {
    let mut found = Vec::new();
    for desc in descs {
        found.push(table.find(desc)?.clone());
    }
    Some(found)
}

fn find_members(table: &Table<Terminal>, descs: &[&str]) -> Option<Vec<Symbol>> {
    Some(find_terms(table, descs)?.into_iter().map(Symbol::Term).collect())
}

fn non_terms_for_test(terms: &Table<Terminal>, ids: &mut IdSource) -> Option<Table<NonTerminal>> {
    let vowels = NonTerminal::new("V", find_members(terms, &["a", "i", "u"])?, ids);
    let consonants = NonTerminal::new("C", find_members(terms, &["p", "c", "q"])?, ids);
    Some(Table::new(vec![vowels, consonants]))
}

fn one_segment(start: usize, len: usize) -> Match {
    Match { segments: vec![MatchSegment { start, len }] }
}

#[test]
fn terms_pat() {
    let mut ids = IdSource::new();
    let terms = terms_for_test(&mut ids);
    let string1 = find_terms(&terms, &["a", "p", "u"]).unwrap();
    let string2 = find_terms(&terms, &["q", "i", "u", "a"]).unwrap();

    let pat = Pattern::Terms(string1.clone());

    assert_eq!(pat.match_terms(&string1), Match { segments: vec![MatchSegment { start: 0, len: 3 }] });
    assert_eq!(pat.match_terms(&string2), Match::default());
}

#[test]
fn non_term_pat() {
    let mut ids = IdSource::new();
    let terms = terms_for_test(&mut ids);
    let non_terms = non_terms_for_test(&terms, &mut ids).unwrap();
    let string1 = find_terms(&terms, &["a"]).unwrap();
    let string2 = find_terms(&terms, &["i"]).unwrap();
    let string3 = find_terms(&terms, &["i", "a"]).unwrap();
    let string4 = find_terms(&terms, &["p"]).unwrap();

    let pat = Pattern::NonTerm(non_terms.find("V").unwrap().clone());

    assert_eq!(pat.match_terms(&string1), Match { segments: vec![MatchSegment { start: 0, len: 1 }] });
    assert_eq!(pat.match_terms(&string2), Match { segments: vec![MatchSegment { start: 0, len: 1 }] });
    assert_eq!(pat.match_terms(&string3), Match::default());
    assert_eq!(pat.match_terms(&string4), Match::default());
}

#[test]
fn and_pat() {
    let mut ids = IdSource::new();
    let terms = terms_for_test(&mut ids);
    let non_terms = non_terms_for_test(&terms, &mut ids).unwrap();
    let string1 = find_terms(&terms, &["c", "u"]).unwrap();
    let string2 = find_terms(&terms, &["i"]).unwrap();
    let string3 = find_terms(&terms, &["c", "u", "p"]).unwrap();
    let string4 = find_terms(&terms, &["q"]).unwrap();

    let left = Pattern::Terms(string1.clone());
    let right = Pattern::NonTerm(non_terms.find("C").unwrap().clone());
    let pat = Pattern::And(Box::new(left), Box::new(right));

    assert_eq!(pat.match_terms(&string1), Match::default());
    assert_eq!(pat.match_terms(&string2), Match::default());
    assert_eq!(pat.match_terms(&string3), Match { segments: vec![MatchSegment { start: 0, len: 3 }] });
    assert_eq!(pat.match_terms(&string4), Match::default());
}

#[test]
fn or_pat() {
    let mut ids = IdSource::new();
    let terms = terms_for_test(&mut ids);
    let non_terms = non_terms_for_test(&terms, &mut ids).unwrap();
    let string1 = find_terms(&terms, &["c", "u"]).unwrap();
    let string2 = find_terms(&terms, &["i"]).unwrap();
    let string3 = find_terms(&terms, &["c", "u", "p"]).unwrap();
    let string4 = find_terms(&terms, &["q"]).unwrap();

    let left = Pattern::Terms(string1.clone());
    let right = Pattern::NonTerm(non_terms.find("C").unwrap().clone());
    let pat = Pattern::Or(Box::new(left), Box::new(right));

    assert_eq!(pat.match_terms(&string1), Match { segments: vec![MatchSegment { start: 0, len: 2 }] });
    assert_eq!(pat.match_terms(&string2), Match::default());
    assert_eq!(pat.match_terms(&string3), Match { segments: vec![MatchSegment { start: 0, len: 2 }] });
    assert_eq!(pat.match_terms(&string4), Match { segments: vec![MatchSegment { start: 0, len: 1 }] });
}

#[test]
fn terms_pat_matches_prefix_only_from_start() {
    let mut ids = IdSource::new();
    let terms = terms_for_test(&mut ids);
    let seq = find_terms(&terms, &["a", "p", "u"]).unwrap();
    let longer = find_terms(&terms, &["a", "p", "u", "q"]).unwrap();
    let shifted = find_terms(&terms, &["q", "a", "p", "u"]).unwrap();
    let pat = Pattern::Terms(seq);
    assert_eq!(pat.match_terms(&longer), one_segment(0, 3));
    assert_eq!(pat.match_terms(&shifted), Match::default());
    assert_eq!(Pattern::Terms(Vec::new()).match_terms(&shifted), one_segment(0, 0));
}

#[test]
fn terms_pat_needs_the_canonical_terminals() {
    let mut ids = IdSource::new();
    let terms = terms_for_test(&mut ids);
    let canonical = find_terms(&terms, &["a"]).unwrap();
    let stray = vec![Terminal::new("a", &mut ids)];
    assert_eq!(Pattern::Terms(canonical.clone()).match_terms(&stray), Match::default());
    assert_eq!(Pattern::Terms(canonical.clone()).match_terms(&canonical), one_segment(0, 1));
}

#[test]
fn non_term_pat_through_nested_class() {
    let mut ids = IdSource::new();
    let terms = terms_for_test(&mut ids);
    let non_terms = non_terms_for_test(&terms, &mut ids).unwrap();
    let vowels = non_terms.find("V").unwrap().clone();
    let all = NonTerminal::new("S", vec![Symbol::NonTerm(vowels)], &mut ids);
    let pat = Pattern::NonTerm(all);
    assert_eq!(pat.match_terms(&find_terms(&terms, &["u"]).unwrap()), one_segment(0, 1));
    assert_eq!(pat.match_terms(&find_terms(&terms, &["p"]).unwrap()), Match::default());
    assert_eq!(pat.match_terms(&[]), Match::default());
}

#[test]
fn and_pat_merges_three_parts() {
    let mut ids = IdSource::new();
    let terms = terms_for_test(&mut ids);
    let non_terms = non_terms_for_test(&terms, &mut ids).unwrap();
    let first = Pattern::Terms(find_terms(&terms, &["c"]).unwrap());
    let second = Pattern::Terms(find_terms(&terms, &["u"]).unwrap());
    let last = Pattern::NonTerm(non_terms.find("C").unwrap().clone());
    let pat = Pattern::And(Box::new(Pattern::And(Box::new(first), Box::new(second))), Box::new(last));
    assert_eq!(pat.match_terms(&find_terms(&terms, &["c", "u", "q"]).unwrap()), one_segment(0, 3));
    assert_eq!(pat.match_terms(&find_terms(&terms, &["c", "u", "a"]).unwrap()), Match::default());
}

#[test]
fn match_terms_twice_gives_equal_results() {
    let mut ids = IdSource::new();
    let terms = terms_for_test(&mut ids);
    let non_terms = non_terms_for_test(&terms, &mut ids).unwrap();
    let left = Pattern::Terms(find_terms(&terms, &["c", "u"]).unwrap());
    let right = Pattern::NonTerm(non_terms.find("C").unwrap().clone());
    let pat = Pattern::Or(Box::new(left), Box::new(right));
    let word = find_terms(&terms, &["q"]).unwrap();
    assert_eq!(pat.match_terms(&word), pat.match_terms(&word));
}

#[test]
fn patterns_compare_by_symbol_identity() {
    let mut ids = IdSource::new();
    let terms = terms_for_test(&mut ids);
    let run = find_terms(&terms, &["c", "u"]).unwrap();
    let stray = vec![Terminal::new("c", &mut ids), Terminal::new("u", &mut ids)];
    assert_eq!(Pattern::Terms(run.clone()), Pattern::Terms(run.clone()));
    assert_ne!(Pattern::Terms(run), Pattern::Terms(stray));
}
