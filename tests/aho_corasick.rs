use rs_lib::aho_corasick::AhoCorasick;

fn vector_pair_to_string(pairs: Vec<(usize, usize)>) -> String {
    if pairs.is_empty() {
        return "".to_string();
    }

    pairs
        .iter()
        .map(|(index, length)| format!("({} {})", index, length))
        .collect::<Vec<_>>()
        .join(", ")
}

fn sorted(mut pairs: Vec<(usize, usize)>) -> Vec<(usize, usize)> {
    pairs.sort();
    pairs
}

#[test]
fn aho_corasick_aho_corasick_tests() {
    let mut aho_corasick = AhoCorasick::new();

    assert_eq!(0, aho_corasick.nodes.len() - 1);
    assert_eq!(true, aho_corasick.nodes.get(0).unwrap().children.is_empty());
    assert_eq!(true, aho_corasick.nodes.get(0).unwrap().output_links.is_empty());
    assert_eq!(None, aho_corasick.nodes.get(0).unwrap().suffix_link);

    assert_eq!(vector_pair_to_string(aho_corasick.search("")), "");
    assert_eq!(vector_pair_to_string(aho_corasick.search("apple")), "");

    let word_list = vec!["apple", "app", "bat"];
    aho_corasick.build(word_list);

    assert_eq!(vector_pair_to_string(aho_corasick.search("apple")), "(0 3), (0 5)");
    assert_eq!(vector_pair_to_string(aho_corasick.search("app")), "(0 3)");
    assert_eq!(vector_pair_to_string(aho_corasick.search("bat")), "(0 3)");
    assert_eq!(vector_pair_to_string(aho_corasick.search("batapple")), "(0 3), (3 3), (3 5)");

    aho_corasick.remove("apple");
    assert_eq!(vector_pair_to_string(aho_corasick.search("apple")), "(0 3)");
    assert_eq!(vector_pair_to_string(aho_corasick.search("app")), "(0 3)");

    aho_corasick.remove("app");
    assert_eq!(vector_pair_to_string(aho_corasick.search("app")), "");
    assert_eq!(vector_pair_to_string(aho_corasick.search("bat")), "(0 3)");

    aho_corasick.insert("apple");
    aho_corasick.insert("app");
    assert_eq!(vector_pair_to_string(aho_corasick.search("apple")), "(0 3), (0 5)");
    assert_eq!(vector_pair_to_string(aho_corasick.search("app")), "(0 3)");

    assert_eq!(vector_pair_to_string(aho_corasick.search("")), "");
    aho_corasick.remove("bat");
    assert_eq!(vector_pair_to_string(aho_corasick.search("")), "");

    aho_corasick.insert("");
    assert_eq!(vector_pair_to_string(aho_corasick.search("")), "(0 0)");
    aho_corasick.remove("");
    assert_eq!(vector_pair_to_string(aho_corasick.search("")), "");

    aho_corasick.insert("i");
    aho_corasick.insert("in");
    aho_corasick.insert("tin");
    aho_corasick.insert("sting");
    assert_eq!(
        vector_pair_to_string(aho_corasick.search("stings")) == "(2 1), (1 3), (2 2), (0 5)" ||
        vector_pair_to_string(aho_corasick.search("stings")) == "(2 1), (2 2), (1 3), (0 5)",
        true
    );
}

#[test]
fn build_then_search_reports_every_occurrence() {
    let mut a = AhoCorasick::new();
    a.build(vec!["apple", "app", "bat"]);
    assert_eq!(sorted(a.search("batapple")), vec![(0, 3), (3, 3), (3, 5)]);
    assert_eq!(sorted(a.search("apple")), vec![(0, 3), (0, 5)]);
    a.remove("apple");
    assert_eq!(a.search("apple"), vec![(0, 3)]);
    a.remove("app");
    assert_eq!(a.search("app"), vec![]);
}

#[test]
fn nested_patterns_in_stings() {
    let mut a = AhoCorasick::new();
    a.insert("i");
    a.insert("in");
    a.insert("tin");
    a.insert("sting");
    assert_eq!(sorted(a.search("stings")), vec![(0, 5), (1, 3), (2, 1), (2, 2)]);
}

#[test]
fn overlapping_occurrences_are_all_reported() {
    let mut a = AhoCorasick::new();
    a.build(vec!["aa", "a"]);
    assert_eq!(
        sorted(a.search("aaa")),
        vec![(0, 1), (0, 2), (1, 1), (1, 2), (2, 1)]
    );
}

#[test]
fn results_come_in_order_of_end_position() {
    let mut a = AhoCorasick::new();
    a.build(vec!["he", "she", "his", "hers"]);
    let r = a.search("ushers");
    assert_eq!(sorted(r.clone()), vec![(1, 3), (2, 2), (2, 4)]);
    for w in r.windows(2) {
        assert!(w[0].0 + w[0].1 <= w[1].0 + w[1].1);
    }
}

#[test]
fn empty_dictionary_finds_nothing() {
    let a = AhoCorasick::new();
    assert_eq!(a.search("anything"), vec![]);
    assert_eq!(a.search(""), vec![]);
}

#[test]
fn empty_pattern_reports_the_empty_match_first() {
    let mut a = AhoCorasick::new();
    a.insert("");
    assert_eq!(a.search(""), vec![(0, 0)]);
    a.insert("ab");
    let r = a.search("ab");
    assert_eq!(r[0], (0, 0));
    assert!(r.contains(&(0, 2)));
}

#[test]
fn removing_another_word_keeps_the_empty_pattern() {
    let mut a = AhoCorasick::new();
    a.insert("");
    a.insert("x");
    a.remove("x");
    assert_eq!(a.search(""), vec![(0, 0)]);
    a.remove("");
    assert_eq!(a.search(""), vec![]);
}

#[test]
fn insert_then_remove_restores_results() {
    let mut a = AhoCorasick::new();
    a.build(vec!["abc", "bc"]);
    let before = sorted(a.search("xabcbcab"));
    a.insert("ca");
    assert_eq!(sorted(a.search("xabcbcab")), vec![(1, 3), (2, 2), (4, 2), (5, 2)]);
    a.remove("ca");
    assert_eq!(sorted(a.search("xabcbcab")), before);
    assert_eq!(before, vec![(1, 3), (2, 2), (4, 2)]);
}

#[test]
fn removing_a_prefix_pattern_keeps_the_longer_one() {
    let mut a = AhoCorasick::new();
    a.insert("app");
    a.insert("apple");
    a.remove("app");
    assert_eq!(a.search("apple"), vec![(0, 5)]);
    a.remove("missing");
    assert_eq!(a.search("apple"), vec![(0, 5)]);
}

#[test]
fn build_matches_one_by_one_insertion() {
    let words = vec!["she", "he", "hers", "e"];
    let mut built = AhoCorasick::new();
    built.build(words.clone());
    let mut inserted = AhoCorasick::new();
    for w in words {
        inserted.insert(w);
    }
    for text in ["ushers", "hehe", "", "shhe"] {
        assert_eq!(sorted(built.search(text)), sorted(inserted.search(text)));
    }
}

#[test]
fn positions_count_code_points() {
    let mut a = AhoCorasick::new();
    a.insert("é");
    a.insert("ün");
    assert_eq!(a.search("aéüné"), vec![(1, 1), (2, 2), (4, 1)]);
}
