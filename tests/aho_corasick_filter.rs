use rs_lib::aho_corasick_filter::AhoCorasickFilter;

fn vector_pair_to_string(pairs: Vec<(usize, usize)>) -> String {
    if pairs.is_empty() {
        return "".to_string();
    }

    pairs
        .iter()
        .map(|(index, length)| format!("({} {})", index, length))
        .collect::<Vec<_>>()
        .join(", ")
}

#[test]
fn aho_corasick_filter_aho_corasick_tests() {
    let mut aho_corasick_filter = AhoCorasickFilter::new();

    assert_eq!(vector_pair_to_string(aho_corasick_filter.search("")), "");
    assert_eq!(vector_pair_to_string(aho_corasick_filter.search("apple")), "");

    let word_list = vec!["apple", "app", "bat"];
    aho_corasick_filter.build(word_list);

    assert_eq!(vector_pair_to_string(aho_corasick_filter.search("apple")), "(0 3), (0 5)");
    assert_eq!(vector_pair_to_string(aho_corasick_filter.search("app")), "(0 3)");
    assert_eq!(vector_pair_to_string(aho_corasick_filter.search("bat")), "(0 3)");
    assert_eq!(vector_pair_to_string(aho_corasick_filter.search("batapple")), "(0 3), (3 3), (3 5)");

    aho_corasick_filter.remove("apple");
    assert_eq!(vector_pair_to_string(aho_corasick_filter.search("apple")), "(0 3)");
    assert_eq!(vector_pair_to_string(aho_corasick_filter.search("app")), "(0 3)");

    aho_corasick_filter.remove("app");
    assert_eq!(vector_pair_to_string(aho_corasick_filter.search("app")), "");
    assert_eq!(vector_pair_to_string(aho_corasick_filter.search("bat")), "(0 3)");

    aho_corasick_filter.insert("apple");
    aho_corasick_filter.insert("app");
    assert_eq!(vector_pair_to_string(aho_corasick_filter.search("apple")), "(0 3), (0 5)");
    assert_eq!(vector_pair_to_string(aho_corasick_filter.search("app")), "(0 3)");

    assert_eq!(vector_pair_to_string(aho_corasick_filter.search("")), "");
    aho_corasick_filter.remove("bat");
    assert_eq!(vector_pair_to_string(aho_corasick_filter.search("")), "");

    aho_corasick_filter.insert("");
    assert_eq!(vector_pair_to_string(aho_corasick_filter.search("")), "(0 0)");
    aho_corasick_filter.remove("");
    assert_eq!(vector_pair_to_string(aho_corasick_filter.search("")), "");

    aho_corasick_filter.insert("i");
    aho_corasick_filter.insert("in");
    aho_corasick_filter.insert("tin");
    aho_corasick_filter.insert("sting");
    assert_eq!(
        vector_pair_to_string(aho_corasick_filter.search("stings")) == "(2 1), (1 3), (2 2), (0 5)" ||
        vector_pair_to_string(aho_corasick_filter.search("stings")) == "(2 1), (2 2), (1 3), (0 5)",
        true
    );

    //-----

    assert_eq!(aho_corasick_filter.filter("apple", "*"), "*****");
    assert_eq!(aho_corasick_filter.filter("app", "*"), "***");
    assert_eq!(aho_corasick_filter.filter("bat", "*"), "bat");
    assert_eq!(aho_corasick_filter.filter("batapple", "*"), "bat*****");
    assert_eq!(aho_corasick_filter.filter("", "*"), "");

    aho_corasick_filter.insert("bat");
    assert_eq!(aho_corasick_filter.filter("bat", "*"), "***");
    assert_eq!(aho_corasick_filter.filter("batapple", "*"), "********");
    assert_eq!(aho_corasick_filter.filter("bataapple", "*"), "***a*****");
    assert_eq!(aho_corasick_filter.filter("batapapple", "*"), "***ap*****");

    aho_corasick_filter.insert("");
    assert_eq!(aho_corasick_filter.filter("apple", "*"), "*****");
    assert_eq!(aho_corasick_filter.filter("app", "*"), "***");
    assert_eq!(aho_corasick_filter.filter("bat", "*"), "***");
    assert_eq!(aho_corasick_filter.filter("batapple", "*"), "********");
    assert_eq!(aho_corasick_filter.filter("", "*"), "");
}

#[test]
fn filter_merges_overlapping_and_nested_occurrences() {
    let mut f = AhoCorasickFilter::new();
    f.build(vec!["apple", "app", "bat"]);
    assert_eq!(f.filter("bataapple", "*"), "***a*****");
    assert_eq!(f.filter("batapapple", "*"), "***ap*****");
    f.build(vec!["pleas", "ease"]);
    assert_eq!(f.filter("appleasel", "#"), "########l");
}

#[test]
fn filter_leaves_uncovered_text_alone() {
    let mut f = AhoCorasickFilter::new();
    f.insert("cat");
    assert_eq!(f.filter("a dog", "*"), "a dog");
    assert_eq!(f.filter("", "*"), "");
}

#[test]
fn filter_with_a_longer_or_empty_replacement() {
    let mut f = AhoCorasickFilter::new();
    f.insert("bad");
    assert_eq!(f.filter("a bad day", "[x]"), "a [x][x][x] day");
    assert_eq!(f.filter("a bad day", ""), "a  day");
}

#[test]
fn filter_ignores_the_empty_pattern() {
    let mut f = AhoCorasickFilter::new();
    f.insert("");
    assert_eq!(f.filter("abc", "*"), "abc");
    f.insert("b");
    assert_eq!(f.filter("abc", "*"), "a*c");
}

#[test]
fn filter_counts_code_points() {
    let mut f = AhoCorasickFilter::new();
    f.insert("né");
    assert_eq!(f.filter("ünéx", "*"), "ü**x");
}

#[test]
fn filter_ignore_passes_ignored_characters_through() {
    let mut f = AhoCorasickFilter::new();
    f.insert("135");
    assert_eq!(f.filter_ignore("123456", "*", &vec!['2', '4', '6']), "*2*4*6");
}

#[test]
fn filter_ignore_merges_regions_across_ignored_characters() {
    let mut f = AhoCorasickFilter::new();
    f.build(vec!["ab", "bc"]);
    assert_eq!(f.filter_ignore("a-b-c-d", "*", &vec!['-']), "*-*-*-d");
    assert_eq!(f.filter_ignore("a-b", "*", &vec![]), "a-b");
    f.insert("");
    assert_eq!(f.filter_ignore("xa.bx", "*", &vec!['.']), "x*.*x");
}
