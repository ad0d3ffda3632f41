use rusty_wc::accumulate;
use rusty_wc::calculate_frequency;
use rusty_wc::calculate_top_words;
use rusty_wc::calculate_top_words_mut;
use rusty_wc::process_content;
use rusty_wc::tokenize;
use rusty_wc::FrequencyMap;

fn frequency_of(content: &str) -> FrequencyMap {
    let tokens = tokenize(content);
    let mut local = FrequencyMap::new();
    let mut scratch = FrequencyMap::new();
    accumulate(&tokens, &mut local, &mut scratch);
    local
}

#[test]
fn test_accumulate_counts_each_word() {
    let map = frequency_of("a b a c a b");
    assert_eq!(map.len(), 3);
    assert_eq!(map.count_of("a"), 3);
    assert_eq!(map.count_of("b"), 2);
    assert_eq!(map.count_of("c"), 1);
    assert_eq!(map.count_of("missing"), 0);
}

#[test]
fn test_accumulate_updates_local_and_global() {
    let mut global = FrequencyMap::new();
    let mut first = FrequencyMap::new();
    accumulate(&tokenize("x y x"), &mut first, &mut global);
    let mut second = FrequencyMap::new();
    accumulate(&tokenize("y z"), &mut second, &mut global);
    assert_eq!(first.count_of("x"), 2);
    assert_eq!(first.count_of("y"), 1);
    assert_eq!(second.count_of("y"), 1);
    assert_eq!(second.count_of("z"), 1);
    assert_eq!(global.count_of("x"), 2);
    assert_eq!(global.count_of("y"), 2);
    assert_eq!(global.count_of("z"), 1);
}

#[test]
fn test_select_top_k_returns_exact_winners() {
    let map = frequency_of("a b a c a b");
    let top = map.select_top_k(2);
    assert_eq!(top.len(), 2);
    assert_eq!(top.count_of("a"), 3);
    assert_eq!(top.count_of("b"), 2);
    assert_eq!(top.count_of("c"), 0);
}

#[test]
fn test_select_top_k_size_is_min_of_k_and_map_size() {
    let map = frequency_of("a b c");
    assert_eq!(map.select_top_k(0).len(), 0);
    assert_eq!(map.select_top_k(2).len(), 2);
    assert_eq!(map.select_top_k(3).len(), 3);
    assert_eq!(map.select_top_k(10).len(), 3);
    let empty = FrequencyMap::new();
    assert_eq!(empty.select_top_k(10).len(), 0);
}

#[test]
fn test_select_top_k_on_empty_content() {
    let map = frequency_of("");
    assert_eq!(map.len(), 0);
    let top = map.select_top_k(10);
    assert_eq!(top.len(), 0);
}

#[test]
fn test_select_top_k_kept_counts_dominate_dropped_counts() {
    let map = frequency_of("e e e d d c c b a");
    let top = map.select_top_k(2);
    assert_eq!(top.len(), 2);
    // The two kept entries must be e (3) and one of the count-2 words.
    assert_eq!(top.count_of("e"), 3);
    assert_eq!(top.count_of("d") + top.count_of("c"), 2);
    assert_eq!(top.count_of("b"), 0);
    assert_eq!(top.count_of("a"), 0);
}

#[test]
fn test_top_ten_evicts_one_singleton_for_a_pair() {
    // Ten distinct words seen once, then an eleventh word seen twice.
    let content = "w0 w1 w2 w3 w4 w5 w6 w7 w8 w9 pair pair";
    let map = frequency_of(content);
    assert_eq!(map.len(), 11);
    let top = calculate_top_words(map);
    assert_eq!(top.len(), 10);
    assert_eq!(top.count_of("pair"), 2);
    let singles: usize = (0..10)
        .map(|i| top.count_of(&format!("w{}", i)))
        .sum();
    assert_eq!(singles, 9);
}

#[test]
fn test_equal_count_never_displaces_an_earlier_word() {
    let map = frequency_of("a b");
    let top = map.select_top_k(1);
    assert_eq!(top.len(), 1);
    assert_eq!(top.count_of("a") + top.count_of("b"), 1);
}

#[test]
fn test_calculate_top_words_mut_leaves_map_unchanged() {
    let mut total = frequency_of("a b a c");
    let top = calculate_top_words_mut(&mut total);
    assert_eq!(top.len(), 3);
    assert_eq!(total.len(), 3);
    assert_eq!(total.count_of("a"), 2);
    assert_eq!(total.count_of("b"), 1);
    assert_eq!(total.count_of("c"), 1);
}

#[test]
fn test_calculate_frequency_reports_file_and_feeds_total() {
    let mut total = FrequencyMap::new();
    let first_top = calculate_frequency("a b a", &mut total);
    assert_eq!(first_top.count_of("a"), 2);
    assert_eq!(first_top.count_of("b"), 1);
    let second_top = calculate_frequency("b c", &mut total);
    assert_eq!(second_top.count_of("b"), 1);
    assert_eq!(second_top.count_of("c"), 1);
    assert_eq!(total.count_of("a"), 2);
    assert_eq!(total.count_of("b"), 2);
    assert_eq!(total.count_of("c"), 1);
}

#[test]
fn test_process_content_tallies_like_calculate_frequency() {
    let mut total = FrequencyMap::new();
    let top = process_content("a b a", &mut total).expect("counts are tiny");
    assert_eq!(top.count_of("a"), 2);
    assert_eq!(total.count_of("a"), 2);
    assert_eq!(total.count_of("b"), 1);
}

#[test]
fn test_increment_enters_and_grows_counts() {
    let mut map = FrequencyMap::new();
    map.increment("word");
    assert_eq!(map.count_of("word"), 1);
    map.increment("word");
    assert_eq!(map.count_of("word"), 2);
    assert_eq!(map.len(), 1);
    assert_eq!(map.max_count(), 2);
}
