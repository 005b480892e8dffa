use word_counter::build_report;
use word_counter::get_max_word;
use word_counter::get_search_count;
use word_counter::get_search_word;
use word_counter::get_word_count;
use word_counter::sort_hashmap;
use word_counter::top_n;
use word_counter::FrequencyMap;
use word_counter::Opt;
use word_counter::Report;

#[test]
fn it_gets_word_count() {
    let contents = "Two Two";
    let counts = get_word_count(&contents);

    let (_, count) = get_search_word(&counts, "Two").unwrap();
    assert_eq!(count, 2);
}

#[test]
fn it_gets_max_word() {
    let mut demo_counts = FrequencyMap::new();
    demo_counts.insert(String::from("One"), 1);
    demo_counts.insert(String::from("Two"), 2);

    let (largest, max_count) = get_max_word(&demo_counts).unwrap();

    assert_eq!(largest, String::from("Two"));
    assert_eq!(max_count as i32, 2 as i32);
}

#[test]
fn it_gets_searched_word() {
    let mut demo_counts = FrequencyMap::new();
    demo_counts.insert(String::from("One"), 1);
    demo_counts.insert(String::from("Two"), 2);

    let searched_word = String::from("Two");
    let no_result = (searched_word.clone(), 2 as u32);
    let (word, count) = get_search_word(&demo_counts, &searched_word).unwrap_or(no_result);

    assert_eq!(word, "Two");
    assert_eq!(count, 2);
}

#[test]
fn it_sorts_hashmap() {
    let mut map = FrequencyMap::new();
    map.insert(String::from("One"), 1);
    map.insert(String::from("Two"), 2);

    let mut sorted_counts = sort_hashmap(&map);
    sorted_counts.reverse();
    let demo_counts = [("One", 1), ("Two", 2)];

    assert_eq!(demo_counts.len(), sorted_counts.len());
    assert_eq!(demo_counts[0].1, sorted_counts[1].1);
    assert_eq!(demo_counts[1].0, sorted_counts[0].0);
}

#[test]
fn it_gets_search_count() {
    let contents = "one one two two one one";
    let text = "one";

    assert_eq!(get_search_count(&text, &contents), 4);
}

#[test]
fn empty_text_yields_empty_map() {
    let counts = get_word_count("");
    assert_eq!(counts.entries.len(), 0);
    assert!(sort_hashmap(&counts).is_empty());
}

#[test]
fn counting_is_case_sensitive() {
    let counts = get_word_count("Two two");
    let sorted = sort_hashmap(&counts);
    assert_eq!(sorted.len(), 2);
    assert_eq!(sorted[0].1, 1);
    assert_eq!(sorted[1].1, 1);
    assert_ne!(sorted[0].0, sorted[1].0);
}

#[test]
fn counts_add_up_to_token_count() {
    let counts = get_word_count("one one two two one one");
    let total: u32 = sort_hashmap(&counts).iter().map(|e| e.1).sum();
    assert_eq!(total, 6);
}

#[test]
fn mixed_whitespace_separates_words() {
    let counts = get_word_count("a\tb\nc  a\r\na");
    assert_eq!(get_search_word(&counts, "a").unwrap().1, 3);
    assert_eq!(get_search_word(&counts, "b").unwrap().1, 1);
    assert_eq!(get_search_word(&counts, "c").unwrap().1, 1);
    let total: u32 = sort_hashmap(&counts).iter().map(|e| e.1).sum();
    assert_eq!(total, 5);
}

#[test]
fn punctuation_stays_part_of_a_word() {
    let counts = get_word_count("two. two");
    assert_eq!(get_search_word(&counts, "two.").unwrap().1, 1);
    assert_eq!(get_search_word(&counts, "two").unwrap().1, 1);
    assert!(get_search_word(&counts, "two.two").is_none());
}

#[test]
fn max_of_empty_map_is_none() {
    let counts = get_word_count("");
    assert!(get_max_word(&counts).is_none());
}

#[test]
fn search_of_absent_word_counts_zero() {
    assert_eq!(get_search_count("three", "one one two two one one"), 0);
    let counts = get_word_count("one one two two one one");
    assert!(get_search_word(&counts, "three").is_none());
}

#[test]
fn top_n_of_full_length_keeps_a_sorted_list() {
    let mut map = FrequencyMap::new();
    map.insert(String::from("One"), 1);
    map.insert(String::from("Two"), 2);
    map.insert(String::from("Three"), 3);
    let sorted = sort_hashmap(&map);
    let kept = top_n(&sorted, sorted.len(), false);
    assert_eq!(kept, sorted);
}

#[test]
fn top_n_boundaries() {
    let mut map = FrequencyMap::new();
    map.insert(String::from("One"), 1);
    map.insert(String::from("Two"), 2);
    let sorted = sort_hashmap(&map);

    assert!(top_n(&sorted, 0, false).is_empty());
    assert!(top_n(&sorted, 0, true).is_empty());
    assert_eq!(top_n(&sorted, 10, false), sorted);

    let mut reversed = sorted.clone();
    reversed.reverse();
    assert_eq!(top_n(&sorted, 10, true), reversed);
}

#[test]
fn end_to_end_one_one_two_two_one_one() {
    let contents = "one one two two one one";
    let counts = get_word_count(&contents);

    assert_eq!(get_search_word(&counts, "one").unwrap().1, 4);
    assert_eq!(get_search_word(&counts, "two").unwrap().1, 2);
    assert_eq!(sort_hashmap(&counts).len(), 2);

    let (max_word, max_count) = get_max_word(&counts).unwrap();
    assert_eq!(max_word, "one");
    assert_eq!(max_count, 4);

    assert_eq!(get_search_count("two", &contents), 2);

    let sorted = sort_hashmap(&counts);
    let top = top_n(&sorted, 1, true);
    assert_eq!(top, vec![(String::from("one"), 4)]);
}

#[test]
fn end_to_end_two_two() {
    let counts = get_word_count("Two Two");
    let sorted = sort_hashmap(&counts);
    assert_eq!(sorted, vec![(String::from("Two"), 2)]);
}

fn listing_opt(top: usize, reverse: bool, show_max: bool) -> Opt {
    Opt {
        top,
        input: String::new(),
        reverse,
        search: None,
        show_max,
        duration: false,
        output: None,
    }
}

#[test]
fn report_lists_descending_by_default() {
    let report = build_report("b a b c b a", &listing_opt(10, false, false));
    match report {
        Report::Listing { rows, max } => {
            assert_eq!(
                rows,
                vec![
                    (String::from("b"), 3),
                    (String::from("a"), 2),
                    (String::from("c"), 1),
                ]
            );
            assert!(max.is_none());
        }
        Report::Search { .. } => panic!("expected a listing"),
    }
}

#[test]
fn report_reverses_and_truncates() {
    let report = build_report("b a b c b a", &listing_opt(2, true, false));
    match report {
        Report::Listing { rows, .. } => {
            assert_eq!(rows, vec![(String::from("c"), 1), (String::from("a"), 2)]);
        }
        Report::Search { .. } => panic!("expected a listing"),
    }
}

#[test]
fn report_carries_the_maximum_when_asked() {
    let report = build_report("b a b c b a", &listing_opt(10, false, true));
    match report {
        Report::Listing { max, .. } => {
            assert_eq!(max, Some((String::from("b"), 3)));
        }
        Report::Search { .. } => panic!("expected a listing"),
    }
}

#[test]
fn report_of_empty_text_has_no_maximum() {
    let report = build_report("", &listing_opt(10, false, true));
    match report {
        Report::Listing { rows, max } => {
            assert!(rows.is_empty());
            assert!(max.is_none());
        }
        Report::Search { .. } => panic!("expected a listing"),
    }
}

#[test]
fn report_searches_when_asked() {
    let opt = Opt {
        top: 10,
        input: String::new(),
        reverse: false,
        search: Some(String::from("two")),
        show_max: false,
        duration: false,
        output: None,
    };
    let report = build_report("one one two two one one", &opt);
    match report {
        Report::Search { word, count } => {
            assert_eq!(word, "two");
            assert_eq!(count, 2);
        }
        Report::Listing { .. } => panic!("expected a search result"),
    }
}

#[test]
fn inserting_replaces_a_count() {
    let mut map = FrequencyMap::new();
    map.insert(String::from("One"), 1);
    map.insert(String::from("One"), 5);
    let sorted = sort_hashmap(&map);
    assert_eq!(sorted, vec![(String::from("One"), 5)]);
}

#[test]
fn whitespace_characters_are_recognized() {
    assert!(word_counter::is_whitespace_char(' '));
    assert!(word_counter::is_whitespace_char('\t'));
    assert!(word_counter::is_whitespace_char('\n'));
    assert!(word_counter::is_whitespace_char('\u{3000}'));
    assert!(!word_counter::is_whitespace_char('a'));
    assert!(!word_counter::is_whitespace_char('.'));
}
