use tp_concurrentes::generate_final_report::{
    accumulate_tag_stats, generate_final_report, report_tags_fit,
};
use tp_concurrentes::keyed_table::KeyedTable;
use tp_concurrentes::pre_processing::{
    get_number_threads, get_vector_of_path_file, threads_argument, ThreadsArgError,
};
use tp_concurrentes::processing_file::{
    get_hashmaps_stats, get_top10_tags_from_hashmap, site_name_from_path, sort_vec_and_set_top10,
    try_get_hashmaps_stats, update_hashmaps_stats,
};
use tp_concurrentes::stats::{get_report_base, DataInputJsonl, SiteStats, TagStats};
use tp_concurrentes::text::{count_words, parse_usize, usize_to_string};

fn tag(questions: u32, words: u32) -> TagStats {
    TagStats { questions, words }
}

fn get_mock_1_stats_site() -> SiteStats {
    let mut tags_mock: KeyedTable<TagStats> = KeyedTable::new();
    tags_mock.insert("chiste".to_string(), tag(3, 26));
    tags_mock.insert("random".to_string(), tag(1, 8));
    tags_mock.insert("other3".to_string(), tag(2, 18));
    SiteStats {
        questions: 3,
        words: 26,
        tags: tags_mock,
        chatty_tags: vec!["other3".to_string(), "chiste".to_string(), "random".to_string()],
    }
}

fn get_mock_2_stats_site() -> SiteStats {
    let mut tags_mock2: KeyedTable<TagStats> = KeyedTable::new();
    tags_mock2.insert("chiste".to_string(), tag(1, 7));
    tags_mock2.insert("pokemon".to_string(), tag(2, 26));
    SiteStats {
        questions: 3,
        words: 33,
        tags: tags_mock2,
        chatty_tags: vec!["pokemon".to_string(), "chiste".to_string()],
    }
}

fn get_mock_all_tags_accumulate() -> KeyedTable<TagStats> {
    let mut m: KeyedTable<TagStats> = KeyedTable::new();
    m.insert("chiste".to_string(), tag(4, 33));
    m.insert("pokemon".to_string(), tag(2, 26));
    m.insert("other3".to_string(), tag(2, 18));
    m.insert("random".to_string(), tag(1, 8));
    m
}

fn line(texts: &[&str], tags: &[&str]) -> DataInputJsonl {
    DataInputJsonl {
        texts: texts.iter().map(|t| t.to_string()).collect(),
        tags: tags.iter().map(|t| t.to_string()).collect(),
    }
}

fn names(v: &[(String, TagStats)]) -> Vec<String> {
    v.iter().map(|(n, _)| n.clone()).collect()
}

#[test]
fn test_given_a_vector_of_tuples_with_2_string_elements_and_floats_it_should_be_sorted_by_the_floats_descendingly_and_in_case_of_a_tie_it_should_be_sorted_by_the_string_ascendingly(
) {
    let mut vec_mock = vec![
        ("Sosa".to_string(), tag(1, 30)),
        ("Juan".to_string(), tag(1, 30)),
        ("Jose".to_string(), tag(1, 100)),
        ("Maria".to_string(), tag(1, 80)),
    ];
    let ordered_vec = vec![
        ("Jose".to_string(), tag(1, 100)),
        ("Maria".to_string(), tag(1, 80)),
        ("Juan".to_string(), tag(1, 30)),
        ("Sosa".to_string(), tag(1, 30)),
    ];
    sort_vec_and_set_top10(&mut vec_mock);
    assert_eq!(ordered_vec, vec_mock);
}

#[test]
fn test_given_two_mock_lines_the_number_of_total_words_and_the_total_number_associated_with_each_tag_should_be_correctly_obtained(
) {
    let mut site_stats = SiteStats {
        questions: 0,
        words: 0,
        tags: KeyedTable::new(),
        chatty_tags: vec![],
    };
    let line_mock_1 = line(
        &["¿Cuanto es 2+2 pepe?", "La respuesta es 4"],
        &["chiste", "random", "other3"],
    );
    let line_mock_2 = line(&["¿Donde vives?", "La respuesta es en mi casa en flores"], &["chiste"]);
    update_hashmaps_stats(&line_mock_1, &mut site_stats);
    update_hashmaps_stats(&line_mock_2, &mut site_stats);
    let tag_stats_chiste = site_stats.tags.get(&"chiste".to_string());
    let tag_stats_random = site_stats.tags.get(&"random".to_string());
    let tag_stats_other3 = site_stats.tags.get(&"other3".to_string());

    assert_eq!(2, site_stats.questions);
    assert_eq!(18, site_stats.words);
    assert_eq!(3, site_stats.tags.len());
    match tag_stats_chiste {
        Some(tag_content) => {
            assert_eq!(2, tag_content.questions);
            assert_eq!(18, tag_content.words);
        }
        None => {
            assert!(false, "[ERROR] Trying to obtain a content of stats from a linea of jsonl")
        }
    }
    match tag_stats_random {
        Some(tag_content) => {
            assert_eq!(1, tag_content.questions);
            assert_eq!(8, tag_content.words);
        }
        None => {
            assert!(false, "[ERROR] Trying to obtain a content of stats stats from a linea of jsonl")
        }
    }
    match tag_stats_other3 {
        Some(tag_content) => {
            assert_eq!(1, tag_content.questions);
            assert_eq!(8, tag_content.words);
        }
        None => {
            assert!(false, "[ERROR] Trying to obtain a content of stats stats from a linea of jsonl")
        }
    }
}

#[test]
fn test_give_two_site_stats_all_tags_from_both_site_stats_must_be_correctly_accumulated() {
    let mut all_tags_accumulate: KeyedTable<TagStats> = KeyedTable::new();
    let mock_all_tags_accumulate = get_mock_all_tags_accumulate();
    accumulate_tag_stats(&get_mock_1_stats_site(), &mut all_tags_accumulate);
    accumulate_tag_stats(&get_mock_2_stats_site(), &mut all_tags_accumulate);
    for i in 0..all_tags_accumulate.len() {
        let tag_name = all_tags_accumulate.name_at(i);
        let tag_stats = all_tags_accumulate.value_at(i);
        if mock_all_tags_accumulate.get(tag_name) != Some(tag_stats) {
            assert!(false, "[ERROR] the tag_stats are not equal")
        }
    }
}

#[test]
fn accumulating_sites_in_either_order_gives_the_same_totals() {
    let mut one_way: KeyedTable<TagStats> = KeyedTable::new();
    accumulate_tag_stats(&get_mock_1_stats_site(), &mut one_way);
    accumulate_tag_stats(&get_mock_2_stats_site(), &mut one_way);
    let mut other_way: KeyedTable<TagStats> = KeyedTable::new();
    accumulate_tag_stats(&get_mock_2_stats_site(), &mut other_way);
    accumulate_tag_stats(&get_mock_1_stats_site(), &mut other_way);
    assert_eq!(one_way.len(), other_way.len());
    for i in 0..one_way.len() {
        assert_eq!(Some(one_way.value_at(i)), other_way.get(one_way.name_at(i)));
    }
}

#[test]
fn words_are_runs_of_non_white_space() {
    assert_eq!(0, count_words(&"".to_string()));
    assert_eq!(0, count_words(&"  \t\n ".to_string()));
    assert_eq!(3, count_words(&"  uno\tdos\n\ntres  ".to_string()));
    assert_eq!(2, count_words(&"a\u{3000}b".to_string()));
    assert_eq!(1, count_words(&"¿Donde?".to_string()));
}

#[test]
fn a_site_folds_its_lines_and_ranks_its_tags() {
    let lines = vec![
        line(&["uno dos tres"], &["chiste", "random", "other3"]),
        line(&["cuatro cinco seis siete", "ocho nueve diez"], &["chiste"]),
        line(&["a b c d e f g h i j k l m n o p q r s t u v w x y z"], &["other3", "chiste"]),
    ];
    let site = get_hashmaps_stats(&lines);
    assert_eq!(3, site.questions);
    assert_eq!(36, site.words);
    assert_eq!(Some(&tag(3, 36)), site.tags.get(&"chiste".to_string()));
    assert_eq!(Some(&tag(1, 3)), site.tags.get(&"random".to_string()));
    assert_eq!(Some(&tag(2, 29)), site.tags.get(&"other3".to_string()));
    assert_eq!(vec!["other3".to_string(), "chiste".to_string(), "random".to_string()], site.chatty_tags);
}

#[test]
fn a_tag_repeated_in_a_line_counts_each_time() {
    let mut site_stats = SiteStats { questions: 0, words: 0, tags: KeyedTable::new(), chatty_tags: vec![] };
    update_hashmaps_stats(&line(&["hola mundo"], &["x", "x"]), &mut site_stats);
    assert_eq!(1, site_stats.questions);
    assert_eq!(2, site_stats.words);
    assert_eq!(Some(&tag(2, 4)), site_stats.tags.get(&"x".to_string()));
}

#[test]
fn at_most_ten_tags_are_chatty() {
    let mut tags: KeyedTable<TagStats> = KeyedTable::new();
    for i in 0..15u32 {
        tags.insert(format!("t{:02}", i), tag(1, i));
    }
    let top = get_top10_tags_from_hashmap(&tags);
    assert_eq!(10, top.len());
    assert_eq!("t14", top[0].0);
    assert_eq!("t05", top[9].0);
}

#[test]
fn ranking_does_not_depend_on_the_order_of_entries() {
    let entries = vec![
        ("b".to_string(), tag(2, 10)),
        ("a".to_string(), tag(1, 5)),
        ("c".to_string(), tag(3, 3)),
        ("d".to_string(), tag(0, 0)),
        ("e".to_string(), tag(4, 40)),
    ];
    let mut forward = entries.clone();
    let mut backward: Vec<(String, TagStats)> = entries.iter().rev().cloned().collect();
    sort_vec_and_set_top10(&mut forward);
    sort_vec_and_set_top10(&mut backward);
    assert_eq!(forward, backward);
    assert_eq!(vec!["e", "a", "b", "c", "d"], names(&forward));
}

#[test]
fn ratios_compare_exactly_and_no_questions_ranks_lowest() {
    let mut v = vec![
        ("third".to_string(), tag(3, 1)),
        ("empty".to_string(), tag(0, 0)),
        ("half".to_string(), tag(2, 1)),
        ("also_half".to_string(), tag(4, 2)),
    ];
    sort_vec_and_set_top10(&mut v);
    assert_eq!(vec!["also_half", "half", "third", "empty"], names(&v));
}

#[test]
fn the_final_report_sums_tags_and_ranks_sites_and_tags() {
    let mut report = get_report_base();
    assert_eq!(102256, report.padron);
    report.sites.insert("mock1.jsonl".to_string(), get_mock_1_stats_site());
    report.sites.insert("mock2.jsonl".to_string(), get_mock_2_stats_site());
    let report = generate_final_report(report);
    assert_eq!(vec!["mock2.jsonl".to_string(), "mock1.jsonl".to_string()], report.totals.chatty_sites);
    assert_eq!(
        vec!["pokemon".to_string(), "other3".to_string(), "chiste".to_string(), "random".to_string()],
        report.totals.chatty_tags
    );
    assert_eq!(Some(&tag(4, 33)), report.tags.get(&"chiste".to_string()));
    assert_eq!(4, report.tags.len());
}

#[test]
fn an_empty_report_stays_empty() {
    let report = generate_final_report(get_report_base());
    assert!(report.totals.chatty_sites.is_empty());
    assert!(report.totals.chatty_tags.is_empty());
    assert_eq!(0, report.tags.len());
}

#[test]
fn the_site_name_is_the_file_name_of_its_path() {
    assert_eq!("mock1.jsonl", site_name_from_path(&"data_mock/mock1.jsonl".to_string()));
    assert_eq!("a.jsonl", site_name_from_path(&"./data/x/a.jsonl".to_string()));
    assert_eq!("plain", site_name_from_path(&"plain".to_string()));
    assert_eq!("", site_name_from_path(&"dir/".to_string()));
}

#[test]
fn only_jsonl_files_are_kept() {
    let names = vec![
        "./data/a.jsonl".to_string(),
        "./data/readme.md".to_string(),
        "./data/b.jsonl.bak".to_string(),
    ];
    let kept = get_vector_of_path_file(names).unwrap();
    assert_eq!(vec!["./data/a.jsonl".to_string(), "./data/b.jsonl.bak".to_string()], kept);
    let none = get_vector_of_path_file(vec!["x.json".to_string()]);
    assert_eq!(Err("[ERROR]: There's no files in directory".to_string()), none);
}

#[test]
fn the_number_of_threads_comes_from_the_first_argument() {
    let args = |v: &[&str]| v.iter().map(|s| s.to_string()).collect::<Vec<String>>();
    assert_eq!(4, get_number_threads(&args(&["prog", "4"])));
    assert_eq!(12, get_number_threads(&args(&["prog", "+12", "extra"])));
    assert_eq!(1, get_number_threads(&args(&["prog"])));
    assert_eq!(1, get_number_threads(&args(&["prog", "-1"])));
    assert_eq!(1, get_number_threads(&args(&["prog", " 3"])));
    assert_eq!(1, get_number_threads(&args(&["prog", ""])));
    assert_eq!(Ok(4), threads_argument(&args(&["prog", "4"])));
    assert_eq!(Err(ThreadsArgError::MissingArgument), threads_argument(&args(&["prog"])));
    assert_eq!(Err(ThreadsArgError::InvalidNumber), threads_argument(&args(&["prog", "-1"])));
    assert_eq!(Err(ThreadsArgError::InvalidNumber), threads_argument(&args(&["prog", ""])));
}

#[test]
fn a_site_that_fits_is_read_as_with_no_check() {
    let lines = vec![
        line(&["uno dos"], &["a", "b"]),
        line(&["tres"], &["b"]),
    ];
    let checked = try_get_hashmaps_stats(&lines).expect("no counter overflows");
    assert_eq!(get_hashmaps_stats(&lines), checked);
    assert_eq!(2, checked.questions);
    assert_eq!(3, checked.words);
    assert_eq!(vec!["a".to_string(), "b".to_string()], checked.chatty_tags);
}

#[test]
fn a_report_whose_tag_totals_overflow_is_refused() {
    let mut big = SiteStats { questions: 1, words: 1, tags: KeyedTable::new(), chatty_tags: vec![] };
    big.tags.insert("x".to_string(), tag(1, u32::MAX));
    let mut small = SiteStats { questions: 1, words: 1, tags: KeyedTable::new(), chatty_tags: vec![] };
    small.tags.insert("x".to_string(), tag(1, 1));
    let mut report = get_report_base();
    report.sites.insert("big".to_string(), big);
    assert!(report_tags_fit(&report));
    report.sites.insert("small".to_string(), small);
    assert!(!report_tags_fit(&report));
}

#[test]
fn entries_equal_in_ratio_and_name_keep_their_order() {
    let mut v = vec![
        ("a".to_string(), tag(1, 2)),
        ("b".to_string(), tag(1, 9)),
        ("a".to_string(), tag(2, 4)),
        ("a".to_string(), tag(3, 6)),
    ];
    sort_vec_and_set_top10(&mut v);
    assert_eq!(
        vec![
            ("b".to_string(), tag(1, 9)),
            ("a".to_string(), tag(1, 2)),
            ("a".to_string(), tag(2, 4)),
            ("a".to_string(), tag(3, 6)),
        ],
        v
    );
    let mut w = vec![
        ("a".to_string(), tag(3, 6)),
        ("a".to_string(), tag(1, 2)),
        ("a".to_string(), tag(2, 4)),
    ];
    sort_vec_and_set_top10(&mut w);
    assert_eq!(
        vec![("a".to_string(), tag(3, 6)), ("a".to_string(), tag(1, 2)), ("a".to_string(), tag(2, 4))],
        w
    );
}

#[test]
fn numbers_are_written_and_read_as_std_does() {
    for n in [0usize, 7, 10, 1234, 90210, usize::MAX] {
        assert_eq!(n.to_string(), usize_to_string(n));
        assert_eq!(Some(n), parse_usize(&usize_to_string(n)));
    }
    for text in ["", "+", "-1", "-0", " 3", "3 ", "+12", "007", "1_0", "١٢", "18446744073709551616", "99999999999999999999999"] {
        assert_eq!(text.parse::<usize>().ok(), parse_usize(text), "{}", text);
    }
}
