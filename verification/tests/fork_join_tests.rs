use tp_concurrentes::fork_join::{get_chunk_size, insert_site_results, split_into_chunks};
use tp_concurrentes::keyed_table::KeyedTable;
use tp_concurrentes::stats::SiteStats;

fn file_names(n: usize) -> Vec<String> {
    let mut vec_all_files_name = vec![];
    for i in 0..n {
        vec_all_files_name.push(format!("file_nro_{}.jsonl", i));
    }
    vec_all_files_name
}

#[test]
fn test_1_threads_are_entered_to_process_and_there_88_files_the_size_of_each_chunk_should_be_88_applying_rounding_down_floor(
) {
    let number_threads = 1;
    let vec_all_files_name = file_names(88);
    let size_chunk = get_chunk_size(&number_threads, &vec_all_files_name.len());
    assert_eq!(88, size_chunk);
}

#[test]
fn test_3_threads_are_entered_to_process_and_there_88_files_the_size_of_each_chunk_should_be_29_applying_rounding_down_floor(
) {
    let number_threads = 3;
    let vec_all_files_name = file_names(88);
    let size_chunk = get_chunk_size(&number_threads, &vec_all_files_name.len());
    assert_eq!(29, size_chunk);
}

#[test]
fn test_5_threads_are_entered_to_process_and_there_88_files_the_size_of_each_chunk_should_be_17_applying_rounding_down_floor(
) {
    let number_threads = 5;
    let vec_all_files_name = file_names(88);
    let size_chunk = get_chunk_size(&number_threads, &vec_all_files_name.len());
    assert_eq!(17, size_chunk);
}

#[test]
fn test_100_threads_are_entered_to_process_and_there_88_files_the_size_of_each_chunk_should_be_1_applying_rounding_down_floor(
) {
    let number_threads = 100;
    let vec_all_files_name = file_names(88);
    let size_chunk = get_chunk_size(&number_threads, &vec_all_files_name.len());
    assert_eq!(1, size_chunk);
}

#[test]
fn one_file_per_chunk_when_threads_outnumber_files_even_none() {
    assert_eq!(1, get_chunk_size(&4, &0));
    assert_eq!(1, get_chunk_size(&1, &0));
    assert_eq!(0, get_chunk_size(&0, &0));
    assert_eq!(usize::MAX, get_chunk_size(&0, &7));
}

#[test]
fn chunks_keep_every_file_once_and_in_order() {
    let names = file_names(88);
    let chunk = get_chunk_size(&3, &names.len());
    let chunks = split_into_chunks(&names, chunk);
    assert_eq!(4, chunks.len());
    assert_eq!(29, chunks[0].len());
    assert_eq!(29, chunks[2].len());
    assert_eq!(1, chunks[3].len());
    let flat: Vec<String> = chunks.concat();
    assert_eq!(names, flat);
}

#[test]
fn more_threads_than_files_gives_one_chunk_per_file() {
    let names = file_names(5);
    let chunk = get_chunk_size(&100, &names.len());
    let chunks = split_into_chunks(&names, chunk);
    assert_eq!(5, chunks.len());
    for (i, c) in chunks.iter().enumerate() {
        assert_eq!(vec![names[i].clone()], *c);
    }
}

#[test]
fn chunks_of_no_paths_are_none() {
    let chunks = split_into_chunks(&vec![], 3);
    assert!(chunks.is_empty());
}

fn site(questions: u32, words: u32) -> SiteStats {
    SiteStats { questions, words, tags: KeyedTable::new(), chatty_tags: vec![] }
}

#[test]
fn later_results_for_a_site_replace_earlier_ones() {
    let mut all = KeyedTable::new();
    insert_site_results(
        &mut all,
        vec![("a.jsonl".to_string(), site(1, 2)), ("b.jsonl".to_string(), site(3, 4))],
    );
    insert_site_results(&mut all, vec![("a.jsonl".to_string(), site(5, 6))]);
    assert_eq!(2, all.len());
    assert_eq!(5, all.get(&"a.jsonl".to_string()).unwrap().questions);
    assert_eq!(3, all.get(&"b.jsonl".to_string()).unwrap().questions);
    assert_eq!("a.jsonl", all.name_at(0).as_str());
}

fn gather_with_threads(paths: &Vec<String>, threads: usize) -> KeyedTable<SiteStats> {
    let mut all = KeyedTable::new();
    let chunk = get_chunk_size(&threads, &paths.len());
    for a_chunk in split_into_chunks(paths, chunk) {
        let results: Vec<(String, SiteStats)> = a_chunk
            .iter()
            .map(|p| {
                let n = p.len() as u32;
                (p.clone(), site(n, 2 * n))
            })
            .collect();
        insert_site_results(&mut all, results);
    }
    all
}

#[test]
fn the_gathered_sites_do_not_depend_on_the_number_of_threads() {
    let mut paths = file_names(7);
    paths.push("file_nro_3.jsonl".to_string());
    let one = gather_with_threads(&paths, 1);
    for threads in [2usize, 3, 5, 100] {
        let other = gather_with_threads(&paths, threads);
        assert_eq!(one.len(), other.len());
        for i in 0..one.len() {
            assert_eq!(one.name_at(i), other.name_at(i));
            assert_eq!(one.value_at(i), other.value_at(i));
        }
    }
    assert_eq!(7, one.len());
}
