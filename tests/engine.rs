use seqsim::align::smith_waterman;
use seqsim::batch::{chunk_ranges, chunk_size, drain_due, evaluate_all, evaluate_chunk, score_pair};
use seqsim::record::{find_column, fold_case, load_queries, load_sources, similarity_string};
use seqsim::window::{window_count, windows};

fn strings(values: &[&str]) -> Vec<String> {
    values.iter().map(|s| s.to_string()).collect()
}

#[test]
fn self_alignment_scores_two_per_character() {
    assert_eq!(smith_waterman("AAAA", "AAAA"), 8);
    assert_eq!(smith_waterman("ACGTTGCA", "ACGTTGCA"), 16);
    assert_eq!(smith_waterman("Q", "Q"), 2);
}

#[test]
fn disjoint_strings_score_zero() {
    assert_eq!(smith_waterman("AAA", "TTT"), 0);
    assert_eq!(smith_waterman("ACAC", "GTTG"), 0);
}

#[test]
fn empty_inputs_score_zero() {
    assert_eq!(smith_waterman("", "ACGT"), 0);
    assert_eq!(smith_waterman("ACGT", ""), 0);
}

#[test]
fn mismatch_inside_a_match_costs_one() {
    assert_eq!(smith_waterman("ABC", "AXC"), 3);
    assert_eq!(smith_waterman("AB", "B"), 2);
}

#[test]
fn gap_inside_a_match_costs_one() {
    // "ABCD" against "ABD": three matches and one skipped character.
    assert_eq!(smith_waterman("ABCD", "ABD"), 5);
}

#[test]
fn characters_are_compared_not_bytes() {
    assert_eq!(smith_waterman("ÄÖÜ", "ÄÖÜ"), 6);
    assert_eq!(smith_waterman("ÄB", "ÖB"), 2);
}

#[test]
fn window_count_follows_the_formula() {
    assert_eq!(window_count(30), 3);
    assert_eq!(window_count(24), 2);
    assert_eq!(window_count(15), 1);
    assert_eq!(window_count(14), 0);
    assert_eq!(window_count(5), 0);
    assert_eq!(window_count(0), 0);
    assert_eq!(window_count(100), 10);
}

#[test]
fn source_of_thirty_gives_three_windows() {
    let source = "ABCDEFGHIJKLMNOPQRSTUVWXYZ0123";
    let w = windows(source);
    assert_eq!(w.len(), 3);
    assert_eq!(w[0], "ABCDEFGHIJKLMNOPQRSTUVWXYZ0123");
    assert_eq!(w[1], "KLMNOPQRSTUVWXYZ0123ABCDEFGHIJ");
    assert_eq!(w[2], "UVWXYZ0123ABCDEFGHIJKLMNOPQRST");
}

#[test]
fn source_of_twenty_four_gives_offsets_zero_and_ten() {
    let source = "ABCDEFGHIJKLMNOPQRSTUVWX";
    let w = windows(source);
    assert_eq!(w.len(), 2);
    assert_eq!(w[0], "ABCDEFGHIJKLMNOPQRSTUVWXABCDEF");
    assert_eq!(w[1], "KLMNOPQRSTUVWXABCDEFGHIJKLMNOP");
    let scores = score_pair(source, "ABCDEFGHIJKLMNOPQRST");
    assert_eq!(scores.len(), 2);
    assert_eq!(scores, vec![40, 32]);
}

#[test]
fn short_source_gives_no_window() {
    assert!(windows("ACGT").is_empty());
    assert!(windows("").is_empty());
    assert!(score_pair("ACGT", "ACGTACGTACGTACGTACGT").is_empty());
}

#[test]
fn queries_are_folded_and_checked() {
    let ok = load_queries(&strings(&["acgtacgtacgtacgtacgt", "TTTTTTTTTTTTTTTTTTTT"])).unwrap();
    assert_eq!(ok, strings(&["ACGTACGTACGTACGTACGT", "TTTTTTTTTTTTTTTTTTTT"]));
}

#[test]
fn query_of_nineteen_is_rejected() {
    let err = load_queries(&strings(&["ACGTACGTACGTACGTACGT", "ACGTACGTACGTACGTACG"])).unwrap_err();
    assert_eq!(err.index, 1);
    assert_eq!(err.length, 19);
}

#[test]
fn query_of_twenty_one_is_rejected() {
    let err = load_queries(&strings(&["ACGTACGTACGTACGTACGTA", "ACG"])).unwrap_err();
    assert_eq!(err.index, 0);
    assert_eq!(err.length, 21);
}

#[test]
fn sources_are_folded_to_upper_case() {
    assert_eq!(load_sources(&strings(&["acgt", "AcGt", ""])), strings(&["ACGT", "ACGT", ""]));
    assert_eq!(fold_case(&strings(&["straße"])), strings(&["STRASSE"]));
}

#[test]
fn columns_are_found_by_header() {
    let headers = strings(&["id", "a_sequence", "a_sequence"]);
    assert_eq!(find_column(&headers, "a_sequence"), Some(1));
    assert_eq!(find_column(&headers, "id"), Some(0));
    assert_eq!(find_column(&headers, "b_sequence"), None);
}

#[test]
fn scores_render_as_a_comma_list() {
    assert_eq!(similarity_string(&vec![3, 0, 12]), "3,0,12");
    assert_eq!(similarity_string(&vec![40]), "40");
    assert_eq!(similarity_string(&vec![]), "");
    assert_eq!(similarity_string(&vec![-5, 7]), "-5,7");
}

#[test]
fn chunks_cover_the_sources() {
    assert_eq!(chunk_size(10, 3), 4);
    assert_eq!(chunk_size(9, 3), 3);
    assert_eq!(chunk_size(0, 8), 0);
    assert_eq!(chunk_ranges(10, 3), vec![(0, 4), (4, 8), (8, 10)]);
    assert_eq!(chunk_ranges(3, 8), vec![(0, 1), (1, 2), (2, 3)]);
    assert!(chunk_ranges(0, 8).is_empty());
}

#[test]
fn drains_follow_the_period() {
    assert!(drain_due(200));
    assert!(drain_due(400));
    assert!(!drain_due(199));
    assert!(!drain_due(1));
}

fn sample_sources() -> Vec<String> {
    strings(&[
        "ACGTACGTACGTACGTACGTACGTACGTAC",
        "TTTTGGGGCCCCAAAATTTTGGGG",
        "ACG",
        "GATTACAGATTACAGATTACAGATTACAGATTACA",
    ])
}

fn sample_queries() -> Vec<String> {
    strings(&["ACGTACGTACGTACGTACGT", "GATTACAGATTACAGATTAC"])
}

#[test]
fn rows_follow_source_then_query_order() {
    let sources = sample_sources();
    let queries = sample_queries();
    let rows = evaluate_all(&sources, &queries);
    assert_eq!(rows.len(), 8);
    for (k, row) in rows.iter().enumerate() {
        assert_eq!(row.source, sources[k / 2]);
        assert_eq!(row.query, queries[k % 2]);
        assert_eq!(row.scores, score_pair(&row.source, &row.query));
    }
    assert_eq!(rows[0].scores, vec![40, 38, 40]);
    assert_eq!(rows[3].scores, vec![9, 9]);
    assert_eq!(rows[7].scores, vec![40, 40, 40]);
    assert!(rows[4].scores.is_empty());
    let record = rows[0].to_record();
    assert_eq!(record, strings(&[&sources[0], &queries[0], "40,38,40"]));
}

#[test]
fn completion_order_does_not_change_the_rows() {
    let sources = sample_sources();
    let queries = sample_queries();
    let ranges = chunk_ranges(sources.len(), 3);
    let mut forward = Vec::new();
    for &(start, end) in ranges.iter() {
        forward.extend(evaluate_chunk(&sources, &queries, start, end));
    }
    let mut backward = Vec::new();
    for &(start, end) in ranges.iter().rev() {
        backward.extend(evaluate_chunk(&sources, &queries, start, end));
    }
    let key = |rows: &Vec<seqsim::batch::ResultRow>| {
        let mut v: Vec<(String, String, Vec<i32>)> =
            rows.iter().map(|r| (r.source.clone(), r.query.clone(), r.scores.clone())).collect();
        v.sort();
        v
    };
    assert_eq!(key(&forward), key(&backward));
    assert_eq!(key(&forward), key(&evaluate_all(&sources, &queries)));
}
