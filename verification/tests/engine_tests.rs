use bouncer::engine::BarcodeSet;
use bouncer::engine::BarcodeError;
use bouncer::engine::Suggestion;
use bouncer::distance::edit_distance;
use bouncer::distance::str_chars;

fn whitelist(items: &[&str]) -> Vec<String> {
    items.iter().map(|s| s.to_string()).collect()
}

fn acgt_set() -> BarcodeSet {
    BarcodeSet::new(whitelist(&["AAAA", "CCCC", "GGGG"]), 1, 8).unwrap()
}

fn sorted_triples(res: &[Suggestion]) -> Vec<(String, String, usize)> {
    let mut v: Vec<(String, String, usize)> = res
        .iter()
        .map(|s| (s.term.clone(), s.query.clone(), s.distance))
        .collect();
    v.sort();
    v
}

#[test]
fn construct_uniform_succeeds() {
    let set = acgt_set();
    assert_eq!(set.max_dist(), 1);
    assert_eq!(set.split_length(), 8);
    assert_eq!(set.barcode_length(), 4);
}

#[test]
fn construct_single_barcode_succeeds() {
    let set = BarcodeSet::new(whitelist(&["ACGT"]), 1, 8).unwrap();
    assert_eq!(set.barcode_length(), 4);
}

#[test]
fn construct_mixed_lengths_fails() {
    for max_dist in [0usize, 1, 3] {
        let r = BarcodeSet::new(whitelist(&["AAAA", "CCC"]), max_dist, 8);
        assert_eq!(r.unwrap_err(), BarcodeError::ValidationError);
    }
}

#[test]
fn construct_empty_whitelist_fails() {
    let r = BarcodeSet::new(Vec::new(), 1, 8);
    assert_eq!(r.unwrap_err(), BarcodeError::ValidationError);
}

#[test]
fn construct_zero_split_length_fails() {
    let r = BarcodeSet::new(whitelist(&["AAAA", "CCCC"]), 1, 0);
    assert_eq!(r.unwrap_err(), BarcodeError::ConfigurationError);
}

#[test]
fn construct_max_dist_too_large_fails() {
    let r = BarcodeSet::new(whitelist(&["AAAA", "CCCC"]), 4, 8);
    assert_eq!(r.unwrap_err(), BarcodeError::ConfigurationError);
}

#[test]
fn construct_duplicate_barcodes_collapse() {
    let set = BarcodeSet::new(whitelist(&["AAAA", "AAAA", "CCCC"]), 1, 8).unwrap();
    let res = set.lookup("AAAA");
    assert_eq!(
        sorted_triples(&res),
        vec![("AAAA".to_string(), "AAAA".to_string(), 0)]
    );
}

#[test]
fn lookup_exact_match() {
    let set = acgt_set();
    let res = set.lookup("AAAA");
    assert_eq!(
        sorted_triples(&res),
        vec![("AAAA".to_string(), "AAAA".to_string(), 0)]
    );
}

#[test]
fn lookup_one_edit_away() {
    let set = acgt_set();
    let res = set.lookup("AAAT");
    assert_eq!(
        sorted_triples(&res),
        vec![("AAAA".to_string(), "AAAT".to_string(), 1)]
    );
}

#[test]
fn lookup_nothing_within_bound() {
    let set = acgt_set();
    let res = set.lookup("TTTT");
    assert!(res.is_empty());
}

#[test]
fn lookup_ties_all_returned() {
    let set = BarcodeSet::new(whitelist(&["AAAT", "AAAG"]), 1, 8).unwrap();
    let res = set.lookup("AAAC");
    assert_eq!(
        sorted_triples(&res),
        vec![
            ("AAAG".to_string(), "AAAC".to_string(), 1),
            ("AAAT".to_string(), "AAAC".to_string(), 1),
        ]
    );
}

#[test]
fn batch_exact_hit_suppresses_fuzzy() {
    let set = acgt_set();
    let res = set.lookup_batch(&whitelist(&["AAAA", "CCCT"]));
    assert_eq!(
        sorted_triples(&res),
        vec![("AAAA".to_string(), "AAAA".to_string(), 0)]
    );
}

#[test]
fn batch_fuzzy_pools_minimal_distance() {
    let set = acgt_set();
    let res = set.lookup_batch(&whitelist(&["AAAT", "CCCT"]));
    assert_eq!(
        sorted_triples(&res),
        vec![
            ("AAAA".to_string(), "AAAT".to_string(), 1),
            ("CCCC".to_string(), "CCCT".to_string(), 1),
        ]
    );
}

#[test]
fn batch_empty_queries_yield_nothing() {
    let set = acgt_set();
    let res = set.lookup_batch(&Vec::new());
    assert!(res.is_empty());
}

#[test]
fn batch_no_match_yields_nothing() {
    let set = acgt_set();
    let res = set.lookup_batch(&whitelist(&["TTTT", "TATA"]));
    assert!(res.is_empty());
}

#[test]
fn batch_never_repeats_a_triple() {
    let set = acgt_set();
    let res = set.lookup_batch(&whitelist(&["AAAT", "CCCT", "AAAT"]));
    let triples = sorted_triples(&res);
    for w in triples.windows(2) {
        assert_ne!(w[0], w[1]);
    }
    assert!(!triples.is_empty());
}

#[test]
fn substrings_too_short_yields_nothing() {
    let set = acgt_set();
    let res = set.lookup_substrings("AA");
    assert!(res.is_empty());
}

#[test]
fn substrings_exact_embedded_barcode_found() {
    let set = acgt_set();
    let res = set.lookup_substrings("TTAAAATT");
    assert_eq!(
        sorted_triples(&res),
        vec![("AAAA".to_string(), "AAAA".to_string(), 0)]
    );
}

#[test]
fn substrings_edited_embedded_barcode_found() {
    let set = acgt_set();
    let res = set.lookup_substrings("TTAAATTT");
    let triples = sorted_triples(&res);
    assert!(!triples.is_empty());
    for (term, _, dist) in &triples {
        assert_eq!(term, "AAAA");
        assert_eq!(*dist, 1);
    }
    assert!(triples.contains(&("AAAA".to_string(), "AAAT".to_string(), 1)));
}

#[test]
fn substrings_exact_hit_elsewhere_suppresses_edited_copy() {
    let set = acgt_set();
    let res = set.lookup_substrings("CCCCAAAT");
    assert_eq!(
        sorted_triples(&res),
        vec![("CCCC".to_string(), "CCCC".to_string(), 0)]
    );
}

#[test]
fn substrings_zero_budget_skips_final_window() {
    let set = BarcodeSet::new(whitelist(&["AAAA", "CCCC"]), 0, 8).unwrap();
    let res = set.lookup_substrings("AAAA");
    assert!(res.is_empty());
    let res = set.lookup_substrings("AAAAT");
    assert_eq!(
        sorted_triples(&res),
        vec![("AAAA".to_string(), "AAAA".to_string(), 0)]
    );
}

#[test]
fn substrings_whole_query_is_a_window() {
    let set = acgt_set();
    let res = set.lookup_substrings("AAAA");
    assert_eq!(
        sorted_triples(&res),
        vec![("AAAA".to_string(), "AAAA".to_string(), 0)]
    );
}

#[test]
fn repeated_calls_return_identical_sets() {
    let set = acgt_set();
    assert_eq!(
        sorted_triples(&set.lookup("AAAT")),
        sorted_triples(&set.lookup("AAAT"))
    );
    let batch = whitelist(&["AAAT", "CCCT"]);
    assert_eq!(
        sorted_triples(&set.lookup_batch(&batch)),
        sorted_triples(&set.lookup_batch(&batch))
    );
    assert_eq!(
        sorted_triples(&set.lookup_substrings("TTAAATTT")),
        sorted_triples(&set.lookup_substrings("TTAAATTT"))
    );
}

#[test]
fn edit_distance_matches_known_values() {
    let d = |a: &str, b: &str| edit_distance(&str_chars(a), &str_chars(b));
    assert_eq!(d("kitten", "sitting"), 3);
    assert_eq!(d("", "abc"), 3);
    assert_eq!(d("abc", ""), 3);
    assert_eq!(d("abc", "abc"), 0);
    assert_eq!(d("AAAA", "AAAT"), 1);
    assert_eq!(d("AAAA", "TTTT"), 4);
    assert_eq!(d("flaw", "lawn"), 2);
}
