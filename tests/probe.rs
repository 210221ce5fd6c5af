use torivahti::probe::{all_results_count, has_results, is_search_url, response_has_results};

#[test]
fn search_links_need_origin_and_query() {
    assert!(is_search_url("https://www.tori.fi/koko_suomi?q=pyora"));
    assert!(!is_search_url("https://www.tori.fi/koko_suomi"));
    assert!(!is_search_url("https://example.com/?q=pyora"));
    assert!(!is_search_url("https://www.tori"));
}

#[test]
fn result_count_is_read_from_counter_map() {
    assert_eq!(all_results_count(r#"{"counter_map":{"all":12},"list_ads":[]}"#), Some(12));
    assert_eq!(all_results_count(r#"{"counter_map":{"all":0}}"#), Some(0));
    assert_eq!(all_results_count(r#"{"counter_map":{}}"#), None);
    assert_eq!(all_results_count(r#"{"x":1}"#), None);
    assert_eq!(all_results_count("not json"), None);
}

#[test]
fn only_a_positive_count_shows_results() {
    assert!(has_results(Some(3)));
    assert!(!has_results(Some(0)));
    assert!(!has_results(Some(-1)));
    assert!(!has_results(None));
}

#[test]
fn response_shows_results_only_with_positive_count() {
    assert!(response_has_results(r#"{"counter_map":{"all":3}}"#));
    assert!(!response_has_results(r#"{"counter_map":{"all":0}}"#));
    assert!(!response_has_results(r#"{"counter_map":{"all":"3"}}"#));
    assert!(!response_has_results(r#"{"counter_map":[1]}"#));
    assert!(!response_has_results("<html>"));
    assert!(!response_has_results(""));
}
