use torivahti::query::{vahti_to_api, TranslationError};

fn api(s: &str) -> String {
    format!("https://api.tori.fi/api/v1.2/public/ads?{}", s)
}

#[test]
fn zero_category_and_price_range_example() {
    let r = vahti_to_api("https://www.tori.fi/vaatteet?cg=0&ps=10&pe=50").unwrap();
    assert!(r.starts_with("https://api.tori.fi/api/v1.2/public/ads"));
    assert!(!r.contains("category"));
    assert!(r.ends_with("&suborder=10-50"));
    assert_eq!(r, api("&suborder=10-50"));
}

#[test]
fn full_search_is_remapped() {
    let r = vahti_to_api(
        "https://www.tori.fi/koko_suomi?q=pyora&cg=2010&w=103&st=s&m=5&ps=100&pe=500",
    )
    .unwrap();
    assert_eq!(r, api("q=pyora&category=2010&region=3&ad_type=s&area=5&suborder=100-500"));
    assert!(!r.contains("&ps=") && !r.contains("?ps="));
    assert!(!r.contains("&pe=") && !r.contains("?pe="));
}

#[test]
fn region_code_at_least_hundred() {
    assert_eq!(vahti_to_api("https://www.tori.fi/x?w=200").unwrap(), api("region=100"));
    assert_eq!(vahti_to_api("https://www.tori.fi/x?w=100&q=a").unwrap(), api("region=0&q=a"));
}

#[test]
fn small_region_code_uses_subregion() {
    assert_eq!(
        vahti_to_api("https://www.tori.fi/uusimaa?q=sohva&w=1&ca=18").unwrap(),
        api("q=sohva&region=18&ca=18")
    );
}

#[test]
fn small_region_code_without_subregion_is_kept() {
    assert_eq!(
        vahti_to_api("https://www.tori.fi/uusimaa?q=sohva&w=1").unwrap(),
        api("q=sohva&w=1")
    );
}

#[test]
fn subregion_alone_becomes_region() {
    assert_eq!(
        vahti_to_api("https://www.tori.fi/uusimaa?q=sohva&ca=18").unwrap(),
        api("q=sohva&region=18")
    );
}

#[test]
fn exact_suffix_is_stripped() {
    assert_eq!(
        vahti_to_api("https://www.tori.fi/li?q=auto&st=s_s&cg=1").unwrap(),
        api("q=auto&ad_type=s&category=1")
    );
}

#[test]
fn single_price_bound_gives_half_open_range() {
    assert_eq!(vahti_to_api("https://www.tori.fi/x?q=a&ps=5").unwrap(), api("q=a&suborder=5-"));
    assert_eq!(vahti_to_api("https://www.tori.fi/x?pe=7&q=a").unwrap(), api("q=a&suborder=-7"));
}

#[test]
fn nonzero_category_is_kept() {
    assert_eq!(vahti_to_api("https://www.tori.fi/x?cg=3010").unwrap(), api("category=3010"));
}

#[test]
fn link_without_query_is_refused() {
    assert_eq!(
        vahti_to_api("https://www.tori.fi/koko_suomi"),
        Err(TranslationError::MissingQuery)
    );
}

#[test]
fn unreadable_region_code_is_refused() {
    assert_eq!(
        vahti_to_api("https://www.tori.fi/x?w=abc"),
        Err(TranslationError::InvalidNumber)
    );
    assert_eq!(
        vahti_to_api("https://www.tori.fi/x?w=5&ca=x"),
        Err(TranslationError::InvalidNumber)
    );
    assert_eq!(
        vahti_to_api("https://www.tori.fi/x?w=99999999999"),
        Err(TranslationError::InvalidNumber)
    );
}

#[test]
fn negative_subregion_is_used_as_written() {
    assert_eq!(vahti_to_api("https://www.tori.fi/x?w=5&ca=-3").unwrap(), api("region=-3&ca=-3"));
}

#[test]
fn region_code_may_carry_a_plus_sign() {
    assert_eq!(vahti_to_api("https://www.tori.fi/x?w=+105").unwrap(), api("region=5"));
    assert_eq!(
        vahti_to_api("https://www.tori.fi/x?w=+"),
        Err(TranslationError::InvalidNumber)
    );
}
