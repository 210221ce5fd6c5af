use torivahti::engine::Listing;
use torivahti::notify::{embed_description, price_text, watch_url_from_description};

fn item() -> Listing {
    Listing {
        ad_id: 1,
        title: "Polkupyörä".to_string(),
        url: "https://www.tori.fi/vi/1.htm".to_string(),
        price: 120,
        seller_name: "Matti".to_string(),
        location: "Tampere".to_string(),
        published: 1_600_000_000,
        ad_type: "Myydään".to_string(),
        img_url: String::new(),
    }
}

#[test]
fn description_links_listing_and_search() {
    let d = embed_description(&item(), "https://www.tori.fi/pirkanmaa?q=pyora");
    assert_eq!(
        d,
        "[Polkupyörä](https://www.tori.fi/vi/1.htm)\n[Hakulinkki](https://www.tori.fi/pirkanmaa?q=pyora)"
    );
}

#[test]
fn watch_link_is_read_back_from_description() {
    let url = "https://www.tori.fi/pirkanmaa?q=pyora&ps=10";
    let d = embed_description(&item(), url);
    assert_eq!(watch_url_from_description(&d), Some(url.to_string()));
}

#[test]
fn description_without_link_gives_nothing() {
    assert_eq!(watch_url_from_description("no link here"), None);
    assert_eq!(watch_url_from_description("a ) b ( c"), None);
    assert_eq!(watch_url_from_description("only (open"), None);
    assert_eq!(watch_url_from_description("empty ()"), Some(String::new()));
}

#[test]
fn price_is_shown_in_euros() {
    assert_eq!(price_text(120), "120 €");
    assert_eq!(price_text(0), "0 €");
    assert_eq!(price_text(-5), "-5 €");
    assert_eq!(price_text(i64::MIN), "-9223372036854775808 €");
}
