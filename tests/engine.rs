use torivahti::engine::{
    check_watch, fetch_plan, process_cycle, request_sources, Listing, Vahti, WatchOutcome,
};
use torivahti::history::ItemHistory;

fn listing(ad_id: i64, published: i64) -> Listing {
    Listing {
        ad_id,
        title: format!("ad {}", ad_id),
        url: format!("https://www.tori.fi/vi/{}.htm", ad_id),
        price: 20,
        seller_name: "seller".to_string(),
        location: "Helsinki".to_string(),
        published,
        ad_type: "Myydään".to_string(),
        img_url: String::new(),
    }
}

fn vahti(url: &str, user_id: i64, last_updated: i64) -> Vahti {
    Vahti { url: url.to_string(), user_id, last_updated }
}

#[test]
fn deliveries_come_oldest_first() {
    let mut h = ItemHistory::new(3600);
    let items = vec![listing(3, 300), listing(2, 200), listing(1, 100)];
    let (advance, deliver) = check_watch(&mut h, &vahti("u", 1, 50), &items, 1000);
    assert_eq!(advance, Some(300));
    let published: Vec<i64> = deliver.iter().map(|&j| items[j].published).collect();
    assert_eq!(published, vec![100, 200, 300]);
    assert_eq!(h.len(), 3);
}

#[test]
fn same_listing_in_two_cycles_is_announced_once() {
    let mut h = ItemHistory::new(3600);
    let w = vahti("u", 7, 50);
    let items = vec![listing(42, 100)];
    let (_, first) = check_watch(&mut h, &w, &items, 1000);
    assert_eq!(first, vec![0]);
    assert!(h.contains(42, 7));
    let (_, second) = check_watch(&mut h, &w, &items, 1060);
    assert!(second.is_empty());
    assert_eq!(h.len(), 1);
}

#[test]
fn same_listing_goes_to_each_user() {
    let mut h = ItemHistory::new(3600);
    let items = vec![listing(42, 100)];
    let (_, a) = check_watch(&mut h, &vahti("u", 1, 50), &items, 1000);
    let (_, b) = check_watch(&mut h, &vahti("u", 2, 50), &items, 1000);
    assert_eq!(a, vec![0]);
    assert_eq!(b, vec![0]);
}

#[test]
fn listings_up_to_the_watermark_are_skipped() {
    let mut h = ItemHistory::new(3600);
    let items = vec![listing(3, 300), listing(2, 200), listing(1, 100)];
    let (advance, deliver) = check_watch(&mut h, &vahti("u", 1, 200), &items, 1000);
    assert_eq!(advance, Some(300));
    assert_eq!(deliver, vec![0]);
}

#[test]
fn failed_request_leaves_other_watches_alone() {
    let mut h = ItemHistory::new(3600);
    let ws = vec![vahti("a", 1, 50), vahti("b", 2, 50), vahti("c", 3, 50)];
    let fetched = vec![Some(vec![listing(1, 100)]), None, Some(vec![listing(9, 400), listing(8, 300)])];
    let out = process_cycle(&mut h, &ws, &fetched, 1000);
    assert_eq!(out.len(), 3);
    match &out[0] {
        WatchOutcome::Checked { advance_to, deliver } => {
            assert_eq!(*advance_to, Some(100));
            assert_eq!(deliver, &vec![0]);
        }
        WatchOutcome::Failed => panic!("first watch was not checked"),
    }
    assert!(matches!(out[1], WatchOutcome::Failed));
    match &out[2] {
        WatchOutcome::Checked { advance_to, deliver } => {
            assert_eq!(*advance_to, Some(400));
            assert_eq!(deliver, &vec![1, 0]);
        }
        WatchOutcome::Failed => panic!("third watch was not checked"),
    }
}

#[test]
fn quiet_cycle_changes_nothing() {
    let mut h = ItemHistory::new(3600);
    h.add_item(5, 1, 900);
    let ws = vec![vahti("a", 1, 300), vahti("b", 2, 300)];
    let fetched = vec![Some(vec![listing(5, 300), listing(4, 200)]), Some(Vec::new())];
    let out = process_cycle(&mut h, &ws, &fetched, 1000);
    assert_eq!(h.len(), 1);
    for o in &out {
        match o {
            WatchOutcome::Checked { advance_to, deliver } => {
                assert_eq!(*advance_to, None);
                assert!(deliver.is_empty());
            }
            WatchOutcome::Failed => panic!("watch was not checked"),
        }
    }
}

#[test]
fn consecutive_watches_share_one_request() {
    let ws = vec![vahti("a", 1, 0), vahti("a", 2, 0), vahti("b", 3, 0), vahti("a", 4, 0)];
    assert_eq!(fetch_plan(&ws), vec![true, false, true, true]);
    assert_eq!(request_sources(&ws), vec![0, 0, 2, 3]);
    let mut h = ItemHistory::new(3600);
    let fetched = vec![Some(vec![listing(1, 100)]), None, Some(Vec::new()), None];
    let out = process_cycle(&mut h, &ws, &fetched, 1000);
    match &out[1] {
        WatchOutcome::Checked { advance_to, deliver } => {
            assert_eq!(*advance_to, Some(100));
            assert_eq!(deliver, &vec![0]);
        }
        WatchOutcome::Failed => panic!("second watch should reuse the first request"),
    }
    assert!(matches!(out[3], WatchOutcome::Failed));
    assert!(h.contains(1, 1));
    assert!(h.contains(1, 2));
}

#[test]
fn reused_listings_respect_each_watermark() {
    let ws = vec![vahti("a", 1, 0), vahti("a", 2, 250)];
    let mut h = ItemHistory::new(3600);
    let fetched = vec![Some(vec![listing(3, 300), listing(2, 200)]), None];
    let out = process_cycle(&mut h, &ws, &fetched, 1000);
    match &out[1] {
        WatchOutcome::Checked { advance_to, deliver } => {
            assert_eq!(*advance_to, Some(300));
            assert_eq!(deliver, &vec![0]);
        }
        WatchOutcome::Failed => panic!("second watch was not checked"),
    }
}
