use obot::catalog::{
    add_lookup_result, asset_path, bearer, download_url, get_url, lookup_url, parse_page,
    search_page_from_text, search_url, token_from_response, token_url, Beatmap, CatalogError,
};
use obot::crawl::{CrawlState, Crawler, PAGE_CEILING};
use obot::json::{JsonNumber, JsonValue};
use obot::status::Status;
use obot::store::{filter_by_key, take_window, CatalogStore};
use obot::sync::{download_batches, run_pass, select_new, sync_partitions, PartitionCrawl, SyncPlan};
use obot::text::{join_with_commas, keys_to_vec, plain_number_text};

fn item_json(id: u64, title: &str, status: &str, variants: &[(&str, &str)]) -> String {
    let mut bms = Vec::new();
    for (star, cs) in variants {
        bms.push(format!(
            "{{\"status\":\"{}\",\"difficulty_rating\":{},\"cs\":{}}}",
            status, star, cs
        ));
    }
    format!(
        "{{\"id\":{},\"title\":\"{}\",\"artist\":\"Art\",\"creator\":\"Maker\",\"covers\":{{\"card@2x\":\"https://img/{}.jpg\"}},\"preview_url\":\"//b.ppy.sh/preview/{}.mp3\",\"beatmaps\":[{}]}}",
        id, title, id, id, bms.join(",")
    )
}

fn search_json(items: &[String], cursor: Option<&str>) -> String {
    match cursor {
        Some(c) => format!("{{\"beatmapsets\":[{}],\"cursor_string\":\"{}\"}}", items.join(","), c),
        None => format!("{{\"beatmapsets\":[{}]}}", items.join(",")),
    }
}

fn entry(id: u64, status: &str) -> Beatmap {
    Beatmap {
        id,
        title: format!("song{}", id),
        artist: "Art".to_string(),
        creator: "Maker".to_string(),
        stars: vec!["2.5".to_string()],
        keys: vec!["4".to_string()],
        mp3_url: String::new(),
        card_url: String::new(),
        cursor: String::new(),
        statu: status.to_string(),
    }
}

fn ids(v: &Vec<Beatmap>) -> Vec<u64> {
    v.iter().map(|b| b.id).collect()
}

#[test]
fn status_names_route_to_partitions() {
    assert_eq!(Status::from_name("ranked"), Status::Ranked);
    assert_eq!(Status::from_name("loved"), Status::Loved);
    assert_eq!(Status::from_name("qualified"), Status::Qualified);
    assert_eq!(Status::from_name("pending"), Status::Graveyard);
    assert_eq!(Status::from_name("graveyard"), Status::Graveyard);
    assert_eq!(Status::from_name("Ranked"), Status::Graveyard);
    assert_eq!(Status::Qualified.name(), "qualified");
    assert!(Status::Ranked.is_downloadable());
    assert!(Status::Loved.is_downloadable());
    assert!(!Status::Qualified.is_downloadable());
    assert!(!Status::Graveyard.is_downloadable());
    assert!(Status::Loved.matches("loved"));
    assert!(!Status::Loved.matches("love"));
}

#[test]
fn comma_lists_split_and_join() {
    assert_eq!(keys_to_vec("4,4,7"), vec!["4", "4", "7"]);
    assert_eq!(keys_to_vec(""), vec![""]);
    assert_eq!(keys_to_vec("4,"), vec!["4", ""]);
    let parts = vec!["2.35".to_string(), "3.1".to_string()];
    assert_eq!(join_with_commas(&parts), "2.35,3.1");
    assert_eq!(join_with_commas(&Vec::new()), "");
    assert_eq!(plain_number_text("4.0"), "4");
    assert_eq!(plain_number_text("2.35"), "2.35");
    assert_eq!(plain_number_text("7"), "7");
}

#[test]
fn search_page_reverses_the_response() {
    let items = vec![
        item_json(1, "a", "ranked", &[("1.5", "4")]),
        item_json(2, "b", "ranked", &[("2.5", "4")]),
        item_json(3, "c", "ranked", &[("3.5", "7")]),
    ];
    let (es, cursor) = search_page_from_text(&search_json(&items, Some("abc"))).unwrap();
    assert_eq!(ids(&es), vec![3, 2, 1]);
    assert_eq!(cursor, "abc");
    assert_eq!(es[0].cursor, "abc");
    assert_eq!(es[0].title, "c");
    assert_eq!(es[0].mp3_url, "https://b.ppy.sh/preview/3.mp3");
    assert_eq!(es[0].card_url, "https://img/3.jpg");
    assert_eq!(es[0].keys, vec!["7"]);
}

#[test]
fn stars_and_keys_pair_up_in_source_order() {
    let items = vec![item_json(9, "x", "loved", &[("4.25", "7.0"), ("1.5", "4.0"), ("3.0", "4.0")])];
    let (es, _) = search_page_from_text(&search_json(&items, None)).unwrap();
    assert_eq!(es.len(), 1);
    assert_eq!(es[0].stars, vec!["4.25", "1.5", "3"]);
    assert_eq!(es[0].keys, vec!["7", "4", "4"]);
    assert_eq!(es[0].stars.len(), es[0].keys.len());
    assert_eq!(es[0].statu, "loved");
}

#[test]
fn empty_search_page_has_no_entries_and_no_cursor() {
    let (es, cursor) = search_page_from_text("{\"beatmapsets\":[]}").unwrap();
    assert!(es.is_empty());
    assert_eq!(cursor, "");
}

#[test]
fn single_entry_response_is_one_entry() {
    let text = item_json(42, "solo", "qualified", &[("5.5", "4")]);
    let (es, cursor) = search_page_from_text(&text).unwrap();
    assert_eq!(ids(&es), vec![42]);
    assert_eq!(cursor, "");
}

#[test]
fn malformed_pages_fail_to_parse() {
    assert_eq!(search_page_from_text("not json").unwrap_err(), CatalogError::Parse);
    assert_eq!(search_page_from_text("{\"other\":1}").unwrap_err(), CatalogError::Parse);
    let no_variants = item_json(5, "v", "ranked", &[]);
    assert_eq!(
        search_page_from_text(&search_json(&[no_variants], None)).unwrap_err(),
        CatalogError::Parse
    );
    let missing_title = "{\"beatmapsets\":[{\"id\":1,\"artist\":\"A\"}]}";
    assert_eq!(search_page_from_text(missing_title).unwrap_err(), CatalogError::Parse);
}

fn text(s: &str) -> JsonValue {
    JsonValue::Str(s.to_string())
}

fn number(n: u64, t: &str) -> JsonValue {
    JsonValue::Number(JsonNumber { unsigned: Some(n), text: t.to_string() })
}

fn object(members: Vec<(&str, JsonValue)>) -> JsonValue {
    JsonValue::Object(members.into_iter().map(|(k, v)| (k.to_string(), v)).collect())
}

fn item_doc(id: u64, title: &str) -> JsonValue {
    object(vec![
        ("artist", text("Art")),
        ("beatmaps", JsonValue::Array(vec![object(vec![
            ("cs", number(4, "4.0")),
            ("difficulty_rating", JsonValue::Number(JsonNumber { unsigned: None, text: "2.75".to_string() })),
            ("status", text("ranked")),
        ])])),
        ("covers", object(vec![("card@2x", text("card"))])),
        ("creator", text("Maker")),
        ("id", number(id, &id.to_string())),
        ("preview_url", text("//p")),
        ("title", text(title)),
    ])
}

#[test]
fn parse_page_keeps_service_order() {
    let doc = object(vec![
        ("beatmapsets", JsonValue::Array(vec![item_doc(1, "a"), item_doc(2, "b")])),
        ("cursor_string", text("n")),
    ]);
    let (es, cursor) = parse_page(&doc).unwrap();
    assert_eq!(ids(&es), vec![1, 2]);
    assert_eq!(cursor, "n");
    assert_eq!(es[1].keys, vec!["4"]);
    assert_eq!(es[1].stars, vec!["2.75"]);
    assert_eq!(es[1].mp3_url, "https://p");
    let single = parse_page(&item_doc(5, "s")).unwrap();
    assert_eq!(ids(&single.0), vec![5]);
    assert_eq!(single.1, "");
    assert_eq!(parse_page(&JsonValue::Null).unwrap_err(), CatalogError::Parse);
    let empty = object(vec![("beatmapsets", JsonValue::Array(Vec::new()))]);
    let (none, c) = parse_page(&empty).unwrap();
    assert!(none.is_empty());
    assert_eq!(c, "");
}

#[test]
fn token_is_read_from_response() {
    assert_eq!(token_from_response("{\"access_token\":\"tok\",\"expires_in\":86400}").unwrap(), "tok");
    assert_eq!(token_from_response("{\"error\":\"invalid\"}").unwrap_err(), CatalogError::Auth);
    assert_eq!(token_from_response("<html>").unwrap_err(), CatalogError::Auth);
}

#[test]
fn addresses_are_built_from_parts() {
    assert_eq!(token_url("https://osu.ppy.sh"), "https://osu.ppy.sh/oauth/token");
    assert_eq!(bearer("tok"), "Bearer tok");
    assert_eq!(
        search_url("https://h", "3", "ranked", "4", "cur"),
        "https://h/api/v2/beatmapsets/search?m=3&s=ranked&q=key%3D4&nsfw=&cursor_string=cur"
    );
    assert_eq!(lookup_url("https://h", "123"), "https://h/api/v2/beatmapsets/123");
    let b = entry(1234, "ranked");
    assert_eq!(get_url("https://h", &b), "https://h/beatmapsets/1234");
    assert_eq!(download_url("https://d", &b), "https://d/1234?n=1");
    assert_eq!(asset_path("/maps", &b), "/maps/ranked/1234-song1234.osz");
    assert_eq!(obot::catalog::asset_dir("/maps", &b), "/maps/ranked");
    assert_eq!(obot::text::decimal(0), "0");
    assert_eq!(obot::text::decimal(18446744073709551615), "18446744073709551615");
}

#[test]
fn lookups_skip_failures() {
    let mut found = Vec::new();
    add_lookup_result(&mut found, &item_json(7, "s", "ranked", &[("2", "4")]));
    add_lookup_result(&mut found, "{\"error\":null}");
    add_lookup_result(&mut found, &item_json(3, "t", "loved", &[("2", "7")]));
    assert_eq!(ids(&found), vec![7, 3]);
}

#[test]
fn crawl_stops_at_page_ceiling() {
    let mut c = Crawler::new(3);
    let mut fetched = 0;
    while let Some(_cursor) = c.next_cursor() {
        fetched += 1;
        c.record_page(vec![entry(fetched, "ranked")], "more".to_string());
        assert!(fetched <= 3);
    }
    assert_eq!(fetched, 3);
    assert_eq!(c.state(), CrawlState::Truncated);
    assert_eq!(c.into_entries().unwrap_err(), CatalogError::CrawlTruncated);
    assert_eq!(PAGE_CEILING, 1000);
}

#[test]
fn crawl_finishes_on_empty_cursor() {
    let mut c = Crawler::new(PAGE_CEILING);
    assert_eq!(c.next_cursor().unwrap(), "");
    c.record_page(vec![entry(1, "ranked"), entry(2, "ranked")], "next".to_string());
    assert_eq!(c.next_cursor().unwrap(), "next");
    c.record_page(vec![entry(3, "ranked")], String::new());
    assert!(c.next_cursor().is_none());
    assert_eq!(c.pages(), 2);
    assert_eq!(ids(&c.into_entries().unwrap()), vec![1, 2, 3]);
}

#[test]
fn store_inserts_by_partition_and_rejects_duplicates() {
    let mut store = CatalogStore::new();
    assert!(store.insert(entry(1, "ranked")).is_ok());
    assert!(store.check_existence(1, "ranked"));
    assert!(!store.check_existence(1, "loved"));
    assert_eq!(store.insert(entry(1, "ranked")).unwrap_err(), CatalogError::Conflict);
    assert!(store.insert(entry(1, "loved")).is_ok());
    assert_eq!(store.count("ranked", None), 1);
}

#[test]
fn pending_entry_goes_to_graveyard() {
    let mut store = CatalogStore::new();
    assert!(store.insert(entry(5, "pending")).is_ok());
    assert!(store.check_existence(5, "graveyard"));
    assert!(store.check_existence(5, "pending"));
    assert!(!store.check_existence(5, "ranked"));
    assert!(!store.check_existence(5, "loved"));
    assert!(!store.check_existence(5, "qualified"));
}

#[test]
fn store_counts_and_selects_by_key_token() {
    let mut store = CatalogStore::new();
    for id in 1..=4u64 {
        let mut b = entry(id, "ranked");
        if id % 2 == 0 {
            b.keys = vec!["7".to_string(), "14".to_string()];
        }
        store.insert(b).unwrap();
    }
    assert_eq!(store.count("ranked", Some("4")), 2);
    assert_eq!(store.count("ranked", Some("7")), 2);
    assert_eq!(store.count("ranked", Some("1")), 0);
    assert_eq!(store.count("ranked", None), 4);
    assert_eq!(ids(&store.select_top("ranked", None, 2, 1)), vec![2, 3]);
    assert_eq!(ids(&store.select_top("ranked", None, 10, 3)), vec![4]);
    assert!(store.select_top("ranked", None, 2, 9).is_empty());
    assert_eq!(ids(&store.select_latest("ranked", Some("7"), 1)), vec![4]);
    assert_eq!(ids(&store.select_latest("ranked", None, 10)), vec![1, 2, 3, 4]);
}

#[test]
fn reconcile_twice_finds_nothing_the_second_time() {
    let mut store = CatalogStore::new();
    store.insert(entry(2, "ranked")).unwrap();
    let page = vec![entry(1, "ranked"), entry(2, "ranked"), entry(3, "loved"), entry(4, "ranked")];
    let first = store.reconcile(&page, Status::Ranked);
    assert_eq!(ids(&first), vec![1, 4]);
    let second = store.reconcile(&page, Status::Ranked);
    assert!(second.is_empty());
}

#[test]
fn select_new_uses_lookup_answers() {
    let page = vec![entry(1, "ranked"), entry(2, "ranked"), entry(3, "ranked"), entry(4, "loved")];
    let known = vec![Some(false), Some(true), None, Some(false)];
    assert_eq!(ids(&select_new(&page, Status::Ranked, &known)), vec![1]);
}

#[test]
fn qualified_entries_are_never_downloaded() {
    let mut plan = SyncPlan::new();
    plan.record_partition(Status::Qualified, "4".to_string(), vec![entry(1, "qualified")]);
    plan.record_partition(Status::Ranked, "4".to_string(), vec![entry(2, "ranked")]);
    plan.record_partition(Status::Loved, "7".to_string(), vec![]);
    assert_eq!(ids(plan.to_insert()), vec![1, 2]);
    assert_eq!(ids(plan.to_download()), vec![2]);
    assert_eq!(plan.reports().len(), 2);
    assert_eq!(plan.reports()[1].status, Status::Ranked);
    assert_eq!(plan.reports()[1].key, "4");
    plan.record_failure();
    assert_eq!(plan.failed_partitions(), 1);
    assert!(!plan.is_complete());
}

#[test]
fn twelve_downloads_make_batches_of_five_five_two() {
    let es: Vec<Beatmap> = (1..=12u64).map(|i| entry(i, "ranked")).collect();
    let batches = download_batches(&es);
    let sizes: Vec<usize> = batches.iter().map(|b| b.len()).collect();
    assert_eq!(sizes, vec![5, 5, 2]);
    assert_eq!(ids(&batches[2]), vec![11, 12]);
    assert!(download_batches(&Vec::new()).is_empty());
    assert_eq!(download_batches(&es[0..5].to_vec()).len(), 1);
}

#[test]
fn partitions_are_visited_in_fixed_order() {
    let p = sync_partitions();
    assert_eq!(p.len(), 6);
    assert_eq!(p[0], (Status::Ranked, "4"));
    assert_eq!(p[1], (Status::Ranked, "7"));
    assert_eq!(p[5], (Status::Qualified, "7"));
}

fn scenario_crawls() -> Vec<PartitionCrawl> {
    let mut crawls = Vec::new();
    for (status, key) in sync_partitions() {
        let page = if status == Status::Ranked && key == "4" {
            vec![entry(10, "ranked"), entry(11, "ranked"), entry(12, "ranked")]
        } else {
            Vec::new()
        };
        crawls.push(PartitionCrawl { status, key: key.to_string(), page: Some(page) });
    }
    crawls
}

#[test]
fn pass_on_empty_store_stores_and_downloads_all() {
    let mut store = CatalogStore::new();
    let plan = run_pass(&mut store, scenario_crawls());
    assert!(store.check_existence(10, "ranked"));
    assert!(store.check_existence(11, "ranked"));
    assert!(store.check_existence(12, "ranked"));
    assert_eq!(ids(plan.to_download()), vec![10, 11, 12]);
    assert_eq!(plan.reports().len(), 1);
    assert!(plan.is_complete());
}

#[test]
fn pass_skips_known_entries() {
    let mut store = CatalogStore::new();
    store.insert(entry(11, "ranked")).unwrap();
    let plan = run_pass(&mut store, scenario_crawls());
    assert_eq!(ids(plan.to_download()), vec![10, 12]);
    assert_eq!(ids(&plan.reports()[0].entries), vec![10, 12]);
    assert_eq!(plan.reports().len(), 1);
    assert_eq!(plan.reports()[0].status, Status::Ranked);
    assert_eq!(plan.reports()[0].key, "4");
    assert_eq!(store.count("ranked", None), 3);
}

#[test]
fn entry_under_both_key_counts_is_stored_and_downloaded_once() {
    let mut store = CatalogStore::new();
    let mut crawls = Vec::new();
    for (status, key) in sync_partitions() {
        let page = if status == Status::Ranked { vec![entry(20, "ranked")] } else { Vec::new() };
        crawls.push(PartitionCrawl { status, key: key.to_string(), page: Some(page) });
    }
    let plan = run_pass(&mut store, crawls);
    assert_eq!(ids(plan.to_insert()), vec![20]);
    assert_eq!(ids(plan.to_download()), vec![20]);
    assert_eq!(plan.reports().len(), 2);
    assert_eq!(plan.reports()[0].key, "4");
    assert_eq!(plan.reports()[1].key, "7");
    assert!(store.check_existence(20, "ranked"));
}

#[test]
fn same_id_in_two_partitions_is_two_rows() {
    let mut plan = SyncPlan::new();
    plan.record_partition(Status::Ranked, "4".to_string(), vec![entry(30, "ranked")]);
    plan.record_partition(Status::Loved, "4".to_string(), vec![entry(30, "loved")]);
    plan.record_partition(Status::Loved, "7".to_string(), vec![entry(30, "loved")]);
    assert_eq!(ids(plan.to_insert()), vec![30, 30]);
    assert_eq!(ids(plan.to_download()), vec![30, 30]);
    assert_eq!(plan.reports().len(), 3);
}

#[test]
fn key_filter_matches_whole_fields() {
    let mut a = entry(1, "ranked");
    a.keys = vec!["14".to_string()];
    let b = entry(2, "ranked");
    let rows = vec![a, b];
    assert_eq!(ids(&filter_by_key(&rows, Some("4"))), vec![2]);
    assert_eq!(ids(&filter_by_key(&rows, Some("14"))), vec![1]);
    assert_eq!(ids(&filter_by_key(&rows, None)), vec![1, 2]);
    assert_eq!(ids(&take_window(&rows, 1, 1)), vec![2]);
    assert!(take_window(&rows, 3, 2).is_empty());
}

#[test]
fn pass_counts_failed_partitions_and_goes_on() {
    let mut store = CatalogStore::new();
    let mut crawls = scenario_crawls();
    crawls[1].page = None;
    let plan = run_pass(&mut store, crawls);
    assert_eq!(plan.failed_partitions(), 1);
    assert_eq!(ids(plan.to_download()), vec![10, 11, 12]);
}
