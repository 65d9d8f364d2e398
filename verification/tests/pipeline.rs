use offerwatch::codec::{cache_json, load_cache, parse_cache, CacheError};
use offerwatch::diff::{diff_offers, union_offers};
use offerwatch::offer::Offer;
use offerwatch::scrape::{parse_offers, ParseError};
use offerwatch::text::normalize_field;

fn offer(
    id: &str,
    link: &str,
    address: &str,
    room_type: &str,
    cost: &str,
    n_rooms: &str,
    size: &str,
) -> Offer {
    Offer::new(vec![
        id.to_string(),
        link.to_string(),
        address.to_string(),
        room_type.to_string(),
        cost.to_string(),
        n_rooms.to_string(),
        size.to_string(),
    ])
}

fn row(id: &str, href: &str, cells: [&str; 5]) -> String {
    format!(
        "<tr><td><a href=\"{}\">{}</a></td><td>{}</td><td>{}</td><td>{}</td><td>{}</td><td>{}</td></tr>",
        href, id, cells[0], cells[1], cells[2], cells[3], cells[4]
    )
}

fn page(rows: &str) -> String {
    format!(
        "<html><body><table><tbody>{}</tbody></table></body></html>",
        rows
    )
}

#[test]
fn new_assigns_fields_in_order() {
    let o = offer("12345", "/offer/12345", "Some St. 1", "room", "500", "2", "30");
    assert_eq!(o.id, "12345");
    assert_eq!(o.link, "/offer/12345");
    assert_eq!(o.address, "Some St. 1");
    assert_eq!(o.room_type, "room");
    assert_eq!(o.cost, "500");
    assert_eq!(o.n_rooms, "2");
    assert_eq!(o.size, "30");
}

#[test]
fn normalize_removes_tabs_newlines_and_breaks() {
    assert_eq!(normalize_field("a\tb\nc<br>d"), "abc d");
    assert_eq!(normalize_field("\t\n"), "");
    assert_eq!(normalize_field("plain"), "plain");
    // A marker that only forms once the newline is gone is still collapsed.
    assert_eq!(normalize_field("x<b\nr>y"), "x y");
    assert_eq!(normalize_field("<br><br>"), "  ");
}

#[test]
fn normalize_and_cache_handle_non_ascii_text() {
    assert_eq!(normalize_field("Münchner\tStraße\n1<br>West"), "MünchnerStraße1 West");
    let offers = vec![offer("1", "/o/1", "Münchner Straße 1", "Zimmer", "400 €", "1", "20 m²")];
    let back = parse_cache(&cache_json(&offers)).unwrap();
    assert_eq!(back, offers);
}

#[test]
fn duplicate_copies_all_fields() {
    let o = offer("1", "/o/1", "a", "r", "c", "n", "s");
    let d = o.duplicate();
    assert_eq!(d, o);
}

#[test]
fn parse_yields_one_offer_per_row_in_order() {
    let rows = [
        row("1001", "/o/1001", ["A St.\t1", "room", "400", "1", "20"]),
        row("1002", "/o/1002", ["B St.\n2", "flat", "800", "2", "55"]),
        row("1003", "/o/1003", ["C St.<br>3", "house", "1200", "4", "90"]),
    ]
    .concat();
    let offers = parse_offers(&page(&rows)).unwrap();
    assert_eq!(offers.len(), 3);
    assert_eq!(offers[0], offer("1001", "/o/1001", "A St.1", "room", "400", "1", "20"));
    assert_eq!(offers[1], offer("1002", "/o/1002", "B St.2", "flat", "800", "2", "55"));
    assert_eq!(offers[2], offer("1003", "/o/1003", "C St. 3", "house", "1200", "4", "90"));
}

#[test]
fn parse_without_table_is_fatal() {
    assert_eq!(parse_offers("<html><body><p>gone</p></body></html>"), Err(ParseError::MissingTable));
}

#[test]
fn parse_row_without_anchor_is_fatal() {
    let rows = "<tr><td>no link</td><td>a</td><td>b</td><td>c</td><td>d</td><td>e</td></tr>";
    assert_eq!(parse_offers(&page(rows)), Err(ParseError::MissingAnchor));
}

#[test]
fn parse_anchor_without_href_is_fatal() {
    let rows = "<tr><td><a>1001</a></td><td>a</td><td>b</td><td>c</td><td>d</td><td>e</td></tr>";
    assert_eq!(parse_offers(&page(rows)), Err(ParseError::MissingHref));
}

#[test]
fn parse_row_with_too_few_cells_is_fatal() {
    let rows = "<tr><td><a href=\"/o/1\">1001</a></td><td>a</td><td>b</td></tr>";
    assert_eq!(parse_offers(&page(rows)), Err(ParseError::MissingCell));
}

#[test]
fn parse_aborts_on_first_bad_row() {
    let rows = [
        row("1001", "/o/1001", ["a", "b", "c", "d", "e"]),
        "<tr><td>no link</td><td>a</td><td>b</td><td>c</td><td>d</td><td>e</td></tr>".to_string(),
    ]
    .concat();
    assert_eq!(parse_offers(&page(&rows)), Err(ParseError::MissingAnchor));
}

#[test]
fn to_json_encodes_the_seven_fields() {
    let o = offer("1", "/o/1", "A St. 5", "room", "400", "1", "20");
    assert_eq!(
        o.to_json(),
        "{\"id\":\"1\",\"link\":\"/o/1\",\"address\":\"A St. 5\",\"room_type\":\"room\",\"cost\":\"400\",\"n_rooms\":\"1\",\"size\":\"20\"}"
    );
}

#[test]
fn to_json_escapes_quotes_and_backslashes() {
    let o = offer("1", "/o/1", "the \"nice\" \\ one", "r", "c", "n", "s");
    assert_eq!(
        o.to_json(),
        "{\"id\":\"1\",\"link\":\"/o/1\",\"address\":\"the \\\"nice\\\" \\\\ one\",\"room_type\":\"r\",\"cost\":\"c\",\"n_rooms\":\"n\",\"size\":\"s\"}"
    );
}

#[test]
fn cache_round_trips_offers() {
    let offers = vec![
        offer("1001", "/o/1001", "A St. 1", "room", "400", "1", "20"),
        offer("1002", "/o/1002", "B \"quoted\" \\ St.", "flat", "800", "2", "55"),
    ];
    let text = cache_json(&offers);
    let back = parse_cache(&text).unwrap();
    assert_eq!(back, offers);
}

#[test]
fn cache_round_trips_empty_list() {
    let offers: Vec<Offer> = Vec::new();
    let text = cache_json(&offers);
    assert_eq!(text, "[]");
    let back = parse_cache(&text).unwrap();
    assert_eq!(back, offers);
}

#[test]
fn parse_cache_accepts_whitespace_between_tokens() {
    let text = " [ {\n\t\"id\" : \"1\" , \"link\" : \"/o/1\" , \"address\" : \"a\" ,\n \"room_type\" : \"r\" , \"cost\" : \"c\" , \"n_rooms\" : \"n\" , \"size\" : \"s\" } ] ";
    let back = parse_cache(text).unwrap();
    assert_eq!(back, vec![offer("1", "/o/1", "a", "r", "c", "n", "s")]);
}

#[test]
fn parse_cache_accepts_keys_in_any_order() {
    let text = "[{\"link\":\"l\",\"id\":\"1\",\"address\":\"a\",\"room_type\":\"r\",\"cost\":\"c\",\"n_rooms\":\"n\",\"size\":\"s\"}]";
    let back = load_cache(Some(text)).unwrap();
    assert_eq!(back, vec![offer("1", "l", "a", "r", "c", "n", "s")]);
    let reversed = "[{\"size\":\"s\",\"n_rooms\":\"n\",\"cost\":\"c\",\"room_type\":\"r\",\"address\":\"a\",\"link\":\"l\",\"id\":\"1\"}]";
    let back2 = load_cache(Some(reversed)).unwrap();
    assert_eq!(back2, vec![offer("1", "l", "a", "r", "c", "n", "s")]);
}

#[test]
fn parse_cache_reads_standard_escapes() {
    let text = "[{\"id\":\"a\\nb\",\"link\":\"x\\/y\",\"address\":\"q\\\"z\\\\w\",\"room_type\":\"t\\tu\",\"cost\":\"c\\rd\",\"n_rooms\":\"e\\bf\",\"size\":\"g\\fh\"}]";
    let back = parse_cache(text).unwrap();
    assert_eq!(back[0].id, "a\nb");
    assert_eq!(back[0].link, "x/y");
    assert_eq!(back[0].address, "q\"z\\w");
    assert_eq!(back[0].room_type, "t\tu");
    assert_eq!(back[0].cost, "c\rd");
    assert_eq!(back[0].n_rooms, "e\u{8}f");
    assert_eq!(back[0].size, "g\u{c}h");
}

#[test]
fn parse_cache_reads_unicode_escapes() {
    let text = "[{\"id\":\"\\u0041\\u00e9\",\"link\":\"\\uD83D\\uDE00\",\"address\":\"a\",\"room_type\":\"r\",\"cost\":\"c\",\"n_rooms\":\"n\",\"size\":\"s\"}]";
    let back = parse_cache(text).unwrap();
    assert_eq!(back[0].id, "Aé");
    assert_eq!(back[0].link, "\u{1F600}");
}

#[test]
fn cache_rejects_bad_objects() {
    // A key appearing twice.
    let dup = "[{\"id\":\"1\",\"id\":\"2\",\"address\":\"a\",\"room_type\":\"r\",\"cost\":\"c\",\"n_rooms\":\"n\",\"size\":\"s\"}]";
    assert_eq!(load_cache(Some(dup)), Err(CacheError::Malformed));
    // A key outside the seven.
    let unknown = "[{\"id\":\"1\",\"link\":\"l\",\"address\":\"a\",\"room_type\":\"r\",\"cost\":\"c\",\"n_rooms\":\"n\",\"floor\":\"s\"}]";
    assert_eq!(load_cache(Some(unknown)), Err(CacheError::Malformed));
    // Only six members.
    let short = "[{\"id\":\"1\",\"link\":\"l\",\"address\":\"a\",\"room_type\":\"r\",\"cost\":\"c\",\"n_rooms\":\"n\"}]";
    assert_eq!(load_cache(Some(short)), Err(CacheError::Malformed));
    // A lone low surrogate escape.
    let lone = "[{\"id\":\"\\uDE00\",\"link\":\"l\",\"address\":\"a\",\"room_type\":\"r\",\"cost\":\"c\",\"n_rooms\":\"n\",\"size\":\"s\"}]";
    assert_eq!(load_cache(Some(lone)), Err(CacheError::Malformed));
    // A non-string value.
    let nonstring = "[{\"id\":1,\"link\":\"l\",\"address\":\"a\",\"room_type\":\"r\",\"cost\":\"c\",\"n_rooms\":\"n\",\"size\":\"s\"}]";
    assert_eq!(load_cache(Some(nonstring)), Err(CacheError::Malformed));
}

#[test]
fn missing_cache_reads_as_empty_list() {
    let read = load_cache(None).unwrap();
    assert_eq!(read.len(), 0);
}

#[test]
fn malformed_cache_is_fatal() {
    assert_eq!(load_cache(Some("[{\"id\":\"1\"")), Err(CacheError::Malformed));
    assert_eq!(load_cache(Some("not json at all")), Err(CacheError::Malformed));
    assert_eq!(load_cache(Some("")), Err(CacheError::Malformed));
    assert_eq!(load_cache(Some("[] trailing")), Err(CacheError::Malformed));
}

#[test]
fn diff_of_equal_lists_is_empty() {
    let offers = vec![
        offer("1001", "/o/1001", "a", "r", "c", "n", "s"),
        offer("1002", "/o/1002", "b", "r", "c", "n", "s"),
    ];
    let d = diff_offers(&offers, &offers);
    assert_eq!(d.new_ids.len(), 0);
    assert_eq!(d.removed_ids.len(), 0);
}

#[test]
fn diff_reports_new_and_removed_ids() {
    let previous = vec![
        offer("A", "/o/A", "a", "r", "c", "n", "s"),
        offer("B", "/o/B", "b", "r", "c", "n", "s"),
    ];
    let current = vec![
        offer("B", "/o/B", "b", "r", "c", "n", "s"),
        offer("C", "/o/C", "c", "r", "c", "n", "s"),
    ];
    let d = diff_offers(&current, &previous);
    assert_eq!(d.new_ids, vec!["C".to_string()]);
    assert_eq!(d.removed_ids, vec!["A".to_string()]);
}

#[test]
fn union_prefers_current_and_covers_both_lists() {
    let previous = vec![
        offer("A", "/old/A", "a", "r", "c", "n", "s"),
        offer("B", "/old/B", "b", "r", "c", "n", "s"),
    ];
    let current = vec![
        offer("B", "/new/B", "b2", "r", "c", "n", "s"),
        offer("C", "/new/C", "c", "r", "c", "n", "s"),
    ];
    let union = union_offers(&current, &previous);
    assert_eq!(union.len(), 3);
    let mut ids: Vec<String> = union.iter().map(|o| o.id.clone()).collect();
    ids.sort();
    assert_eq!(ids, vec!["A".to_string(), "B".to_string(), "C".to_string()]);
    let b = union.iter().find(|o| o.id == "B").unwrap();
    assert_eq!(b.link, "/new/B");
    let a = union.iter().find(|o| o.id == "A").unwrap();
    assert_eq!(a.link, "/old/A");
}

#[test]
fn union_keeps_last_current_and_first_previous_duplicate() {
    let current = vec![
        offer("D", "/cur/first", "a", "r", "c", "n", "s"),
        offer("D", "/cur/last", "a", "r", "c", "n", "s"),
    ];
    let previous = vec![
        offer("E", "/prev/first", "a", "r", "c", "n", "s"),
        offer("E", "/prev/second", "a", "r", "c", "n", "s"),
    ];
    let union = union_offers(&current, &previous);
    assert_eq!(union.len(), 2);
    let d = union.iter().find(|o| o.id == "D").unwrap();
    assert_eq!(d.link, "/cur/last");
    let e = union.iter().find(|o| o.id == "E").unwrap();
    assert_eq!(e.link, "/prev/first");
}

#[test]
fn first_run_reports_all_fetched_ids_and_caches_them() {
    let rows = [
        row("2001", "/o/2001", ["a1", "r1", "c1", "n1", "s1"]),
        row("2002", "/o/2002", ["a2", "r2", "c2", "n2", "s2"]),
        row("2003", "/o/2003", ["a3", "r3", "c3", "n3", "s3"]),
    ]
    .concat();
    let today = parse_offers(&page(&rows)).unwrap();
    let previous = load_cache(None).unwrap();
    let d = diff_offers(&today, &previous);
    assert_eq!(d.new_ids, vec!["2001".to_string(), "2002".to_string(), "2003".to_string()]);
    assert_eq!(d.removed_ids.len(), 0);
    let written = cache_json(&today);
    let reread = parse_cache(&written).unwrap();
    assert_eq!(reread, today);
    assert_eq!(reread.len(), 3);
}
