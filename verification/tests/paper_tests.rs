use rust_paper::config::Config;
use rust_paper::error::PaperError;
use rust_paper::inventory::{build_file_map, find_existing_image, Inventory, ListedEntry};
use rust_paper::list::{contains_text, load_wallpapers, update_wallpaper_list};
use rust_paper::lock::LockFile;
use rust_paper::order::{less_than, same_text, sort_dedup};
use rust_paper::paper::{
    check_download_status, clean_report, RemovalOutcome, RustPaper, WallpaperStatus,
};

fn owned(items: &[&str]) -> Vec<String> {
    items.iter().map(|s| s.to_string()).collect()
}

fn config(integrity: bool) -> Config {
    Config { save_location: "/wall".to_string(), integrity }
}

fn paper_with(list: &[&str], integrity: bool) -> RustPaper {
    RustPaper::new(config(integrity), &owned(list), None)
}

fn file(path: &str, stem: &str) -> ListedEntry {
    ListedEntry { path: path.to_string(), stem: Some(stem.to_string()), is_file: true }
}

fn directory(path: &str, stem: &str) -> ListedEntry {
    ListedEntry { path: path.to_string(), stem: Some(stem.to_string()), is_file: false }
}

#[test]
fn strings_compare_by_bytes() {
    assert!(less_than("a", "b"));
    assert!(!less_than("b", "a"));
    assert!(!less_than("a", "a"));
    assert!(less_than("", "a"));
    assert!(!less_than("a", ""));
    assert!(!less_than("", ""));
    assert!(less_than("abc", "abcd"));
    assert!(less_than("ABC123", "abc123"));
    assert!(less_than("123abc", "ABC123"));
    assert!(less_than("z", "é"));
    for (a, b) in [("a", "b"), ("é", "z"), ("", ""), ("ab", "a"), ("\u{10000}", "\u{ffff}")] {
        assert_eq!(less_than(a, b), a < b);
        assert_eq!(less_than(b, a), b < a);
        assert_eq!(same_text(a, b), a == b);
    }
    assert!(same_text("7pmgv9", "7pmgv9"));
    assert!(!same_text("7pmgv9", "7pmgv"));
}

#[test]
fn sorting_keeps_order_and_skips_repeats() {
    assert_eq!(sort_dedup(&owned(&["b", "d", "c", "a", "e", "c"])), vec!["a", "b", "c", "d", "e"]);
    assert_eq!(sort_dedup(&owned(&["b", "a", "b", "c", "a"])), vec!["a", "b", "c"]);
    assert_eq!(sort_dedup(&[]), Vec::<String>::new());
}

#[test]
fn sort_dedup_agrees_with_the_standard_library() {
    let items = owned(&["zz9999", "abc123", "ABC123", "abc123", "000000", "é", "abc12"]);
    let mut expected = items.clone();
    expected.sort_unstable();
    expected.dedup();
    assert_eq!(sort_dedup(&items), expected);
}

#[test]
fn the_list_file_is_read_token_by_token() {
    let lines = owned(&["abc123", "def456, ghi789", "", "  ", "not-an-id", "abc123"]);
    assert_eq!(
        load_wallpapers(&lines),
        vec!["abc123", "def456", "ghi789", "not-an-id", "abc123"]
    );
    assert_eq!(load_wallpapers(&[]), Vec::<String>::new());
}

#[test]
fn the_list_file_holds_one_id_a_line() {
    assert_eq!(update_wallpaper_list(&owned(&["abc123", "def456"])), "abc123\ndef456\n");
    assert_eq!(update_wallpaper_list(&[]), "");
}

#[test]
fn new_keeps_a_ledger_only_with_integrity_on() {
    let paper = RustPaper::new(config(true), &owned(&["abc123"]), None);
    assert!(paper.lock_file().unwrap().is_empty());
    assert!(paper.config().integrity);
    assert_eq!(paper.config().save_location, "/wall");
    assert_eq!(paper.wallpapers(), &owned(&["abc123"]));

    let mut stored = LockFile::new();
    stored.add("abc123".to_string(), "/wall/abc123.png".to_string(), "h".to_string());
    let paper = RustPaper::new(config(true), &[], Some(stored));
    assert!(paper.lock_file().unwrap().contains("abc123", "h"));

    let mut stored = LockFile::new();
    stored.add("abc123".to_string(), "/wall/abc123.png".to_string(), "h".to_string());
    let paper = RustPaper::new(config(false), &[], Some(stored));
    assert!(paper.lock_file().is_none());
}

#[test]
fn add_merges_sorts_and_deduplicates() {
    let mut paper = paper_with(&["zzz999", "abc123"], false);
    let mut input = owned(&["https://wallhaven.cc/w/7pmgv9?x=1", "def456,bad, abc123", "nope"]);
    let rejected = paper.add(&mut input);
    assert_eq!(input, vec!["7pmgv9", "def456,bad, abc123", "nope"]);
    assert_eq!(rejected, vec!["bad", "nope"]);
    assert_eq!(paper.wallpapers(), &owned(&["7pmgv9", "abc123", "def456", "zzz999"]));
}

#[test]
fn add_takes_the_id_from_an_address_with_a_query() {
    let mut paper = paper_with(&["abc123"], false);
    let mut input = owned(&["https://wallhaven.cc/w/7pmgv9?ref=a/b"]);
    assert!(paper.add(&mut input).is_empty());
    assert_eq!(input, vec!["7pmgv9"]);
    assert_eq!(paper.wallpapers(), &owned(&["7pmgv9", "abc123"]));

    let mut input = owned(&["https://wallhaven.cc/w/def456", "https://wallhaven.cc/w/ghi789?page=2"]);
    assert!(paper.add(&mut input).is_empty());
    assert_eq!(input, vec!["def456", "ghi789"]);
    assert_eq!(paper.wallpapers(), &owned(&["7pmgv9", "abc123", "def456", "ghi789"]));
    assert!(paper.wallpapers().iter().all(|id| !id.contains('?') && !id.contains('/')));

    let report = paper.remove(&owned(&["https://wallhaven.cc/w/7pmgv9"])).unwrap();
    assert_eq!(report.removed_count, 1);
    assert_eq!(paper.wallpapers(), &owned(&["abc123", "def456", "ghi789"]));
}

#[test]
fn adding_the_same_id_twice_changes_nothing_the_second_time() {
    let mut paper = paper_with(&["abc123"], false);
    assert!(paper.add(&mut owned(&["7pmgv9"])).is_empty());
    let once = paper.wallpapers().clone();
    assert_eq!(once, vec!["7pmgv9", "abc123"]);
    assert!(paper.add(&mut owned(&["7pmgv9"])).is_empty());
    assert_eq!(paper.wallpapers(), &once);
    assert_eq!(update_wallpaper_list(paper.wallpapers()), "7pmgv9\nabc123\n");
}

#[test]
fn adding_then_removing_an_id_restores_the_list() {
    let mut paper = paper_with(&["abc123", "zzz999"], false);
    let before = paper.wallpapers().clone();
    let text_before = update_wallpaper_list(paper.wallpapers());
    paper.add(&mut owned(&["def456"]));
    assert_eq!(paper.wallpapers(), &owned(&["abc123", "def456", "zzz999"]));
    let report = paper.remove(&owned(&["def456"])).unwrap();
    assert_eq!(report.removed_count, 1);
    assert_eq!(report.requested, 1);
    assert!(!report.ledger_changed);
    assert_eq!(paper.wallpapers(), &before);
    assert_eq!(update_wallpaper_list(paper.wallpapers()), text_before);
}

#[test]
fn track_and_untrack_work_on_validated_ids() {
    let mut paper = paper_with(&["b", "a", "b"], false);
    paper.track(owned(&["c", "a"]));
    assert_eq!(paper.wallpapers(), &owned(&["a", "b", "c"]));
    let report = paper.untrack(&owned(&["a", "x", "c"]));
    assert_eq!(report.removed_count, 2);
    assert_eq!(report.requested, 3);
    assert_eq!(paper.wallpapers(), &owned(&["b"]));
}

#[test]
fn remove_without_a_valid_id_fails_and_changes_nothing() {
    let mut paper = paper_with(&["abc123"], true);
    assert!(matches!(paper.remove(&owned(&["nope", "x,y"])), Err(PaperError::NoValidIds)));
    assert!(matches!(paper.remove(&[]), Err(PaperError::NoValidIds)));
    assert_eq!(paper.wallpapers(), &owned(&["abc123"]));
}

#[test]
fn remove_reports_how_many_left_the_list() {
    let mut paper = paper_with(&["abc123", "def456", "ghi789"], false);
    let report = paper
        .remove(&owned(&["https://wallhaven.cc/w/abc123", "zzz999,ghi789", "bad"]))
        .unwrap();
    assert_eq!(report.removed_count, 2);
    assert_eq!(report.requested, 3);
    assert_eq!(paper.wallpapers(), &owned(&["def456"]));

    let report = paper.remove(&owned(&["zzz999"])).unwrap();
    assert_eq!(report.removed_count, 0);
    assert_eq!(report.requested, 1);
    assert_eq!(paper.wallpapers(), &owned(&["def456"]));
}

#[test]
fn remove_purges_the_ledger_only_when_the_list_shrank() {
    let mut stored = LockFile::new();
    stored.add("abc123".to_string(), "/wall/abc123.png".to_string(), "h1".to_string());
    stored.add("zzz999".to_string(), "/wall/zzz999.png".to_string(), "h2".to_string());
    let mut paper = RustPaper::new(config(true), &owned(&["abc123"]), Some(stored));

    let report = paper.remove(&owned(&["zzz999"])).unwrap();
    assert_eq!(report.removed_count, 0);
    assert!(!report.ledger_changed);
    assert_eq!(paper.lock_file().unwrap().len(), 2);

    let report = paper.remove(&owned(&["abc123", "zzz999"])).unwrap();
    assert_eq!(report.removed_count, 1);
    assert!(report.ledger_changed);
    assert!(paper.lock_file().unwrap().is_empty());
    assert!(paper.wallpapers().is_empty());
}

#[test]
fn contains_text_looks_for_the_exact_text() {
    let list = owned(&["abc123", "def456"]);
    assert!(contains_text(&list, "def456"));
    assert!(!contains_text(&list, "DEF456"));
    assert!(!contains_text(&[], "def456"));
}

#[test]
fn the_inventory_keeps_regular_files_by_stem_later_ones_winning() {
    let listing = vec![
        file("/wall/abc123.png", "abc123"),
        directory("/wall/def456", "def456"),
        ListedEntry { path: "/wall/..".to_string(), stem: None, is_file: true },
        file("/wall/abc123.jpg", "abc123"),
        file("/wall/notes.txt", "notes"),
    ];
    let keyed: Vec<bool> = listing.iter().map(|entry| entry.is_keyed()).collect();
    assert_eq!(keyed, vec![true, false, false, true, true]);
    let inventory = build_file_map(&listing);
    assert_eq!(inventory.get("abc123"), Some("/wall/abc123.jpg"));
    assert_eq!(inventory.get("notes"), Some("/wall/notes.txt"));
    assert_eq!(inventory.get("def456"), None);
    assert_eq!(inventory.get(""), None);
    assert_eq!(build_file_map(&vec![]).get("abc123"), None);

    let mut inventory = Inventory::new();
    assert_eq!(inventory.get("a"), None);
    inventory.insert("a".to_string(), "/1".to_string());
    inventory.insert("a".to_string(), "/2".to_string());
    assert_eq!(inventory.get("a"), Some("/2"));
}

#[test]
fn an_existing_image_is_the_first_entry_with_the_stem() {
    let listing = vec![
        directory("/wall/abc123", "abc123"),
        file("/wall/abc123.png", "abc123"),
        file("/wall/def456.png", "def456"),
    ];
    assert_eq!(find_existing_image(&listing, "abc123"), Some("/wall/abc123"));
    assert_eq!(find_existing_image(&listing, "def456"), Some("/wall/def456.png"));
    assert_eq!(find_existing_image(&listing, "zzz999"), None);
    assert!(matches!(
        check_download_status(&listing, "def456"),
        WallpaperStatus::Downloaded { path } if path == "/wall/def456.png"
    ));
    assert!(matches!(check_download_status(&listing, "zzz999"), WallpaperStatus::NotDownloaded));
}

#[test]
fn list_counts_downloaded_and_missing() {
    let paper = paper_with(&["abc123", "def456", "ghi789"], false);
    let listing = vec![file("/wall/ghi789.png", "ghi789"), file("/wall/abc123.jpg", "abc123")];
    let report = paper.list(&listing);
    assert_eq!(report.downloaded_count, 2);
    assert_eq!(report.not_downloaded_count, 1);
    assert_eq!(report.statuses.len(), 3);
    assert!(matches!(&report.statuses[0], WallpaperStatus::Downloaded { path } if path == "/wall/abc123.jpg"));
    assert!(matches!(&report.statuses[1], WallpaperStatus::NotDownloaded));
    assert!(matches!(&report.statuses[2], WallpaperStatus::Downloaded { path } if path == "/wall/ghi789.png"));

    let empty = paper_with(&[], false).list(&listing);
    assert_eq!((empty.downloaded_count, empty.not_downloaded_count), (0, 0));
    assert!(empty.statuses.is_empty());
}

#[test]
fn clean_removes_only_the_untracked_file() {
    let mut stored = LockFile::new();
    stored.add("abc123".to_string(), "/wall/abc123.png".to_string(), "h1".to_string());
    stored.add("old111".to_string(), "/wall/old111.png".to_string(), "h2".to_string());
    let mut paper = RustPaper::new(config(true), &owned(&["abc123"]), Some(stored));
    let listing = vec![file("/wall/abc123.png", "abc123"), file("/wall/old111.png", "old111")];

    let cleanup = paper.clean(&listing);
    assert_eq!(cleanup.orphans.len(), 1);
    assert_eq!(cleanup.orphans[0].path, "/wall/old111.png");
    assert_eq!(cleanup.orphans[0].stem, "old111");
    assert!(cleanup.ledger_changed);
    assert!(paper.lock_file().unwrap().contains("abc123", "h1"));
    assert!(!paper.lock_file().unwrap().contains("old111", "h2"));
    assert_eq!(paper.wallpapers(), &owned(&["abc123"]));

    let report = clean_report(&[RemovalOutcome { size: Some(2048), removed: true }]);
    assert_eq!(report.removed_count, 1);
    assert_eq!(report.total_size, 2048);
}

#[test]
fn clean_leaves_directories_and_the_ledger_without_integrity() {
    let mut paper = paper_with(&["abc123"], false);
    let listing = vec![
        directory("/wall/old111", "old111"),
        ListedEntry { path: "/wall/x".to_string(), stem: None, is_file: true },
        file("/wall/abc123.png", "abc123"),
        file("/wall/old222.png", "old222"),
        file("/wall/old333.jpg", "old333"),
    ];
    let cleanup = paper.clean(&listing);
    let stems: Vec<&str> = cleanup.orphans.iter().map(|o| o.stem.as_str()).collect();
    assert_eq!(stems, vec!["old222", "old333"]);
    assert!(!cleanup.ledger_changed);
    assert!(paper.lock_file().is_none());
    assert!(paper_with(&[], false).clean(&vec![]).orphans.is_empty());
}

#[test]
fn the_clean_report_counts_deletions_and_adds_sizes() {
    let outcomes = [
        RemovalOutcome { size: Some(10), removed: true },
        RemovalOutcome { size: Some(5), removed: false },
        RemovalOutcome { size: None, removed: true },
    ];
    let report = clean_report(&outcomes);
    assert_eq!(report.removed_count, 2);
    assert_eq!(report.total_size, 10);

    let one_failed = [
        RemovalOutcome { size: Some(300), removed: false },
        RemovalOutcome { size: Some(200), removed: true },
    ];
    let report = clean_report(&one_failed);
    assert_eq!(report.removed_count, 1);
    assert_eq!(report.total_size, 200);

    let none_deleted = [RemovalOutcome { size: Some(u64::MAX), removed: false }];
    assert_eq!(clean_report(&none_deleted).total_size, 0);

    let report = clean_report(&[]);
    assert_eq!((report.removed_count, report.total_size), (0, 0));

    let huge = [
        RemovalOutcome { size: Some(u64::MAX - 1), removed: true },
        RemovalOutcome { size: Some(7), removed: true },
    ];
    assert_eq!(clean_report(&huge).total_size, u64::MAX);
}

#[test]
fn info_asks_for_a_valid_id_only() {
    let paper = paper_with(&["abc123"], false);
    let request = paper.info("https://wallhaven.cc/w/7pmgv9").unwrap();
    assert_eq!(request.wallpaper_id, "7pmgv9");
    assert_eq!(request.api_url, "https://wallhaven.cc/api/v1/w/7pmgv9");
    let request = paper.info("abc123").unwrap();
    assert_eq!(request.api_url, "https://wallhaven.cc/api/v1/w/abc123");
    let request = paper.info("https://wallhaven.cc/w/7pmgv9?x=1").unwrap();
    assert_eq!(request.wallpaper_id, "7pmgv9");
    assert_eq!(request.api_url, "https://wallhaven.cc/api/v1/w/7pmgv9");
    assert!(matches!(paper.info("abc12"), Err(PaperError::InvalidId(id)) if id == "abc12"));
    assert!(matches!(
        paper.info("https://wallhaven.cc/w/"),
        Err(PaperError::InvalidId(id)) if id.is_empty()
    ));
}

#[test]
fn info_reads_the_reply_and_the_local_state() {
    let paper = paper_with(&["abc123", "def456"], false);
    let listing = vec![file("/wall/abc123.png", "abc123"), file("/wall/zzz999.png", "zzz999")];
    let body = r#"{"data":{"id":"abc123","path":"https://x/abc123.png"}}"#;

    let status = paper.info_status("abc123", body, &listing).unwrap();
    assert!(status.listed);
    assert_eq!(status.local.as_deref(), Some("/wall/abc123.png"));

    let status = paper.info_status("def456", body, &listing).unwrap();
    assert!(status.listed);
    assert_eq!(status.local, None);

    let status = paper.info_status("zzz999", body, &listing).unwrap();
    assert!(!status.listed);
    assert_eq!(status.local, None);

    assert!(matches!(
        paper.info_status("abc123", r#"{"error":"Unauthorized"}"#, &listing),
        Err(PaperError::Api(text)) if text == "\"Unauthorized\""
    ));
    assert!(matches!(
        paper.info_status("abc123", r#"{"meta":1}"#, &listing),
        Err(PaperError::MissingData)
    ));
    assert!(matches!(
        paper.info_status("abc123", "not json", &listing),
        Err(PaperError::InvalidJson(_))
    ));
}
