use rust_paper::api::{api_url, image_link, image_link_in, ApiReply};
use rust_paper::config::Config;
use rust_paper::error::PaperError;
use rust_paper::helper::{
    calculate_sha256, download_image, extract_id, get_img_extension, id_from_url,
    image_file_name, is_url, normalize_and_validate, normalize_id, to_array, to_hex,
    validate_tokens, validate_wallpaper_id, ImageFormat,
};
use rust_paper::text::{char_is_whitespace, chars_of};

fn strings(items: &[&str]) -> Vec<String> {
    items.iter().map(|s| s.to_string()).collect()
}

#[test]
fn test_to_array() {
    assert_eq!(to_array("a,b,c"), vec!["a", "b", "c"]);
    assert_eq!(to_array("a, b, c"), vec!["a", "b", "c"]);
    assert_eq!(to_array("a"), vec!["a"]);
    assert_eq!(to_array(""), Vec::<String>::new());
    assert_eq!(to_array("a,,b"), vec!["a", "b"]);
}

#[test]
fn test_is_url() {
    assert!(is_url("https://wallhaven.cc/w/7pmgv9"));
    assert!(is_url("http://example.com"));
    assert!(!is_url("not a url"));
    assert!(!is_url(""));
}

#[test]
fn test_validate_wallpaper_id() {
    assert!(validate_wallpaper_id("7pmgv9"));
    assert!(validate_wallpaper_id("abcdef"));
    assert!(validate_wallpaper_id("123456"));
    assert!(validate_wallpaper_id("ABC123"));
    assert!(!validate_wallpaper_id("7pmgv")); // too short
    assert!(!validate_wallpaper_id("7pmgv90")); // too long
    assert!(!validate_wallpaper_id("7pmgv-9")); // invalid character
    assert!(!validate_wallpaper_id(""));
}

#[test]
fn test_get_img_extension() {
    assert_eq!(get_img_extension(&ImageFormat::Png), "png");
    assert_eq!(get_img_extension(&ImageFormat::Jpeg), "jpeg");
    assert_eq!(get_img_extension(&ImageFormat::Gif), "gif");
    assert_eq!(get_img_extension(&ImageFormat::WebP), "webp");
}

#[test]
fn test_remove_url_extraction() {
    let url = "https://wallhaven.cc/w/7pmgv9";
    let processed = extract_id(url);
    assert_eq!(processed, "7pmgv9");
    assert!(validate_wallpaper_id(&processed));
}

#[test]
fn every_format_has_its_extension() {
    assert_eq!(get_img_extension(&ImageFormat::Pnm), "pnm");
    assert_eq!(get_img_extension(&ImageFormat::Tiff), "tiff");
    assert_eq!(get_img_extension(&ImageFormat::Tga), "tga");
    assert_eq!(get_img_extension(&ImageFormat::Dds), "dds");
    assert_eq!(get_img_extension(&ImageFormat::Bmp), "bmp");
    assert_eq!(get_img_extension(&ImageFormat::Ico), "ico");
    assert_eq!(get_img_extension(&ImageFormat::Hdr), "hdr");
    assert_eq!(get_img_extension(&ImageFormat::Other), "jpg");
}

#[test]
fn validation_rejects_non_ascii_and_wrong_lengths() {
    assert!(!validate_wallpaper_id("abcdé"));
    assert!(!validate_wallpaper_id("ééé"));
    assert!(!validate_wallpaper_id("abc de"));
    assert!(!validate_wallpaper_id("abc_de"));
    assert!(!validate_wallpaper_id("abcde/"));
    assert!(!validate_wallpaper_id("abcdefg"));
    assert!(validate_wallpaper_id("000000"));
    assert!(validate_wallpaper_id("zzzzzz"));
    assert!(validate_wallpaper_id("ZZZZZZ"));
    assert!(validate_wallpaper_id("aZ09zA"));
}

#[test]
fn to_array_trims_every_kind_of_white_space() {
    assert_eq!(to_array(" \t7pmgv9\r\n"), vec!["7pmgv9"]);
    assert_eq!(to_array("\u{a0}a\u{3000},\u{2003}b\u{85}"), vec!["a", "b"]);
    assert_eq!(to_array(" , ,"), Vec::<String>::new());
    assert_eq!(to_array(","), Vec::<String>::new());
    assert_eq!(to_array("a b , c"), vec!["a b", "c"]);
    assert_eq!(to_array("é, ü"), vec!["é", "ü"]);
}

#[test]
fn to_array_agrees_with_split_trim_filter() {
    for input in ["a,b", " x ,, y ", "", ",,,", "one", "\u{2028}p\u{2029},q\u{202f}", "a,b,"] {
        let expected: Vec<String> = input
            .split(',')
            .map(str::trim)
            .filter(|s| !s.is_empty())
            .map(String::from)
            .collect();
        assert_eq!(to_array(input), expected);
    }
}

#[test]
fn white_space_agrees_with_the_standard_library() {
    for code in 0u32..=0x10ffff {
        if let Some(c) = char::from_u32(code) {
            assert_eq!(char_is_whitespace(c), c.is_whitespace(), "U+{:04X}", code);
        }
    }
}

#[test]
fn chars_are_taken_one_by_one() {
    assert_eq!(chars_of("  ab c "), vec![' ', ' ', 'a', 'b', ' ', 'c', ' ']);
    assert_eq!(chars_of("é\u{10000}"), vec!['é', '\u{10000}']);
    assert_eq!(chars_of(""), Vec::<char>::new());
}

#[test]
fn url_extraction_takes_the_last_segment_without_query() {
    assert_eq!(id_from_url("https://host/w/7pmgv9"), "7pmgv9");
    assert_eq!(id_from_url("https://host/w/7pmgv9?page=2"), "7pmgv9");
    assert_eq!(id_from_url("https://host/w/7pmgv9?a=1?b=2"), "7pmgv9");
    assert_eq!(id_from_url("https://host/w/7pmgv9/"), "");
    assert_eq!(id_from_url("https://host/w/a?x=/7pmgv9"), "a");
    assert_eq!(id_from_url("https://wallhaven.cc/w/7pmgv9?ref=a/b"), "7pmgv9");
    assert_eq!(id_from_url("?a/b"), "");
    assert_eq!(id_from_url("7pmgv9"), "7pmgv9");
    assert_eq!(id_from_url(""), "");
}

#[test]
fn url_extraction_agrees_with_split() {
    for input in ["https://wallhaven.cc/w/7pmgv9", "a/b/c?d", "?x", "/", "a?b/c?d", "plain", "a/b?c/d"] {
        let expected =
            input.split('?').next().unwrap_or_default().split('/').last().unwrap_or_default();
        assert_eq!(id_from_url(input), expected);
    }
}

#[test]
fn a_slash_in_the_query_does_not_reach_the_id() {
    assert_eq!(extract_id("https://wallhaven.cc/w/7pmgv9?ref=a/b"), "7pmgv9");
    assert_eq!(normalize_id("https://wallhaven.cc/w/7pmgv9?ref=a/b", true), "7pmgv9");
    let out = normalize_and_validate(&strings(&["https://wallhaven.cc/w/7pmgv9?ref=a/b"]));
    assert_eq!(out.ids, vec!["7pmgv9"]);
    assert!(out.rejected.is_empty());
}

#[test]
fn normalising_depends_on_whether_the_token_is_an_address() {
    assert_eq!(normalize_id("https://host/w/7pmgv9?x", true), "7pmgv9");
    assert_eq!(normalize_id("https://host/w/7pmgv9?x", false), "https://host/w/7pmgv9?x");
    assert_eq!(extract_id("https://wallhaven.cc/w/7pmgv9?tag=1"), "7pmgv9");
    assert_eq!(extract_id("7pmgv9"), "7pmgv9");
    assert_eq!(extract_id("abc123,def456"), "abc123,def456");
    assert_eq!(extract_id("w/7pmgv9"), "w/7pmgv9");
}

#[test]
fn tokens_are_sorted_into_ids_and_the_rest() {
    let out = validate_tokens(&strings(&["abc123, nope ,def456", "", "toolong1", "ghi789"]));
    assert_eq!(out.ids, vec!["abc123", "def456", "ghi789"]);
    assert_eq!(out.rejected, vec!["nope", "toolong1"]);
}

#[test]
fn raw_input_is_normalised_then_validated() {
    let out = normalize_and_validate(&strings(&[
        "https://wallhaven.cc/w/7pmgv9",
        "abc123,bad",
        "https://wallhaven.cc/w/zz",
    ]));
    assert_eq!(out.ids, vec!["7pmgv9", "abc123"]);
    assert_eq!(out.rejected, vec!["bad", "zz"]);
}

#[test]
fn hex_is_lower_case_two_digits_a_byte() {
    assert_eq!(to_hex(&[]), "");
    assert_eq!(to_hex(&[0x00, 0x0f, 0xa0, 0xff, 0x9c]), "000fa0ff9c");
    let all: Vec<u8> = (0..=255).collect();
    let expected: String = all.iter().map(|b| format!("{:02x}", b)).collect();
    assert_eq!(to_hex(&all), expected);
}

#[test]
fn sha256_of_known_inputs() {
    assert_eq!(
        calculate_sha256(b""),
        "e3b0c44298fc1c149afbf4c8996fb92427ae41e4649b934ca495991b7852b855"
    );
    assert_eq!(
        calculate_sha256(b"abc"),
        "ba7816bf8f01cfea414140de5dae2223b00361a396177a9cb410ff61f20015ad"
    );
    assert_eq!(calculate_sha256(&[0u8; 10000]).len(), 64);
}

#[test]
fn image_names_join_location_id_and_extension() {
    assert_eq!(image_file_name("/home/u/wall", "7pmgv9", ImageFormat::Png), "/home/u/wall/7pmgv9.png");
    assert_eq!(image_file_name("", "x", ImageFormat::Other), "/x.jpg");
}

#[test]
fn download_names_the_file_after_the_detected_format() {
    let png = b"\x89PNG\r\n\x1a\n\0\0\0\rIHDR";
    assert_eq!(download_image(png, "abc123", "/w").unwrap(), "/w/abc123.png");
    let jpeg = [0xff, 0xd8, 0xff, 0xe0, 0, 0];
    assert_eq!(download_image(&jpeg, "abc123", "/w").unwrap(), "/w/abc123.jpeg");
    assert_eq!(download_image(b"GIF89a....", "abc123", "/w").unwrap(), "/w/abc123.gif");
    assert_eq!(download_image(b"RIFF\x10\0\0\0WEBPVP8 ", "abc123", "/w").unwrap(), "/w/abc123.webp");
    assert_eq!(download_image(b"BM......", "abc123", "/w").unwrap(), "/w/abc123.bmp");
    assert_eq!(download_image(b"qoif....", "abc123", "/w").unwrap(), "/w/abc123.jpg");
}

#[test]
fn an_undetected_format_gets_the_default_extension() {
    assert_eq!(download_image(b"not an image", "abc123", "/w").unwrap(), "/w/abc123.jpg");
    assert_eq!(download_image(b"", "abc123", "/w").unwrap(), "/w/abc123.jpg");
    assert_eq!(download_image(&[0u8; 64], "7pmgv9", "/home/u/wall").unwrap(), "/home/u/wall/7pmgv9.jpg");
}

#[test]
fn api_address_is_built_from_the_trimmed_id() {
    assert_eq!(api_url("7pmgv9"), "https://wallhaven.cc/api/v1/w/7pmgv9");
    assert_eq!(api_url(" 7pmgv9\n"), "https://wallhaven.cc/api/v1/w/7pmgv9");
    assert_eq!(api_url(""), "https://wallhaven.cc/api/v1/w/");
}

#[test]
fn replies_give_the_image_address_or_the_reason() {
    let ok = r#"{"data":{"id":"7pmgv9","path":"https://w.wallhaven.cc/full/7p/wallhaven-7pmgv9.jpg"}}"#;
    assert_eq!(image_link(ok).unwrap(), "https://w.wallhaven.cc/full/7p/wallhaven-7pmgv9.jpg");
    match image_link(r#"{"error":"Not Found"}"#) {
        Err(PaperError::Api(text)) => assert_eq!(text, "\"Not Found\""),
        other => panic!("unexpected: {:?}", other),
    }
    match image_link(r#"{"error":{"code":429},"data":{"path":"x"}}"#) {
        Err(PaperError::Api(text)) => assert_eq!(text, "{\"code\":429}"),
        other => panic!("unexpected: {:?}", other),
    }
    assert!(matches!(image_link(r#"{"data":{"path":5}}"#), Err(PaperError::MissingImageLink)));
    assert!(matches!(image_link(r#"{"data":{}}"#), Err(PaperError::MissingImageLink)));
    assert!(matches!(image_link(r#"{}"#), Err(PaperError::MissingImageLink)));
    assert!(matches!(image_link(r#"[1,2]"#), Err(PaperError::MissingImageLink)));
    match image_link("<html>") {
        Err(PaperError::InvalidJson(text)) => assert!(!text.is_empty()),
        other => panic!("unexpected: {:?}", other),
    }
    assert!(matches!(image_link(""), Err(PaperError::InvalidJson(_))));
}

#[test]
fn a_parsed_reply_with_an_error_fails_whatever_else_it_holds() {
    let reply = ApiReply {
        error: Some("\"gone\"".to_string()),
        has_data: true,
        image_path: Some("https://x/y.png".to_string()),
    };
    assert!(matches!(image_link_in(reply), Err(PaperError::Api(text)) if text == "\"gone\""));
    let reply = ApiReply { error: None, has_data: true, image_path: Some("https://x/y.png".to_string()) };
    assert_eq!(image_link_in(reply).unwrap(), "https://x/y.png");
    let reply = ApiReply { error: None, has_data: true, image_path: None };
    assert!(matches!(image_link_in(reply), Err(PaperError::MissingImageLink)));
}

#[test]
fn every_error_has_its_message() {
    assert_eq!(PaperError::NoValidIds.message(), "No valid wallpaper IDs provided");
    assert_eq!(
        PaperError::InvalidId("x y".to_string()).message(),
        "Invalid wallpaper ID format: 'x y'"
    );
    assert_eq!(PaperError::InvalidJson("EOF".to_string()).message(), "EOF");
    assert_eq!(PaperError::Api("\"no\"".to_string()).message(), "API error: \"no\"");
    assert_eq!(
        PaperError::MissingImageLink.message(),
        "   Failed to get image link from API response"
    );
    assert_eq!(PaperError::MissingData.message(), "Invalid API response: no data field");
}

#[test]
fn default_settings_save_under_pictures() {
    let config = Config::default_in("/home/u");
    assert_eq!(config.save_location, "/home/u/Pictures/wall");
    assert!(config.integrity);
    let copy = config.clone();
    assert_eq!(copy.save_location, config.save_location);
    assert_eq!(copy.integrity, config.integrity);
    assert_eq!(Config::default_in("~").save_location, "~/Pictures/wall");
}
