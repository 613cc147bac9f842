use intray::auth::SimplisticHTTPBasicAuth;
use intray::naming::candidate_file_name;
use intray::web::{asset_key_of, asset_reply};

#[test]
fn first_candidate_is_the_name_itself() {
    assert_eq!(candidate_file_name("a.txt", 0), "a.txt");
    assert_eq!(candidate_file_name("noext", 0), "noext");
}

#[test]
fn later_candidates_carry_the_attempt_number() {
    assert_eq!(candidate_file_name("a.txt", 1), "a_1.txt");
    assert_eq!(candidate_file_name("a.txt", 12), "a_12.txt");
    assert_eq!(candidate_file_name("archive.tar.gz", 3), "archive.tar_3.gz");
    assert_eq!(candidate_file_name("noext", 7), "noext_7");
    assert_eq!(candidate_file_name(".bashrc", 2), ".bashrc_2");
}

#[test]
fn nameless_uploads_get_a_default_stem() {
    assert_eq!(candidate_file_name("", 0), "UnnamedFile");
    assert_eq!(candidate_file_name("", 4), "UnnamedFile_4");
    assert_eq!(candidate_file_name("..", 0), "UnnamedFile");
}

#[test]
fn directories_are_dropped_from_the_name() {
    assert_eq!(candidate_file_name("dir/sub/report.pdf", 0), "report.pdf");
}

fn auth() -> SimplisticHTTPBasicAuth {
    SimplisticHTTPBasicAuth::new(vec![String::from("user:pass"), String::from("admin:SECRET-REDACTED")], String::from("Intray"))
}

#[test]
fn authenticate_matches_exactly() {
    let a = auth();
    assert!(a.authenticate("user:pass"));
    assert!(!a.authenticate("user:pas"));
    assert!(!a.authenticate(""));
    assert!(a.is_enabled());
    assert!(!SimplisticHTTPBasicAuth::new(vec![], String::from("x")).is_enabled());
}

#[test]
fn basic_header_is_decoded() {
    assert_eq!(SimplisticHTTPBasicAuth::credentials_from_header("Basic dXNlcjpwYXNz"), Some(String::from("user:pass")));
    assert_eq!(SimplisticHTTPBasicAuth::credentials_from_header("bAsIc   dXNlcjpwYXNz  "), Some(String::from("user:pass")));
}

#[test]
fn other_headers_carry_no_credentials() {
    assert_eq!(SimplisticHTTPBasicAuth::credentials_from_header("Bearer dXNlcjpwYXNz"), None);
    assert_eq!(SimplisticHTTPBasicAuth::credentials_from_header("Basic"), None);
    assert_eq!(SimplisticHTTPBasicAuth::credentials_from_header(" Basic dXNlcjpwYXNz"), None);
    assert_eq!(SimplisticHTTPBasicAuth::credentials_from_header("Basic !!!"), None);
    assert_eq!(SimplisticHTTPBasicAuth::credentials_from_header("Basic /w=="), None);
}

#[test]
fn authorize_lets_matching_requests_through() {
    let a = auth();
    assert!(a.authorize(Some("Basic dXNlcjpwYXNz")));
    assert!(!a.authorize(Some("Basic dXNlcjp3cm9uZw==")));
    assert!(!a.authorize(None));
}

#[test]
fn challenge_names_the_realm() {
    assert_eq!(auth().challenge(), "Basic realm=\"Intray\", charset=\"UTF-8\"");
}

#[test]
fn asset_key_drops_one_leading_slash() {
    assert_eq!(asset_key_of("/index.html"), "index.html");
    assert_eq!(asset_key_of("index.html"), "index.html");
    assert_eq!(asset_key_of("/"), "");
    assert_eq!(asset_key_of("//a"), "/a");
    assert_eq!(asset_key_of("/é.txt"), "é.txt");
    assert_eq!(asset_key_of(""), "");
}

#[test]
fn asset_reply_types_found_assets() {
    let found = asset_reply("assets/app.html", true);
    assert_eq!(found.status, 200);
    assert_eq!(found.content_type.as_deref(), Some("text/html"));
    let untyped = asset_reply("LICENSE", true);
    assert_eq!(untyped.content_type.as_deref(), Some("application/octet-stream"));
    let missing = asset_reply("nothing.css", false);
    assert_eq!(missing.status, 404);
    assert!(missing.content_type.is_none());
}
