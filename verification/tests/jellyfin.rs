use tagrs::jellyfin_api::{toggle_folder, JellyfinClient, Method};
use tagrs::Error;

fn texts(items: &[&str]) -> Vec<String> {
    items.iter().map(|item| item.to_string()).collect()
}

#[test]
fn new_drops_one_final_slash() {
    let client = JellyfinClient::new("http://jelly:8096/".to_string(), "key".to_string());
    assert_eq!(client.base_request(Method::Get, "/Users").unwrap().url, "http://jelly:8096/Users");
    let client = JellyfinClient::new("http://jelly:8096".to_string(), "key".to_string());
    assert_eq!(client.base_request(Method::Get, "/Users").unwrap().url, "http://jelly:8096/Users");
    let client = JellyfinClient::new("http://jelly:8096//".to_string(), "key".to_string());
    assert_eq!(client.base_request(Method::Get, "/Users").unwrap().url, "http://jelly:8096//Users");
    let client = JellyfinClient::new(String::new(), "key".to_string());
    assert_eq!(client.base_request(Method::Get, "/Users").unwrap().url, "/Users");
}

#[test]
fn base_request_is_signed_and_asks_for_json() {
    let client = JellyfinClient::new("http://jelly".to_string(), "s3cr3t".to_string());
    let request = client.base_request(Method::Post, "/Users/7/Policy").unwrap();
    assert_eq!(request.method, Method::Post);
    assert_eq!(request.url, "http://jelly/Users/7/Policy");
    assert_eq!(request.authorization, "MediaBrowser Token=\"s3cr3t\"");
    assert_eq!(request.accept, "application/json");
}

#[test]
fn base_request_needs_a_path_with_a_leading_slash() {
    let client = JellyfinClient::new("http://jelly".to_string(), "key".to_string());
    match client.base_request(Method::Get, "Users") {
        Err(Error::InvalidPath(text)) => assert_eq!(text, "Path must start with \"/\": Users"),
        other => panic!("{:?}", other),
    }
    match client.base_request(Method::Get, "") {
        Err(Error::InvalidPath(text)) => assert_eq!(text, "Path must start with \"/\": "),
        other => panic!("{:?}", other),
    }
}

#[test]
fn policy_path_names_the_user() {
    assert_eq!(JellyfinClient::policy_path("abc123"), "/Users/abc123/Policy");
}

#[test]
fn policy_outcome_reports_the_answer_of_the_server() {
    assert!(JellyfinClient::policy_outcome(true, "abc", "ignored").is_ok());
    match JellyfinClient::policy_outcome(false, "abc", "forbidden") {
        Err(Error::JellyfinError(text)) => {
            assert_eq!(text, "Failed to set media folders: User id = abc, forbidden")
        }
        other => panic!("{:?}", other),
    }
}

#[test]
fn toggle_folder_adds_a_missing_folder_at_the_end() {
    assert_eq!(toggle_folder(texts(&["a", "b"]), "c".to_string()), texts(&["a", "b", "c"]));
    assert_eq!(toggle_folder(Vec::new(), "c".to_string()), texts(&["c"]));
}

#[test]
fn toggle_folder_removes_a_folder_wherever_it_stands() {
    assert_eq!(toggle_folder(texts(&["a", "b", "c"]), "b".to_string()), texts(&["a", "c"]));
    assert_eq!(toggle_folder(texts(&["b", "a", "b"]), "b".to_string()), texts(&["a"]));
    assert_eq!(toggle_folder(texts(&["b"]), "b".to_string()), Vec::<String>::new());
}

#[test]
fn toggle_folder_twice_restores_the_folders() {
    let folders = texts(&["a", "b"]);
    let once = toggle_folder(folders.clone(), "c".to_string());
    assert_eq!(toggle_folder(once, "c".to_string()), folders);
}
