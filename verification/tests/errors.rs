use tagrs::hash::{path_hash, PathnameHash};
use tagrs::scan::{DirEntry, EntryKind};
use tagrs::{Collection, Error};

fn text_of(error: Error) -> String {
    match error {
        Error::InvalidInput(text) => text,
        other => panic!("{:?}", other),
    }
}

#[test]
fn status_is_404_for_not_found_only() {
    assert_eq!(Error::NotFound.status(), 404);
    assert_eq!(Error::IO("gone".to_string()).status(), 500);
    assert_eq!(Error::InvalidInput("bad".to_string()).status(), 500);
    assert_eq!(Error::JellyfinError("no".to_string()).status(), 500);
    assert_eq!(Error::InvalidPath("x".to_string()).status(), 500);
}

#[test]
fn message_names_the_kind_of_error() {
    assert_eq!(Error::NotFound.message(), "Not found");
    assert_eq!(Error::IO("gone".to_string()).message(), "IO error: gone");
    assert_eq!(Error::InvalidInput("bad".to_string()).message(), "bad");
    assert_eq!(Error::JellyfinError("no".to_string()).message(), "Jellyfin error: no");
    assert_eq!(Error::InvalidPath("x".to_string()).message(), "Invalid path: x");
}

#[test]
fn response_text_is_the_message_but_for_invalid_input() {
    assert_eq!(Error::NotFound.response_text(), "Not found");
    assert_eq!(Error::IO("gone".to_string()).response_text(), "IO error: gone");
    assert_eq!(
        Error::InvalidInput("bad".to_string()).response_text(),
        "Internal server error: bad"
    );
    assert_eq!(Error::JellyfinError("no".to_string()).response_text(), "Jellyfin error: no");
    assert_eq!(Error::InvalidPath("x".to_string()).response_text(), "Invalid path: x");
}

#[test]
fn invalid_input_says_what_is_wrong() {
    assert_eq!(text_of(path_hash(b"/").unwrap_err()), "invalid file name");
    assert_eq!(text_of(PathnameHash::try_from(&[1, 2, 3]).unwrap_err()), "invalid hash length");
    assert_eq!(text_of(PathnameHash::from_str("abcd").unwrap_err()), "invalid hash length");
    assert_eq!(text_of(PathnameHash::from_str("abc").unwrap_err()), "invalid hexadecimal text");
    assert_eq!(text_of(PathnameHash::from_str("wxyz").unwrap_err()), "invalid hexadecimal text");
    let not_text = vec![DirEntry {
        file_name: b"\xc3".to_vec(),
        kind: EntryKind::Directory,
        has_poster: false,
    }];
    assert_eq!(
        text_of(Collection::tag_names(b"/t", &not_text, &Vec::new()).unwrap_err()),
        "invalid tag directory name"
    );
    let no_name = vec![DirEntry {
        file_name: b"..".to_vec(),
        kind: EntryKind::Directory,
        has_poster: false,
    }];
    assert_eq!(
        text_of(Collection::load_movies(b"/m", &no_name).map(|_| ()).unwrap_err()),
        "invalid file name"
    );
}
