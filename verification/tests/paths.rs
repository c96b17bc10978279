use tagrs::path::{equal, file_name, join};

fn name_of(path: &[u8]) -> Option<Vec<u8>> {
    file_name(path)
}

#[test]
fn file_name_is_the_last_component() {
    assert_eq!(name_of(b"/usr/bin"), Some(b"bin".to_vec()));
    assert_eq!(name_of(b"tmp/foo.txt"), Some(b"foo.txt".to_vec()));
    assert_eq!(name_of(b"foo.txt"), Some(b"foo.txt".to_vec()));
    assert_eq!(name_of(b"/movies/Alien (1979)"), Some(b"Alien (1979)".to_vec()));
    assert_eq!(name_of(b"./a"), Some(b"a".to_vec()));
    assert_eq!(name_of(b"a/.hidden"), Some(b".hidden".to_vec()));
    assert_eq!(name_of(b"a/..."), Some(b"...".to_vec()));
}

#[test]
fn file_name_passes_over_what_follows_the_last_component() {
    assert_eq!(name_of(b"/usr/bin/"), Some(b"bin".to_vec()));
    assert_eq!(name_of(b"/usr/bin///"), Some(b"bin".to_vec()));
    assert_eq!(name_of(b"foo.txt/."), Some(b"foo.txt".to_vec()));
    assert_eq!(name_of(b"foo.txt/.//"), Some(b"foo.txt".to_vec()));
    assert_eq!(name_of(b"x/././"), Some(b"x".to_vec()));
}

#[test]
fn file_name_is_missing_where_no_entry_is_named() {
    assert_eq!(name_of(b""), None);
    assert_eq!(name_of(b"/"), None);
    assert_eq!(name_of(b"//"), None);
    assert_eq!(name_of(b"."), None);
    assert_eq!(name_of(b"./"), None);
    assert_eq!(name_of(b"/."), None);
    assert_eq!(name_of(b".."), None);
    assert_eq!(name_of(b"foo.txt/.."), None);
    assert_eq!(name_of(b"a/../"), None);
}

#[test]
fn file_name_agrees_with_the_standard_library() {
    let paths: [&str; 16] = [
        "", "/", ".", "..", "a", "a/", "a/.", "a/..", "/a/b", "/a/b/", "/a/b/.", "./a", "a//b//",
        "a/./b/./", "...", "/.",
    ];
    for path in paths {
        let expected = std::path::Path::new(path)
            .file_name()
            .map(|name| name.as_encoded_bytes().to_vec());
        assert_eq!(name_of(path.as_bytes()), expected, "{:?}", path);
    }
}

#[test]
fn join_puts_one_separator_between() {
    assert_eq!(join(b"/tags", b"Horror"), b"/tags/Horror".to_vec());
    assert_eq!(join(b"/tags/", b"Horror"), b"/tags/Horror".to_vec());
    assert_eq!(join(b"/", b"Horror"), b"/Horror".to_vec());
    assert_eq!(join(b"", b"Horror"), b"Horror".to_vec());
    assert_eq!(join(b"tags", b""), b"tags/".to_vec());
}

#[test]
fn join_lets_an_absolute_name_replace_the_base() {
    assert_eq!(join(b"/tags", b"/etc"), b"/etc".to_vec());
}

#[test]
fn join_agrees_with_the_standard_library() {
    let bases: [&str; 5] = ["", "/", "/a", "/a/", "a/b"];
    let names: [&str; 4] = ["x", "/x", "x/y", ""];
    for base in bases {
        for name in names {
            let expected = std::path::Path::new(base).join(name);
            assert_eq!(
                join(base.as_bytes(), name.as_bytes()),
                expected.as_os_str().as_encoded_bytes().to_vec(),
                "{:?} {:?}",
                base,
                name
            );
        }
    }
}

#[test]
fn join_then_file_name_gives_the_name_back() {
    for base in [&b""[..], b"/", b"/movies", b"/movies/", b"a/b/c"] {
        for name in [&b"Alien (1979)"[..], b"x", b".x", b"a.", b"..."] {
            assert_eq!(file_name(&join(base, name)), Some(name.to_vec()));
        }
    }
}

#[test]
fn equal_compares_every_byte() {
    assert!(equal(b"", b""));
    assert!(equal(b"/movies", b"/movies"));
    assert!(!equal(b"/movies", b"/movie"));
    assert!(!equal(b"/movies", b"/moviez"));
    assert!(!equal(b"a", b""));
}
