use tagrs::collection::LinkChange;
use tagrs::hash::{path_hash, PathnameHash};
use tagrs::movies::Movie;
use tagrs::scan::{DirEntry, EntryKind, TagListing};
use tagrs::{Collection, Error};

const ALIEN: &str = "205649752358565b3218f0bc895c098ab389fb58";

fn directory(name: &str, has_poster: bool) -> DirEntry {
    DirEntry { file_name: name.as_bytes().to_vec(), kind: EntryKind::Directory, has_poster }
}

fn symlink(name: &str) -> DirEntry {
    DirEntry { file_name: name.as_bytes().to_vec(), kind: EntryKind::Symlink, has_poster: false }
}

fn file(name: &str) -> DirEntry {
    DirEntry { file_name: name.as_bytes().to_vec(), kind: EntryKind::Other, has_poster: false }
}

fn unreadable(name: &str, why: &str) -> DirEntry {
    DirEntry {
        file_name: name.as_bytes().to_vec(),
        kind: EntryKind::Unreadable(why.to_string()),
        has_poster: false,
    }
}

fn listing(name: &str, entries: Vec<DirEntry>) -> TagListing {
    TagListing { name: name.to_string(), entries }
}

fn names(items: &[&str]) -> Vec<String> {
    items.iter().map(|item| item.to_string()).collect()
}

fn alien_collection() -> Collection {
    let movie_entries = vec![directory("Alien (1979)", true)];
    let tag_entries = vec![directory("Horror", false), directory("SciFi", false)];
    let tag_listings =
        vec![listing("Horror", vec![]), listing("SciFi", vec![symlink("Alien (1979)")])];
    Collection::new(
        b"/media/movies".to_vec(),
        b"/media/tags".to_vec(),
        &movie_entries,
        &tag_entries,
        &tag_listings,
    )
    .unwrap()
}

fn alien_hash() -> PathnameHash {
    PathnameHash::from_str(ALIEN).unwrap()
}

fn members(collection: &Collection, tag: &str) -> Vec<PathnameHash> {
    collection.tags().get(tag).unwrap().to_vec()
}

#[test]
fn construction_scenario() {
    let collection = alien_collection();
    assert_eq!(collection.movies().len(), 1);
    let movies = collection.movies().values();
    assert_eq!(movies.len(), 1);
    assert_eq!(movies[0].hash, alien_hash());
    assert_eq!(movies[0].hash, path_hash(b"Alien (1979)").unwrap());
    assert_eq!(movies[0].id(), ALIEN);
    assert_eq!(movies[0].name, "Alien (1979)");
    assert_eq!(movies[0].path, b"/media/movies/Alien (1979)".to_vec());
    assert_eq!(movies[0].poster_path, Some(b"/media/movies/Alien (1979)/poster.jpg".to_vec()));
    assert_eq!(collection.tags().len(), 2);
    assert_eq!(collection.tags().names(), vec!["Horror".to_string(), "SciFi".to_string()]);
    assert_eq!(members(&collection, "Horror"), vec![]);
    assert_eq!(members(&collection, "SciFi"), vec![alien_hash()]);
    assert_eq!(collection.movie_dir(), b"/media/movies");
    assert_eq!(collection.tag_dir(), b"/media/tags");
}

#[test]
fn movie_lookup_by_identifier() {
    let collection = alien_collection();
    let movie = collection.movie(&alien_hash()).unwrap();
    assert_eq!(movie.name, "Alien (1979)");
    let other = path_hash(b"Aliens (1986)").unwrap();
    assert!(matches!(collection.movie(&other), Err(Error::NotFound)));
    assert!(collection.movies().get(&other).is_none());
}

#[test]
fn movie_without_poster_has_no_poster_path() {
    let entries = vec![directory("Alien (1979)", false)];
    let movies = Collection::load_movies(b"/m", &entries).unwrap();
    assert_eq!(movies.get(&alien_hash()).unwrap().poster_path, None);
}

#[test]
fn movie_scan_passes_over_what_is_no_directory() {
    let entries = vec![
        file("notes.txt"),
        directory("Alien (1979)", true),
        symlink("Aliens (1986)"),
        directory("Blade Runner (1982)", false),
    ];
    let movies = Collection::load_movies(b"/m", &entries).unwrap();
    assert_eq!(movies.len(), 2);
    assert!(movies.get(&path_hash(b"Alien (1979)").unwrap()).is_some());
    assert!(movies.get(&path_hash(b"Blade Runner (1982)").unwrap()).is_some());
    assert!(movies.get(&path_hash(b"Aliens (1986)").unwrap()).is_none());
    assert!(movies.get(&path_hash(b"notes.txt").unwrap()).is_none());
}

#[test]
fn movie_scan_keeps_the_later_of_two_directories_with_one_name() {
    let entries = vec![directory("Alien (1979)", false), directory("Alien (1979)", true)];
    let movies = Collection::load_movies(b"/m", &entries).unwrap();
    assert_eq!(movies.len(), 1);
    assert_eq!(
        movies.get(&alien_hash()).unwrap().poster_path,
        Some(b"/m/Alien (1979)/poster.jpg".to_vec())
    );
}

#[test]
fn movie_scan_shows_names_that_are_not_text_leniently() {
    let entries = vec![DirEntry {
        file_name: b"Caf\xe9".to_vec(),
        kind: EntryKind::Directory,
        has_poster: false,
    }];
    let movies = Collection::load_movies(b"/m", &entries).unwrap();
    let movie = movies.get(&path_hash(b"Caf\xe9").unwrap()).unwrap();
    assert_eq!(movie.name, "Caf\u{fffd}");
    assert_eq!(movie.path, b"/m/Caf\xe9".to_vec());
}

#[test]
fn movie_scan_fails_on_unreadable_metadata() {
    let entries =
        vec![directory("Alien (1979)", true), unreadable("Broken", "permission denied")];
    match Collection::load_movies(b"/m", &entries) {
        Err(Error::IO(text)) => assert_eq!(text, "permission denied"),
        other => panic!("{:?}", other.map(|movies| movies.len())),
    }
}

#[test]
fn movie_scan_fails_on_a_name_without_identifier() {
    let entries = vec![directory("Alien (1979)", true), directory("..", false)];
    assert!(matches!(Collection::load_movies(b"/m", &entries), Err(Error::InvalidInput(_))));
}

#[test]
fn movie_scan_reports_the_first_failure() {
    let entries = vec![directory("..", false), unreadable("Broken", "gone")];
    assert!(matches!(Collection::load_movies(b"/m", &entries), Err(Error::InvalidInput(_))));
    let entries = vec![unreadable("Broken", "gone"), directory("..", false)];
    assert!(matches!(Collection::load_movies(b"/m", &entries), Err(Error::IO(_))));
}

#[test]
fn construction_fails_as_a_whole() {
    let tag_entries = vec![directory("Horror", false)];
    let movie_entries = vec![unreadable("Broken", "gone")];
    let tag_listings = vec![listing("Horror", vec![])];
    let failed = Collection::new(
        b"/m".to_vec(),
        b"/t".to_vec(),
        &movie_entries,
        &tag_entries,
        &tag_listings,
    );
    assert!(matches!(failed, Err(Error::IO(_))));
    let movie_entries = vec![directory("Alien (1979)", true)];
    let tag_listings = vec![listing("Horror", vec![unreadable("x", "gone")])];
    let failed = Collection::new(
        b"/m".to_vec(),
        b"/t".to_vec(),
        &movie_entries,
        &tag_entries,
        &tag_listings,
    );
    assert!(matches!(failed, Err(Error::IO(_))));
    let tag_listings = vec![listing("Horror", vec![])];
    let broken_root = vec![directory("Horror", false), unreadable("SciFi", "gone")];
    let failed = Collection::new(
        b"/m".to_vec(),
        b"/t".to_vec(),
        &movie_entries,
        &broken_root,
        &tag_listings,
    );
    assert!(matches!(failed, Err(Error::IO(_))));
}

#[test]
fn construction_reports_the_movie_scan_first() {
    let movie_entries = vec![directory("..", false)];
    let tag_entries = vec![unreadable("Horror", "gone")];
    let tag_listings = vec![listing("Horror", vec![unreadable("x", "gone")])];
    let failed = Collection::new(
        b"/m".to_vec(),
        b"/t".to_vec(),
        &movie_entries,
        &tag_entries,
        &tag_listings,
    );
    assert!(matches!(failed, Err(Error::InvalidInput(_))));
}

#[test]
fn construction_reads_the_listings_of_tags_only() {
    let movie_entries = vec![directory("Alien (1979)", true)];
    let tag_entries = vec![directory("Horror", false), file("Loose"), directory("Empty", false)];
    let tag_listings = vec![
        listing("Loose", vec![symlink("Alien (1979)"), unreadable("x", "gone")]),
        listing("Horror", vec![symlink("Alien (1979)")]),
        listing("Western", vec![symlink("Alien (1979)")]),
    ];
    let collection = Collection::new(
        b"/m".to_vec(),
        b"/t".to_vec(),
        &movie_entries,
        &tag_entries,
        &tag_listings,
    )
    .unwrap();
    assert_eq!(collection.tags().names(), names(&["Horror", "Empty"]));
    assert_eq!(members(&collection, "Horror"), vec![alien_hash()]);
    assert_eq!(members(&collection, "Empty"), vec![]);
    assert!(!collection.tags().contains("Loose"));
    assert!(!collection.tags().contains("Western"));
}

#[test]
fn tag_directories_lists_directories_once() {
    let entries = vec![
        directory("Horror", false),
        file("README"),
        directory("SciFi", false),
        symlink("Loose"),
        directory("Horror", false),
    ];
    let names = Collection::tag_directories(b"/m", b"/t", &entries).unwrap();
    assert_eq!(names, vec!["Horror".to_string(), "SciFi".to_string()]);
}

#[test]
fn tag_directories_leaves_out_the_movie_root() {
    let entries =
        vec![directory("Horror", false), directory("movies", false), directory("SciFi", false)];
    let names = Collection::tag_directories(b"/media/movies", b"/media", &entries).unwrap();
    assert_eq!(names, vec!["Horror".to_string(), "SciFi".to_string()]);
    let names = Collection::tag_directories(b"/elsewhere/movies", b"/media", &entries).unwrap();
    assert_eq!(names, vec!["Horror".to_string(), "movies".to_string(), "SciFi".to_string()]);
}

#[test]
fn tag_names_leaves_out_every_ignored_path() {
    let entries =
        vec![directory("Horror", false), directory("movies", false), directory("SciFi", false)];
    let ignore = vec![b"/media/movies".to_vec(), b"/media/Horror".to_vec()];
    let names = Collection::tag_names(b"/media", &entries, &ignore).unwrap();
    assert_eq!(names, vec!["SciFi".to_string()]);
    let names = Collection::tag_names(b"/media", &entries, &Vec::new()).unwrap();
    assert_eq!(names.len(), 3);
}

#[test]
fn tag_names_must_be_text() {
    let entries = vec![DirEntry {
        file_name: b"Caf\xe9".to_vec(),
        kind: EntryKind::Directory,
        has_poster: false,
    }];
    assert!(matches!(
        Collection::tag_names(b"/t", &entries, &Vec::new()),
        Err(Error::InvalidInput(_))
    ));
    let ignore = vec![b"/t/Caf\xe9".to_vec()];
    assert_eq!(Collection::tag_names(b"/t", &entries, &ignore).unwrap(), Vec::<String>::new());
    let entries = vec![DirEntry {
        file_name: b"Caf\xe9".to_vec(),
        kind: EntryKind::Other,
        has_poster: false,
    }];
    assert_eq!(
        Collection::tag_names(b"/t", &entries, &Vec::new()).unwrap(),
        Vec::<String>::new()
    );
}

#[test]
fn tag_names_fail_on_unreadable_metadata() {
    let entries = vec![directory("Horror", false), unreadable("SciFi", "stale handle")];
    match Collection::tag_names(b"/t", &entries, &Vec::new()) {
        Err(Error::IO(text)) => assert_eq!(text, "stale handle"),
        other => panic!("{:?}", other),
    }
}

#[test]
fn tag_scan_counts_symbolic_links_only() {
    let listings = vec![listing(
        "SciFi",
        vec![
            symlink("Alien (1979)"),
            file("Aliens (1986)"),
            directory("Blade Runner (1982)", false),
            symlink("Alien (1979)"),
        ],
    )];
    let tags = Collection::load_tags(b"/t", &names(&["SciFi"]), &listings).unwrap();
    assert_eq!(tags.len(), 1);
    let members = tags.get("SciFi").unwrap();
    assert_eq!(members.to_vec(), vec![alien_hash()]);
    assert!(members.contains(&alien_hash()));
    assert!(!members.contains(&path_hash(b"Aliens (1986)").unwrap()));
    assert!(!members.contains(&path_hash(b"Blade Runner (1982)").unwrap()));
}

#[test]
fn tag_scan_lists_tags_without_members() {
    let listings = vec![listing("Horror", vec![]), listing("Empty", vec![file("note")])];
    let known = names(&["Horror", "Empty", "Unlisted"]);
    let tags = Collection::load_tags(b"/t", &known, &listings).unwrap();
    assert_eq!(tags.len(), 3);
    assert!(tags.contains("Horror"));
    assert!(tags.contains("Empty"));
    assert!(tags.contains("Unlisted"));
    assert!(!tags.contains("SciFi"));
    assert!(tags.get("SciFi").is_none());
    assert_eq!(tags.get("Horror").unwrap().to_vec(), vec![]);
    assert_eq!(tags.get("Empty").unwrap().to_vec(), vec![]);
    assert_eq!(tags.get("Unlisted").unwrap().to_vec(), vec![]);
}

#[test]
fn tag_scan_fails_on_unreadable_metadata() {
    let listings =
        vec![listing("Horror", vec![symlink("Alien (1979)"), unreadable("x", "gone")])];
    match Collection::load_tags(b"/t", &names(&["Horror"]), &listings) {
        Err(Error::IO(text)) => assert_eq!(text, "gone"),
        other => panic!("{:?}", other.map(|tags| tags.len())),
    }
    let tags = Collection::load_tags(b"/t", &names(&["SciFi"]), &listings).unwrap();
    assert_eq!(tags.names(), names(&["SciFi"]));
}

#[test]
fn tag_scan_fails_on_a_link_without_identifier() {
    let listings = vec![listing("Horror", vec![symlink("..")])];
    assert!(matches!(
        Collection::load_tags(b"/t", &names(&["Horror"]), &listings),
        Err(Error::InvalidInput(_))
    ));
}

#[test]
fn toggle_scenario() {
    let mut collection = alien_collection();
    let alien = collection.movie(&alien_hash()).unwrap().clone();

    let change = collection.plan_toggle("Horror", &alien).unwrap();
    assert_eq!(
        change,
        LinkChange::Create {
            target: b"/media/movies/Alien (1979)".to_vec(),
            link: b"/media/tags/Horror/Alien (1979)".to_vec(),
        }
    );
    collection.toggle_tag("Horror", &alien, Ok(())).unwrap();
    assert_eq!(members(&collection, "Horror"), vec![alien_hash()]);
    assert_eq!(members(&collection, "SciFi"), vec![alien_hash()]);

    let change = collection.plan_toggle("Horror", &alien).unwrap();
    assert_eq!(change, LinkChange::Remove { link: b"/media/tags/Horror/Alien (1979)".to_vec() });
    collection.toggle_tag("Horror", &alien, Ok(())).unwrap();
    assert_eq!(members(&collection, "Horror"), vec![]);
    assert_eq!(members(&collection, "SciFi"), vec![alien_hash()]);
    assert_eq!(collection.movies().len(), 1);
}

#[test]
fn double_toggle_restores_membership() {
    let mut collection = alien_collection();
    let alien = collection.movie(&alien_hash()).unwrap().clone();
    for tag in ["Horror", "SciFi"] {
        let before = members(&collection, tag);
        let first = collection.plan_toggle(tag, &alien).unwrap();
        collection.toggle_tag(tag, &alien, Ok(())).unwrap();
        assert_ne!(members(&collection, tag), before);
        let second = collection.plan_toggle(tag, &alien).unwrap();
        collection.toggle_tag(tag, &alien, Ok(())).unwrap();
        assert_eq!(members(&collection, tag), before);
        match (first, second) {
            (LinkChange::Create { link: made, .. }, LinkChange::Remove { link: removed }) => {
                assert_eq!(made, removed)
            }
            (LinkChange::Remove { link: removed }, LinkChange::Create { link: made, .. }) => {
                assert_eq!(made, removed)
            }
            other => panic!("{:?}", other),
        }
    }
}

#[test]
fn toggle_of_a_missing_tag_is_not_found() {
    let mut collection = alien_collection();
    let alien = collection.movie(&alien_hash()).unwrap().clone();
    assert!(matches!(collection.plan_toggle("Western", &alien), Err(Error::NotFound)));
    assert!(matches!(collection.toggle_tag("Western", &alien, Ok(())), Err(Error::NotFound)));
    assert!(matches!(
        collection.toggle_tag("Western", &alien, Err("gone".to_string())),
        Err(Error::NotFound)
    ));
    assert_eq!(collection.tags().len(), 2);
    assert!(!collection.tags().contains("Western"));
    assert_eq!(members(&collection, "Horror"), vec![]);
    assert_eq!(members(&collection, "SciFi"), vec![alien_hash()]);
}

#[test]
fn failed_link_change_leaves_the_collection_as_it_was() {
    let mut collection = alien_collection();
    let alien = collection.movie(&alien_hash()).unwrap().clone();
    match collection.toggle_tag("Horror", &alien, Err("file exists".to_string())) {
        Err(Error::IO(text)) => assert_eq!(text, "file exists"),
        other => panic!("{:?}", other),
    }
    assert_eq!(members(&collection, "Horror"), vec![]);
    match collection.toggle_tag("SciFi", &alien, Err("no such file".to_string())) {
        Err(Error::IO(text)) => assert_eq!(text, "no such file"),
        other => panic!("{:?}", other),
    }
    assert_eq!(members(&collection, "SciFi"), vec![alien_hash()]);
}

#[test]
fn toggle_goes_by_the_name_of_the_movie_directory() {
    let collection = alien_collection();
    let moved = Movie {
        name: "Alien".to_string(),
        path: b"/old/place/Alien (1979)/".to_vec(),
        hash: alien_hash(),
        poster_path: None,
    };
    assert_eq!(
        collection.plan_toggle("Horror", &moved).unwrap(),
        LinkChange::Create {
            target: b"/media/movies/Alien (1979)".to_vec(),
            link: b"/media/tags/Horror/Alien (1979)".to_vec(),
        }
    );
    assert_eq!(
        collection.plan_toggle("SciFi", &moved).unwrap(),
        LinkChange::Remove { link: b"/media/tags/SciFi/Alien (1979)".to_vec() }
    );
}

#[test]
fn reload_replaces_both_tables() {
    let mut collection = alien_collection();
    let movie_entries = vec![directory("Aliens (1986)", false), file("Alien (1979)")];
    let tag_entries = vec![directory("Action", false), directory("Horror", false)];
    let tag_listings = vec![
        listing("Action", vec![symlink("Aliens (1986)")]),
        listing("Horror", vec![symlink("Aliens (1986)"), symlink("Alien (1979)")]),
    ];
    collection.reload(&movie_entries, &tag_entries, &tag_listings).unwrap();
    let aliens = path_hash(b"Aliens (1986)").unwrap();
    assert_eq!(collection.movies().len(), 1);
    assert!(collection.movie(&aliens).is_ok());
    assert!(matches!(collection.movie(&alien_hash()), Err(Error::NotFound)));
    assert_eq!(collection.movie(&aliens).unwrap().path, b"/media/movies/Aliens (1986)".to_vec());
    assert_eq!(collection.tags().names(), vec!["Action".to_string(), "Horror".to_string()]);
    assert_eq!(members(&collection, "Action"), vec![aliens]);
    assert_eq!(members(&collection, "Horror"), vec![aliens, alien_hash()]);
    assert!(!collection.tags().contains("SciFi"));
    assert_eq!(collection.movie_dir(), b"/media/movies");
    assert_eq!(collection.tag_dir(), b"/media/tags");
}

#[test]
fn reload_forgets_toggles_that_the_listing_does_not_show() {
    let mut collection = alien_collection();
    let alien = collection.movie(&alien_hash()).unwrap().clone();
    collection.toggle_tag("Horror", &alien, Ok(())).unwrap();
    let movie_entries = vec![directory("Alien (1979)", true)];
    let tag_entries = vec![directory("Horror", false), directory("SciFi", false)];
    let tag_listings =
        vec![listing("Horror", vec![]), listing("SciFi", vec![symlink("Alien (1979)")])];
    collection.reload(&movie_entries, &tag_entries, &tag_listings).unwrap();
    assert_eq!(members(&collection, "Horror"), vec![]);
    assert_eq!(members(&collection, "SciFi"), vec![alien_hash()]);
}

#[test]
fn failed_reload_leaves_both_tables() {
    let mut collection = alien_collection();
    let movie_entries = vec![directory("Aliens (1986)", false)];
    let tag_entries = vec![directory("Action", false)];
    let tag_listings = vec![listing("Action", vec![unreadable("x", "gone")])];
    assert!(matches!(
        collection.reload(&movie_entries, &tag_entries, &tag_listings),
        Err(Error::IO(_))
    ));
    assert_eq!(collection.movies().len(), 1);
    assert!(collection.movie(&alien_hash()).is_ok());
    assert_eq!(collection.tags().names(), vec!["Horror".to_string(), "SciFi".to_string()]);
    assert_eq!(members(&collection, "SciFi"), vec![alien_hash()]);
    let movie_entries = vec![unreadable("x", "gone")];
    let tag_listings = vec![listing("Action", vec![])];
    assert!(matches!(
        collection.reload(&movie_entries, &tag_entries, &tag_listings),
        Err(Error::IO(_))
    ));
    assert_eq!(collection.movies().len(), 1);
    assert_eq!(collection.tags().len(), 2);
    assert!(collection.movie(&alien_hash()).is_ok());
}

#[test]
fn movie_root_under_the_tag_root_is_no_tag() {
    let tag_entries = vec![directory("Horror", false), directory("movies", false)];
    let listed = Collection::tag_directories(b"/media/movies", b"/media", &tag_entries).unwrap();
    assert_eq!(listed, names(&["Horror"]));
    let movie_entries = vec![directory("Alien (1979)", false)];
    let tag_listings = vec![
        listing("Horror", vec![symlink("Alien (1979)")]),
        listing("movies", vec![symlink("Alien (1979)")]),
    ];
    let collection = Collection::new(
        b"/media/movies".to_vec(),
        b"/media".to_vec(),
        &movie_entries,
        &tag_entries,
        &tag_listings,
    )
    .unwrap();
    assert_eq!(collection.tags().names(), names(&["Horror"]));
    assert!(!collection.tags().contains("movies"));
    assert_eq!(collection.movies().len(), 1);
}

#[test]
fn tag_root_under_the_movie_root_is_left_out_of_the_tags_only() {
    let movie_entries = vec![directory("Alien (1979)", false), directory("tags", false)];
    let tag_entries = vec![directory("Horror", false)];
    let tag_listings = vec![listing("Horror", vec![symlink("Alien (1979)")])];
    let collection = Collection::new(
        b"/media".to_vec(),
        b"/media/tags".to_vec(),
        &movie_entries,
        &tag_entries,
        &tag_listings,
    )
    .unwrap();
    assert_eq!(collection.tags().names(), names(&["Horror"]));
    assert_eq!(members(&collection, "Horror"), vec![alien_hash()]);
    assert!(collection.movie(&alien_hash()).is_ok());
    assert_eq!(collection.movies().len(), 2);
    assert!(collection.movie(&path_hash(b"/media/tags").unwrap()).is_ok());
}

#[test]
fn toggle_agrees_with_a_later_scan() {
    let mut collection = alien_collection();
    let alien = collection.movie(&alien_hash()).unwrap().clone();
    let movie_entries = vec![directory("Alien (1979)", true)];
    let tag_entries = vec![directory("Horror", false), directory("SciFi", false)];

    let change = collection.plan_toggle("Horror", &alien).unwrap();
    assert!(matches!(change, LinkChange::Create { .. }));
    collection.toggle_tag("Horror", &alien, Ok(())).unwrap();
    let after_creation = vec![
        listing("Horror", vec![symlink("Alien (1979)")]),
        listing("SciFi", vec![symlink("Alien (1979)")]),
    ];
    let scanned = Collection::new(
        b"/media/movies".to_vec(),
        b"/media/tags".to_vec(),
        &movie_entries,
        &tag_entries,
        &after_creation,
    )
    .unwrap();
    for tag in ["Horror", "SciFi"] {
        assert_eq!(members(&collection, tag), members(&scanned, tag));
    }

    let change = collection.plan_toggle("SciFi", &alien).unwrap();
    assert!(matches!(change, LinkChange::Remove { .. }));
    collection.toggle_tag("SciFi", &alien, Ok(())).unwrap();
    let after_removal =
        vec![listing("Horror", vec![symlink("Alien (1979)")]), listing("SciFi", vec![])];
    let scanned = Collection::new(
        b"/media/movies".to_vec(),
        b"/media/tags".to_vec(),
        &movie_entries,
        &tag_entries,
        &after_removal,
    )
    .unwrap();
    for tag in ["Horror", "SciFi"] {
        assert_eq!(members(&collection, tag), members(&scanned, tag));
    }
    assert_eq!(collection.tags().names(), scanned.tags().names());
}
