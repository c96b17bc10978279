use tagrs::hash::{path_hash, PathnameHash};
use tagrs::movies::{Movie, Movies};
use tagrs::tags::{Members, Tags};
use tagrs::Error;

fn hash(name: &str) -> PathnameHash {
    path_hash(name.as_bytes()).unwrap()
}

fn movie(name: &str, poster: bool) -> Movie {
    Movie {
        name: name.to_string(),
        path: format!("/m/{}", name).into_bytes(),
        hash: hash(name),
        poster_path: if poster { Some(format!("/m/{}/poster.jpg", name).into_bytes()) } else { None },
    }
}

#[test]
fn members_hold_each_identifier_once() {
    let mut members = Members::new();
    assert!(!members.contains(&hash("a")));
    members.insert(hash("a"));
    members.insert(hash("b"));
    members.insert(hash("a"));
    assert!(members.contains(&hash("a")));
    assert!(members.contains(&hash("b")));
    assert!(!members.contains(&hash("c")));
    assert_eq!(members.to_vec(), vec![hash("a"), hash("b")]);
    members.remove(&hash("a"));
    assert!(!members.contains(&hash("a")));
    assert_eq!(members.to_vec(), vec![hash("b")]);
    members.remove(&hash("a"));
    members.remove(&hash("c"));
    assert_eq!(members.to_vec(), vec![hash("b")]);
}

#[test]
fn tags_add_keeps_known_members() {
    let mut tags = Tags::new();
    assert_eq!(tags.len(), 0);
    tags.add("Horror");
    tags.link("Horror", hash("a"));
    tags.add("Horror");
    assert_eq!(tags.len(), 1);
    assert_eq!(tags.get("Horror").unwrap().to_vec(), vec![hash("a")]);
}

#[test]
fn tags_link_adds_the_tag_if_need_be() {
    let mut tags = Tags::new();
    tags.link("SciFi", hash("a"));
    tags.link("SciFi", hash("b"));
    tags.link("SciFi", hash("a"));
    tags.link("Horror", hash("a"));
    assert_eq!(tags.names(), vec!["SciFi".to_string(), "Horror".to_string()]);
    assert_eq!(tags.get("SciFi").unwrap().to_vec(), vec![hash("a"), hash("b")]);
    assert_eq!(tags.get("Horror").unwrap().to_vec(), vec![hash("a")]);
}

#[test]
fn tags_toggle_flips_one_member_of_one_tag() {
    let mut tags = Tags::new();
    tags.add("Horror");
    tags.link("SciFi", hash("a"));
    assert!(tags.toggle("Horror", &hash("a")).is_ok());
    assert!(tags.toggle("Horror", &hash("b")).is_ok());
    assert_eq!(tags.get("Horror").unwrap().to_vec(), vec![hash("a"), hash("b")]);
    assert_eq!(tags.get("SciFi").unwrap().to_vec(), vec![hash("a")]);
    assert!(tags.toggle("Horror", &hash("a")).is_ok());
    assert_eq!(tags.get("Horror").unwrap().to_vec(), vec![hash("b")]);
    assert_eq!(tags.get("SciFi").unwrap().to_vec(), vec![hash("a")]);
    assert!(matches!(tags.toggle("Western", &hash("a")), Err(Error::NotFound)));
    assert_eq!(tags.len(), 2);
}

#[test]
fn movies_insert_replaces_under_the_same_identifier() {
    let mut movies = Movies::new();
    assert_eq!(movies.len(), 0);
    movies.insert(movie("a", false));
    movies.insert(movie("b", false));
    movies.insert(movie("a", true));
    assert_eq!(movies.len(), 2);
    assert_eq!(movies.get(&hash("a")).unwrap().poster_path, Some(b"/m/a/poster.jpg".to_vec()));
    assert_eq!(movies.get(&hash("b")).unwrap().poster_path, None);
    assert!(movies.get(&hash("c")).is_none());
    let names: Vec<&str> = movies.values().iter().map(|movie| movie.name.as_str()).collect();
    assert_eq!(names, vec!["a", "b"]);
}

#[test]
fn tags_states_say_which_tags_a_movie_carries() {
    let mut tags = Tags::new();
    tags.add("Horror");
    tags.link("SciFi", hash("a"));
    tags.link("Action", hash("b"));
    assert_eq!(
        tags.states(&hash("a")),
        vec![("Horror".to_string(), false), ("SciFi".to_string(), true), ("Action".to_string(), false)]
    );
    assert_eq!(
        tags.states(&hash("c")),
        vec![("Horror".to_string(), false), ("SciFi".to_string(), false), ("Action".to_string(), false)]
    );
    assert_eq!(Tags::new().states(&hash("a")), vec![]);
}

#[test]
fn poster_path_lies_inside_the_movie_directory() {
    assert_eq!(tagrs::movies::poster_path(b"/m/Alien (1979)"), b"/m/Alien (1979)/poster.jpg".to_vec());
    assert_eq!(tagrs::movies::poster_path(b"/m/Alien (1979)/"), b"/m/Alien (1979)/poster.jpg".to_vec());
}

#[test]
fn movies_sorted_by_name_are_in_the_order_of_text() {
    let names = [
        "Zed", "Alien (1979)", "alien", "Aliens (1986)", "", "Alien", "\u{c9}t\u{e9}", "Z",
        "Blade Runner (1982)", "\u{1f600}", "Ab", "AB", "A",
    ];
    let mut movies = Movies::new();
    for (index, name) in names.iter().enumerate() {
        let mut item = movie(&format!("movie {}", index), false);
        item.name = name.to_string();
        movies.insert(item);
    }
    let sorted: Vec<&str> =
        movies.sorted_by_name().iter().map(|movie| movie.name.as_str()).collect();
    let mut expected: Vec<&str> = names.to_vec();
    expected.sort();
    assert_eq!(sorted, expected);
    assert_eq!(sorted[0], "");
    assert_eq!(sorted[1], "A");
    assert_eq!(sorted.len(), movies.len());
    assert_eq!(Movies::new().sorted_by_name().len(), 0);
}

#[test]
fn movies_sorted_by_name_keep_movies_of_one_name() {
    let mut movies = Movies::new();
    let mut first = movie("a", false);
    first.name = "Same".to_string();
    let mut second = movie("b", true);
    second.name = "Same".to_string();
    movies.insert(first);
    movies.insert(second);
    movies.insert(movie("Other", false));
    let sorted = movies.sorted_by_name();
    assert_eq!(sorted.len(), 3);
    assert_eq!(sorted[0].name, "Other");
    assert_eq!(sorted[1].name, "Same");
    assert_eq!(sorted[2].name, "Same");
    assert_ne!(sorted[1].hash, sorted[2].hash);
}
