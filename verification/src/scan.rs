//! Directory listings, and what the two scans make of them.
//!
//! The crate does not read directories. Its callers do, and hand over what
//! they found as plain listings: one [`DirEntry`] per entry of the movie
//! root and of the tag root, and one [`TagListing`] per tag directory. This
//! module defines which table each scan builds from a listing and on which
//! entry a scan fails, and proves that the tables mirror the listings.

use crate::error::Error;
use crate::hash::{no_file_name, path_hash_of};
use crate::movies::{poster_name, MovieView};
use crate::path::joined;
use crate::tags::linked;
use crate::text::lossy_text;
use vstd::prelude::*;
use vstd::utf8::{decode_utf8, encode_utf8, valid_utf8};

verus! {

/// What a directory entry is.
#[derive(Debug, Clone)]
pub enum EntryKind {
    /// A directory.
    Directory,
    /// A symbolic link, to whatever it points.
    Symlink,
    /// Anything else, such as a regular file.
    Other,
    /// The entry's metadata could not be read; the text says why.
    Unreadable(String),
}

/// One entry of a directory listing.
#[derive(Debug, Clone)]
pub struct DirEntry {
    /// The entry's name inside the listed directory.
    pub file_name: Vec<u8>,
    /// What the entry is.
    pub kind: EntryKind,
    /// Whether the entry holds a `poster.jpg`. Only the movie scan reads
    /// this, and only for directories.
    pub has_poster: bool,
}

/// The listing of one tag's directory.
#[derive(Debug, Clone)]
pub struct TagListing {
    /// The tag's name, which is the name of its directory.
    pub name: String,
    /// The entries of the directory.
    pub entries: Vec<DirEntry>,
}

/// Why a scan stops.
pub enum Failure {
    /// An entry's metadata could not be read; the text is the entry's.
    IO(Seq<char>),
    /// A name does not yield an identifier, or a tag's name is not text;
    /// the text says which.
    InvalidInput(Seq<char>),
}

impl Failure {
    /// Whether `error` reports this failure.
    pub open spec fn reported_by(self, error: Error) -> bool {
        match self {
            Failure::IO(text) => error matches Error::IO(t) && t@ == text,
            Failure::InvalidInput(text) => error matches Error::InvalidInput(t) && t@ == text,
        }
    }
}

/// The first failure among the outcomes of a scan's steps, taken in order.
pub open spec fn first_failure(outcomes: Seq<Option<Failure>>) -> Option<Failure>
    decreases outcomes.len(),
{
    if outcomes.len() == 0 {
        None
    } else {
        match first_failure(outcomes.drop_last()) {
            Some(failure) => Some(failure),
            None => outcomes.last(),
        }
    }
}

/// Why the movie scan stops at `entry`, if it does: the entry is unreadable,
/// or it is a directory whose path yields no identifier.
pub open spec fn movie_entry_failure(movie_dir: Seq<u8>, entry: DirEntry) -> Option<Failure> {
    match entry.kind {
        EntryKind::Unreadable(text) => Some(Failure::IO(text@)),
        EntryKind::Directory => if path_hash_of(joined(movie_dir, entry.file_name@)) is None {
            Some(Failure::InvalidInput(no_file_name()))
        } else {
            None
        },
        _ => None,
    }
}

/// For each entry of a listing of the movie root, why the movie scan stops
/// there, if it does.
pub open spec fn movie_outcomes(movie_dir: Seq<u8>, entries: Seq<DirEntry>) -> Seq<
    Option<Failure>,
> {
    entries.map_values(|entry: DirEntry| movie_entry_failure(movie_dir, entry))
}

/// Why the movie scan of a listing fails, if it does.
pub open spec fn movie_scan_failure(movie_dir: Seq<u8>, entries: Seq<DirEntry>) -> Option<
    Failure,
> {
    first_failure(movie_outcomes(movie_dir, entries))
}

/// The movie that a directory of the movie root stands for.
pub open spec fn movie_of(movie_dir: Seq<u8>, entry: DirEntry) -> MovieView {
    let path = joined(movie_dir, entry.file_name@);
    MovieView {
        name: lossy_text(entry.file_name@),
        path,
        hash: path_hash_of(path).unwrap(),
        poster_path: if entry.has_poster {
            Some(joined(path, poster_name()))
        } else {
            None
        },
    }
}

/// The movie table of a listing: every directory is a movie under its
/// identifier; where two directories share an identifier the later one
/// stays. Entries that are no directories are passed over.
pub open spec fn scanned_movies(movie_dir: Seq<u8>, entries: Seq<DirEntry>) -> Map<
    Seq<u8>,
    MovieView,
>
    decreases entries.len(),
{
    if entries.len() == 0 {
        Map::empty()
    } else {
        let earlier = scanned_movies(movie_dir, entries.drop_last());
        let entry = entries.last();
        if entry.kind is Directory {
            let movie = movie_of(movie_dir, entry);
            earlier.insert(movie.hash, movie)
        } else {
            earlier
        }
    }
}

/// What is said of a tag's directory whose name is not text.
pub open spec fn no_tag_name() -> Seq<char> {
    "invalid tag directory name"@
}

/// Whether an entry of the tag root is a tag's directory: it is a directory
/// and its path is not among the ignored ones.
pub open spec fn is_tag_directory(tag_dir: Seq<u8>, ignore: Seq<Seq<u8>>, entry: DirEntry) -> bool {
    entry.kind is Directory && !ignore.contains(joined(tag_dir, entry.file_name@))
}

/// Why listing the tags stops at `entry`, if it does: the entry is
/// unreadable, or it is a tag's directory whose name is not text.
pub open spec fn tag_entry_failure(
    tag_dir: Seq<u8>,
    ignore: Seq<Seq<u8>>,
    entry: DirEntry,
) -> Option<Failure> {
    match entry.kind {
        EntryKind::Unreadable(text) => Some(Failure::IO(text@)),
        _ => if is_tag_directory(tag_dir, ignore, entry) && !valid_utf8(entry.file_name@) {
            Some(Failure::InvalidInput(no_tag_name()))
        } else {
            None
        },
    }
}

/// For each entry of a listing of the tag root, why listing the tags stops
/// there, if it does.
pub open spec fn tag_entry_outcomes(
    tag_dir: Seq<u8>,
    ignore: Seq<Seq<u8>>,
    entries: Seq<DirEntry>,
) -> Seq<Option<Failure>> {
    entries.map_values(|entry: DirEntry| tag_entry_failure(tag_dir, ignore, entry))
}

/// Why listing the tags of the tag root fails, if it does.
pub open spec fn tag_list_failure(
    tag_dir: Seq<u8>,
    ignore: Seq<Seq<u8>>,
    entries: Seq<DirEntry>,
) -> Option<Failure> {
    first_failure(tag_entry_outcomes(tag_dir, ignore, entries))
}

/// The names of the tags in a listing of the tag root: the names of the
/// tags' directories, each once, in the order of their first entries.
pub open spec fn listed_tags(
    tag_dir: Seq<u8>,
    ignore: Seq<Seq<u8>>,
    entries: Seq<DirEntry>,
) -> Seq<Seq<char>>
    decreases entries.len(),
{
    if entries.len() == 0 {
        Seq::empty()
    } else {
        let earlier = listed_tags(tag_dir, ignore, entries.drop_last());
        let entry = entries.last();
        let name = decode_utf8(entry.file_name@);
        if is_tag_directory(tag_dir, ignore, entry) && !earlier.contains(name) {
            earlier.push(name)
        } else {
            earlier
        }
    }
}

/// Why reading the entry of a tag's directory fails, if it does: the entry
/// is unreadable, or it is a link whose path yields no identifier.
pub open spec fn link_failure(directory: Seq<u8>, entry: DirEntry) -> Option<Failure> {
    match entry.kind {
        EntryKind::Unreadable(text) => Some(Failure::IO(text@)),
        EntryKind::Symlink => if path_hash_of(joined(directory, entry.file_name@)) is None {
            Some(Failure::InvalidInput(no_file_name()))
        } else {
            None
        },
        _ => None,
    }
}

/// For each entry of a tag's directory, why reading it fails, if it does.
pub open spec fn link_outcomes(directory: Seq<u8>, entries: Seq<DirEntry>) -> Seq<Option<Failure>> {
    entries.map_values(|entry: DirEntry| link_failure(directory, entry))
}

/// Why reading the entries of a tag's directory fails, if it does.
pub open spec fn links_failure(directory: Seq<u8>, entries: Seq<DirEntry>) -> Option<Failure> {
    first_failure(link_outcomes(directory, entries))
}

/// The path of a tag's directory.
pub open spec fn tag_path(tag_dir: Seq<u8>, name: Seq<char>) -> Seq<u8> {
    joined(tag_dir, encode_utf8(name))
}

/// Why reading `listing` fails, if it does. A listing that belongs to none
/// of the `known` tags is not read at all.
pub open spec fn listing_failure(
    tag_dir: Seq<u8>,
    known: Set<Seq<char>>,
    listing: TagListing,
) -> Option<Failure> {
    if known.contains(listing.name@) {
        links_failure(tag_path(tag_dir, listing.name@), listing.entries@)
    } else {
        None
    }
}

/// For each listing, why reading it fails, if it does.
pub open spec fn listing_outcomes(
    tag_dir: Seq<u8>,
    known: Set<Seq<char>>,
    listings: Seq<TagListing>,
) -> Seq<Option<Failure>> {
    listings.map_values(|listing: TagListing| listing_failure(tag_dir, known, listing))
}

/// Why the tag scan fails, if it does: the first failure in the first
/// listing that has one.
pub open spec fn tag_scan_failure(
    tag_dir: Seq<u8>,
    known: Set<Seq<char>>,
    listings: Seq<TagListing>,
) -> Option<Failure> {
    first_failure(listing_outcomes(tag_dir, known, listings))
}

/// The tag table that holds the `known` tags, none of them with a member.
pub open spec fn empty_tags(known: Set<Seq<char>>) -> Map<Seq<char>, Set<Seq<u8>>> {
    Map::new(|name: Seq<char>| known.contains(name), |name: Seq<char>| Set::<Seq<u8>>::empty())
}

/// The tag table after the entries of one tag's directory have been read:
/// every symbolic link makes the movie of its name a member of the tag.
/// Entries that are no symbolic links are passed over.
pub open spec fn with_links(
    tags: Map<Seq<char>, Set<Seq<u8>>>,
    tag: Seq<char>,
    directory: Seq<u8>,
    entries: Seq<DirEntry>,
) -> Map<Seq<char>, Set<Seq<u8>>>
    decreases entries.len(),
{
    if entries.len() == 0 {
        tags
    } else {
        let earlier = with_links(tags, tag, directory, entries.drop_last());
        let entry = entries.last();
        if entry.kind is Symlink {
            linked(earlier, tag, path_hash_of(joined(directory, entry.file_name@)).unwrap())
        } else {
            earlier
        }
    }
}

/// The tag table after the listings have been read: the links in the
/// listing of a tag that the table holds are members of that tag. A listing
/// of any other name is passed over.
pub open spec fn with_listings(
    tags: Map<Seq<char>, Set<Seq<u8>>>,
    tag_dir: Seq<u8>,
    listings: Seq<TagListing>,
) -> Map<Seq<char>, Set<Seq<u8>>>
    decreases listings.len(),
{
    if listings.len() == 0 {
        tags
    } else {
        let earlier = with_listings(tags, tag_dir, listings.drop_last());
        let listing = listings.last();
        if earlier.contains_key(listing.name@) {
            with_links(
                earlier,
                listing.name@,
                tag_path(tag_dir, listing.name@),
                listing.entries@,
            )
        } else {
            earlier
        }
    }
}

/// The tag table of the `known` tags and the listings of their
/// directories: every known tag is in it, also one without a single link,
/// and the links in a tag's listing are the tag's members.
pub open spec fn scanned_tags(
    tag_dir: Seq<u8>,
    known: Set<Seq<char>>,
    listings: Seq<TagListing>,
) -> Map<Seq<char>, Set<Seq<u8>>> {
    with_listings(empty_tags(known), tag_dir, listings)
}

/// A failure among the first steps of a scan is the failure of the scan.
pub proof fn lemma_failure_stays(outcomes: Seq<Option<Failure>>, n: int)
    requires
        0 <= n <= outcomes.len(),
        first_failure(outcomes.take(n)) is Some,
    ensures
        first_failure(outcomes) == first_failure(outcomes.take(n)),
    decreases outcomes.len() - n,
{
    if n == outcomes.len() {
        assert(outcomes.take(n) =~= outcomes);
    } else {
        assert(outcomes.take(n + 1).drop_last() =~= outcomes.take(n));
        lemma_failure_stays(outcomes, n + 1);
    }
}

/// A scan whose steps so far went well fails at the next step exactly if
/// that step fails.
pub proof fn lemma_failure_next(outcomes: Seq<Option<Failure>>, n: int)
    requires
        0 <= n < outcomes.len(),
        first_failure(outcomes.take(n)) is None,
    ensures
        first_failure(outcomes.take(n + 1)) == outcomes[n],
{
    assert(outcomes.take(n + 1).drop_last() =~= outcomes.take(n));
}

/// A scan goes well exactly if every one of its steps does.
pub proof fn lemma_no_failure(outcomes: Seq<Option<Failure>>)
    ensures
        first_failure(outcomes) is None <==> forall|i: int|
            0 <= i < outcomes.len() ==> (#[trigger] outcomes[i]) is None,
    decreases outcomes.len(),
{
    if outcomes.len() > 0 {
        let earlier = outcomes.drop_last();
        lemma_no_failure(earlier);
        if first_failure(outcomes) is None {
            assert forall|i: int| 0 <= i < outcomes.len() implies (#[trigger] outcomes[i]) is None by {
                if i < earlier.len() {
                    assert(earlier[i] is None);
                }
            }
        }
        if forall|i: int| 0 <= i < outcomes.len() ==> (#[trigger] outcomes[i]) is None {
            assert forall|i: int| 0 <= i < earlier.len() implies (#[trigger] earlier[i]) is None by {
                assert(outcomes[i] is None);
            }
            assert(outcomes.last() == outcomes[outcomes.len() - 1]);
        }
    }
}

/// Whether `entry` is a directory of the movie root whose movie has the
/// identifier `hash`.
pub open spec fn is_movie(movie_dir: Seq<u8>, entry: DirEntry, hash: Seq<u8>) -> bool {
    entry.kind is Directory && path_hash_of(joined(movie_dir, entry.file_name@)) == Some(hash)
}

/// The movie table mirrors the listing of the movie root: it holds an
/// identifier exactly if some directory of the listing has it, and under
/// it the movie of the last such directory; every movie lies under its own
/// identifier, which is the one that its path yields.
pub proof fn lemma_scanned_movies(movie_dir: Seq<u8>, entries: Seq<DirEntry>, hash: Seq<u8>)
    requires
        movie_scan_failure(movie_dir, entries) is None,
    ensures
        scanned_movies(movie_dir, entries).contains_key(hash) <==> exists|i: int|
            0 <= i < entries.len() && is_movie(movie_dir, #[trigger] entries[i], hash),
        scanned_movies(movie_dir, entries).contains_key(hash) ==> scanned_movies(
            movie_dir,
            entries,
        )[hash].hash == hash && path_hash_of(scanned_movies(movie_dir, entries)[hash].path)
            == Some(hash),
        forall|i: int|
            0 <= i < entries.len() && is_movie(movie_dir, #[trigger] entries[i], hash) && (forall|
                j: int,
            |
                i < j < entries.len() ==> !is_movie(movie_dir, #[trigger] entries[j], hash))
                ==> scanned_movies(movie_dir, entries)[hash] == movie_of(movie_dir, entries[i]),
    decreases entries.len(),
{
    if entries.len() > 0 {
        let earlier = entries.drop_last();
        let last = entries.last();
        let outcomes = movie_outcomes(movie_dir, entries);
        assert(movie_outcomes(movie_dir, earlier) =~= outcomes.drop_last());
        lemma_no_failure(outcomes);
        assert(outcomes[entries.len() - 1] is None);
        assert(entries[entries.len() - 1] == last);
        lemma_scanned_movies(movie_dir, earlier, hash);
        if scanned_movies(movie_dir, entries).contains_key(hash) {
            if is_movie(movie_dir, last, hash) {
                assert(is_movie(movie_dir, entries[entries.len() - 1], hash));
            } else {
                let i = choose|i: int|
                    0 <= i < earlier.len() && is_movie(movie_dir, #[trigger] earlier[i], hash);
                assert(is_movie(movie_dir, entries[i], hash));
            }
        }
        if exists|i: int| 0 <= i < entries.len() && is_movie(movie_dir, #[trigger] entries[i], hash) {
            let i = choose|i: int|
                0 <= i < entries.len() && is_movie(movie_dir, #[trigger] entries[i], hash);
            if i < earlier.len() {
                assert(is_movie(movie_dir, earlier[i], hash));
            }
        }
        assert forall|i: int|
            0 <= i < entries.len() && is_movie(movie_dir, #[trigger] entries[i], hash) && (forall|
                j: int,
            |
                i < j < entries.len() ==> !is_movie(
                    movie_dir,
                    #[trigger] entries[j],
                    hash,
                )) implies scanned_movies(movie_dir, entries)[hash] == movie_of(
            movie_dir,
            entries[i],
        ) by {
            if i < earlier.len() {
                assert(!is_movie(movie_dir, entries[entries.len() - 1], hash));
                assert(is_movie(movie_dir, earlier[i], hash));
                assert forall|j: int| i < j < earlier.len() implies !is_movie(
                    movie_dir,
                    #[trigger] earlier[j],
                    hash,
                ) by {
                    assert(!is_movie(movie_dir, entries[j], hash));
                }
            }
        }
    }
}

/// Whether `entry` is the directory of the tag `name`.
pub open spec fn is_tag(
    tag_dir: Seq<u8>,
    ignore: Seq<Seq<u8>>,
    entry: DirEntry,
    name: Seq<char>,
) -> bool {
    is_tag_directory(tag_dir, ignore, entry) && decode_utf8(entry.file_name@) == name
}

/// The names of the tags mirror the listing of the tag root: a name is
/// listed exactly if some directory that is not ignored bears it, and no
/// name is listed twice. A directory whose path is ignored, such as the
/// movie root, is never a tag.
pub proof fn lemma_listed_tags(
    tag_dir: Seq<u8>,
    ignore: Seq<Seq<u8>>,
    entries: Seq<DirEntry>,
    name: Seq<char>,
)
    ensures
        listed_tags(tag_dir, ignore, entries).contains(name) <==> exists|i: int|
            0 <= i < entries.len() && is_tag(tag_dir, ignore, #[trigger] entries[i], name),
        listed_tags(tag_dir, ignore, entries).no_duplicates(),
    decreases entries.len(),
{
    if entries.len() > 0 {
        let earlier = entries.drop_last();
        let last = entries.last();
        lemma_listed_tags(tag_dir, ignore, earlier, name);
        let before = listed_tags(tag_dir, ignore, earlier);
        let after = listed_tags(tag_dir, ignore, entries);
        let added_name = decode_utf8(last.file_name@);
        let grows = is_tag_directory(tag_dir, ignore, last) && !before.contains(added_name);
        if grows {
            assert(after == before.push(added_name));
            assert(after[before.len() as int] == added_name);
        }
        if after.contains(name) {
            let k = choose|k: int| 0 <= k < after.len() && after[k] == name;
            if k < before.len() {
                assert(before[k] == name);
                let i = choose|i: int|
                    0 <= i < earlier.len() && is_tag(tag_dir, ignore, #[trigger] earlier[i], name);
                assert(is_tag(tag_dir, ignore, entries[i], name));
            } else {
                assert(is_tag(tag_dir, ignore, entries[entries.len() - 1], name));
            }
        }
        if exists|i: int|
            0 <= i < entries.len() && is_tag(tag_dir, ignore, #[trigger] entries[i], name) {
            let i = choose|i: int|
                0 <= i < entries.len() && is_tag(tag_dir, ignore, #[trigger] entries[i], name);
            if i < earlier.len() {
                assert(is_tag(tag_dir, ignore, earlier[i], name));
                let k = choose|k: int| 0 <= k < before.len() && before[k] == name;
                assert(after[k] == name);
            } else if !grows {
                let k = choose|k: int| 0 <= k < before.len() && before[k] == name;
                assert(after[k] == name);
            }
        }
        assert forall|a: int, b: int| 0 <= a < after.len() && 0 <= b < after.len() && a
            != b implies after[a] != after[b] by {
            if a < before.len() && b < before.len() {
                assert(before[a] != before[b]);
            } else if a < before.len() {
                assert(before[a] == after[a]);
            } else {
                assert(before[b] == after[b]);
            }
        }
    }
}

/// Whether `entry` is a link in a tag's directory to the movie `hash`.
pub open spec fn is_link_to(directory: Seq<u8>, entry: DirEntry, hash: Seq<u8>) -> bool {
    entry.kind is Symlink && path_hash_of(joined(directory, entry.file_name@)) == Some(hash)
}

/// Whether a tag's directory holds a link to the movie `hash`.
pub open spec fn holds_link(directory: Seq<u8>, entries: Seq<DirEntry>, hash: Seq<u8>) -> bool {
    exists|j: int| 0 <= j < entries.len() && is_link_to(directory, #[trigger] entries[j], hash)
}

/// Whether `listing` is the directory of `tag` and holds a link to the
/// movie `hash`.
pub open spec fn lists_link(
    tag_dir: Seq<u8>,
    listing: TagListing,
    tag: Seq<char>,
    hash: Seq<u8>,
) -> bool {
    listing.name@ == tag && holds_link(tag_path(tag_dir, tag), listing.entries@, hash)
}

/// Reading one tag's directory changes that tag only: the movies that the
/// directory links to join it.
pub proof fn lemma_with_links(
    tags: Map<Seq<char>, Set<Seq<u8>>>,
    tag: Seq<char>,
    directory: Seq<u8>,
    entries: Seq<DirEntry>,
)
    requires
        links_failure(directory, entries) is None,
        tags.contains_key(tag),
    ensures
        with_links(tags, tag, directory, entries).dom() == tags.dom(),
        forall|other: Seq<char>|
            other != tag ==> #[trigger] with_links(tags, tag, directory, entries)[other]
                == tags[other],
        forall|hash: Seq<u8>| #[trigger]
            with_links(tags, tag, directory, entries)[tag].contains(hash) <==> tags[tag].contains(
                hash,
            ) || holds_link(directory, entries, hash),
    decreases entries.len(),
{
    if entries.len() == 0 {
        assert(with_links(tags, tag, directory, entries).dom() =~= tags.dom());
    } else {
        let earlier = entries.drop_last();
        let last = entries.last();
        let outcomes = link_outcomes(directory, entries);
        assert(link_outcomes(directory, earlier) =~= outcomes.drop_last());
        lemma_no_failure(outcomes);
        assert(outcomes[entries.len() - 1] is None);
        assert(entries[entries.len() - 1] == last);
        lemma_with_links(tags, tag, directory, earlier);
        let before = with_links(tags, tag, directory, earlier);
        let after = with_links(tags, tag, directory, entries);
        assert(before.dom() =~= tags.dom());
        assert(before.contains_key(tag));
        assert(after.dom() =~= tags.dom());
        assert forall|hash: Seq<u8>| #[trigger]
            after[tag].contains(hash) <==> tags[tag].contains(hash) || holds_link(
                directory,
                entries,
                hash,
            ) by {
            if holds_link(directory, earlier, hash) {
                let j = choose|j: int|
                    0 <= j < earlier.len() && is_link_to(directory, #[trigger] earlier[j], hash);
                assert(is_link_to(directory, entries[j], hash));
            }
            if holds_link(directory, entries, hash) {
                let j = choose|j: int|
                    0 <= j < entries.len() && is_link_to(directory, #[trigger] entries[j], hash);
                if j < earlier.len() {
                    assert(is_link_to(directory, earlier[j], hash));
                }
            }
            if is_link_to(directory, last, hash) {
                assert(is_link_to(directory, entries[entries.len() - 1], hash));
            }
        }
    }
}

/// Reading listings adds and removes no tag, and makes a movie a member
/// of a tag exactly if it was one or a listing of the tag links to it.
pub proof fn lemma_with_listings(
    tags: Map<Seq<char>, Set<Seq<u8>>>,
    tag_dir: Seq<u8>,
    listings: Seq<TagListing>,
    tag: Seq<char>,
    hash: Seq<u8>,
)
    requires
        tag_scan_failure(tag_dir, tags.dom(), listings) is None,
    ensures
        with_listings(tags, tag_dir, listings).dom() == tags.dom(),
        tags.contains_key(tag) ==> (with_listings(tags, tag_dir, listings)[tag].contains(hash)
            <==> tags[tag].contains(hash) || exists|k: int|
            0 <= k < listings.len() && lists_link(tag_dir, #[trigger] listings[k], tag, hash)),
    decreases listings.len(),
{
    if listings.len() > 0 {
        let earlier = listings.drop_last();
        let last = listings.last();
        let outcomes = listing_outcomes(tag_dir, tags.dom(), listings);
        assert(listing_outcomes(tag_dir, tags.dom(), earlier) =~= outcomes.drop_last());
        lemma_no_failure(outcomes);
        assert(outcomes[listings.len() - 1] is None);
        assert(listings[listings.len() - 1] == last);
        lemma_with_listings(tags, tag_dir, earlier, tag, hash);
        let before = with_listings(tags, tag_dir, earlier);
        let after = with_listings(tags, tag_dir, listings);
        if before.contains_key(last.name@) {
            lemma_with_links(before, last.name@, tag_path(tag_dir, last.name@), last.entries@);
        }
        assert(after.dom() =~= tags.dom());
        if tags.contains_key(tag) {
            if exists|k: int|
                0 <= k < earlier.len() && lists_link(tag_dir, #[trigger] earlier[k], tag, hash) {
                let k = choose|k: int|
                    0 <= k < earlier.len() && lists_link(tag_dir, #[trigger] earlier[k], tag, hash);
                assert(lists_link(tag_dir, listings[k], tag, hash));
            }
            if exists|k: int|
                0 <= k < listings.len() && lists_link(tag_dir, #[trigger] listings[k], tag, hash) {
                let k = choose|k: int|
                    0 <= k < listings.len() && lists_link(
                        tag_dir,
                        #[trigger] listings[k],
                        tag,
                        hash,
                    );
                if k < earlier.len() {
                    assert(lists_link(tag_dir, earlier[k], tag, hash));
                }
            }
            if lists_link(tag_dir, last, tag, hash) {
                assert(lists_link(tag_dir, listings[listings.len() - 1], tag, hash));
            }
            if tag != last.name@ {
                assert(after[tag] == before[tag]);
            } else {
                assert(after[tag].contains(hash) <==> before[tag].contains(hash) || holds_link(
                    tag_path(tag_dir, tag),
                    last.entries@,
                    hash,
                ));
            }
        }
    }
}

/// The tag table mirrors the tag root: it holds exactly the known tags,
/// and a movie carries a tag exactly if a listing of the tag's directory
/// holds a link to it.
pub proof fn lemma_scanned_tags(
    tag_dir: Seq<u8>,
    known: Set<Seq<char>>,
    listings: Seq<TagListing>,
    tag: Seq<char>,
    hash: Seq<u8>,
)
    requires
        tag_scan_failure(tag_dir, known, listings) is None,
    ensures
        scanned_tags(tag_dir, known, listings).contains_key(tag) <==> known.contains(tag),
        scanned_tags(tag_dir, known, listings).contains_key(tag) && scanned_tags(
            tag_dir,
            known,
            listings,
        )[tag].contains(hash) <==> known.contains(tag) && exists|k: int|
            0 <= k < listings.len() && lists_link(tag_dir, #[trigger] listings[k], tag, hash),
{
    assert(empty_tags(known).dom() =~= known);
    lemma_with_listings(empty_tags(known), tag_dir, listings, tag, hash);
}

} // verus!
