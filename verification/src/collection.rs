//! The collection: the movie table, the tag table and the two roots.

use crate::error::Error;
use crate::hash::{path_hash, PathnameHash};
use crate::movies::{poster_path, Movie, MovieView, Movies};
use crate::path::{equal, file_name, file_name_of, join, joined};
use crate::scan::{
    empty_tags, first_failure, is_movie, is_tag, is_tag_directory, lemma_failure_next,
    lemma_failure_stays, lemma_listed_tags, lemma_scanned_movies, lemma_scanned_tags,
    link_outcomes, listed_tags, listing_outcomes, lists_link, movie_outcomes,
    movie_scan_failure, scanned_movies, scanned_tags, tag_entry_outcomes, tag_list_failure,
    tag_path, tag_scan_failure, with_links, with_listings, DirEntry, EntryKind, Failure,
    TagListing,
};
use crate::tags::{flipped, toggled, Tags};
use crate::text;
use crate::text::texts_of;
use vstd::prelude::*;

verus! {

/// The paths that a list of byte vectors holds.
pub open spec fn paths_of(paths: Seq<Vec<u8>>) -> Seq<Seq<u8>> {
    paths.map_values(|path: Vec<u8>| path@)
}

/// A collection as plain values.
pub struct CollectionView {
    /// Every movie under its identifier.
    pub movies: Map<Seq<u8>, MovieView>,
    /// For every tag, the identifiers of the movies that carry it.
    pub tags: Map<Seq<char>, Set<Seq<u8>>>,
    /// The movie root.
    pub movie_dir: Seq<u8>,
    /// The tag root.
    pub tag_dir: Seq<u8>,
}

/// The movies and tags found under a movie root and a tag root.
#[derive(Debug)]
pub struct Collection {
    tags: Tags,
    movies: Movies,
    movie_dir: Vec<u8>,
    tag_dir: Vec<u8>,
}

impl View for Collection {
    type V = CollectionView;

    closed spec fn view(&self) -> CollectionView {
        CollectionView {
            movies: self.movies@,
            tags: self.tags@,
            movie_dir: self.movie_dir@,
            tag_dir: self.tag_dir@,
        }
    }
}

/// The names of the tags under the tag root: the directories in its
/// listing, but for the movie root in case it lies there.
pub open spec fn tags_under(movie_dir: Seq<u8>, tag_dir: Seq<u8>, tag_entries: Seq<DirEntry>) -> Seq<
    Seq<char>,
> {
    listed_tags(tag_dir, seq![movie_dir], tag_entries)
}

/// Why scanning both roots fails, if it does. The movie scan comes first,
/// then the tags are listed, then their directories are read.
pub open spec fn scan_failure(
    movie_dir: Seq<u8>,
    tag_dir: Seq<u8>,
    movie_entries: Seq<DirEntry>,
    tag_entries: Seq<DirEntry>,
    tag_listings: Seq<TagListing>,
) -> Option<Failure> {
    match movie_scan_failure(movie_dir, movie_entries) {
        Some(failure) => Some(failure),
        None => match tag_list_failure(tag_dir, seq![movie_dir], tag_entries) {
            Some(failure) => Some(failure),
            None => tag_scan_failure(
                tag_dir,
                tags_under(movie_dir, tag_dir, tag_entries).to_set(),
                tag_listings,
            ),
        },
    }
}

/// The collection that two roots and their listings stand for.
pub open spec fn scanned(
    movie_dir: Seq<u8>,
    tag_dir: Seq<u8>,
    movie_entries: Seq<DirEntry>,
    tag_entries: Seq<DirEntry>,
    tag_listings: Seq<TagListing>,
) -> CollectionView {
    CollectionView {
        movies: scanned_movies(movie_dir, movie_entries),
        tags: scanned_tags(
            tag_dir,
            tags_under(movie_dir, tag_dir, tag_entries).to_set(),
            tag_listings,
        ),
        movie_dir,
        tag_dir,
    }
}

/// The one change to the filesystem that toggling a tag asks for.
#[derive(Debug, Clone, PartialEq, Eq)]
pub enum LinkChange {
    /// Create a symbolic link at `link` that points to `target`.
    Create { target: Vec<u8>, link: Vec<u8> },
    /// Remove the symbolic link at `link`.
    Remove { link: Vec<u8> },
}

/// A change to the filesystem as plain values.
pub enum LinkChangeView {
    Create { target: Seq<u8>, link: Seq<u8> },
    Remove { link: Seq<u8> },
}

impl View for LinkChange {
    type V = LinkChangeView;

    open spec fn view(&self) -> LinkChangeView {
        match self {
            LinkChange::Create { target, link } => LinkChangeView::Create {
                target: target@,
                link: link@,
            },
            LinkChange::Remove { link } => LinkChangeView::Remove { link: link@ },
        }
    }
}

impl LinkChangeView {
    /// The path whose link is created or removed.
    pub open spec fn link(self) -> Seq<u8> {
        match self {
            LinkChangeView::Create { link, .. } => link,
            LinkChangeView::Remove { link } => link,
        }
    }

    /// Whether the change can be made where the paths in `links` are
    /// taken: a link is created only where nothing is, and removed only
    /// where it is.
    pub open spec fn possible(self, links: Set<Seq<u8>>) -> bool {
        match self {
            LinkChangeView::Create { link, .. } => !links.contains(link),
            LinkChangeView::Remove { link } => links.contains(link),
        }
    }

    /// The paths that are taken after the change has been made.
    pub open spec fn applied(self, links: Set<Seq<u8>>) -> Set<Seq<u8>> {
        match self {
            LinkChangeView::Create { link, .. } => links.insert(link),
            LinkChangeView::Remove { link } => links.remove(link),
        }
    }
}

/// The change to the filesystem that toggling `movie` in `tag` asks for,
/// and none where the collection does not hold the tag.
///
/// The link lies in the tag's directory under the name of the movie's
/// directory. It is removed if the movie carries the tag; otherwise it is
/// created, pointing to the entry of that name under the movie root.
pub open spec fn planned(collection: CollectionView, tag: Seq<char>, movie: MovieView) -> Option<
    LinkChangeView,
> {
    if collection.tags.contains_key(tag) {
        let name = file_name_of(movie.path).unwrap();
        let link = joined(tag_path(collection.tag_dir, tag), name);
        if collection.tags[tag].contains(movie.hash) {
            Some(LinkChangeView::Remove { link })
        } else {
            Some(LinkChangeView::Create { target: joined(collection.movie_dir, name), link })
        }
    } else {
        None
    }
}

/// The collection after `hash` has been toggled in `tag`: only that tag's
/// members change.
pub open spec fn after_toggle(collection: CollectionView, tag: Seq<char>, hash: Seq<u8>) -> CollectionView {
    CollectionView { tags: toggled(collection.tags, tag, hash), ..collection }
}

impl Collection {
    /// Builds the collection from the two roots and their listings: the
    /// movie table from the listing of the movie root, the tag table from
    /// the listing of the tag root and the listings of the tags'
    /// directories.
    ///
    /// Both roots are taken as they are given; they are meant to be
    /// absolute and free of symbolic links. The movie root is never read as
    /// a tag, wherever it lies. If a scan fails, no collection is returned.
    pub fn new(
        movie_dir: Vec<u8>,
        tag_dir: Vec<u8>,
        movie_entries: &Vec<DirEntry>,
        tag_entries: &Vec<DirEntry>,
        tag_listings: &Vec<TagListing>,
    ) -> (r: Result<Collection, Error>)
        ensures
            match scan_failure(movie_dir@, tag_dir@, movie_entries@, tag_entries@, tag_listings@) {
                Some(failure) => r matches Err(error) && failure.reported_by(error),
                None => r matches Ok(collection) && collection@ == scanned(
                    movie_dir@,
                    tag_dir@,
                    movie_entries@,
                    tag_entries@,
                    tag_listings@,
                ),
            },
    {
        match Collection::scan(
            movie_dir.as_slice(),
            tag_dir.as_slice(),
            movie_entries,
            tag_entries,
            tag_listings,
        ) {
            Ok((movies, tags)) => Ok(Collection { tags, movies, movie_dir, tag_dir }),
            Err(error) => Err(error),
        }
    }

    /// Builds both tables, or neither.
    fn scan(
        movie_dir: &[u8],
        tag_dir: &[u8],
        movie_entries: &Vec<DirEntry>,
        tag_entries: &Vec<DirEntry>,
        tag_listings: &Vec<TagListing>,
    ) -> (r: Result<(Movies, Tags), Error>)
        ensures
            match scan_failure(movie_dir@, tag_dir@, movie_entries@, tag_entries@, tag_listings@) {
                Some(failure) => r matches Err(error) && failure.reported_by(error),
                None => r matches Ok(tables) && tables.0@ == scanned_movies(
                    movie_dir@,
                    movie_entries@,
                ) && tables.1@ == scanned_tags(
                    tag_dir@,
                    tags_under(movie_dir@, tag_dir@, tag_entries@).to_set(),
                    tag_listings@,
                ),
            },
    {
        let movies = match Collection::load_movies(movie_dir, movie_entries) {
            Ok(movies) => movies,
            Err(error) => {
                return Err(error);
            },
        };
        let names = match Collection::tag_directories(movie_dir, tag_dir, tag_entries) {
            Ok(names) => names,
            Err(error) => {
                return Err(error);
            },
        };
        let tags = match Collection::load_tags(tag_dir, &names, tag_listings) {
            Ok(tags) => tags,
            Err(error) => {
                return Err(error);
            },
        };
        Ok((movies, tags))
    }

    /// Replaces both tables by what the listings hold now, whatever the
    /// tables held before. The roots stay.
    ///
    /// Both tables are built before either is replaced: if a scan fails,
    /// the collection stays as it was.
    pub fn reload(
        &mut self,
        movie_entries: &Vec<DirEntry>,
        tag_entries: &Vec<DirEntry>,
        tag_listings: &Vec<TagListing>,
    ) -> (r: Result<(), Error>)
        ensures
            match scan_failure(
                old(self)@.movie_dir,
                old(self)@.tag_dir,
                movie_entries@,
                tag_entries@,
                tag_listings@,
            ) {
                Some(failure) => r matches Err(error) && failure.reported_by(error) && final(self)@
                    == old(self)@,
                None => r is Ok && final(self)@ == scanned(
                    old(self)@.movie_dir,
                    old(self)@.tag_dir,
                    movie_entries@,
                    tag_entries@,
                    tag_listings@,
                ),
            },
    {
        match Collection::scan(
            self.movie_dir.as_slice(),
            self.tag_dir.as_slice(),
            movie_entries,
            tag_entries,
            tag_listings,
        ) {
            Ok((movies, tags)) => {
                self.movies = movies;
                self.tags = tags;
                Ok(())
            },
            Err(error) => Err(error),
        }
    }

    /// Lists the tags of the tag root from a listing of it, leaving out the
    /// movie root in case it lies directly under the tag root.
    pub fn tag_directories(movie_dir: &[u8], tag_dir: &[u8], entries: &Vec<DirEntry>) -> (r: Result<
        Vec<String>,
        Error,
    >)
        ensures
            match tag_list_failure(tag_dir@, seq![movie_dir@], entries@) {
                Some(failure) => r matches Err(error) && failure.reported_by(error),
                None => r matches Ok(names) && texts_of(names@) == tags_under(
                    movie_dir@,
                    tag_dir@,
                    entries@,
                ),
            },
    {
        let mut ignore: Vec<Vec<u8>> = Vec::new();
        ignore.push(vstd::slice::slice_to_vec(movie_dir));
        assert(paths_of(ignore@) =~= seq![movie_dir@]);
        Collection::tag_names(tag_dir, entries, &ignore)
    }

    /// The movie table.
    pub fn movies(&self) -> (movies: &Movies)
        ensures
            movies@ == self@.movies,
    {
        &self.movies
    }

    /// The tag table.
    pub fn tags(&self) -> (tags: &Tags)
        ensures
            tags@ == self@.tags,
    {
        &self.tags
    }

    /// The movie root.
    pub fn movie_dir(&self) -> (path: &[u8])
        ensures
            path@ == self@.movie_dir,
    {
        self.movie_dir.as_slice()
    }

    /// The tag root.
    pub fn tag_dir(&self) -> (path: &[u8])
        ensures
            path@ == self@.tag_dir,
    {
        self.tag_dir.as_slice()
    }

    /// The movie with the identifier `hash`; a movie that the collection
    /// does not hold is not found.
    pub fn movie(&self, hash: &PathnameHash) -> (r: Result<&Movie, Error>)
        ensures
            match r {
                Ok(movie) => self@.movies.contains_key(hash@) && movie@ == self@.movies[hash@],
                Err(error) => !self@.movies.contains_key(hash@) && error == Error::NotFound,
            },
    {
        match self.movies.get(hash) {
            Some(movie) => Ok(movie),
            None => Err(Error::NotFound),
        }
    }

    /// Says which link has to be created or removed to toggle `movie` in
    /// `tag`. Nothing changes yet, neither here nor on the filesystem.
    ///
    /// A tag that the collection does not hold is not found; tags come from
    /// the tag root only and are never made by toggling. The movie's path
    /// must have a final component.
    pub fn plan_toggle(&self, tag: &str, movie: &Movie) -> (r: Result<LinkChange, Error>)
        requires
            self@.tags.contains_key(tag@) ==> file_name_of(movie.path@) is Some,
        ensures
            match planned(self@, tag@, movie@) {
                Some(change) => r matches Ok(c) && c@ == change,
                None => r == Err::<LinkChange, Error>(Error::NotFound),
            },
    {
        let members = match self.tags.get(tag) {
            Some(members) => members,
            None => {
                return Err(Error::NotFound);
            },
        };
        let name = match file_name(movie.path.as_slice()) {
            Some(name) => name,
            None => {
                return Err(Error::InvalidInput("invalid file name".to_owned()));
            },
        };
        let directory = join(self.tag_dir.as_slice(), tag.as_bytes());
        let link = join(directory.as_slice(), name.as_slice());
        if members.contains(&movie.hash) {
            Ok(LinkChange::Remove { link })
        } else {
            let target = join(self.movie_dir.as_slice(), name.as_slice());
            Ok(LinkChange::Create { target, link })
        }
    }

    /// Records how making the planned change went, and toggles `movie` in
    /// `tag` if it went well.
    ///
    /// `outcome` is the result of creating or removing the link that
    /// [`Collection::plan_toggle`] named. If that failed, its text comes
    /// back as an I/O error and the collection stays as it was, so memory
    /// never runs ahead of the filesystem. A tag that the collection does
    /// not hold is not found. No other tag and no movie ever changes.
    pub fn toggle_tag(&mut self, tag: &str, movie: &Movie, outcome: Result<(), String>) -> (r:
        Result<(), Error>)
        ensures
            !old(self)@.tags.contains_key(tag@) ==> r == Err::<(), Error>(Error::NotFound)
                && final(self)@ == old(self)@,
            old(self)@.tags.contains_key(tag@) ==> match outcome {
                Ok(_) => r is Ok && final(self)@ == after_toggle(old(self)@, tag@, movie.hash@),
                Err(text) => r == Err::<(), Error>(Error::IO(text)) && final(self)@ == old(self)@,
            },
    {
        if !self.tags.contains(tag) {
            return Err(Error::NotFound);
        }
        match outcome {
            Ok(_) => self.tags.toggle(tag, &movie.hash),
            Err(text) => Err(Error::IO(text)),
        }
    }

    /// Builds the movie table from a listing of the movie root.
    ///
    /// Every directory becomes a movie; other entries are passed over. The
    /// scan stops at the first entry that is unreadable or whose path
    /// yields no identifier, and then no table is returned.
    pub fn load_movies(movie_dir: &[u8], entries: &Vec<DirEntry>) -> (r: Result<Movies, Error>)
        ensures
            match movie_scan_failure(movie_dir@, entries@) {
                Some(failure) => r matches Err(error) && failure.reported_by(error),
                None => r matches Ok(movies) && movies@ == scanned_movies(movie_dir@, entries@),
            },
    {
        let ghost outcomes = movie_outcomes(movie_dir@, entries@);
        let mut movies = Movies::new();
        let mut i: usize = 0;
        assert(entries@.take(0) =~= Seq::<DirEntry>::empty());
        assert(outcomes.take(0) =~= Seq::<Option<Failure>>::empty());
        while i < entries.len()
            invariant
                i <= entries@.len(),
                outcomes == movie_outcomes(movie_dir@, entries@),
                first_failure(outcomes.take(i as int)) is None,
                movies@ == scanned_movies(movie_dir@, entries@.take(i as int)),
            decreases entries@.len() - i,
        {
            let entry = &entries[i];
            proof {
                lemma_failure_next(outcomes, i as int);
                assert(entries@.take(i + 1).drop_last() =~= entries@.take(i as int));
                assert(entries@.take(i + 1).last() == entries@[i as int]);
            }
            match &entry.kind {
                EntryKind::Unreadable(text) => {
                    proof {
                        lemma_failure_stays(outcomes, i + 1);
                    }
                    return Err(Error::IO(text.clone()));
                },
                EntryKind::Directory => {
                    let path = join(movie_dir, entry.file_name.as_slice());
                    match path_hash(path.as_slice()) {
                        Ok(hash) => {
                            let poster_path = if entry.has_poster {
                                Some(poster_path(path.as_slice()))
                            } else {
                                None
                            };
                            let name = text::lossy(entry.file_name.as_slice());
                            movies.insert(Movie { name, path, hash, poster_path });
                        },
                        Err(error) => {
                            proof {
                                lemma_failure_stays(outcomes, i + 1);
                            }
                            return Err(error);
                        },
                    }
                },
                _ => {},
            }
            i += 1;
        }
        assert(entries@.take(i as int) =~= entries@);
        assert(outcomes.take(i as int) =~= outcomes);
        Ok(movies)
    }

    /// Lists the tags of the tag root: the directories in a listing of it
    /// whose paths are not among `ignore`, each once.
    ///
    /// The listing stops at the first entry that is unreadable, or that is a
    /// tag's directory with a name that is not text, and then no names are
    /// returned.
    pub fn tag_names(tag_dir: &[u8], entries: &Vec<DirEntry>, ignore: &Vec<Vec<u8>>) -> (r: Result<
        Vec<String>,
        Error,
    >)
        ensures
            match tag_list_failure(tag_dir@, paths_of(ignore@), entries@) {
                Some(failure) => r matches Err(error) && failure.reported_by(error),
                None => r matches Ok(names) && texts_of(names@) == listed_tags(
                    tag_dir@,
                    paths_of(ignore@),
                    entries@,
                ),
            },
    {
        let ghost ignored = paths_of(ignore@);
        let ghost outcomes = tag_entry_outcomes(tag_dir@, ignored, entries@);
        let mut names: Vec<String> = Vec::new();
        let mut i: usize = 0;
        assert(entries@.take(0) =~= Seq::<DirEntry>::empty());
        assert(outcomes.take(0) =~= Seq::<Option<Failure>>::empty());
        assert(texts_of(names@) =~= Seq::<Seq<char>>::empty());
        while i < entries.len()
            invariant
                i <= entries@.len(),
                ignored == paths_of(ignore@),
                outcomes == tag_entry_outcomes(tag_dir@, ignored, entries@),
                first_failure(outcomes.take(i as int)) is None,
                texts_of(names@) == listed_tags(tag_dir@, ignored, entries@.take(i as int)),
            decreases entries@.len() - i,
        {
            let entry = &entries[i];
            proof {
                lemma_failure_next(outcomes, i as int);
                assert(entries@.take(i + 1).drop_last() =~= entries@.take(i as int));
                assert(entries@.take(i + 1).last() == entries@[i as int]);
            }
            match &entry.kind {
                EntryKind::Unreadable(text) => {
                    proof {
                        lemma_failure_stays(outcomes, i + 1);
                    }
                    return Err(Error::IO(text.clone()));
                },
                EntryKind::Directory => {
                    let path = join(tag_dir, entry.file_name.as_slice());
                    if !holds_path(ignore, path.as_slice()) {
                        match text::strict(entry.file_name.as_slice()) {
                            Some(name) => {
                                proof {
                                    vstd::utf8::encode_utf8_decode_utf8(name@);
                                }
                                if !holds_text(&names, &name) {
                                    let ghost before = names@;
                                    names.push(name);
                                    assert(texts_of(names@) =~= texts_of(before).push(name@));
                                }
                            },
                            None => {
                                proof {
                                    lemma_failure_stays(outcomes, i + 1);
                                }
                                return Err(
                                    Error::InvalidInput("invalid tag directory name".to_owned()),
                                );
                            },
                        }
                    }
                },
                _ => {},
            }
            i += 1;
        }
        assert(entries@.take(i as int) =~= entries@);
        assert(outcomes.take(i as int) =~= outcomes);
        Ok(names)
    }

    /// Builds the tag table from the names of the tags and the listings of
    /// their directories.
    ///
    /// Every name becomes a tag, also one without a listing or without a
    /// link, and every symbolic link in a tag's listing makes the movie of
    /// the link's name a member. Other entries are passed over, and so are
    /// listings of other names. The scan stops at the first entry of a
    /// tag's listing that is unreadable, or that is a link whose path
    /// yields no identifier, and then no table is returned.
    pub fn load_tags(tag_dir: &[u8], names: &Vec<String>, listings: &Vec<TagListing>) -> (r: Result<
        Tags,
        Error,
    >)
        ensures
            match tag_scan_failure(tag_dir@, texts_of(names@).to_set(), listings@) {
                Some(failure) => r matches Err(error) && failure.reported_by(error),
                None => r matches Ok(tags) && tags@ == scanned_tags(
                    tag_dir@,
                    texts_of(names@).to_set(),
                    listings@,
                ),
            },
    {
        let ghost known = texts_of(names@).to_set();
        let mut tags = Tags::new();
        let mut n: usize = 0;
        while n < names.len()
            invariant
                n <= names@.len(),
                tags@ == empty_tags(texts_of(names@).take(n as int).to_set()),
            decreases names@.len() - n,
        {
            tags.add(names[n].as_str());
            proof {
                let texts = texts_of(names@);
                let shorter = texts.take(n as int);
                let longer = texts.take(n + 1);
                assert(longer[n as int] == names@[n as int]@);
                assert forall|name: Seq<char>| longer.contains(name) <==> shorter.contains(name)
                    || name == names@[n as int]@ by {
                    if longer.contains(name) {
                        let k = choose|k: int| 0 <= k < longer.len() && longer[k] == name;
                        if k < n {
                            assert(shorter[k] == name);
                        }
                    }
                    if shorter.contains(name) {
                        let k = choose|k: int| 0 <= k < shorter.len() && shorter[k] == name;
                        assert(longer[k] == name);
                    }
                }
                assert(tags@ =~= empty_tags(longer.to_set()));
            }
            n += 1;
        }
        assert(texts_of(names@).take(n as int) =~= texts_of(names@));
        let ghost outcomes = listing_outcomes(tag_dir@, known, listings@);
        let mut k: usize = 0;
        assert(listings@.take(0) =~= Seq::<TagListing>::empty());
        assert(outcomes.take(0) =~= Seq::<Option<Failure>>::empty());
        while k < listings.len()
            invariant
                k <= listings@.len(),
                known == texts_of(names@).to_set(),
                outcomes == listing_outcomes(tag_dir@, known, listings@),
                first_failure(outcomes.take(k as int)) is None,
                tags@.dom() == known,
                tags@ == with_listings(empty_tags(known), tag_dir@, listings@.take(k as int)),
            decreases listings@.len() - k,
        {
            let listing = &listings[k];
            let name = listing.name.as_str();
            proof {
                lemma_failure_next(outcomes, k as int);
                assert(listings@.take(k + 1).drop_last() =~= listings@.take(k as int));
                assert(listings@.take(k + 1).last() == listings@[k as int]);
            }
            if tags.contains(name) {
                let directory = join(tag_dir, name.as_bytes());
                let ghost steps = link_outcomes(directory@, listing.entries@);
                let ghost start = tags@;
                proof {
                    assert(listing.entries@.take(0) =~= Seq::<DirEntry>::empty());
                    assert(steps.take(0) =~= Seq::<Option<Failure>>::empty());
                }
                let mut j: usize = 0;
                while j < listing.entries.len()
                    invariant
                        j <= listing.entries@.len(),
                        k < listings@.len(),
                        known == texts_of(names@).to_set(),
                        outcomes == listing_outcomes(tag_dir@, known, listings@),
                        name@ == listing.name@,
                        directory@ == tag_path(tag_dir@, listing.name@),
                        steps == link_outcomes(directory@, listing.entries@),
                        first_failure(steps.take(j as int)) is None,
                        first_failure(outcomes.take(k + 1)) == first_failure(steps),
                        start.contains_key(listing.name@),
                        tags@.dom() == start.dom(),
                        tags@ == with_links(
                            start,
                            listing.name@,
                            directory@,
                            listing.entries@.take(j as int),
                        ),
                    decreases listing.entries@.len() - j,
                {
                    let entry = &listing.entries[j];
                    proof {
                        lemma_failure_next(steps, j as int);
                        assert(listing.entries@.take(j + 1).drop_last()
                            =~= listing.entries@.take(j as int));
                        assert(listing.entries@.take(j + 1).last() == listing.entries@[j as int]);
                    }
                    match &entry.kind {
                        EntryKind::Unreadable(text) => {
                            proof {
                                lemma_failure_stays(steps, j + 1);
                                lemma_failure_stays(outcomes, k + 1);
                            }
                            return Err(Error::IO(text.clone()));
                        },
                        EntryKind::Symlink => {
                            let path = join(directory.as_slice(), entry.file_name.as_slice());
                            match path_hash(path.as_slice()) {
                                Ok(hash) => {
                                    tags.link(name, hash);
                                    assert(tags@.dom() =~= start.dom());
                                },
                                Err(error) => {
                                    proof {
                                        lemma_failure_stays(steps, j + 1);
                                        lemma_failure_stays(outcomes, k + 1);
                                    }
                                    return Err(error);
                                },
                            }
                        },
                        _ => {},
                    }
                    j += 1;
                }
                proof {
                    assert(listing.entries@.take(j as int) =~= listing.entries@);
                    assert(steps.take(j as int) =~= steps);
                }
            }
            k += 1;
        }
        assert(listings@.take(k as int) =~= listings@);
        assert(outcomes.take(k as int) =~= outcomes);
        Ok(tags)
    }
}

/// A collection that has just been built or reloaded mirrors the listings,
/// whatever it held before.
///
/// It holds a movie exactly if the movie root lists a directory with the
/// movie's identifier; it holds a tag exactly if the tag root lists a
/// directory of that name which is not the movie root; and a movie carries
/// a tag exactly if the tag's directory lists a link to it.
pub proof fn lemma_scanned_mirrors_listings(
    movie_dir: Seq<u8>,
    tag_dir: Seq<u8>,
    movie_entries: Seq<DirEntry>,
    tag_entries: Seq<DirEntry>,
    tag_listings: Seq<TagListing>,
    tag: Seq<char>,
    hash: Seq<u8>,
)
    requires
        scan_failure(movie_dir, tag_dir, movie_entries, tag_entries, tag_listings) is None,
    ensures
        ({
            let collection = scanned(movie_dir, tag_dir, movie_entries, tag_entries, tag_listings);
            let is_listed = exists|i: int|
                0 <= i < tag_entries.len() && is_tag(
                    tag_dir,
                    seq![movie_dir],
                    #[trigger] tag_entries[i],
                    tag,
                );
            let is_linked = exists|k: int|
                0 <= k < tag_listings.len() && lists_link(
                    tag_dir,
                    #[trigger] tag_listings[k],
                    tag,
                    hash,
                );
            &&& collection.movies.contains_key(hash) <==> exists|i: int|
                0 <= i < movie_entries.len() && is_movie(movie_dir, #[trigger] movie_entries[i], hash)
            &&& collection.tags.contains_key(tag) <==> is_listed
            &&& collection.tags.contains_key(tag) && collection.tags[tag].contains(hash)
                <==> is_listed && is_linked
        }),
{
    lemma_scanned_movies(movie_dir, movie_entries, hash);
    lemma_listed_tags(tag_dir, seq![movie_dir], tag_entries, tag);
    lemma_scanned_tags(
        tag_dir,
        tags_under(movie_dir, tag_dir, tag_entries).to_set(),
        tag_listings,
        tag,
        hash,
    );
}

/// The movie root is never a tag: an entry of the tag root whose path is
/// the movie root is no tag's directory.
pub proof fn lemma_movie_root_is_no_tag(movie_dir: Seq<u8>, tag_dir: Seq<u8>, entry: DirEntry)
    requires
        joined(tag_dir, entry.file_name@) == movie_dir,
    ensures
        !is_tag_directory(tag_dir, seq![movie_dir], entry),
{
    assert(seq![movie_dir][0] == movie_dir);
}

/// Toggling a movie in a tag twice leads back to where it began.
///
/// The second toggle asks for the opposite change to the same link, that
/// change can be made once the first has been, the two together leave the
/// links on the filesystem as they were, and the collection is the same
/// again.
pub proof fn lemma_double_toggle(
    collection: CollectionView,
    tag: Seq<char>,
    movie: MovieView,
    links: Set<Seq<u8>>,
)
    requires
        collection.tags.contains_key(tag),
        planned(collection, tag, movie).unwrap().possible(links),
    ensures
        ({
            let first = planned(collection, tag, movie).unwrap();
            let between = after_toggle(collection, tag, movie.hash);
            let second = planned(between, tag, movie).unwrap();
            &&& planned(between, tag, movie) is Some
            &&& second.link() == first.link()
            &&& (first is Create <==> second is Remove)
            &&& second.possible(first.applied(links))
            &&& second.applied(first.applied(links)) == links
            &&& after_toggle(between, tag, movie.hash) == collection
        }),
{
    let first = planned(collection, tag, movie).unwrap();
    let between = after_toggle(collection, tag, movie.hash);
    let second = planned(between, tag, movie).unwrap();
    let members = collection.tags[tag];
    assert(flipped(flipped(members, movie.hash), movie.hash) =~= members);
    assert(after_toggle(between, tag, movie.hash).tags =~= collection.tags);
    assert(second.applied(first.applied(links)) =~= links);
}

/// Toggling touches one tag only: every other tag keeps its members, and
/// the movie table and the roots stay.
pub proof fn lemma_toggle_is_local(collection: CollectionView, tag: Seq<char>, hash: Seq<u8>)
    requires
        collection.tags.contains_key(tag),
    ensures
        ({
            let after = after_toggle(collection, tag, hash);
            &&& after.movies == collection.movies
            &&& after.movie_dir == collection.movie_dir
            &&& after.tag_dir == collection.tag_dir
            &&& after.tags.dom() == collection.tags.dom()
            &&& forall|other: Seq<char>|
                other != tag && collection.tags.contains_key(other) ==> after.tags[other]
                    == collection.tags[other]
            &&& after.tags[tag].contains(hash) == !collection.tags[tag].contains(hash)
            &&& forall|other: Seq<u8>|
                other != hash ==> after.tags[tag].contains(other) == collection.tags[tag].contains(
                    other,
                )
        }),
{
    let after = after_toggle(collection, tag, hash);
    assert(after.tags.dom() =~= collection.tags.dom());
}

/// Whether `path` is among `paths`.
fn holds_path(paths: &Vec<Vec<u8>>, path: &[u8]) -> (found: bool)
    ensures
        found == paths_of(paths@).contains(path@),
{
    let mut i: usize = 0;
    while i < paths.len()
        invariant
            i <= paths@.len(),
            forall|k: int| 0 <= k < i ==> paths_of(paths@)[k] != path@,
        decreases paths@.len() - i,
    {
        if equal(paths[i].as_slice(), path) {
            assert(paths_of(paths@)[i as int] == path@);
            return true;
        }
        i += 1;
    }
    false
}

/// Whether `name` is among `names`.
fn holds_text(names: &Vec<String>, name: &String) -> (found: bool)
    ensures
        found == texts_of(names@).contains(name@),
{
    let mut i: usize = 0;
    while i < names.len()
        invariant
            i <= names@.len(),
            forall|k: int| 0 <= k < i ==> texts_of(names@)[k] != name@,
        decreases names@.len() - i,
    {
        if names[i] == *name {
            assert(texts_of(names@)[i as int] == name@);
            return true;
        }
        i += 1;
    }
    false
}

} // verus!
