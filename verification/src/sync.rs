//! Memory and filesystem in step.
//!
//! A collection is built from listings, and a toggle changes one link on
//! the filesystem and one member in memory. The laws of this module say
//! that the two changes agree: scanning the listings again, as they are
//! once the link has been created or removed, gives the very collection
//! that the toggle left in memory.

use crate::collection::{after_toggle, planned, scan_failure, scanned, tags_under, LinkChangeView};
use crate::hash::{path_hash_of, sha1};
use crate::movies::MovieView;
use crate::path::{
    file_name_of, is_entry_name, joined, lemma_file_name_is_entry_name, lemma_file_name_of_joined,
};
use crate::scan::{
    holds_link, is_link_to, lemma_no_failure, lemma_scanned_tags, link_failure, link_outcomes,
    links_failure, listing_outcomes, lists_link, scanned_tags, tag_path, tag_scan_failure,
    DirEntry, TagListing,
};
use vstd::prelude::*;

verus! {

/// Whether `entry` is a symbolic link called `name`.
pub open spec fn is_link_called(entry: DirEntry, name: Seq<u8>) -> bool {
    entry.kind is Symlink && entry.file_name@ == name
}

/// Whether the directory that held `before` holds `after` once a symbolic
/// link called `name` has been created in it: the old entries and the new
/// link, in whatever order.
pub open spec fn entry_created(before: Seq<DirEntry>, after: Seq<DirEntry>, name: Seq<u8>) -> bool {
    exists|entry: DirEntry| #[trigger]
        is_link_called(entry, name) && forall|e: DirEntry| #[trigger]
            after.contains(e) <==> before.contains(e) || e == entry
}

/// Whether the directory that held `before` holds `after` once the entry
/// called `name` has been removed from it: the old entries but for that
/// one, in whatever order.
pub open spec fn entry_removed(before: Seq<DirEntry>, after: Seq<DirEntry>, name: Seq<u8>) -> bool {
    forall|e: DirEntry| #[trigger] after.contains(e) <==> before.contains(e) && e.file_name@ != name
}

/// Whether only the link called `name` leads to the movie of that name:
/// no entry of another name has the same identifier.
pub open spec fn no_other_link(directory: Seq<u8>, entries: Seq<DirEntry>, name: Seq<u8>) -> bool {
    forall|e: DirEntry| #[trigger]
        entries.contains(e) && is_link_to(directory, e, sha1(name)) ==> e.file_name@ == name
}

/// Whether the listings `after` show the tag root as it is once a link
/// called `name` has been created in the directory of `tag`: every other
/// directory is as `before` shows it.
pub open spec fn link_created(
    before: Seq<TagListing>,
    after: Seq<TagListing>,
    tag: Seq<char>,
    name: Seq<u8>,
) -> bool {
    &&& after.len() == before.len()
    &&& forall|k: int|
        0 <= k < before.len() ==> (#[trigger] after[k]).name@ == before[k].name@ && if before[k].name@
            == tag {
            entry_created(before[k].entries@, after[k].entries@, name)
        } else {
            after[k].entries@ == before[k].entries@
        }
}

/// Whether the listings `after` show the tag root as it is once the link
/// called `name` has been removed from the directory of `tag`: every
/// other directory is as `before` shows it.
pub open spec fn link_removed(
    before: Seq<TagListing>,
    after: Seq<TagListing>,
    tag: Seq<char>,
    name: Seq<u8>,
) -> bool {
    &&& after.len() == before.len()
    &&& forall|k: int|
        0 <= k < before.len() ==> (#[trigger] after[k]).name@ == before[k].name@ && if before[k].name@
            == tag {
            entry_removed(before[k].entries@, after[k].entries@, name)
        } else {
            after[k].entries@ == before[k].entries@
        }
}

/// Whether the directory of `tag` is among the listings.
pub open spec fn is_listed(listings: Seq<TagListing>, tag: Seq<char>) -> bool {
    exists|k: int| 0 <= k < listings.len() && (#[trigger] listings[k]).name@ == tag
}

/// Whether, in every listing of the directory of `tag`, only the link
/// called `name` leads to the movie of that name.
pub open spec fn no_other_links(
    tag_dir: Seq<u8>,
    listings: Seq<TagListing>,
    tag: Seq<char>,
    name: Seq<u8>,
) -> bool {
    forall|k: int|
        0 <= k < listings.len() && (#[trigger] listings[k]).name@ == tag ==> no_other_link(
            tag_path(tag_dir, tag),
            listings[k].entries@,
            name,
        )
}

/// Reading a directory goes well exactly if reading each of its entries
/// does.
proof fn lemma_links_read(directory: Seq<u8>, entries: Seq<DirEntry>)
    ensures
        links_failure(directory, entries) is None <==> forall|e: DirEntry| #[trigger]
            entries.contains(e) ==> link_failure(directory, e) is None,
{
    let outcomes = link_outcomes(directory, entries);
    lemma_no_failure(outcomes);
    if links_failure(directory, entries) is None {
        assert forall|e: DirEntry| #[trigger] entries.contains(e) implies link_failure(
            directory,
            e,
        ) is None by {
            let i = choose|i: int| 0 <= i < entries.len() && entries[i] == e;
            assert(outcomes[i] is None);
        }
    }
    if forall|e: DirEntry| #[trigger] entries.contains(e) ==> link_failure(directory, e) is None {
        assert forall|i: int| 0 <= i < outcomes.len() implies (#[trigger] outcomes[i]) is None by {
            assert(entries.contains(entries[i]));
        }
    }
}

/// A directory holds a link to a movie exactly if one of its entries is
/// one.
proof fn lemma_holds_link(directory: Seq<u8>, entries: Seq<DirEntry>, hash: Seq<u8>)
    ensures
        holds_link(directory, entries, hash) <==> exists|e: DirEntry| #[trigger]
            entries.contains(e) && is_link_to(directory, e, hash),
{
    if holds_link(directory, entries, hash) {
        let j = choose|j: int|
            0 <= j < entries.len() && is_link_to(directory, #[trigger] entries[j], hash);
        assert(entries.contains(entries[j]));
    }
    if exists|e: DirEntry| #[trigger] entries.contains(e) && is_link_to(directory, e, hash) {
        let e = choose|e: DirEntry| #[trigger] entries.contains(e) && is_link_to(directory, e, hash);
        let j = choose|j: int| 0 <= j < entries.len() && entries[j] == e;
        assert(is_link_to(directory, entries[j], hash));
    }
}

/// A tag's directory after a link has been created in it: it can be read
/// if it could be before, and it links to the movies it linked to before
/// and to the movie of the new link's name.
pub proof fn lemma_directory_after_creation(
    directory: Seq<u8>,
    before: Seq<DirEntry>,
    after: Seq<DirEntry>,
    name: Seq<u8>,
    hash: Seq<u8>,
)
    requires
        links_failure(directory, before) is None,
        is_entry_name(name),
        entry_created(before, after, name),
    ensures
        links_failure(directory, after) is None,
        holds_link(directory, after, hash) <==> holds_link(directory, before, hash) || hash
            == sha1(name),
{
    let entry = choose|entry: DirEntry| #[trigger]
        is_link_called(entry, name) && forall|e: DirEntry| #[trigger]
            after.contains(e) <==> before.contains(e) || e == entry;
    lemma_file_name_of_joined(directory, name);
    assert(is_link_to(directory, entry, sha1(name)));
    lemma_links_read(directory, before);
    lemma_links_read(directory, after);
    lemma_holds_link(directory, before, hash);
    lemma_holds_link(directory, after, hash);
    assert(after.contains(entry));
    if holds_link(directory, before, hash) {
        let e = choose|e: DirEntry| #[trigger] before.contains(e) && is_link_to(directory, e, hash);
        assert(after.contains(e));
    }
}

/// A tag's directory after the link called `name` has been removed from
/// it: it can be read if it could be before, and it links to the movies it
/// linked to before but for the movie of that name, provided that no entry
/// of another name led to the same movie.
pub proof fn lemma_directory_after_removal(
    directory: Seq<u8>,
    before: Seq<DirEntry>,
    after: Seq<DirEntry>,
    name: Seq<u8>,
    hash: Seq<u8>,
)
    requires
        links_failure(directory, before) is None,
        is_entry_name(name),
        entry_removed(before, after, name),
        no_other_link(directory, before, name),
    ensures
        links_failure(directory, after) is None,
        holds_link(directory, after, hash) <==> holds_link(directory, before, hash) && hash
            != sha1(name),
{
    lemma_file_name_of_joined(directory, name);
    lemma_links_read(directory, before);
    lemma_links_read(directory, after);
    lemma_holds_link(directory, before, hash);
    lemma_holds_link(directory, after, hash);
    if holds_link(directory, after, hash) {
        let e = choose|e: DirEntry| #[trigger] after.contains(e) && is_link_to(directory, e, hash);
        assert(before.contains(e));
    }
    if holds_link(directory, before, hash) && hash != sha1(name) {
        let e = choose|e: DirEntry| #[trigger] before.contains(e) && is_link_to(directory, e, hash);
        assert(after.contains(e));
    }
}

/// The tag table of the listings once a link has been created: the movie
/// of the link's name has joined the tag, and nothing else has changed.
pub proof fn lemma_tags_after_creation(
    tag_dir: Seq<u8>,
    known: Set<Seq<char>>,
    before: Seq<TagListing>,
    after: Seq<TagListing>,
    tag: Seq<char>,
    name: Seq<u8>,
)
    requires
        tag_scan_failure(tag_dir, known, before) is None,
        known.contains(tag),
        is_listed(before, tag),
        is_entry_name(name),
        link_created(before, after, tag, name),
    ensures
        tag_scan_failure(tag_dir, known, after) is None,
        scanned_tags(tag_dir, known, after) == scanned_tags(tag_dir, known, before).insert(
            tag,
            scanned_tags(tag_dir, known, before)[tag].insert(sha1(name)),
        ),
{
    let directory = tag_path(tag_dir, tag);
    let old_outcomes = listing_outcomes(tag_dir, known, before);
    let new_outcomes = listing_outcomes(tag_dir, known, after);
    lemma_no_failure(old_outcomes);
    lemma_no_failure(new_outcomes);
    assert forall|k: int| 0 <= k < new_outcomes.len() implies (#[trigger] new_outcomes[k]) is None by {
        assert(old_outcomes[k] is None);
        assert(after[k].name@ == before[k].name@);
        if known.contains(before[k].name@) && before[k].name@ == tag {
            lemma_directory_after_creation(
                directory,
                before[k].entries@,
                after[k].entries@,
                name,
                sha1(name),
            );
        }
    }
    let old_tags = scanned_tags(tag_dir, known, before);
    let new_tags = scanned_tags(tag_dir, known, after);
    let wanted = old_tags.insert(tag, old_tags[tag].insert(sha1(name)));
    let listed = choose|k: int| 0 <= k < before.len() && (#[trigger] before[k]).name@ == tag;
    assert forall|t: Seq<char>| new_tags.contains_key(t) <==> wanted.contains_key(t) by {
        lemma_scanned_tags(tag_dir, known, before, t, sha1(name));
        lemma_scanned_tags(tag_dir, known, after, t, sha1(name));
    }
    assert forall|t: Seq<char>| new_tags.contains_key(t) implies #[trigger] new_tags[t]
        == wanted[t] by {
        assert forall|h: Seq<u8>| new_tags[t].contains(h) <==> wanted[t].contains(h) by {
            lemma_scanned_tags(tag_dir, known, before, t, h);
            lemma_scanned_tags(tag_dir, known, after, t, h);
            if exists|k: int|
                0 <= k < after.len() && lists_link(tag_dir, #[trigger] after[k], t, h) {
                let k = choose|k: int|
                    0 <= k < after.len() && lists_link(tag_dir, #[trigger] after[k], t, h);
                assert(after[k].name@ == before[k].name@);
                assert(old_outcomes[k] is None);
                if t == tag {
                    lemma_directory_after_creation(
                        directory,
                        before[k].entries@,
                        after[k].entries@,
                        name,
                        h,
                    );
                    if h != sha1(name) {
                        assert(lists_link(tag_dir, before[k], t, h));
                    }
                } else {
                    assert(lists_link(tag_dir, before[k], t, h));
                }
            }
            if exists|k: int|
                0 <= k < before.len() && lists_link(tag_dir, #[trigger] before[k], t, h) {
                let k = choose|k: int|
                    0 <= k < before.len() && lists_link(tag_dir, #[trigger] before[k], t, h);
                assert(after[k].name@ == before[k].name@);
                assert(old_outcomes[k] is None);
                if t == tag {
                    lemma_directory_after_creation(
                        directory,
                        before[k].entries@,
                        after[k].entries@,
                        name,
                        h,
                    );
                }
                assert(lists_link(tag_dir, after[k], t, h));
            }
            if t == tag && h == sha1(name) {
                assert(after[listed].name@ == before[listed].name@);
                assert(old_outcomes[listed] is None);
                lemma_directory_after_creation(
                    directory,
                    before[listed].entries@,
                    after[listed].entries@,
                    name,
                    h,
                );
                assert(lists_link(tag_dir, after[listed], t, h));
            }
        }
        assert(new_tags[t] =~= wanted[t]);
    }
    assert(new_tags =~= wanted);
}

/// The tag table of the listings once a link has been removed: the movie
/// of the link's name has left the tag, and nothing else has changed,
/// provided that no entry of another name led to the same movie.
pub proof fn lemma_tags_after_removal(
    tag_dir: Seq<u8>,
    known: Set<Seq<char>>,
    before: Seq<TagListing>,
    after: Seq<TagListing>,
    tag: Seq<char>,
    name: Seq<u8>,
)
    requires
        tag_scan_failure(tag_dir, known, before) is None,
        known.contains(tag),
        is_entry_name(name),
        link_removed(before, after, tag, name),
        no_other_links(tag_dir, before, tag, name),
    ensures
        tag_scan_failure(tag_dir, known, after) is None,
        scanned_tags(tag_dir, known, after) == scanned_tags(tag_dir, known, before).insert(
            tag,
            scanned_tags(tag_dir, known, before)[tag].remove(sha1(name)),
        ),
{
    let directory = tag_path(tag_dir, tag);
    let old_outcomes = listing_outcomes(tag_dir, known, before);
    let new_outcomes = listing_outcomes(tag_dir, known, after);
    lemma_no_failure(old_outcomes);
    lemma_no_failure(new_outcomes);
    assert forall|k: int| 0 <= k < new_outcomes.len() implies (#[trigger] new_outcomes[k]) is None by {
        assert(old_outcomes[k] is None);
        assert(after[k].name@ == before[k].name@);
        if known.contains(before[k].name@) && before[k].name@ == tag {
            lemma_directory_after_removal(
                directory,
                before[k].entries@,
                after[k].entries@,
                name,
                sha1(name),
            );
        }
    }
    let old_tags = scanned_tags(tag_dir, known, before);
    let new_tags = scanned_tags(tag_dir, known, after);
    let wanted = old_tags.insert(tag, old_tags[tag].remove(sha1(name)));
    assert forall|t: Seq<char>| new_tags.contains_key(t) <==> wanted.contains_key(t) by {
        lemma_scanned_tags(tag_dir, known, before, t, sha1(name));
        lemma_scanned_tags(tag_dir, known, after, t, sha1(name));
    }
    assert forall|t: Seq<char>| new_tags.contains_key(t) implies #[trigger] new_tags[t]
        == wanted[t] by {
        assert forall|h: Seq<u8>| new_tags[t].contains(h) <==> wanted[t].contains(h) by {
            lemma_scanned_tags(tag_dir, known, before, t, h);
            lemma_scanned_tags(tag_dir, known, after, t, h);
            if exists|k: int|
                0 <= k < after.len() && lists_link(tag_dir, #[trigger] after[k], t, h) {
                let k = choose|k: int|
                    0 <= k < after.len() && lists_link(tag_dir, #[trigger] after[k], t, h);
                assert(after[k].name@ == before[k].name@);
                assert(old_outcomes[k] is None);
                if t == tag {
                    lemma_directory_after_removal(
                        directory,
                        before[k].entries@,
                        after[k].entries@,
                        name,
                        h,
                    );
                }
                assert(lists_link(tag_dir, before[k], t, h));
            }
            if exists|k: int|
                0 <= k < before.len() && lists_link(tag_dir, #[trigger] before[k], t, h) {
                let k = choose|k: int|
                    0 <= k < before.len() && lists_link(tag_dir, #[trigger] before[k], t, h);
                assert(after[k].name@ == before[k].name@);
                assert(old_outcomes[k] is None);
                if t == tag {
                    lemma_directory_after_removal(
                        directory,
                        before[k].entries@,
                        after[k].entries@,
                        name,
                        h,
                    );
                    if h != sha1(name) {
                        assert(lists_link(tag_dir, after[k], t, h));
                    }
                } else {
                    assert(lists_link(tag_dir, after[k], t, h));
                }
            }
        }
        assert(new_tags[t] =~= wanted[t]);
    }
    assert(new_tags =~= wanted);
}

/// Whether the listings `after` show the tag root as it is once `change`
/// has been made to what `before` shows.
pub open spec fn carried_out(
    change: LinkChangeView,
    before: Seq<TagListing>,
    after: Seq<TagListing>,
    tag: Seq<char>,
    name: Seq<u8>,
) -> bool {
    match change {
        LinkChangeView::Create { .. } => link_created(before, after, tag, name),
        LinkChangeView::Remove { .. } => link_removed(before, after, tag, name),
    }
}

/// A toggle keeps the collection in step with the filesystem.
///
/// Take a collection that was scanned from listings, a tag of it whose
/// directory is listed, and a movie that bears the identifier of its
/// directory's name. Make the change that the toggle asks for. Then the
/// listings, as they are now, can still be scanned, and scanning them
/// gives the collection that the toggle leaves in memory.
///
/// Where a link is removed, no entry of another name in the tag's
/// directory may lead to the same movie: two names with one digest are
/// told apart on the filesystem but not in memory.
pub proof fn lemma_toggle_keeps_step(
    movie_dir: Seq<u8>,
    tag_dir: Seq<u8>,
    movie_entries: Seq<DirEntry>,
    tag_entries: Seq<DirEntry>,
    before: Seq<TagListing>,
    after: Seq<TagListing>,
    tag: Seq<char>,
    movie: MovieView,
)
    requires
        scan_failure(movie_dir, tag_dir, movie_entries, tag_entries, before) is None,
        scanned(movie_dir, tag_dir, movie_entries, tag_entries, before).tags.contains_key(tag),
        is_listed(before, tag),
        path_hash_of(movie.path) == Some(movie.hash),
        carried_out(
            planned(
                scanned(movie_dir, tag_dir, movie_entries, tag_entries, before),
                tag,
                movie,
            ).unwrap(),
            before,
            after,
            tag,
            file_name_of(movie.path).unwrap(),
        ),
        planned(
            scanned(movie_dir, tag_dir, movie_entries, tag_entries, before),
            tag,
            movie,
        ).unwrap() is Remove ==> no_other_links(
            tag_dir,
            before,
            tag,
            file_name_of(movie.path).unwrap(),
        ),
    ensures
        scan_failure(movie_dir, tag_dir, movie_entries, tag_entries, after) is None,
        scanned(movie_dir, tag_dir, movie_entries, tag_entries, after) == after_toggle(
            scanned(movie_dir, tag_dir, movie_entries, tag_entries, before),
            tag,
            movie.hash,
        ),
{
    let known = tags_under(movie_dir, tag_dir, tag_entries).to_set();
    let name = file_name_of(movie.path).unwrap();
    let collection = scanned(movie_dir, tag_dir, movie_entries, tag_entries, before);
    lemma_file_name_is_entry_name(movie.path);
    lemma_scanned_tags(tag_dir, known, before, tag, movie.hash);
    if collection.tags[tag].contains(movie.hash) {
        lemma_tags_after_removal(tag_dir, known, before, after, tag, name);
    } else {
        lemma_tags_after_creation(tag_dir, known, before, after, tag, name);
    }
}

} // verus!
