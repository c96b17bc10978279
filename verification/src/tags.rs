//! The tag table: for every tag, the set of movies that carry it.

use crate::error::Error;
use crate::hash::PathnameHash;
use vstd::prelude::*;

verus! {

/// Whether `hash` is among the views of `hashes`.
pub open spec fn occurs(hashes: Seq<PathnameHash>, hash: Seq<u8>) -> bool {
    exists|i: int| 0 <= i < hashes.len() && (#[trigger] hashes[i])@ == hash
}

/// Whether no identifier stands twice in `hashes`.
pub open spec fn distinct(hashes: Seq<PathnameHash>) -> bool {
    forall|i: int, j: int|
        0 <= i < j < hashes.len() ==> (#[trigger] hashes[i])@ != (#[trigger] hashes[j])@
}

/// The movies that carry one tag: a set of identifiers.
#[derive(Debug)]
pub struct Members {
    hashes: Vec<PathnameHash>,
}

impl View for Members {
    type V = Set<Seq<u8>>;

    closed spec fn view(&self) -> Set<Seq<u8>> {
        Set::new(|hash: Seq<u8>| occurs(self.hashes@, hash))
    }
}

impl Members {
    /// No identifier stands twice in the set. Wherever the set changes, the
    /// vector is taken out first and put back when the change is complete,
    /// so the set is never seen in between.
    #[verifier::type_invariant]
    spec fn no_identifier_twice(self) -> bool {
        distinct(self.hashes@)
    }

    /// The empty set.
    pub fn new() -> (members: Members)
        ensures
            members@ == Set::<Seq<u8>>::empty(),
    {
        let members = Members { hashes: Vec::new() };
        assert(members@ =~= Set::<Seq<u8>>::empty());
        members
    }

    fn position(&self, hash: &PathnameHash) -> (found: Option<usize>)
        ensures
            match found {
                Some(i) => i < self.hashes@.len() && self.hashes@[i as int]@ == hash@,
                None => !occurs(self.hashes@, hash@),
            },
    {
        let mut i: usize = 0;
        while i < self.hashes.len()
            invariant
                i <= self.hashes@.len(),
                forall|k: int| 0 <= k < i ==> (#[trigger] self.hashes@[k])@ != hash@,
            decreases self.hashes@.len() - i,
        {
            if self.hashes[i] == *hash {
                return Some(i);
            }
            i += 1;
        }
        None
    }

    /// Whether the movie `hash` is in the set.
    pub fn contains(&self, hash: &PathnameHash) -> (found: bool)
        ensures
            found == self@.contains(hash@),
    {
        self.position(hash).is_some()
    }

    /// Puts `hash` into the set; a set that holds it already stays as it is.
    pub fn insert(&mut self, hash: PathnameHash)
        ensures
            final(self)@ == old(self)@.insert(hash@),
    {
        proof {
            use_type_invariant(&*self);
        }
        if self.position(&hash).is_none() {
            let ghost before = self.hashes@;
            let mut hashes: Vec<PathnameHash> = Vec::new();
            core::mem::swap(&mut self.hashes, &mut hashes);
            hashes.push(hash);
            self.hashes = hashes;
            assert forall|h: Seq<u8>| occurs(self.hashes@, h) <==> (occurs(before, h) || h
                == hash@) by {
                if occurs(before, h) {
                    let i = choose|i: int| 0 <= i < before.len() && (#[trigger] before[i])@ == h;
                    assert(self.hashes@[i]@ == h);
                }
                if h == hash@ {
                    assert(self.hashes@[before.len() as int]@ == h);
                }
            }
            assert(self@ =~= old(self)@.insert(hash@));
        } else {
            assert(self@ =~= old(self)@.insert(hash@));
        }
    }

    /// Takes `hash` out of the set; a set that does not hold it stays as it
    /// is.
    pub fn remove(&mut self, hash: &PathnameHash)
        ensures
            final(self)@ == old(self)@.remove(hash@),
    {
        proof {
            use_type_invariant(&*self);
        }
        match self.position(hash) {
            Some(at) => {
                let ghost before = self.hashes@;
                let mut hashes: Vec<PathnameHash> = Vec::new();
                core::mem::swap(&mut self.hashes, &mut hashes);
                hashes.remove(at);
                self.hashes = hashes;
                assert forall|h: Seq<u8>| occurs(self.hashes@, h) <==> (occurs(before, h) && h
                    != hash@) by {
                    if occurs(self.hashes@, h) {
                        let i = choose|i: int|
                            0 <= i < self.hashes@.len() && (#[trigger] self.hashes@[i])@ == h;
                        if i < at {
                            assert(before[i]@ == h);
                        } else {
                            assert(before[i + 1]@ == h);
                        }
                    }
                    if occurs(before, h) && h != hash@ {
                        let i = choose|i: int| 0 <= i < before.len() && (#[trigger] before[i])@ == h;
                        if i < at {
                            assert(self.hashes@[i]@ == h);
                        } else {
                            assert(self.hashes@[i - 1]@ == h);
                        }
                    }
                }
                assert(self@ =~= old(self)@.remove(hash@));
            },
            None => {
                assert(self@ =~= old(self)@.remove(hash@));
            },
        }
    }

    /// The identifiers in the set, each once.
    pub fn to_vec(&self) -> (hashes: Vec<PathnameHash>)
        ensures
            distinct(hashes@),
            forall|hash: Seq<u8>| self@.contains(hash) <==> occurs(hashes@, hash),
    {
        proof {
            use_type_invariant(self);
        }
        let mut hashes: Vec<PathnameHash> = Vec::new();
        let mut i: usize = 0;
        while i < self.hashes.len()
            invariant
                i <= self.hashes@.len(),
                hashes@ == self.hashes@.take(i as int),
            decreases self.hashes@.len() - i,
        {
            hashes.push(self.hashes[i]);
            i += 1;
            assert(hashes@ =~= self.hashes@.take(i as int));
        }
        assert(hashes@ =~= self.hashes@);
        hashes
    }
}

/// One tag with the movies that carry it.
#[derive(Debug)]
struct Tag {
    name: String,
    members: Members,
}

/// Whether a tag called `name` is among `entries`.
spec fn named(entries: Seq<Tag>, name: Seq<char>) -> bool {
    exists|i: int| 0 <= i < entries.len() && (#[trigger] entries[i]).name@ == name
}

/// The place of the tag called `name` in `entries`.
spec fn place_of(entries: Seq<Tag>, name: Seq<char>) -> int {
    choose|i: int| 0 <= i < entries.len() && (#[trigger] entries[i]).name@ == name
}

/// Whether no two tags of `entries` share a name.
spec fn distinct_names(entries: Seq<Tag>) -> bool {
    forall|i: int, j: int|
        0 <= i < j < entries.len() ==> (#[trigger] entries[i]).name@ != (#[trigger] entries[j]).name@
}

/// The table that `entries` stand for.
spec fn table_of(entries: Seq<Tag>) -> Map<Seq<char>, Set<Seq<u8>>> {
    Map::new(
        |name: Seq<char>| named(entries, name),
        |name: Seq<char>| entries[place_of(entries, name)].members@,
    )
}

/// Whether `text` is among the views of `names`.
pub open spec fn among(names: Seq<String>, text: Seq<char>) -> bool {
    exists|i: int| 0 <= i < names.len() && (#[trigger] names[i])@ == text
}

/// Whether no text stands twice in `names`.
pub open spec fn distinct_texts(names: Seq<String>) -> bool {
    forall|i: int, j: int|
        0 <= i < j < names.len() ==> (#[trigger] names[i])@ != (#[trigger] names[j])@
}

/// A set after the movie `hash` has changed sides: out of the set if it was
/// in it, into the set if it was not.
pub open spec fn flipped(members: Set<Seq<u8>>, hash: Seq<u8>) -> Set<Seq<u8>> {
    if members.contains(hash) {
        members.remove(hash)
    } else {
        members.insert(hash)
    }
}

/// The tag table after the movie `hash` has been toggled in `tag`. No other
/// tag changes.
pub open spec fn toggled(
    tags: Map<Seq<char>, Set<Seq<u8>>>,
    tag: Seq<char>,
    hash: Seq<u8>,
) -> Map<Seq<char>, Set<Seq<u8>>> {
    tags.insert(tag, flipped(tags[tag], hash))
}

/// The members of `tag` in `tags`, none where the table lacks the tag.
pub open spec fn members_of(tags: Map<Seq<char>, Set<Seq<u8>>>, tag: Seq<char>) -> Set<Seq<u8>> {
    if tags.contains_key(tag) {
        tags[tag]
    } else {
        Set::empty()
    }
}

/// The tag table after the directory of `tag` has been found: a tag that is
/// new has no members yet, a tag that is known keeps its members.
pub open spec fn added(tags: Map<Seq<char>, Set<Seq<u8>>>, tag: Seq<char>) -> Map<
    Seq<char>,
    Set<Seq<u8>>,
> {
    tags.insert(tag, members_of(tags, tag))
}

/// The tag table after a link to the movie `hash` has been found in the
/// directory of `tag`: the tag is there, and the movie carries it.
pub open spec fn linked(
    tags: Map<Seq<char>, Set<Seq<u8>>>,
    tag: Seq<char>,
    hash: Seq<u8>,
) -> Map<Seq<char>, Set<Seq<u8>>> {
    tags.insert(tag, members_of(tags, tag).insert(hash))
}

/// Among tags with distinct names a name has one place only.
proof fn lemma_place_of(entries: Seq<Tag>, i: int)
    requires
        distinct_names(entries),
        0 <= i < entries.len(),
    ensures
        named(entries, entries[i].name@),
        place_of(entries, entries[i].name@) == i,
        table_of(entries).contains_key(entries[i].name@),
        table_of(entries)[entries[i].name@] == entries[i].members@,
{
    let name = entries[i].name@;
    assert(entries[i].name@ == name);
    let j = place_of(entries, name);
    if j < i {
        assert(entries[j].name@ != entries[i].name@);
    }
    if i < j {
        assert(entries[i].name@ != entries[j].name@);
    }
}

/// Replacing the tag at `at` by one of the same name changes that tag's
/// members in the table and nothing else.
proof fn lemma_replaced(before: Seq<Tag>, after: Seq<Tag>, at: int)
    requires
        distinct_names(before),
        0 <= at < before.len(),
        after.len() == before.len(),
        after[at].name@ == before[at].name@,
        forall|k: int| 0 <= k < before.len() && k != at ==> after[k] == before[k],
    ensures
        distinct_names(after),
        table_of(after) == table_of(before).insert(before[at].name@, after[at].members@),
{
    assert forall|i: int, j: int| 0 <= i < j < after.len() implies (#[trigger] after[i]).name@ != (
    #[trigger] after[j]).name@ by {
        assert(before[i].name@ != before[j].name@);
    }
    let wanted = table_of(before).insert(before[at].name@, after[at].members@);
    assert forall|name: Seq<char>| named(after, name) <==> #[trigger] wanted.contains_key(name) by {
        if named(after, name) {
            let i = place_of(after, name);
            assert(before[i].name@ == name);
        }
        if named(before, name) {
            let i = place_of(before, name);
            assert(after[i].name@ == name);
        }
        if name == before[at].name@ {
            assert(after[at].name@ == name);
        }
    }
    assert forall|name: Seq<char>| named(after, name) implies #[trigger] table_of(after)[name]
        == wanted[name] by {
        let i = place_of(after, name);
        lemma_place_of(after, i);
        if i != at {
            assert(before[i].name@ == name);
            lemma_place_of(before, i);
        }
    }
    assert(table_of(after) =~= wanted);
}

/// Appending a tag with a new name puts it into the table and changes
/// nothing else.
proof fn lemma_appended(before: Seq<Tag>, tag: Tag)
    requires
        distinct_names(before),
        !named(before, tag.name@),
    ensures
        distinct_names(before.push(tag)),
        table_of(before.push(tag)) == table_of(before).insert(tag.name@, tag.members@),
{
    let after = before.push(tag);
    let at = before.len() as int;
    assert forall|i: int, j: int| 0 <= i < j < after.len() implies (#[trigger] after[i]).name@ != (
    #[trigger] after[j]).name@ by {
        if j == at {
            assert(before[i].name@ != tag.name@);
        } else {
            assert(before[i].name@ != before[j].name@);
        }
    }
    let wanted = table_of(before).insert(tag.name@, tag.members@);
    assert forall|name: Seq<char>| named(after, name) <==> #[trigger] wanted.contains_key(name) by {
        if named(after, name) {
            let i = place_of(after, name);
            if i != at {
                assert(before[i].name@ == name);
            }
        }
        if named(before, name) {
            let i = place_of(before, name);
            assert(after[i].name@ == name);
        }
        if name == tag.name@ {
            assert(after[at].name@ == name);
        }
    }
    assert forall|name: Seq<char>| named(after, name) implies #[trigger] table_of(after)[name]
        == wanted[name] by {
        let i = place_of(after, name);
        lemma_place_of(after, i);
        if i != at {
            assert(before[i].name@ == name);
            lemma_place_of(before, i);
        }
    }
    assert(table_of(after) =~= wanted);
}

/// The names of the tags in `entries`.
spec fn keys(entries: Seq<Tag>) -> Set<Seq<char>> {
    Set::new(|name: Seq<char>| named(entries, name))
}

/// Tags with distinct names have as many names as there are tags.
proof fn lemma_keys_len(entries: Seq<Tag>)
    requires
        distinct_names(entries),
    ensures
        keys(entries).finite(),
        keys(entries).len() == entries.len(),
    decreases entries.len(),
{
    if entries.len() == 0 {
        assert(keys(entries) =~= Set::<Seq<char>>::empty());
    } else {
        let earlier = entries.drop_last();
        let last = entries.last();
        assert forall|i: int, j: int| 0 <= i < j < earlier.len() implies (#[trigger] earlier[i]).name@
            != (#[trigger] earlier[j]).name@ by {
            assert(entries[i].name@ != entries[j].name@);
        }
        lemma_keys_len(earlier);
        if named(earlier, last.name@) {
            let i = place_of(earlier, last.name@);
            assert(entries[i].name@ != entries[entries.len() - 1].name@);
        }
        assert forall|name: Seq<char>| keys(entries).contains(name) <==> keys(earlier).insert(
            last.name@,
        ).contains(name) by {
            if named(entries, name) {
                let i = place_of(entries, name);
                if i < earlier.len() {
                    assert(earlier[i].name@ == name);
                }
            }
            if named(earlier, name) {
                let i = place_of(earlier, name);
                assert(entries[i].name@ == name);
            }
            if name == last.name@ {
                assert(entries[entries.len() - 1].name@ == name);
            }
        }
        assert(keys(entries) =~= keys(earlier).insert(last.name@));
    }
}

/// The tags of a collection, each with the set of movies that carry it.
#[derive(Debug)]
pub struct Tags {
    entries: Vec<Tag>,
}

impl View for Tags {
    type V = Map<Seq<char>, Set<Seq<u8>>>;

    closed spec fn view(&self) -> Map<Seq<char>, Set<Seq<u8>>> {
        table_of(self.entries@)
    }
}

impl Tags {
    /// No two tags share a name. Wherever the table changes, the vector is
    /// taken out first and put back when the change is complete.
    #[verifier::type_invariant]
    spec fn no_name_twice(self) -> bool {
        distinct_names(self.entries@)
    }

    /// The empty table.
    pub fn new() -> (tags: Tags)
        ensures
            tags@ == Map::<Seq<char>, Set<Seq<u8>>>::empty(),
    {
        let tags = Tags { entries: Vec::new() };
        assert(tags@ =~= Map::<Seq<char>, Set<Seq<u8>>>::empty());
        tags
    }

    fn position(&self, name: &str) -> (found: Option<usize>)
        ensures
            match found {
                Some(i) => i < self.entries@.len() && self.entries@[i as int].name@ == name@,
                None => !named(self.entries@, name@),
            },
    {
        let wanted: String = name.to_owned();
        let mut i: usize = 0;
        while i < self.entries.len()
            invariant
                i <= self.entries@.len(),
                wanted@ == name@,
                forall|k: int| 0 <= k < i ==> (#[trigger] self.entries@[k]).name@ != name@,
            decreases self.entries@.len() - i,
        {
            if self.entries[i].name == wanted {
                return Some(i);
            }
            i += 1;
        }
        None
    }

    /// The number of tags.
    pub fn len(&self) -> (count: usize)
        ensures
            self@.dom().finite(),
            count == self@.len(),
    {
        proof {
            use_type_invariant(self);
            lemma_keys_len(self.entries@);
            assert(self@.dom() =~= keys(self.entries@));
        }
        self.entries.len()
    }

    /// Whether the table holds a tag called `name`.
    pub fn contains(&self, name: &str) -> (found: bool)
        ensures
            found == self@.contains_key(name@),
    {
        self.position(name).is_some()
    }

    /// The movies that carry the tag `name`, if the table holds that tag.
    pub fn get(&self, name: &str) -> (found: Option<&Members>)
        ensures
            match found {
                Some(members) => self@.contains_key(name@) && members@ == self@[name@],
                None => !self@.contains_key(name@),
            },
    {
        proof {
            use_type_invariant(self);
        }
        match self.position(name) {
            Some(i) => {
                proof {
                    lemma_place_of(self.entries@, i as int);
                }
                Some(&self.entries[i].members)
            },
            None => None,
        }
    }

    /// Makes sure that the table holds a tag called `name`: a new tag starts
    /// without members, a known tag keeps its members.
    pub fn add(&mut self, name: &str)
        ensures
            final(self)@ == added(old(self)@, name@),
    {
        proof {
            use_type_invariant(&*self);
        }
        match self.position(name) {
            Some(i) => {
                proof {
                    lemma_place_of(self.entries@, i as int);
                }
                assert(self@ =~= added(old(self)@, name@));
            },
            None => {
                let tag = Tag { name: name.to_owned(), members: Members::new() };
                let mut entries: Vec<Tag> = Vec::new();
                core::mem::swap(&mut self.entries, &mut entries);
                proof {
                    lemma_appended(entries@, tag);
                }
                entries.push(tag);
                self.entries = entries;
            },
        }
    }

    /// Records that the movie `hash` carries the tag `name`, adding the tag
    /// where the table does not hold it yet.
    pub fn link(&mut self, name: &str, hash: PathnameHash)
        ensures
            final(self)@ == linked(old(self)@, name@, hash@),
    {
        proof {
            use_type_invariant(&*self);
        }
        let found = self.position(name);
        let mut entries: Vec<Tag> = Vec::new();
        core::mem::swap(&mut self.entries, &mut entries);
        let ghost before = entries@;
        match found {
            Some(i) => {
                entries[i].members.insert(hash);
                proof {
                    lemma_place_of(before, i as int);
                    lemma_replaced(before, entries@, i as int);
                }
            },
            None => {
                let mut members = Members::new();
                members.insert(hash);
                let tag = Tag { name: name.to_owned(), members };
                proof {
                    lemma_appended(before, tag);
                }
                entries.push(tag);
            },
        }
        self.entries = entries;
    }

    /// Toggles the movie `hash` in the tag `name`: a member leaves the tag,
    /// any other movie joins it. A tag that the table does not hold is not
    /// found, and the table stays as it is.
    pub fn toggle(&mut self, name: &str, hash: &PathnameHash) -> (r: Result<(), Error>)
        ensures
            old(self)@.contains_key(name@) ==> r is Ok
                && final(self)@ == toggled(old(self)@, name@, hash@),
            !old(self)@.contains_key(name@) ==> r == Err::<(), Error>(Error::NotFound)
                && final(self)@ == old(self)@,
    {
        proof {
            use_type_invariant(&*self);
        }
        match self.position(name) {
            Some(i) => {
                let mut entries: Vec<Tag> = Vec::new();
                core::mem::swap(&mut self.entries, &mut entries);
                let ghost before = entries@;
                if entries[i].members.contains(hash) {
                    entries[i].members.remove(hash);
                } else {
                    entries[i].members.insert(*hash);
                }
                proof {
                    lemma_place_of(before, i as int);
                    lemma_replaced(before, entries@, i as int);
                }
                self.entries = entries;
                Ok(())
            },
            None => Err(Error::NotFound),
        }
    }

    /// For every tag, in the order of [`Tags::names`], its name and whether
    /// the movie `hash` carries it.
    pub fn states(&self, hash: &PathnameHash) -> (states: Vec<(String, bool)>)
        ensures
            states@.len() == self@.len(),
            forall|i: int|
                0 <= i < states@.len() ==> self@.contains_key((#[trigger] states@[i]).0@)
                    && states@[i].1 == self@[states@[i].0@].contains(hash@),
            forall|i: int, j: int|
                0 <= i < j < states@.len() ==> (#[trigger] states@[i]).0@ != (
                #[trigger] states@[j]).0@,
    {
        proof {
            use_type_invariant(self);
            lemma_keys_len(self.entries@);
            assert(self@.dom() =~= keys(self.entries@));
        }
        let mut states: Vec<(String, bool)> = Vec::new();
        let mut i: usize = 0;
        while i < self.entries.len()
            invariant
                i <= self.entries@.len(),
                states@.len() == i,
                forall|k: int|
                    0 <= k < i ==> (#[trigger] states@[k]).0@ == self.entries@[k].name@
                        && states@[k].1 == self.entries@[k].members@.contains(hash@),
            decreases self.entries@.len() - i,
        {
            let carried = self.entries[i].members.contains(hash);
            states.push((self.entries[i].name.clone(), carried));
            i += 1;
        }
        assert forall|k: int| 0 <= k < states@.len() implies self@.contains_key(
            (#[trigger] states@[k]).0@,
        ) && states@[k].1 == self@[states@[k].0@].contains(hash@) by {
            lemma_place_of(self.entries@, k);
        }
        assert forall|a: int, b: int| 0 <= a < b < states@.len() implies (#[trigger] states@[a]).0@
            != (#[trigger] states@[b]).0@ by {
            assert(self.entries@[a].name@ != self.entries@[b].name@);
        }
        states
    }

    /// The names of all tags, each once, in the order in which the tags
    /// were added.
    pub fn names(&self) -> (names: Vec<String>)
        ensures
            distinct_texts(names@),
            forall|name: Seq<char>| self@.contains_key(name) <==> among(names@, name),
    {
        proof {
            use_type_invariant(self);
        }
        let mut names: Vec<String> = Vec::new();
        let mut i: usize = 0;
        while i < self.entries.len()
            invariant
                i <= self.entries@.len(),
                names@.len() == i,
                forall|k: int| 0 <= k < i ==> (#[trigger] names@[k])@ == self.entries@[k].name@,
            decreases self.entries@.len() - i,
        {
            names.push(self.entries[i].name.clone());
            i += 1;
        }
        assert forall|a: int, b: int| 0 <= a < b < names@.len() implies (#[trigger] names@[a])@ != (
        #[trigger] names@[b])@ by {
            assert(self.entries@[a].name@ != self.entries@[b].name@);
        }
        assert forall|name: Seq<char>| self@.contains_key(name) <==> among(names@, name) by {
            if self@.contains_key(name) {
                let k = place_of(self.entries@, name);
                assert(names@[k]@ == name);
            }
            if among(names@, name) {
                let k = choose|k: int| 0 <= k < names@.len() && (#[trigger] names@[k])@ == name;
                assert(self.entries@[k].name@ == name);
            }
        }
        names
    }
}

} // verus!
