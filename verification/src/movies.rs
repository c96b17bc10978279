//! The movie table: every movie of the collection under its identifier.

use crate::hash::PathnameHash;
use crate::path::{join, joined};
use vstd::prelude::*;
use vstd::utf8::encode_utf8;

verus! {

/// One movie: a directory directly under the movie root.
#[derive(Debug, Clone)]
pub struct Movie {
    /// The directory's name, as shown to people.
    pub name: String,
    /// The directory's path.
    pub path: Vec<u8>,
    /// The identifier derived from the directory's name.
    pub hash: PathnameHash,
    /// The path of the poster image inside the directory, if there is one.
    pub poster_path: Option<Vec<u8>>,
}

/// A movie as plain values.
pub struct MovieView {
    pub name: Seq<char>,
    pub path: Seq<u8>,
    pub hash: Seq<u8>,
    pub poster_path: Option<Seq<u8>>,
}

impl View for Movie {
    type V = MovieView;

    open spec fn view(&self) -> MovieView {
        MovieView {
            name: self.name@,
            path: self.path@,
            hash: self.hash@,
            poster_path: match self.poster_path {
                Some(path) => Some(path@),
                None => None,
            },
        }
    }
}

/// The name of the poster image inside a movie's directory.
pub open spec fn poster_name() -> Seq<u8> {
    encode_utf8("poster.jpg"@)
}

/// The path at which the poster of the movie in `directory` lies, if the
/// movie has one.
pub fn poster_path(directory: &[u8]) -> (path: Vec<u8>)
    ensures
        path@ == joined(directory@, poster_name()),
{
    join(directory, "poster.jpg".as_bytes())
}

impl Movie {
    /// The movie's identifier as forty lower-case hexadecimal digits.
    pub fn id(&self) -> (text: String)
        ensures
            text@ == crate::hextext::encoded(self.hash@),
    {
        self.hash.to_hex()
    }
}

/// Whether a movie with the identifier `hash` is among `items`.
pub open spec fn listed(items: Seq<Movie>, hash: Seq<u8>) -> bool {
    exists|i: int| 0 <= i < items.len() && (#[trigger] items[i]).hash@ == hash
}

/// The place of the movie with the identifier `hash` in `items`.
pub open spec fn place_of(items: Seq<Movie>, hash: Seq<u8>) -> int {
    choose|i: int| 0 <= i < items.len() && (#[trigger] items[i]).hash@ == hash
}

/// Whether no two movies of `items` share an identifier.
pub open spec fn distinct(items: Seq<Movie>) -> bool {
    forall|i: int, j: int|
        0 <= i < j < items.len() ==> (#[trigger] items[i]).hash@ != (#[trigger] items[j]).hash@
}

/// Among distinct movies an identifier has one place only.
proof fn lemma_place_of(items: Seq<Movie>, i: int)
    requires
        distinct(items),
        0 <= i < items.len(),
    ensures
        listed(items, items[i].hash@),
        place_of(items, items[i].hash@) == i,
{
    let hash = items[i].hash@;
    assert(items[i].hash@ == hash);
    let j = place_of(items, hash);
    if j < i {
        assert(items[j].hash@ != items[i].hash@);
    }
    if i < j {
        assert(items[i].hash@ != items[j].hash@);
    }
}

/// Whether `first` comes before `second` or is `second`, where the bytes are
/// compared one by one and a text comes before every longer text that it
/// begins. This is the order of text by code points.
pub open spec fn precedes(first: Seq<u8>, second: Seq<u8>) -> bool
    decreases first.len(),
{
    if first.len() == 0 {
        true
    } else if second.len() == 0 {
        false
    } else if first[0] != second[0] {
        first[0] < second[0]
    } else {
        precedes(first.skip(1), second.skip(1))
    }
}

/// Of two runs of bytes one precedes the other.
pub proof fn lemma_precedes_total(first: Seq<u8>, second: Seq<u8>)
    ensures
        precedes(first, second) || precedes(second, first),
    decreases first.len(),
{
    if first.len() > 0 && second.len() > 0 && first[0] == second[0] {
        lemma_precedes_total(first.skip(1), second.skip(1));
    }
}

/// What precedes something that precedes a third precedes the third.
pub proof fn lemma_precedes_transitive(first: Seq<u8>, second: Seq<u8>, third: Seq<u8>)
    requires
        precedes(first, second),
        precedes(second, third),
    ensures
        precedes(first, third),
    decreases first.len(),
{
    if first.len() > 0 && second.len() > 0 && third.len() > 0 && first[0] == second[0]
        && second[0] == third[0] {
        lemma_precedes_transitive(first.skip(1), second.skip(1), third.skip(1));
    }
}

/// Whether `first` precedes `second`.
fn comes_first(first: &[u8], second: &[u8]) -> (yes: bool)
    ensures
        yes == precedes(first@, second@),
{
    let mut i: usize = 0;
    assert(first@.skip(0) =~= first@);
    assert(second@.skip(0) =~= second@);
    while i < first.len() && i < second.len()
        invariant
            i <= first@.len(),
            i <= second@.len(),
            precedes(first@, second@) == precedes(first@.skip(i as int), second@.skip(i as int)),
        decreases first@.len() - i,
    {
        if first[i] != second[i] {
            return first[i] < second[i];
        }
        assert(first@.skip(i as int).skip(1) =~= first@.skip(i + 1));
        assert(second@.skip(i as int).skip(1) =~= second@.skip(i + 1));
        i += 1;
    }
    i == first.len()
}

/// The bytes by which a movie is put in order: those of its name.
pub open spec fn name_key(movie: &Movie) -> Seq<u8> {
    encode_utf8(movie.name@)
}

/// Whether `movies` are in the order of their names.
pub open spec fn in_name_order(movies: Seq<&Movie>) -> bool {
    forall|i: int, j: int|
        0 <= i < j < movies.len() ==> precedes(
            name_key(#[trigger] movies[i]),
            name_key(#[trigger] movies[j]),
        )
}

/// Whether `movies` holds every movie of `table`, each once.
pub open spec fn holds_all(movies: Seq<&Movie>, table: Map<Seq<u8>, MovieView>) -> bool {
    &&& forall|i: int|
        0 <= i < movies.len() ==> table.contains_key((#[trigger] movies[i]).hash@)
            && table[movies[i].hash@] == movies[i]@
    &&& forall|i: int, j: int|
        0 <= i < j < movies.len() ==> (#[trigger] movies[i]).hash@ != (#[trigger] movies[j]).hash@
    &&& forall|hash: Seq<u8>|
        table.contains_key(hash) ==> exists|i: int|
            0 <= i < movies.len() && (#[trigger] movies[i]).hash@ == hash
}

/// The identifiers of the movies in `items`.
spec fn keys(items: Seq<Movie>) -> Set<Seq<u8>> {
    Set::new(|hash: Seq<u8>| listed(items, hash))
}

/// Distinct movies have as many identifiers as there are movies.
proof fn lemma_keys_len(items: Seq<Movie>)
    requires
        distinct(items),
    ensures
        keys(items).finite(),
        keys(items).len() == items.len(),
    decreases items.len(),
{
    if items.len() == 0 {
        assert(keys(items) =~= Set::<Seq<u8>>::empty());
    } else {
        let earlier = items.drop_last();
        let last = items.last();
        assert forall|i: int, j: int| 0 <= i < j < earlier.len() implies (#[trigger] earlier[i]).hash@
            != (#[trigger] earlier[j]).hash@ by {
            assert(items[i].hash@ != items[j].hash@);
        }
        lemma_keys_len(earlier);
        if listed(earlier, last.hash@) {
            let i = place_of(earlier, last.hash@);
            assert(items[i].hash@ != items[items.len() - 1].hash@);
        }
        assert forall|hash: Seq<u8>| keys(items).contains(hash) <==> keys(earlier).insert(
            last.hash@,
        ).contains(hash) by {
            if listed(items, hash) {
                let i = place_of(items, hash);
                if i < earlier.len() {
                    assert(earlier[i].hash@ == hash);
                }
            }
            if listed(earlier, hash) {
                let i = place_of(earlier, hash);
                assert(items[i].hash@ == hash);
            }
            if hash == last.hash@ {
                assert(items[items.len() - 1].hash@ == hash);
            }
        }
        assert(keys(items) =~= keys(earlier).insert(last.hash@));
    }
}

/// The movies of a collection, each under its own identifier.
#[derive(Debug)]
pub struct Movies {
    items: Vec<Movie>,
}

impl View for Movies {
    type V = Map<Seq<u8>, MovieView>;

    closed spec fn view(&self) -> Map<Seq<u8>, MovieView> {
        Map::new(
            |hash: Seq<u8>| listed(self.items@, hash),
            |hash: Seq<u8>| self.items@[place_of(self.items@, hash)]@,
        )
    }
}

impl Movies {
    /// No two movies share an identifier. Wherever the table changes, the
    /// vector is taken out first and put back when the change is complete.
    #[verifier::type_invariant]
    spec fn no_identifier_twice(self) -> bool {
        distinct(self.items@)
    }

    /// The empty table.
    pub fn new() -> (movies: Movies)
        ensures
            movies@ == Map::<Seq<u8>, MovieView>::empty(),
    {
        let movies = Movies { items: Vec::new() };
        assert(movies@ =~= Map::<Seq<u8>, MovieView>::empty());
        movies
    }

    fn position(&self, hash: &PathnameHash) -> (found: Option<usize>)
        ensures
            match found {
                Some(i) => i < self.items@.len() && self.items@[i as int].hash@ == hash@,
                None => !listed(self.items@, hash@),
            },
    {
        let mut i: usize = 0;
        while i < self.items.len()
            invariant
                i <= self.items@.len(),
                forall|k: int| 0 <= k < i ==> (#[trigger] self.items@[k]).hash@ != hash@,
            decreases self.items@.len() - i,
        {
            if self.items[i].hash == *hash {
                return Some(i);
            }
            i += 1;
        }
        None
    }

    /// The number of movies.
    pub fn len(&self) -> (count: usize)
        ensures
            self@.dom().finite(),
            count == self@.len(),
    {
        proof {
            use_type_invariant(self);
            lemma_keys_len(self.items@);
            assert(self@.dom() =~= keys(self.items@));
        }
        self.items.len()
    }

    /// All movies, each once.
    pub fn values(&self) -> (movies: Vec<&Movie>)
        ensures
            movies@.len() == self@.len(),
            holds_all(movies@, self@),
    {
        proof {
            use_type_invariant(self);
            lemma_keys_len(self.items@);
            assert(self@.dom() =~= keys(self.items@));
        }
        let mut movies: Vec<&Movie> = Vec::new();
        let mut i: usize = 0;
        while i < self.items.len()
            invariant
                i <= self.items@.len(),
                movies@.len() == i,
                forall|k: int| 0 <= k < i ==> *(#[trigger] movies@[k]) == self.items@[k],
            decreases self.items@.len() - i,
        {
            movies.push(&self.items[i]);
            i += 1;
        }
        proof {
            let origin = Seq::new(movies@.len(), |k: int| k);
            self.lemma_holds_all(movies@, origin, origin);
        }
        movies
    }

    /// Movies that are the table's items in another order are all movies of
    /// the table, each once.
    proof fn lemma_holds_all(&self, movies: Seq<&Movie>, origin: Seq<int>, place: Seq<int>)
        requires
            distinct(self.items@),
            movies.len() == self.items@.len(),
            origin.len() == movies.len(),
            place.len() == movies.len(),
            forall|k: int|
                0 <= k < movies.len() ==> 0 <= (#[trigger] origin[k]) < movies.len()
                    && place[origin[k]] == k && *movies[k] == self.items@[origin[k]],
            forall|i: int|
                0 <= i < movies.len() ==> 0 <= (#[trigger] place[i]) < movies.len()
                    && origin[place[i]] == i,
        ensures
            holds_all(movies, self@),
    {
        assert forall|k: int| 0 <= k < movies.len() implies self@.contains_key(
            (#[trigger] movies[k]).hash@,
        ) && self@[movies[k].hash@] == movies[k]@ by {
            lemma_place_of(self.items@, origin[k]);
        }
        assert forall|a: int, b: int| 0 <= a < b < movies.len() implies (#[trigger] movies[a]).hash@
            != (#[trigger] movies[b]).hash@ by {
            let i = origin[a];
            let j = origin[b];
            assert(place[i] == a && place[j] == b);
            if i < j {
                assert(self.items@[i].hash@ != self.items@[j].hash@);
            } else {
                assert(self.items@[j].hash@ != self.items@[i].hash@);
            }
        }
        assert forall|hash: Seq<u8>| self@.contains_key(hash) implies exists|k: int|
            0 <= k < movies.len() && (#[trigger] movies[k]).hash@ == hash by {
            let i = place_of(self.items@, hash);
            let k = place[i];
            assert(origin[k] == i);
            assert(movies[k].hash@ == hash);
        }
    }

    /// All movies, each once, in the order of their names.
    pub fn sorted_by_name(&self) -> (movies: Vec<&Movie>)
        ensures
            movies@.len() == self@.len(),
            holds_all(movies@, self@),
            in_name_order(movies@),
    {
        proof {
            use_type_invariant(self);
            lemma_keys_len(self.items@);
            assert(self@.dom() =~= keys(self.items@));
        }
        let mut sorted: Vec<&Movie> = Vec::new();
        let ghost mut origin: Seq<int> = Seq::empty();
        let ghost mut place: Seq<int> = Seq::empty();
        let mut i: usize = 0;
        while i < self.items.len()
            invariant
                i <= self.items@.len(),
                sorted@.len() == i,
                origin.len() == i,
                place.len() == i,
                forall|k: int|
                    0 <= k < i ==> 0 <= (#[trigger] origin[k]) < i && place[origin[k]] == k
                        && *sorted@[k] == self.items@[origin[k]],
                forall|n: int| 0 <= n < i ==> 0 <= (#[trigger] place[n]) < i && origin[place[n]] == n,
                in_name_order(sorted@),
            decreases self.items@.len() - i,
        {
            let movie = &self.items[i];
            let key = movie.name.as_str().as_bytes();
            let mut p: usize = 0;
            while p < sorted.len() && comes_first(sorted[p].name.as_str().as_bytes(), key)
                invariant
                    p <= sorted@.len(),
                    key@ == name_key(movie),
                    forall|k: int| 0 <= k < p ==> precedes(name_key(#[trigger] sorted@[k]), key@),
                decreases sorted@.len() - p,
            {
                p += 1;
            }
            let ghost before = sorted@;
            let ghost old_origin = origin;
            let ghost old_place = place;
            sorted.insert(p, movie);
            proof {
                origin = old_origin.insert(p as int, i as int);
                place = Seq::new(
                    i as nat,
                    |n: int| if old_place[n] >= p { old_place[n] + 1 } else { old_place[n] },
                ).push(p as int);
                assert forall|a: int, b: int| 0 <= a < b < sorted@.len() implies precedes(
                    name_key(#[trigger] sorted@[a]),
                    name_key(#[trigger] sorted@[b]),
                ) by {
                    if b < p {
                        assert(precedes(name_key(before[a]), name_key(before[b])));
                    } else if b == p {
                        assert(precedes(name_key(before[a]), key@));
                    } else if a == p {
                        lemma_precedes_total(name_key(before[p as int]), key@);
                        if b - 1 > p {
                            assert(precedes(name_key(before[p as int]), name_key(before[b - 1])));
                            lemma_precedes_transitive(
                                key@,
                                name_key(before[p as int]),
                                name_key(before[b - 1]),
                            );
                        }
                    } else if a < p {
                        assert(precedes(name_key(before[a]), name_key(before[b - 1])));
                    } else {
                        assert(precedes(name_key(before[a - 1]), name_key(before[b - 1])));
                    }
                }
                assert forall|k: int| 0 <= k < i + 1 implies 0 <= (#[trigger] origin[k]) < i + 1
                    && place[origin[k]] == k && *sorted@[k] == self.items@[origin[k]] by {
                    if k < p {
                        assert(origin[k] == old_origin[k]);
                    } else if k > p {
                        assert(origin[k] == old_origin[k - 1]);
                    }
                }
                assert forall|n: int| 0 <= n < i + 1 implies 0 <= (#[trigger] place[n]) < i + 1
                    && origin[place[n]] == n by {
                    if n < i {
                        let q = old_place[n];
                        assert(old_origin[q] == n);
                    }
                }
            }
            i += 1;
        }
        proof {
            self.lemma_holds_all(sorted@, origin, place);
        }
        sorted
    }

    /// The movie with the identifier `hash`, if the table holds one.
    pub fn get(&self, hash: &PathnameHash) -> (found: Option<&Movie>)
        ensures
            match found {
                Some(movie) => self@.contains_key(hash@) && movie@ == self@[hash@],
                None => !self@.contains_key(hash@),
            },
    {
        proof {
            use_type_invariant(self);
        }
        match self.position(hash) {
            Some(i) => {
                proof {
                    lemma_place_of(self.items@, i as int);
                }
                Some(&self.items[i])
            },
            None => None,
        }
    }

    /// Puts `movie` under its identifier, in place of a movie that the
    /// table may hold under it.
    pub fn insert(&mut self, movie: Movie)
        ensures
            final(self)@ == old(self)@.insert(movie.hash@, movie@),
    {
        proof {
            use_type_invariant(&*self);
        }
        let ghost before = self.items@;
        let found = self.position(&movie.hash);
        let mut items: Vec<Movie> = Vec::new();
        core::mem::swap(&mut self.items, &mut items);
        match found {
            Some(at) => {
                items[at] = movie;
            },
            None => {
                items.push(movie);
            },
        }
        let ghost at: int = match found {
            Some(at) => at as int,
            None => before.len() as int,
        };
        assert(items@[at] == movie);
        assert forall|i: int, j: int| 0 <= i < j < items@.len() implies (#[trigger] items@[i]).hash@
            != (#[trigger] items@[j]).hash@ by {
            if i != at && j != at {
                assert(before[i].hash@ != before[j].hash@);
            } else if found is Some {
                assert(before[i].hash@ != before[j].hash@);
            } else {
                assert(before[i].hash@ != movie.hash@);
            }
        }
        self.items = items;
        assert forall|hash: Seq<u8>| listed(self.items@, hash) <==> (listed(before, hash) || hash
            == movie.hash@) by {
            if listed(self.items@, hash) {
                let i = place_of(self.items@, hash);
                if i != at {
                    assert(before[i].hash@ == hash);
                }
            }
            if listed(before, hash) {
                let i = place_of(before, hash);
                if i != at {
                    assert(self.items@[i].hash@ == hash);
                } else {
                    assert(self.items@[at].hash@ == hash);
                }
            }
            if hash == movie.hash@ {
                assert(self.items@[at].hash@ == hash);
            }
        }
        assert forall|hash: Seq<u8>| listed(self.items@, hash) implies #[trigger] self@[hash]
            == old(self)@.insert(movie.hash@, movie@)[hash] by {
            let i = place_of(self.items@, hash);
            lemma_place_of(self.items@, i);
            if i == at {
                assert(hash == movie.hash@);
            } else {
                assert(before[i].hash@ == hash);
                lemma_place_of(before, i);
            }
        }
        assert(self@ =~= old(self)@.insert(movie.hash@, movie@));
    }
}

} // verus!
