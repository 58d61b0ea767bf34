//! The indexed media library, with lookup tables from ids to shows and
//! episodes.

use vstd::prelude::*;
use crate::clock::{now, Timestamp};
use crate::indexer::{flat_episodes, Episode, Library, Movie, Season, Tv};
use crate::text::str_chars;

verus! {

/// The show table: each show's id with its position, in library order.
pub open spec fn show_index(shows: Seq<Tv>) -> Seq<(Seq<char>, int)>
    decreases shows.len(),
{
    if shows.len() == 0 {
        seq![]
    } else {
        show_index(shows.drop_last()).push((shows.last().id@, shows.len() - 1))
    }
}

/// Table entries of the episodes of one season: each episode's id with the
/// positions of its show, season and episode.
pub open spec fn season_index(eps: Seq<Episode>, t: int, s: int) -> Seq<(Seq<char>, (int, int, int))>
    decreases eps.len(),
{
    if eps.len() == 0 {
        seq![]
    } else {
        season_index(eps.drop_last(), t, s).push((eps.last().id@, (t, s, eps.len() - 1)))
    }
}

/// Table entries of the episodes of the seasons `ss` of show `t`, in order.
pub open spec fn show_episode_index(ss: Seq<Season>, t: int) -> Seq<(Seq<char>, (int, int, int))>
    decreases ss.len(),
{
    if ss.len() == 0 {
        seq![]
    } else {
        show_episode_index(ss.drop_last(), t) + season_index(ss.last().episodes@, t, ss.len() - 1)
    }
}

/// The episode table: every episode's id with its positions, show after show,
/// season after season.
pub open spec fn episode_index(shows: Seq<Tv>) -> Seq<(Seq<char>, (int, int, int))>
    decreases shows.len(),
{
    if shows.len() == 0 {
        seq![]
    } else {
        episode_index(shows.drop_last()) + show_episode_index(shows.last().seasons@, shows.len() - 1)
    }
}

/// The value of the last entry with key `key`: what a map filled with the
/// entries in order holds for that key.
pub open spec fn last_with_key<V>(entries: Seq<(Seq<char>, V)>, key: Seq<char>) -> Option<V>
    decreases entries.len(),
{
    if entries.len() == 0 {
        None
    } else if entries.last().0 == key {
        Some(entries.last().1)
    } else {
        last_with_key(entries.drop_last(), key)
    }
}

/// The entry `(t, s, e)` names an episode of `shows` whose id is `key`.
pub open spec fn names_episode(shows: Seq<Tv>, key: Seq<char>, t: int, s: int, e: int) -> bool {
    &&& 0 <= t < shows.len()
    &&& 0 <= s < shows[t].seasons@.len()
    &&& 0 <= e < shows[t].seasons@[s].episodes@.len()
    &&& shows[t].seasons@[s].episodes@[e].id@ == key
}

pub proof fn lemma_show_index(shows: Seq<Tv>)
    ensures
        show_index(shows).len() == shows.len(),
        forall|j: int| 0 <= j < shows.len() ==> #[trigger] show_index(shows)[j] == (shows[j].id@, j),
    decreases shows.len(),
{
    if shows.len() > 0 {
        lemma_show_index(shows.drop_last());
        assert forall|j: int| 0 <= j < shows.len() implies #[trigger] show_index(shows)[j] == (shows[j].id@, j) by {
            if j < shows.len() - 1 {
                assert(show_index(shows)[j] == show_index(shows.drop_last())[j]);
            }
        }
    }
}

pub proof fn lemma_season_index(eps: Seq<Episode>, t: int, s: int)
    ensures
        season_index(eps, t, s).len() == eps.len(),
        forall|j: int| 0 <= j < eps.len() ==> #[trigger] season_index(eps, t, s)[j] == (eps[j].id@, (t, s, j)),
    decreases eps.len(),
{
    if eps.len() > 0 {
        lemma_season_index(eps.drop_last(), t, s);
        assert forall|j: int| 0 <= j < eps.len() implies #[trigger] season_index(eps, t, s)[j] == (eps[j].id@, (t, s, j)) by {
            if j < eps.len() - 1 {
                assert(season_index(eps, t, s)[j] == season_index(eps.drop_last(), t, s)[j]);
            }
        }
    }
}

pub proof fn lemma_show_episode_index_valid(shows: Seq<Tv>, ss: Seq<Season>, t: int, i: int)
    requires
        0 <= t < shows.len(),
        ss == shows[t].seasons@.take(ss.len() as int),
        ss.len() <= shows[t].seasons@.len(),
        0 <= i < show_episode_index(ss, t).len(),
    ensures
        ({
            let (k, (a, b, c)) = show_episode_index(ss, t)[i];
            names_episode(shows, k, a, b, c) && a == t && b < ss.len()
        }),
    decreases ss.len(),
{
    let prefix = show_episode_index(ss.drop_last(), t);
    if i < prefix.len() {
        assert(ss.drop_last() == shows[t].seasons@.take(ss.len() - 1));
        lemma_show_episode_index_valid(shows, ss.drop_last(), t, i);
    } else {
        assert(ss.last() == shows[t].seasons@[ss.len() - 1]);
        lemma_season_index(ss.last().episodes@, t, ss.len() - 1);
    }
}

/// Every entry of the episode table names an episode with that id.
pub proof fn lemma_episode_index_valid(shows: Seq<Tv>, all: Seq<Tv>, i: int)
    requires
        shows == all.take(shows.len() as int),
        shows.len() <= all.len(),
        0 <= i < episode_index(shows).len(),
    ensures
        ({
            let (k, (a, b, c)) = episode_index(shows)[i];
            names_episode(all, k, a, b, c) && a < shows.len()
        }),
    decreases shows.len(),
{
    let prefix = episode_index(shows.drop_last());
    if i < prefix.len() {
        assert(shows.drop_last() == all.take(shows.len() - 1));
        lemma_episode_index_valid(shows.drop_last(), all, i);
    } else {
        let t = shows.len() - 1;
        assert(shows.last() == all[t]);
        assert(all[t].seasons@ == all[t].seasons@.take(all[t].seasons@.len() as int));
        lemma_show_episode_index_valid(all, all[t].seasons@, t, i - prefix.len());
    }
}

proof fn lemma_last_with_key_in<V>(entries: Seq<(Seq<char>, V)>, key: Seq<char>)
    ensures
        match last_with_key(entries, key) {
            Some(v) => exists|i: int| 0 <= i < entries.len() && entries[i] == (key, v),
            None => forall|i: int| 0 <= i < entries.len() ==> entries[i].0 != key,
        },
    decreases entries.len(),
{
    if entries.len() > 0 {
        lemma_last_with_key_in(entries.drop_last(), key);
        if entries.last().0 == key {
            assert(entries[entries.len() - 1] == (key, entries.last().1));
        } else {
            match last_with_key(entries.drop_last(), key) {
                Some(v) => {
                    let i = choose|i: int| 0 <= i < entries.drop_last().len() && entries.drop_last()[i] == (key, v);
                    assert(entries[i] == entries.drop_last()[i]);
                },
                None => {
                    assert forall|i: int| 0 <= i < entries.len() implies entries[i].0 != key by {
                        if i < entries.len() - 1 {
                            assert(entries[i] == entries.drop_last()[i]);
                        }
                    }
                },
            }
        }
    }
}

pub open spec fn show_map_view(m: Seq<(String, usize)>) -> Seq<(Seq<char>, int)>
    decreases m.len(),
{
    if m.len() == 0 {
        seq![]
    } else {
        show_map_view(m.drop_last()).push((m.last().0@, m.last().1 as int))
    }
}

pub open spec fn episode_map_view(m: Seq<(String, (usize, usize, usize))>) -> Seq<
    (Seq<char>, (int, int, int)),
>
    decreases m.len(),
{
    if m.len() == 0 {
        seq![]
    } else {
        episode_map_view(m.drop_last()).push(
            (m.last().0@, (m.last().1.0 as int, m.last().1.1 as int, m.last().1.2 as int)),
        )
    }
}

proof fn lemma_show_map_view_len(m: Seq<(String, usize)>)
    ensures
        show_map_view(m).len() == m.len(),
        forall|i: int| 0 <= i < m.len() ==> #[trigger] show_map_view(m)[i] == (m[i].0@, m[i].1 as int),
    decreases m.len(),
{
    if m.len() > 0 {
        lemma_show_map_view_len(m.drop_last());
        assert forall|i: int| 0 <= i < m.len() implies #[trigger] show_map_view(m)[i] == (m[i].0@, m[i].1 as int) by {
            if i < m.len() - 1 {
                assert(show_map_view(m)[i] == show_map_view(m.drop_last())[i]);
            }
        }
    }
}

proof fn lemma_episode_map_view_len(m: Seq<(String, (usize, usize, usize))>)
    ensures
        episode_map_view(m).len() == m.len(),
        forall|i: int|
            0 <= i < m.len() ==> #[trigger] episode_map_view(m)[i] == (
                m[i].0@,
                (m[i].1.0 as int, m[i].1.1 as int, m[i].1.2 as int),
            ),
    decreases m.len(),
{
    if m.len() > 0 {
        lemma_episode_map_view_len(m.drop_last());
        assert forall|i: int| 0 <= i < m.len() implies #[trigger] episode_map_view(m)[i] == (
            m[i].0@,
            (m[i].1.0 as int, m[i].1.1 as int, m[i].1.2 as int),
        ) by {
            if i < m.len() - 1 {
                assert(episode_map_view(m)[i] == episode_map_view(m.drop_last())[i]);
            }
        }
    }
}

/// The indexed library: where movies and shows were looked for, when, what was
/// found, and tables from show and episode ids to where they stand.
///
/// The tables are vectors of (id, position) pairs rather than `HashMap`s:
/// vstd's specification of `HashMap` holds only for key types known to obey
/// its key model (integers, `bool` and boxes of them); `String` is not among
/// them, so nothing could be proved of what a lookup by id returns. A lookup searches from the end, so that where an id occurs twice
/// the last entry wins, as a later `HashMap::insert` would replace an earlier
/// one.
pub struct MediaLibrary {
    movie_dir: String,
    tv_dir: String,
    indexed_at: Timestamp,
    library: Library,
    show_map: Vec<(String, usize)>,
    episode_map: Vec<(String, (usize, usize, usize))>,
}

/// What a `MediaLibrary` holds apart from its tables, which always match its
/// library.
pub struct MediaLibraryView {
    pub movie_dir: Seq<char>,
    pub tv_dir: Seq<char>,
    pub indexed_at: Timestamp,
    pub library: Library,
}

impl View for MediaLibrary {
    type V = MediaLibraryView;

    closed spec fn view(&self) -> MediaLibraryView {
        MediaLibraryView {
            movie_dir: self.movie_dir@,
            tv_dir: self.tv_dir@,
            indexed_at: self.indexed_at,
            library: self.library,
        }
    }
}

/// The movie with id `id` found first, as `Iterator::find` finds it.
pub open spec fn first_movie_with_id(movies: Seq<Movie>, id: Seq<char>) -> Option<int>
    decreases movies.len(),
{
    if movies.len() == 0 {
        None
    } else {
        match first_movie_with_id(movies.drop_last(), id) {
            Some(i) => Some(i),
            None => if movies.last().id@ == id {
                Some(movies.len() - 1)
            } else {
                None
            },
        }
    }
}

/// The episode after the one with id `id` in its show's viewing order, where
/// the id is found and that episode is not the last one.
pub open spec fn spec_next_episode(shows: Seq<Tv>, id: Seq<char>) -> Option<Episode> {
    match last_with_key(episode_index(shows), id) {
        Some((t, s, e)) => {
            let flat = flat_episodes(shows[t].seasons@);
            let p = flat_episodes(shows[t].seasons@.take(s)).len() + e;
            if p + 1 < flat.len() {
                Some(flat[p + 1])
            } else {
                None
            }
        },
        None => None,
    }
}

/// The episode before the one with id `id` in its show's viewing order, where
/// the id is found and that episode is not the first one.
pub open spec fn spec_prev_episode(shows: Seq<Tv>, id: Seq<char>) -> Option<Episode> {
    match last_with_key(episode_index(shows), id) {
        Some((t, s, e)) => {
            let flat = flat_episodes(shows[t].seasons@);
            let p = flat_episodes(shows[t].seasons@.take(s)).len() + e;
            if p >= 1 && p - 1 < flat.len() {
                Some(flat[p - 1])
            } else {
                None
            }
        },
        None => None,
    }
}

/// Whether two strings are equal.
pub fn str_eq(a: &str, b: &str) -> (r: bool)
    ensures
        r == (a@ == b@),
{
    let x = str_chars(a);
    let y = str_chars(b);
    if x.len() != y.len() {
        return false;
    }
    let mut i: usize = 0;
    while i < x.len()
        invariant
            i <= x.len(),
            x.len() == y.len(),
            x@ == a@,
            y@ == b@,
            forall|k: int| 0 <= k < i ==> x@[k] == y@[k],
        decreases x.len() - i,
    {
        if x[i] != y[i] {
            assert(x@[i as int] != y@[i as int]);
            assert(a@ != b@);
            return false;
        }
        i = i + 1;
    }
    assert(x@ =~= y@);
    true
}

proof fn lemma_flat_prefix_len(ss: Seq<Season>, j: int)
    requires
        0 <= j <= ss.len(),
    ensures
        flat_episodes(ss.take(j)).len() <= flat_episodes(ss).len(),
    decreases ss.len() - j,
{
    if j < ss.len() {
        assert(ss.take(j + 1).drop_last() =~= ss.take(j));
        lemma_flat_prefix_len(ss, j + 1);
    } else {
        assert(ss.take(j) =~= ss);
    }
}

impl MediaLibrary {
    #[verifier::type_invariant]
    spec fn tables_match(self) -> bool {
        &&& show_map_view(self.show_map@) == show_index(self.library.shows@)
        &&& episode_map_view(self.episode_map@) == episode_index(self.library.shows@)
    }

    fn build_show_map(library: &Library) -> (r: Vec<(String, usize)>)
        ensures
            show_map_view(r@) == show_index(library.shows@),
    {
        let mut m: Vec<(String, usize)> = Vec::new();
        let mut i: usize = 0;
        while i < library.shows.len()
            invariant
                i <= library.shows.len(),
                show_map_view(m@) == show_index(library.shows@.take(i as int)),
            decreases library.shows.len() - i,
        {
            let ghost old_m = m@;
            m.push((library.shows[i].id.clone(), i));
            assert(m@.drop_last() =~= old_m);
            assert(library.shows@.take(i + 1).drop_last() =~= library.shows@.take(i as int));
            assert(library.shows@.take(i + 1).last() == library.shows@[i as int]);
            i = i + 1;
        }
        assert(library.shows@.take(i as int) =~= library.shows@);
        m
    }

    fn build_episode_map(library: &Library) -> (r: Vec<(String, (usize, usize, usize))>)
        ensures
            episode_map_view(r@) == episode_index(library.shows@),
    {
        let mut m: Vec<(String, (usize, usize, usize))> = Vec::new();
        let mut t: usize = 0;
        while t < library.shows.len()
            invariant
                t <= library.shows.len(),
                episode_map_view(m@) == episode_index(library.shows@.take(t as int)),
            decreases library.shows.len() - t,
        {
            let show = &library.shows[t];
            let ghost base = episode_map_view(m@);
            let mut s: usize = 0;
            while s < show.seasons.len()
                invariant
                    s <= show.seasons.len(),
                    episode_map_view(m@) == base + show_episode_index(show.seasons@.take(s as int), t as int),
                decreases show.seasons.len() - s,
            {
                let season = &show.seasons[s];
                let ghost base2 = episode_map_view(m@);
                let mut e: usize = 0;
                while e < season.episodes.len()
                    invariant
                        e <= season.episodes.len(),
                        episode_map_view(m@) == base2 + season_index(season.episodes@.take(e as int), t as int, s as int),
                    decreases season.episodes.len() - e,
                {
                    let ghost old_m = m@;
                    m.push((season.episodes[e].id.clone(), (t, s, e)));
                    assert(m@.drop_last() =~= old_m);
                    assert(season.episodes@.take(e + 1).drop_last() =~= season.episodes@.take(e as int));
                    assert(season.episodes@.take(e + 1).last() == season.episodes@[e as int]);
                    assert(episode_map_view(m@) =~= base2 + season_index(
                        season.episodes@.take(e + 1),
                        t as int,
                        s as int,
                    ));
                    e = e + 1;
                }
                assert(season.episodes@.take(e as int) =~= season.episodes@);
                assert(show.seasons@.take(s + 1).drop_last() =~= show.seasons@.take(s as int));
                assert(show.seasons@.take(s + 1).last() == show.seasons@[s as int]);
                assert(episode_map_view(m@) =~= base + show_episode_index(show.seasons@.take(s + 1), t as int));
                s = s + 1;
            }
            assert(show.seasons@.take(s as int) =~= show.seasons@);
            assert(library.shows@.take(t + 1).drop_last() =~= library.shows@.take(t as int));
            assert(library.shows@.take(t + 1).last() == library.shows@[t as int]);
            t = t + 1;
        }
        assert(library.shows@.take(t as int) =~= library.shows@);
        m
    }

    /// A freshly indexed library, stamped with the current time.
    pub fn new(movie_dir: String, tv_dir: String, library: Library) -> (r: MediaLibrary)
        ensures
            r@.movie_dir == movie_dir@,
            r@.tv_dir == tv_dir@,
            r@.library == library,
    {
        let show_map = Self::build_show_map(&library);
        let episode_map = Self::build_episode_map(&library);
        MediaLibrary { movie_dir, tv_dir, indexed_at: now(), library, show_map, episode_map }
    }

    /// A library read back from storage; its tables are built anew.
    pub fn restore(movie_dir: String, tv_dir: String, indexed_at: Timestamp, library: Library) -> (r:
        MediaLibrary)
        ensures
            r@ == (MediaLibraryView { movie_dir: movie_dir@, tv_dir: tv_dir@, indexed_at, library }),
    {
        let show_map = Self::build_show_map(&library);
        let episode_map = Self::build_episode_map(&library);
        MediaLibrary { movie_dir, tv_dir, indexed_at, library, show_map, episode_map }
    }

    /// Builds the show and episode tables again from the library.
    pub fn rebuild_maps(&mut self)
        ensures
            final(self)@ == old(self)@,
    {
        proof {
            use_type_invariant(&*self);
        }
        let show_map = Self::build_show_map(&self.library);
        let episode_map = Self::build_episode_map(&self.library);
        self.show_map = show_map;
        self.episode_map = episode_map;
    }

    pub fn movie_dir(&self) -> (r: &String)
        ensures
            r@ == self@.movie_dir,
    {
        &self.movie_dir
    }

    pub fn tv_dir(&self) -> (r: &String)
        ensures
            r@ == self@.tv_dir,
    {
        &self.tv_dir
    }

    pub fn indexed_at(&self) -> (r: Timestamp)
        ensures
            r == self@.indexed_at,
    {
        self.indexed_at
    }

    pub fn library(&self) -> (r: &Library)
        ensures
            *r == self@.library,
    {
        &self.library
    }

    /// The show with id `id` (the last one, where several share it).
    pub fn show_entry(&self, id: &str) -> (r: Option<&Tv>)
        ensures
            match last_with_key(show_index(self@.library.shows@), id@) {
                Some(t) => r == Some(&self@.library.shows@[t]),
                None => r is None,
            },
    {
        proof {
            use_type_invariant(self);
        }
        let mut i: usize = self.show_map.len();
        let ghost entries = show_index(self.library.shows@);
        proof {
            lemma_show_map_view_len(self.show_map@);
            lemma_show_index(self.library.shows@);
        }
        assert(entries.take(i as int) =~= entries);
        while i > 0
            invariant
                i <= self.show_map.len(),
                show_map_view(self.show_map@) == entries,
                entries.len() == self.show_map.len(),
                entries.len() == self.library.shows.len(),
                forall|q: int| 0 <= q < self.library.shows.len() ==> #[trigger] entries[q] == (self.library.shows@[q].id@, q),
                forall|q: int| 0 <= q < self.show_map.len() ==> #[trigger] entries[q] == (self.show_map@[q].0@, self.show_map@[q].1 as int),
                entries == show_index(self.library.shows@),
                last_with_key(entries, id@) == last_with_key(entries.take(i as int), id@),
            decreases i,
        {
            let ghost t = entries.take(i as int);
            assert(t.last() == entries[i - 1]);
            assert(entries[i - 1] == (self.show_map@[i - 1].0@, self.show_map@[i - 1].1 as int));
            if str_eq(self.show_map[i - 1].0.as_str(), id) {
                let k = self.show_map[i - 1].1;
                return Some(&self.library.shows[k]);
            }
            assert(t.drop_last() =~= entries.take(i - 1));
            i = i - 1;
        }
        None
    }

    /// The show, season and episode of the episode with id `id` (the last
    /// one, where several share it).
    pub fn episode_entry(&self, id: &str) -> (r: Option<(&Tv, &Season, &Episode)>)
        ensures
            match last_with_key(episode_index(self@.library.shows@), id@) {
                Some((t, s, e)) => {
                    &&& names_episode(self@.library.shows@, id@, t, s, e)
                    &&& r matches Some((tv, season, episode)) && *tv == self@.library.shows@[t] && *season
                        == self@.library.shows@[t].seasons@[s] && *episode
                        == self@.library.shows@[t].seasons@[s].episodes@[e]
                },
                None => r is None,
            },
    {
        proof {
            use_type_invariant(self);
        }
        let ghost shows = self.library.shows@;
        let ghost entries = episode_index(shows);
        let mut i: usize = self.episode_map.len();
        proof {
            lemma_episode_map_view_len(self.episode_map@);
        }
        assert(entries.take(i as int) =~= entries);
        while i > 0
            invariant
                i <= self.episode_map.len(),
                episode_map_view(self.episode_map@) == entries,
                entries.len() == self.episode_map.len(),
                forall|q: int| 0 <= q < self.episode_map.len() ==> #[trigger] entries[q] == (
                    self.episode_map@[q].0@,
                    (self.episode_map@[q].1.0 as int, self.episode_map@[q].1.1 as int, self.episode_map@[q].1.2 as int),
                ),
                shows == self.library.shows@,
                entries == episode_index(shows),
                last_with_key(entries, id@) == last_with_key(entries.take(i as int), id@),
            decreases i,
        {
            let ghost tk = entries.take(i as int);
            assert(tk.last() == entries[i - 1]);
            let entry = &self.episode_map[i - 1];
            if str_eq(entry.0.as_str(), id) {
                let (t, s, e) = entry.1;
                proof {
                    assert(shows == shows.take(shows.len() as int));
                    lemma_episode_index_valid(shows, shows, i - 1);
                }
                let tv = &self.library.shows[t];
                let season = &tv.seasons[s];
                let episode = &season.episodes[e];
                return Some((tv, season, episode));
            }
            assert(tk.drop_last() =~= entries.take(i - 1));
            i = i - 1;
        }
        None
    }

    /// The first movie with id `id`.
    pub fn find_movie(&self, id: &str) -> (r: Option<&Movie>)
        ensures
            match first_movie_with_id(self@.library.movies@, id@) {
                Some(i) => r == Some(&self@.library.movies@[i]),
                None => r is None,
            },
    {
        let movies = &self.library.movies;
        let mut i: usize = 0;
        while i < movies.len()
            invariant
                i <= movies.len(),
                *movies == self.library.movies,
                first_movie_with_id(movies@.take(i as int), id@) is None,
            decreases movies.len() - i,
        {
            assert(movies@.take(i + 1).drop_last() =~= movies@.take(i as int));
            if str_eq(movies[i].id.as_str(), id) {
                proof {
                    lemma_first_movie_prefix(movies@, id@, i + 1);
                }
                return Some(&movies[i]);
            }
            i = i + 1;
        }
        assert(movies@.take(i as int) =~= movies@);
        None
    }

    /// The position of episode `e` of season `s` in its show's viewing order.
    fn flat_position(tv: &Tv, s: usize, e: usize) -> (r: usize)
        requires
            s < tv.seasons.len(),
            e < tv.seasons@[s as int].episodes.len(),
            flat_episodes(tv.seasons@).len() <= usize::MAX,
        ensures
            r == flat_episodes(tv.seasons@.take(s as int)).len() + e,
            r < flat_episodes(tv.seasons@).len(),
    {
        let mut sum: usize = 0;
        let mut j: usize = 0;
        while j < s
            invariant
                j <= s,
                s < tv.seasons.len(),
                sum == flat_episodes(tv.seasons@.take(j as int)).len(),
                flat_episodes(tv.seasons@).len() <= usize::MAX,
            decreases s - j,
        {
            assert(tv.seasons@.take(j + 1).drop_last() =~= tv.seasons@.take(j as int));
            assert(tv.seasons@.take(j + 1).last() == tv.seasons@[j as int]);
            proof {
                lemma_flat_prefix_len(tv.seasons@, j + 1);
            }
            sum = sum + tv.seasons[j].episodes.len();
            j = j + 1;
        }
        proof {
            assert(tv.seasons@.take(s + 1).drop_last() =~= tv.seasons@.take(s as int));
            assert(tv.seasons@.take(s + 1).last() == tv.seasons@[s as int]);
            lemma_flat_prefix_len(tv.seasons@, s + 1);
        }
        sum + e
    }

    fn find_episode_position(&self, id: &str) -> (r: Option<(Vec<Episode>, usize)>)
        ensures
            match last_with_key(episode_index(self@.library.shows@), id@) {
                Some((t, s, e)) => r matches Some((flat, p)) && flat@ == flat_episodes(
                    self@.library.shows@[t].seasons@,
                ) && p == flat_episodes(self@.library.shows@[t].seasons@.take(s)).len() + e
                    && p < flat@.len(),
                None => r is None,
            },
            match r {
                Some((flat, p)) => p < flat@.len(),
                None => true,
            },
    {
        proof {
            use_type_invariant(self);
        }
        let ghost shows = self.library.shows@;
        let ghost entries = episode_index(shows);
        let mut i: usize = self.episode_map.len();
        proof {
            lemma_episode_map_view_len(self.episode_map@);
        }
        assert(entries.take(i as int) =~= entries);
        while i > 0
            invariant
                i <= self.episode_map.len(),
                episode_map_view(self.episode_map@) == entries,
                entries.len() == self.episode_map.len(),
                forall|q: int| 0 <= q < self.episode_map.len() ==> #[trigger] entries[q] == (
                    self.episode_map@[q].0@,
                    (self.episode_map@[q].1.0 as int, self.episode_map@[q].1.1 as int, self.episode_map@[q].1.2 as int),
                ),
                shows == self.library.shows@,
                entries == episode_index(shows),
                last_with_key(entries, id@) == last_with_key(entries.take(i as int), id@),
            decreases i,
        {
            let ghost tk = entries.take(i as int);
            assert(tk.last() == entries[i - 1]);
            let entry = &self.episode_map[i - 1];
            if str_eq(entry.0.as_str(), id) {
                let (t, s, e) = entry.1;
                proof {
                    assert(shows == shows.take(shows.len() as int));
                    lemma_episode_index_valid(shows, shows, i - 1);
                }
                let tv = &self.library.shows[t];
                let flat = tv.flatten_show();
                let n = flat.len();
                assert(n == flat_episodes(tv.seasons@).len());
                let p = Self::flat_position(tv, s, e);
                return Some((flat, p));
            }
            assert(tk.drop_last() =~= entries.take(i - 1));
            i = i - 1;
        }
        None
    }

    /// The episode that follows the episode with id `id` in its show's viewing
    /// order (season after season), where there is one.
    pub fn get_next_episode(&self, id: &str) -> (r: Option<Episode>)
        ensures
            r == spec_next_episode(self@.library.shows@, id@),
    {
        let found = self.find_episode_position(id);
        match found {
            None => None,
            Some((flat, p)) => {
                assert(p < flat@.len());
                if p < flat.len() - 1 {
                    Some(flat[p + 1].duplicate())
                } else {
                    None
                }
            },
        }
    }

    /// The episode that precedes the episode with id `id` in its show's
    /// viewing order (season after season), where there is one.
    pub fn get_prev_episode(&self, id: &str) -> (r: Option<Episode>)
        ensures
            r == spec_prev_episode(self@.library.shows@, id@),
    {
        match self.find_episode_position(id) {
            None => None,
            Some((flat, p)) => {
                if p >= 1 && p - 1 < flat.len() {
                    Some(flat[p - 1].duplicate())
                } else {
                    None
                }
            },
        }
    }
}

proof fn lemma_show_episode_index_contains(ss: Seq<Season>, t: int, s: int, e: int)
    requires
        0 <= s < ss.len(),
        0 <= e < ss[s].episodes@.len(),
    ensures
        exists|i: int|
            0 <= i < show_episode_index(ss, t).len() && #[trigger] show_episode_index(ss, t)[i] == (
                ss[s].episodes@[e].id@,
                (t, s, e),
            ),
    decreases ss.len(),
{
    let prefix = show_episode_index(ss.drop_last(), t);
    if s < ss.len() - 1 {
        assert(ss.drop_last()[s] == ss[s]);
        lemma_show_episode_index_contains(ss.drop_last(), t, s, e);
        let i = choose|i: int|
            0 <= i < prefix.len() && #[trigger] prefix[i] == (ss[s].episodes@[e].id@, (t, s, e));
        assert(show_episode_index(ss, t)[i] == prefix[i]);
    } else {
        lemma_season_index(ss.last().episodes@, t, s);
        assert(show_episode_index(ss, t)[prefix.len() + e] == season_index(ss.last().episodes@, t, s)[e]);
    }
}

proof fn lemma_episode_index_contains(shows: Seq<Tv>, t: int, s: int, e: int)
    requires
        0 <= t < shows.len(),
        0 <= s < shows[t].seasons@.len(),
        0 <= e < shows[t].seasons@[s].episodes@.len(),
    ensures
        exists|i: int|
            0 <= i < episode_index(shows).len() && #[trigger] episode_index(shows)[i] == (
                shows[t].seasons@[s].episodes@[e].id@,
                (t, s, e),
            ),
    decreases shows.len(),
{
    let prefix = episode_index(shows.drop_last());
    let key = shows[t].seasons@[s].episodes@[e].id@;
    if t < shows.len() - 1 {
        assert(shows.drop_last()[t] == shows[t]);
        lemma_episode_index_contains(shows.drop_last(), t, s, e);
        let i = choose|i: int| 0 <= i < prefix.len() && #[trigger] prefix[i] == (key, (t, s, e));
        assert(episode_index(shows)[i] == prefix[i]);
    } else {
        lemma_show_episode_index_contains(shows.last().seasons@, t, s, e);
        let sub = show_episode_index(shows.last().seasons@, t);
        let j = choose|j: int| 0 <= j < sub.len() && #[trigger] sub[j] == (key, (t, s, e));
        assert(episode_index(shows)[prefix.len() + j] == sub[j]);
    }
}

/// Looking up an episode by id in a library's episode table finds an episode
/// exactly when the library holds one with that id, and what it finds is an
/// episode with that id.
pub proof fn lemma_episode_lookup(shows: Seq<Tv>, id: Seq<char>)
    ensures
        (exists|t: int, s: int, e: int| names_episode(shows, id, t, s, e)) <==> last_with_key(
            episode_index(shows),
            id,
        ) is Some,
        match last_with_key(episode_index(shows), id) {
            Some((t, s, e)) => names_episode(shows, id, t, s, e),
            None => true,
        },
{
    let entries = episode_index(shows);
    lemma_last_with_key_in(entries, id);
    match last_with_key(entries, id) {
        Some(v) => {
            let i = choose|i: int| 0 <= i < entries.len() && entries[i] == (id, v);
            assert(shows == shows.take(shows.len() as int));
            lemma_episode_index_valid(shows, shows, i);
        },
        None => {
            if exists|t: int, s: int, e: int| names_episode(shows, id, t, s, e) {
                let (t, s, e) = choose|t: int, s: int, e: int| names_episode(shows, id, t, s, e);
                lemma_episode_index_contains(shows, t, s, e);
                let i = choose|i: int| 0 <= i < entries.len() && #[trigger] entries[i] == (id, (t, s, e));
                assert(entries[i].0 == id);
            }
        },
    }
}

/// Looking up a show by id in a library's show table finds a show exactly
/// when the library holds one with that id, and what it finds has that id.
pub proof fn lemma_show_lookup(shows: Seq<Tv>, id: Seq<char>)
    ensures
        (exists|t: int| 0 <= t < shows.len() && #[trigger] shows[t].id@ == id) <==> last_with_key(
            show_index(shows),
            id,
        ) is Some,
        match last_with_key(show_index(shows), id) {
            Some(t) => 0 <= t < shows.len() && shows[t].id@ == id,
            None => true,
        },
{
    let entries = show_index(shows);
    lemma_show_index(shows);
    lemma_last_with_key_in(entries, id);
    match last_with_key(entries, id) {
        Some(v) => {
            let i = choose|i: int| 0 <= i < entries.len() && entries[i] == (id, v);
            assert(entries[i] == (shows[i].id@, i));
        },
        None => {
            if exists|t: int| 0 <= t < shows.len() && #[trigger] shows[t].id@ == id {
                let t = choose|t: int| 0 <= t < shows.len() && #[trigger] shows[t].id@ == id;
                assert(entries[t] == (shows[t].id@, t));
            }
        },
    }
}

/// No two episodes of the shows share an id, as freshly generated ids do not.
pub open spec fn episode_ids_unique(shows: Seq<Tv>) -> bool {
    forall|key: Seq<char>, t1: int, s1: int, e1: int, t2: int, s2: int, e2: int|
        #![trigger names_episode(shows, key, t1, s1, e1), names_episode(shows, key, t2, s2, e2)]
        names_episode(shows, key, t1, s1, e1) && names_episode(shows, key, t2, s2, e2) ==> t1 == t2
            && s1 == s2 && e1 == e2
}

proof fn lemma_flat_position(ss: Seq<Season>, p: int) -> (se: (int, int))
    requires
        0 <= p < flat_episodes(ss).len(),
    ensures
        0 <= se.0 < ss.len(),
        0 <= se.1 < ss[se.0].episodes@.len(),
        p == flat_episodes(ss.take(se.0)).len() + se.1,
        flat_episodes(ss)[p] == ss[se.0].episodes@[se.1],
    decreases ss.len(),
{
    let ss0 = ss.drop_last();
    let n0 = flat_episodes(ss0).len();
    if p < n0 {
        let (s, e) = lemma_flat_position(ss0, p);
        assert(ss.take(s) =~= ss0.take(s));
        assert(ss[s] == ss0[s]);
        assert(flat_episodes(ss)[p] == flat_episodes(ss0)[p]);
        (s, e)
    } else {
        let s = ss.len() - 1;
        assert(ss.take(s) =~= ss0);
        (s, p - n0)
    }
}

proof fn lemma_flat_index(ss: Seq<Season>, s: int, e: int)
    requires
        0 <= s < ss.len(),
        0 <= e < ss[s].episodes@.len(),
    ensures
        flat_episodes(ss.take(s)).len() + e < flat_episodes(ss).len(),
        flat_episodes(ss)[flat_episodes(ss.take(s)).len() + e] == ss[s].episodes@[e],
    decreases ss.len(),
{
    let ss0 = ss.drop_last();
    if s == ss.len() - 1 {
        assert(ss.take(s) =~= ss0);
    } else {
        lemma_flat_index(ss0, s, e);
        assert(ss.take(s) =~= ss0.take(s));
        assert(ss[s] == ss0[s]);
    }
}

proof fn lemma_unique_lookup(shows: Seq<Tv>, t: int, s: int, e: int)
    requires
        episode_ids_unique(shows),
        0 <= t < shows.len(),
        0 <= s < shows[t].seasons@.len(),
        0 <= e < shows[t].seasons@[s].episodes@.len(),
    ensures
        last_with_key(episode_index(shows), shows[t].seasons@[s].episodes@[e].id@) == Some((t, s, e)),
{
    let key = shows[t].seasons@[s].episodes@[e].id@;
    assert(names_episode(shows, key, t, s, e));
    lemma_episode_lookup(shows, key);
    match last_with_key(episode_index(shows), key) {
        Some((t2, s2, e2)) => {
            assert(names_episode(shows, key, t2, s2, e2));
        },
        None => {},
    }
}

/// In a show's viewing order (season after season), where episode ids are
/// unique: the episode before the one at position `p` is the one at `p - 1`,
/// the one after the one at `p - 1` is the one at `p`; the first episode has
/// none before it and the last none after it.
pub proof fn lemma_neighbours_in_viewing_order(shows: Seq<Tv>, t: int, p: int)
    requires
        episode_ids_unique(shows),
        0 <= t < shows.len(),
        0 <= p < flat_episodes(shows[t].seasons@).len(),
    ensures
        p >= 1 ==> spec_prev_episode(shows, flat_episodes(shows[t].seasons@)[p].id@) == Some(
            flat_episodes(shows[t].seasons@)[p - 1],
        ),
        p >= 1 ==> spec_next_episode(shows, flat_episodes(shows[t].seasons@)[p - 1].id@) == Some(
            flat_episodes(shows[t].seasons@)[p],
        ),
        p == 0 ==> spec_prev_episode(shows, flat_episodes(shows[t].seasons@)[p].id@) is None,
        p == flat_episodes(shows[t].seasons@).len() - 1 ==> spec_next_episode(
            shows,
            flat_episodes(shows[t].seasons@)[p].id@,
        ) is None,
{
    let ss = shows[t].seasons@;
    let (s, e) = lemma_flat_position(ss, p);
    lemma_unique_lookup(shows, t, s, e);
    if p >= 1 {
        let (s1, e1) = lemma_flat_position(ss, p - 1);
        lemma_unique_lookup(shows, t, s1, e1);
    }
}

/// Where episode ids are unique, the episode before the one after an episode
/// is that episode: stepping back undoes stepping forward.
pub proof fn lemma_previous_undoes_next(shows: Seq<Tv>, id: Seq<char>)
    requires
        episode_ids_unique(shows),
        spec_next_episode(shows, id) is Some,
    ensures
        spec_prev_episode(shows, spec_next_episode(shows, id)->0.id@) matches Some(x) && x.id@ == id,
{
    lemma_episode_lookup(shows, id);
    let (t, s, e) = last_with_key(episode_index(shows), id)->0;
    let ss = shows[t].seasons@;
    lemma_flat_index(ss, s, e);
    let p = flat_episodes(ss.take(s)).len() + e;
    lemma_neighbours_in_viewing_order(shows, t, p + 1);
}

proof fn lemma_first_movie_prefix(movies: Seq<Movie>, id: Seq<char>, j: int)
    requires
        0 < j <= movies.len(),
        first_movie_with_id(movies.take(j - 1), id) is None,
        movies[j - 1].id@ == id,
    ensures
        first_movie_with_id(movies, id) == Some(j - 1),
{
    assert(movies.take(j).drop_last() =~= movies.take(j - 1));
    assert(movies.take(j).last() == movies[j - 1]);
    assert(first_movie_with_id(movies.take(j), id) == Some(j - 1));
    lemma_first_movie_grow(movies, id, j, j - 1);
}

proof fn lemma_first_movie_grow(movies: Seq<Movie>, id: Seq<char>, j: int, x: int)
    requires
        0 <= j <= movies.len(),
        first_movie_with_id(movies.take(j), id) == Some(x),
    ensures
        first_movie_with_id(movies, id) == Some(x),
    decreases movies.len() - j,
{
    if j < movies.len() {
        assert(movies.take(j + 1).drop_last() =~= movies.take(j));
        lemma_first_movie_grow(movies, id, j + 1, x);
    } else {
        assert(movies.take(j) =~= movies);
    }
}

} // verus!
