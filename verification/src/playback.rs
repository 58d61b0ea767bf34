//! Decisions about what to play.

use vstd::prelude::*;
use crate::clock::spec_earlier;
use crate::indexer::{Episode, Movie};
use crate::library::{
    episode_index, first_movie_with_id, last_with_key, lemma_episode_lookup, spec_next_episode,
    str_eq, MediaLibrary,
};
use crate::state::{MediaType, WatchEntry};

verus! {

/// The latest record about a show, as `max_by_key` on the watch time picks it
/// (the last one where several share the latest time).
pub open spec fn latest_show_entry(h: Seq<WatchEntry>) -> Option<int>
    decreases h.len(),
{
    if h.len() == 0 {
        None
    } else {
        let best = latest_show_entry(h.drop_last());
        if h.last().media_type == MediaType::Show && (match best {
            Some(b) => !spec_earlier(h.last().watched_at, h[b].watched_at),
            None => true,
        }) {
            Some(h.len() - 1)
        } else {
            best
        }
    }
}

/// The position of the first episode with id `id`.
pub open spec fn first_episode_with_id(eps: Seq<Episode>, id: Seq<char>) -> Option<int>
    decreases eps.len(),
{
    if eps.len() == 0 {
        None
    } else {
        match first_episode_with_id(eps.drop_last(), id) {
            Some(i) => Some(i),
            None => if eps.last().id@ == id {
                Some(eps.len() - 1)
            } else {
                None
            },
        }
    }
}

/// Which episode of a show to play, given the show's watch history: the one
/// last watched if it was left unfinished, the one after it if it was
/// finished, and the first episode where there is no history (or the last
/// watched episode is not among `eps`).
pub open spec fn spec_select_episode(eps: Seq<Episode>, history: Seq<WatchEntry>) -> Option<int> {
    let first = if eps.len() > 0 {
        Some(0int)
    } else {
        None
    };
    match latest_show_entry(history) {
        None => first,
        Some(b) => match first_episode_with_id(eps, history[b].media_id@) {
            Some(i) => if !history[b].complete {
                Some(i)
            } else if i + 1 < eps.len() {
                Some(i + 1)
            } else {
                None
            },
            None => first,
        },
    }
}

proof fn lemma_latest_show_entry_range(h: Seq<WatchEntry>)
    ensures
        match latest_show_entry(h) {
            Some(b) => 0 <= b < h.len(),
            None => true,
        },
    decreases h.len(),
{
    if h.len() > 0 {
        lemma_latest_show_entry_range(h.drop_last());
    }
}

proof fn lemma_first_episode_range(eps: Seq<Episode>, id: Seq<char>)
    ensures
        match first_episode_with_id(eps, id) {
            Some(i) => 0 <= i < eps.len(),
            None => true,
        },
    decreases eps.len(),
{
    if eps.len() > 0 {
        lemma_first_episode_range(eps.drop_last(), id);
    }
}

fn latest_show_entry_exec(history: &[WatchEntry]) -> (r: Option<usize>)
    ensures
        match r {
            Some(b) => latest_show_entry(history@) == Some(b as int),
            None => latest_show_entry(history@) is None,
        },
{
    let mut best: Option<usize> = None;
    let mut i: usize = 0;
    while i < history.len()
        invariant
            i <= history.len(),
            match best {
                Some(b) => b < i && latest_show_entry(history@.take(i as int)) == Some(b as int),
                None => latest_show_entry(history@.take(i as int)) is None,
            },
        decreases history.len() - i,
    {
        let ghost t = history@.take(i + 1);
        assert(t.drop_last() =~= history@.take(i as int));
        assert(t.last() == history@[i as int]);
        let entry = &history[i];
        if entry.media_type == MediaType::Show {
            let better = match best {
                None => true,
                Some(b) => {
                    assert(t[b as int] == history@[b as int]);
                    !entry.watched_at.is_earlier_than(&history[b].watched_at)
                },
            };
            if better {
                best = Some(i);
            }
        }
        i = i + 1;
    }
    assert(history@.take(i as int) =~= history@);
    best
}

fn first_episode_with_id_exec(eps: &[Episode], id: &str) -> (r: Option<usize>)
    ensures
        match r {
            Some(i) => first_episode_with_id(eps@, id@) == Some(i as int),
            None => first_episode_with_id(eps@, id@) is None,
        },
{
    let mut i: usize = 0;
    while i < eps.len()
        invariant
            i <= eps.len(),
            first_episode_with_id(eps@.take(i as int), id@) is None,
        decreases eps.len() - i,
    {
        assert(eps@.take(i + 1).drop_last() =~= eps@.take(i as int));
        assert(eps@.take(i + 1).last() == eps@[i as int]);
        if str_eq(eps[i].id.as_str(), id) {
            proof {
                lemma_first_episode_grow(eps@, id@, i + 1, i as int);
            }
            return Some(i);
        }
        i = i + 1;
    }
    assert(eps@.take(i as int) =~= eps@);
    None
}

proof fn lemma_first_episode_grow(eps: Seq<Episode>, id: Seq<char>, j: int, x: int)
    requires
        0 <= j <= eps.len(),
        first_episode_with_id(eps.take(j), id) == Some(x),
    ensures
        first_episode_with_id(eps, id) == Some(x),
    decreases eps.len() - j,
{
    if j < eps.len() {
        assert(eps.take(j + 1).drop_last() =~= eps.take(j));
        lemma_first_episode_grow(eps, id, j + 1, x);
    } else {
        assert(eps.take(j) =~= eps);
    }
}

/// Picks the episode of a show to play from the show's episodes (in viewing
/// order) and its watch history.
pub fn select_episode_to_play<'a>(episodes: &'a [Episode], history: &[WatchEntry]) -> (r: Option<
    &'a Episode,
>)
    ensures
        match spec_select_episode(episodes@, history@) {
            Some(i) => 0 <= i < episodes@.len() && r == Some(&episodes@[i]),
            None => r is None,
        },
{
    proof {
        lemma_latest_show_entry_range(history@);
    }
    match latest_show_entry_exec(history) {
        None => if episodes.len() > 0 {
            Some(&episodes[0])
        } else {
            None
        },
        Some(b) => {
            let entry = &history[b];
            proof {
                lemma_first_episode_range(episodes@, entry.media_id@);
            }
            match first_episode_with_id_exec(episodes, entry.media_id.as_str()) {
                Some(i) => if !entry.complete {
                    Some(&episodes[i])
                } else if i < episodes.len() - 1 {
                    Some(&episodes[i + 1])
                } else {
                    None
                },
                None => if episodes.len() > 0 {
                    Some(&episodes[0])
                } else {
                    None
                },
            }
        },
    }
}


/// The records about shows, in their order.
pub open spec fn show_records(h: Seq<WatchEntry>) -> Seq<WatchEntry>
    decreases h.len(),
{
    if h.len() == 0 {
        seq![]
    } else if h.last().media_type == MediaType::Show {
        show_records(h.drop_last()).push(h.last())
    } else {
        show_records(h.drop_last())
    }
}

/// The latest record about a show itself.
pub open spec fn latest_show_record(h: Seq<WatchEntry>) -> Option<WatchEntry> {
    match latest_show_entry(h) {
        Some(b) => Some(h[b]),
        None => None,
    }
}

proof fn lemma_latest_show_record_of_shows(h: Seq<WatchEntry>)
    ensures
        latest_show_record(h) == latest_show_record(show_records(h)),
    decreases h.len(),
{
    if h.len() > 0 {
        let h0 = h.drop_last();
        lemma_latest_show_record_of_shows(h0);
        lemma_latest_show_entry_range(h0);
        lemma_latest_show_entry_range(show_records(h0));
        match latest_show_entry(h0) {
            Some(b) => {
                assert(h[b] == h0[b]);
            },
            None => {},
        }
        if h.last().media_type == MediaType::Show {
            let s0 = show_records(h0);
            let s = s0.push(h.last());
            assert(s.drop_last() =~= s0);
            assert(s.last() == h.last());
            match latest_show_entry(s0) {
                Some(b) => {
                    assert(s[b] == s0[b]);
                },
                None => {},
            }
        }
    }
}

/// Records about movies make no difference to which episode of a show is
/// chosen: two histories whose show records are the same, in the same order,
/// lead to the same choice.
pub proof fn lemma_movie_records_do_not_matter(
    eps: Seq<Episode>,
    h1: Seq<WatchEntry>,
    h2: Seq<WatchEntry>,
)
    requires
        show_records(h1) == show_records(h2),
    ensures
        spec_select_episode(eps, h1) == spec_select_episode(eps, h2),
{
    lemma_latest_show_record_of_shows(h1);
    lemma_latest_show_record_of_shows(h2);
    assert(latest_show_record(h1) == latest_show_record(h2));
}


/// What resuming does, given the latest watch records.
#[derive(Clone, Debug)]
pub enum ResumePlan {
    /// Resume a movie left unfinished, at the recorded progress (percent).
    ResumeMovie { movie: Movie, progress: i16 },
    /// Resume an episode left unfinished, at the recorded progress (percent).
    ResumeEpisode { episode: Episode, progress: i16 },
    /// Play the episode after the latest one, which was finished.
    PlayNext { episode: Episode },
    /// The latest show episode was finished and is the last of its show.
    NoMoreEpisodes,
    /// Everything was finished and the latest record is about a movie.
    NoRecentShow,
    /// Nothing to do: no records, or the unfinished item is not in the library.
    Nothing,
}

/// The first record of something left unfinished.
pub open spec fn first_unfinished(h: Seq<WatchEntry>) -> Option<int>
    decreases h.len(),
{
    if h.len() == 0 {
        None
    } else {
        match first_unfinished(h.drop_last()) {
            Some(i) => Some(i),
            None => if !h.last().complete {
                Some(h.len() - 1)
            } else {
                None
            },
        }
    }
}

/// The plan for resuming, from the latest records (newest first) and the
/// library: the first unfinished item is resumed at its progress; where all
/// are finished and the newest is an episode, the next episode is played.
pub open spec fn spec_resume_plan(recent: Seq<WatchEntry>, index: MediaLibrary) -> ResumePlan {
    let movies = index@.library.movies@;
    let shows = index@.library.shows@;
    match first_unfinished(recent) {
        Some(k) => {
            let e = recent[k];
            match e.media_type {
                MediaType::Movie => match first_movie_with_id(movies, e.media_id@) {
                    Some(i) => ResumePlan::ResumeMovie { movie: movies[i], progress: e.progress },
                    None => ResumePlan::Nothing,
                },
                MediaType::Show => match last_with_key(episode_index(shows), e.media_id@) {
                    Some((t, s, x)) => ResumePlan::ResumeEpisode {
                        episode: shows[t].seasons@[s].episodes@[x],
                        progress: e.progress,
                    },
                    None => ResumePlan::Nothing,
                },
            }
        },
        None => if recent.len() == 0 {
            ResumePlan::Nothing
        } else if recent[0].media_type == MediaType::Show {
            match spec_next_episode(shows, recent[0].media_id@) {
                Some(n) => ResumePlan::PlayNext { episode: n },
                None => ResumePlan::NoMoreEpisodes,
            }
        } else {
            ResumePlan::NoRecentShow
        },
    }
}

/// Record `k` is the first record of something left unfinished.
pub open spec fn is_first_unfinished(h: Seq<WatchEntry>, k: int) -> bool {
    &&& 0 <= k < h.len()
    &&& !h[k].complete
    &&& forall|j: int| 0 <= j < k ==> #[trigger] h[j].complete
}

proof fn lemma_first_unfinished_is_first(h: Seq<WatchEntry>)
    ensures
        match first_unfinished(h) {
            Some(k) => is_first_unfinished(h, k),
            None => forall|j: int| 0 <= j < h.len() ==> #[trigger] h[j].complete,
        },
    decreases h.len(),
{
    if h.len() > 0 {
        let h0 = h.drop_last();
        lemma_first_unfinished_is_first(h0);
        match first_unfinished(h0) {
            Some(k) => {
                assert(h[k] == h0[k]);
                assert forall|j: int| 0 <= j < k implies #[trigger] h[j].complete by {
                    assert(h[j] == h0[j]);
                }
            },
            None => {
                assert forall|j: int| 0 <= j < h.len() - 1 implies #[trigger] h[j].complete by {
                    assert(h[j] == h0[j]);
                }
            },
        }
    }
}

proof fn lemma_first_movie_has_id(movies: Seq<Movie>, id: Seq<char>)
    ensures
        match first_movie_with_id(movies, id) {
            Some(i) => 0 <= i < movies.len() && movies[i].id@ == id,
            None => true,
        },
    decreases movies.len(),
{
    if movies.len() > 0 {
        lemma_first_movie_has_id(movies.drop_last(), id);
        match first_movie_with_id(movies.drop_last(), id) {
            Some(i) => {
                assert(movies[i] == movies.drop_last()[i]);
            },
            None => {},
        }
    }
}

/// Resuming takes up the first record of something left unfinished, where
/// the library holds its item: it resumes that movie or episode (the one with
/// the record's id) at the progress the record holds.
pub proof fn lemma_resume_takes_up_first_unfinished(recent: Seq<WatchEntry>, index: MediaLibrary)
    ensures
        match spec_resume_plan(recent, index) {
            ResumePlan::ResumeMovie { movie, progress } => exists|k: int|
                #![trigger recent[k]]
                is_first_unfinished(recent, k) && recent[k].media_type == MediaType::Movie
                    && movie.id@ == recent[k].media_id@ && progress == recent[k].progress,
            ResumePlan::ResumeEpisode { episode, progress } => exists|k: int|
                #![trigger recent[k]]
                is_first_unfinished(recent, k) && recent[k].media_type == MediaType::Show
                    && episode.id@ == recent[k].media_id@ && progress == recent[k].progress,
            _ => true,
        },
{
    lemma_first_unfinished_is_first(recent);
    match first_unfinished(recent) {
        Some(k) => {
            let e = recent[k];
            lemma_first_movie_has_id(index@.library.movies@, e.media_id@);
            lemma_episode_lookup(index@.library.shows@, e.media_id@);
            assert(is_first_unfinished(recent, k));
        },
        None => {},
    }
}

fn first_unfinished_exec(h: &[WatchEntry]) -> (r: Option<usize>)
    ensures
        match r {
            Some(i) => first_unfinished(h@) == Some(i as int) && i < h@.len(),
            None => first_unfinished(h@) is None,
        },
{
    let mut i: usize = 0;
    while i < h.len()
        invariant
            i <= h.len(),
            first_unfinished(h@.take(i as int)) is None,
        decreases h.len() - i,
    {
        assert(h@.take(i + 1).drop_last() =~= h@.take(i as int));
        assert(h@.take(i + 1).last() == h@[i as int]);
        if !h[i].complete {
            proof {
                lemma_first_unfinished_grow(h@, i + 1, i as int);
            }
            return Some(i);
        }
        i = i + 1;
    }
    assert(h@.take(i as int) =~= h@);
    None
}

proof fn lemma_first_unfinished_grow(h: Seq<WatchEntry>, j: int, x: int)
    requires
        0 <= j <= h.len(),
        first_unfinished(h.take(j)) == Some(x),
    ensures
        first_unfinished(h) == Some(x),
    decreases h.len() - j,
{
    if j < h.len() {
        assert(h.take(j + 1).drop_last() =~= h.take(j));
        lemma_first_unfinished_grow(h, j + 1, x);
    } else {
        assert(h.take(j) =~= h);
    }
}

/// Decides what resuming plays, from the latest records (newest first).
pub fn plan_resume(recent: &[WatchEntry], index: &MediaLibrary) -> (r: ResumePlan)
    ensures
        r == spec_resume_plan(recent@, *index),
{
    match first_unfinished_exec(recent) {
        Some(k) => {
            let e = &recent[k];
            match e.media_type {
                MediaType::Movie => match index.find_movie(e.media_id.as_str()) {
                    Some(m) => ResumePlan::ResumeMovie { movie: m.duplicate(), progress: e.progress },
                    None => ResumePlan::Nothing,
                },
                MediaType::Show => match index.episode_entry(e.media_id.as_str()) {
                    Some((_, _, ep)) => ResumePlan::ResumeEpisode {
                        episode: ep.duplicate(),
                        progress: e.progress,
                    },
                    None => ResumePlan::Nothing,
                },
            }
        },
        None => {
            if recent.len() == 0 {
                ResumePlan::Nothing
            } else if recent[0].media_type == MediaType::Show {
                match index.get_next_episode(recent[0].media_id.as_str()) {
                    Some(n) => ResumePlan::PlayNext { episode: n },
                    None => ResumePlan::NoMoreEpisodes,
                }
            } else {
                ResumePlan::NoRecentShow
            }
        },
    }
}

} // verus!
