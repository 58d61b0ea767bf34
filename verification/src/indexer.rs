//! Building the media library from the files found in the movie and show
//! directories.
//!
//! Walking the directories is left to the caller, which hands over what it
//! found as `FileEntry`, `SeasonDir` and `ShowDir` values, in the order of the
//! walk.

use vstd::prelude::*;
use crate::clock::{is_id_char, new_id, Timestamp};
use crate::paths::{file_name, file_stem, spec_file_name, spec_file_stem, spec_valid_ext, valid_ext};
use crate::sorting::{is_stable_order, is_stable_sort, key_views, sort_by_keys};
use crate::text::{chars_to_string, i32_decimal, lowercase_key, lowercased, spec_i32_decimal, str_chars};
use crate::utils::{guess_name, guess_season, spec_guess_name, spec_guess_season};

verus! {

/// A movie file.
#[derive(Clone, Debug)]
pub struct Movie {
    pub id: String,
    pub name: String,
    pub path: String,
    pub created_at: Timestamp,
    pub size: u64,
}

/// An episode file.
#[derive(Clone, Debug)]
pub struct Episode {
    pub id: String,
    pub name: String,
    pub path: String,
    pub created_at: Timestamp,
    pub size: u64,
}

/// A season of a show, with its episodes sorted by name.
#[derive(Clone, Debug)]
pub struct Season {
    pub id: String,
    pub name: String,
    pub number: i32,
    pub episodes: Vec<Episode>,
}

/// A show, with its seasons sorted by number.
#[derive(Clone, Debug)]
pub struct Tv {
    pub id: String,
    pub name: String,
    pub seasons: Vec<Season>,
}

/// Everything indexed: movies and shows, each sorted by name.
#[derive(Clone, Debug)]
pub struct Library {
    pub movies: Vec<Movie>,
    pub shows: Vec<Tv>,
}

/// A file met while walking a directory: its path, its creation time (or,
/// failing that, its modification time or the time of the walk) and its size.
#[derive(Clone, Debug)]
pub struct FileEntry {
    pub path: String,
    pub created_at: Timestamp,
    pub size: u64,
}

/// A directory inside a show directory, with the files directly in it.
#[derive(Clone, Debug)]
pub struct SeasonDir {
    pub path: String,
    pub files: Vec<FileEntry>,
}

/// A directory directly inside the show directory: its subdirectories and the
/// files directly in it.
#[derive(Clone, Debug)]
pub struct ShowDir {
    pub path: String,
    pub season_dirs: Vec<SeasonDir>,
    pub files: Vec<FileEntry>,
}

/// What is recorded of a media file apart from its generated id:
/// name, path, creation time and size.
pub type Shape = (Seq<char>, Seq<char>, Timestamp, u64);

pub open spec fn movie_shape(m: Movie) -> Shape {
    (m.name@, m.path@, m.created_at, m.size)
}

pub open spec fn episode_shape(e: Episode) -> Shape {
    (e.name@, e.path@, e.created_at, e.size)
}

/// An id as the indexer generates them: ten characters of the id alphabet.
#[verifier::opaque]
pub open spec fn is_new_id(id: Seq<char>) -> bool {
    id.len() == 10 && forall|i: int| 0 <= i < id.len() ==> is_id_char(#[trigger] id[i])
}

/// The sort key of a name: its Unicode lowercase form.
pub open spec fn name_key(s: Shape) -> Seq<char> {
    lowercased(s.0)
}

pub open spec fn name_keys(s: Seq<Shape>) -> Seq<Seq<char>> {
    s.map_values(|x: Shape| name_key(x))
}

/// The items that `f` keeps of `fs`, in order.
pub open spec fn keep_files(fs: Seq<FileEntry>, f: spec_fn(FileEntry) -> Option<Shape>) -> Seq<Shape>
    decreases fs.len(),
{
    if fs.len() == 0 {
        seq![]
    } else {
        let rest = keep_files(fs.drop_last(), f);
        match f(fs.last()) {
            Some(x) => rest.push(x),
            None => rest,
        }
    }
}

/// A movie is made of a media file whose name has a stem; its name is the
/// title guessed from that stem.
pub open spec fn movie_candidate(f: FileEntry) -> Option<Shape> {
    if spec_valid_ext(f.path@) {
        match spec_file_stem(f.path@) {
            Some(stem) => Some((spec_guess_name(stem), f.path@, f.created_at, f.size)),
            None => None,
        }
    } else {
        None
    }
}

/// An episode is made of a media file; its name is the file stem, or
/// `Unnamed Episode` where the path has none.
pub open spec fn episode_candidate(f: FileEntry) -> Option<Shape> {
    if spec_valid_ext(f.path@) {
        match spec_file_stem(f.path@) {
            Some(stem) => Some((stem, f.path@, f.created_at, f.size)),
            None => Some(("Unnamed Episode"@, f.path@, f.created_at, f.size)),
        }
    } else {
        None
    }
}

pub open spec fn movie_candidates(fs: Seq<FileEntry>) -> Seq<Shape> {
    keep_files(fs, |f: FileEntry| movie_candidate(f))
}

pub open spec fn episode_candidates(fs: Seq<FileEntry>) -> Seq<Shape> {
    keep_files(fs, |f: FileEntry| episode_candidate(f))
}

/// `out` holds the shapes `cands` sorted by name (Unicode lowercase,
/// stable), each under a newly generated id.
pub open spec fn movies_from(out: Seq<Movie>, cands: Seq<Shape>) -> bool {
    &&& is_stable_sort(out.map_values(|m: Movie| movie_shape(m)), cands, name_keys(cands))
    &&& forall|i: int| 0 <= i < out.len() ==> is_new_id(#[trigger] out[i].id@)
}

pub open spec fn episodes_from(out: Seq<Episode>, cands: Seq<Shape>) -> bool {
    &&& is_stable_sort(out.map_values(|e: Episode| episode_shape(e)), cands, name_keys(cands))
    &&& forall|i: int| 0 <= i < out.len() ==> is_new_id(#[trigger] out[i].id@)
}

/// A stable sort stays one when each item is replaced by its image under `f`.
pub proof fn lemma_stable_sort_map<T, U>(out: Seq<T>, inp: Seq<T>, keys: Seq<Seq<char>>, f: spec_fn(T) -> U)
    requires
        is_stable_sort(out, inp, keys),
    ensures
        is_stable_sort(out.map_values(f), inp.map_values(f), keys),
{
    let perm = choose|perm: Seq<int>|
        {
            &&& #[trigger] is_stable_order(perm, keys)
            &&& keys.len() == inp.len()
            &&& out.len() == inp.len()
            &&& forall|i: int| 0 <= i < out.len() ==> out[i] == inp[#[trigger] perm[i]]
        };
    let mo = out.map_values(f);
    let mi = inp.map_values(f);
    assert forall|i: int| 0 <= i < mo.len() implies mo[i] == mi[#[trigger] perm[i]] by {
        assert(0 <= perm[i] < inp.len());
        assert(out[i] == inp[perm[i]]);
        assert(mi[perm[i]] == f(inp[perm[i]]));
    }
    assert(is_stable_order(perm, keys));
}

fn new_media_id() -> (r: String)
    ensures
        is_new_id(r@),
{
    let r = new_id(10);
    proof {
        reveal(is_new_id);
    }
    r
}

fn movie_from_file(f: &FileEntry) -> (r: Option<Movie>)
    ensures
        match r {
            Some(m) => movie_candidate(*f) == Some(movie_shape(m)) && is_new_id(m.id@),
            None => movie_candidate(*f) is None,
        },
{
    if !valid_ext(f.path.as_str()) {
        return None;
    }
    match file_stem(f.path.as_str()) {
        None => None,
        Some(stem) => {
            let name = guess_name(stem.as_str());
            Some(
                Movie {
                    id: new_media_id(),
                    name,
                    path: f.path.clone(),
                    created_at: f.created_at,
                    size: f.size,
                },
            )
        },
    }
}

fn episode_from_file(f: &FileEntry) -> (r: Option<Episode>)
    ensures
        match r {
            Some(e) => episode_candidate(*f) == Some(episode_shape(e)) && is_new_id(e.id@),
            None => episode_candidate(*f) is None,
        },
{
    if !valid_ext(f.path.as_str()) {
        return None;
    }
    let name = match file_stem(f.path.as_str()) {
        Some(stem) => stem,
        None => String::from_str("Unnamed Episode"),
    };
    Some(
        Episode {
            id: new_media_id(),
            name,
            path: f.path.clone(),
            created_at: f.created_at,
            size: f.size,
        },
    )
}

/// Builds the movies of the media files among `files` and sorts them by name
/// (Unicode lowercase, stable).
pub fn index_movies(files: &Vec<FileEntry>) -> (r: Vec<Movie>)
    ensures
        movies_from(r@, movie_candidates(files@)),
{
    let mut items: Vec<Movie> = Vec::new();
    let mut keys: Vec<Vec<char>> = Vec::new();
    let mut i: usize = 0;
    while i < files.len()
        invariant
            i <= files.len(),
            items.len() == keys.len(),
            items@.map_values(|m: Movie| movie_shape(m)) == movie_candidates(files@.take(i as int)),
            key_views(keys@) == name_keys(movie_candidates(files@.take(i as int))),
            forall|k: int| 0 <= k < items.len() ==> is_new_id(#[trigger] items@[k].id@),
        decreases files.len() - i,
    {
        let ghost before = files@.take(i as int);
        assert(files@.take(i + 1).drop_last() =~= before);
        assert(files@.take(i + 1).last() == files@[i as int]);
        match movie_from_file(&files[i]) {
            Some(m) => {
                let ghost old_keys = keys@;
                let key = lowercase_key(m.name.as_str());
                items.push(m);
                keys.push(key);
                assert(items@.map_values(|m: Movie| movie_shape(m)) =~= movie_candidates(
                    files@.take(i + 1),
                ));
                let ghost c = movie_candidates(files@.take(i + 1));
                assert(c == movie_candidates(before).push(movie_shape(items@.last())));
                assert(key_views(keys@) =~= key_views(old_keys).push(key@));
                assert(name_keys(c) =~= name_keys(movie_candidates(before)).push(
                    name_key(movie_shape(items@.last())),
                ));
                assert(key_views(keys@) =~= name_keys(c));
            },
            None => {},
        }
        i = i + 1;
    }
    assert(files@.take(i as int) =~= files@);
    let ghost inp = items@;
    let r = sort_by_keys(items, keys);
    proof {
        lemma_stable_sort_map(r@, inp, key_views(keys@), |m: Movie| movie_shape(m));
    }
    assert forall|k: int| 0 <= k < r.len() implies is_new_id(#[trigger] r@[k].id@) by {
        let perm = choose|perm: Seq<int>|
            {
                &&& #[trigger] is_stable_order(perm, key_views(keys@))
                &&& key_views(keys@).len() == inp.len()
                &&& r@.len() == inp.len()
                &&& forall|i: int| 0 <= i < r@.len() ==> r@[i] == inp[#[trigger] perm[i]]
            };
        assert(r@[k] == inp[perm[k]]);
    }
    r
}


/// Sorts episodes by name (Unicode lowercase, stable).
fn sort_episodes(items: Vec<Episode>) -> (r: Vec<Episode>)
    requires
        forall|k: int| 0 <= k < items.len() ==> is_new_id(#[trigger] items@[k].id@),
    ensures
        episodes_from(r@, items@.map_values(|e: Episode| episode_shape(e))),
{
    let ghost shapes = items@.map_values(|e: Episode| episode_shape(e));
    let mut keys: Vec<Vec<char>> = Vec::new();
    let mut i: usize = 0;
    while i < items.len()
        invariant
            i <= items.len(),
            keys.len() == i,
            shapes == items@.map_values(|e: Episode| episode_shape(e)),
            forall|k: int| 0 <= k < i ==> #[trigger] keys@[k]@ == name_key(shapes[k]),
        decreases items.len() - i,
    {
        let key = lowercase_key(items[i].name.as_str());
        keys.push(key);
        i = i + 1;
    }
    assert(key_views(keys@) =~= name_keys(shapes));
    let ghost inp = items@;
    let r = sort_by_keys(items, keys);
    proof {
        lemma_stable_sort_map(r@, inp, key_views(keys@), |e: Episode| episode_shape(e));
    }
    assert forall|k: int| 0 <= k < r.len() implies is_new_id(#[trigger] r@[k].id@) by {
        let perm = choose|perm: Seq<int>|
            {
                &&& #[trigger] is_stable_order(perm, key_views(keys@))
                &&& key_views(keys@).len() == inp.len()
                &&& r@.len() == inp.len()
                &&& forall|i: int| 0 <= i < r@.len() ==> r@[i] == inp[#[trigger] perm[i]]
            };
        assert(r@[k] == inp[perm[k]]);
    }
    r
}

/// The episodes of the media files among `files`, in the order of `files`.
fn episodes_of_files(files: &Vec<FileEntry>) -> (r: Vec<Episode>)
    ensures
        r@.map_values(|e: Episode| episode_shape(e)) == episode_candidates(files@),
        forall|k: int| 0 <= k < r.len() ==> is_new_id(#[trigger] r@[k].id@),
{
    let mut items: Vec<Episode> = Vec::new();
    let mut i: usize = 0;
    while i < files.len()
        invariant
            i <= files.len(),
            items@.map_values(|e: Episode| episode_shape(e)) == episode_candidates(
                files@.take(i as int),
            ),
            forall|k: int| 0 <= k < items.len() ==> is_new_id(#[trigger] items@[k].id@),
        decreases files.len() - i,
    {
        let ghost before = files@.take(i as int);
        assert(files@.take(i + 1).drop_last() =~= before);
        assert(files@.take(i + 1).last() == files@[i as int]);
        match episode_from_file(&files[i]) {
            Some(e) => {
                assert(is_new_id(e.id@));
                let ghost old_items = items@;
                items.push(e);
                assert(items@[old_items.len() as int] == e);
                assert forall|k: int| 0 <= k < items.len() implies is_new_id(#[trigger] items@[k].id@) by {
                    if k < old_items.len() {
                        assert(items@[k] == old_items[k]);
                        assert(is_new_id(old_items[k].id@));
                    } else {
                        assert(items@[k] == e);
                    }
                }
                assert(items@.map_values(|e: Episode| episode_shape(e)) =~= episode_candidates(
                    files@.take(i + 1),
                ));
            },
            None => {},
        }
        i = i + 1;
    }
    assert(files@.take(i as int) =~= files@);
    items
}

/// Builds the episodes of the media files among `files` and sorts them by
/// name (Unicode lowercase, stable).
pub fn index_episodes(files: &Vec<FileEntry>) -> (r: Vec<Episode>)
    ensures
        episodes_from(r@, episode_candidates(files@)),
{
    let items = episodes_of_files(files);
    sort_episodes(items)
}


// ---------------------------------------------------------------------------
// Seasons read from season directories
// ---------------------------------------------------------------------------

/// The name of a season directory, or `Unknown Season` where its path has none.
pub open spec fn season_dir_name(sd: SeasonDir) -> Seq<char> {
    match spec_file_name(sd.path@) {
        Some(f) => f,
        None => "Unknown Season"@,
    }
}

/// The season number guessed from the name of a season directory.
pub open spec fn season_dir_number(sd: SeasonDir) -> i32 {
    spec_guess_season(season_dir_name(sd))
}

pub open spec fn season_dir_episodes(sd: SeasonDir) -> Seq<Shape> {
    episode_candidates(sd.files@)
}

/// The last season directory with media files whose number is `n`, or -1:
/// a later directory of the same number replaces an earlier one.
pub open spec fn last_season_dir(sds: Seq<SeasonDir>, n: i32) -> int
    decreases sds.len(),
{
    if sds.len() == 0 {
        -1
    } else if season_dir_episodes(sds.last()).len() > 0 && season_dir_number(sds.last()) == n {
        sds.len() - 1
    } else {
        last_season_dir(sds.drop_last(), n)
    }
}

pub open spec fn numbers_increase(ss: Seq<Season>) -> bool {
    forall|i: int, j: int| 0 <= i < j < ss.len() ==> #[trigger] ss[i].number < #[trigger] ss[j].number
}

pub open spec fn has_season(ss: Seq<Season>, n: i32) -> bool {
    exists|i: int| 0 <= i < ss.len() && #[trigger] ss[i].number == n
}

/// `s` is the season made of the last season directory of its number.
pub open spec fn season_from_dir(s: Season, sds: Seq<SeasonDir>) -> bool {
    let k = last_season_dir(sds, s.number);
    &&& 0 <= k < sds.len()
    &&& s.name@ == season_dir_name(sds[k])
    &&& episodes_from(s.episodes@, season_dir_episodes(sds[k]))
    &&& is_new_id(s.id@)
}

/// `ss` are the seasons of the season directories `sds`: one per number among
/// the directories with media files, by increasing number, each made of the
/// last such directory of its number.
pub open spec fn seasons_from_dirs(ss: Seq<Season>, sds: Seq<SeasonDir>) -> bool {
    &&& numbers_increase(ss)
    &&& forall|i: int| 0 <= i < ss.len() ==> season_from_dir(#[trigger] ss[i], sds)
    &&& forall|k: int|
        0 <= k < sds.len() && season_dir_episodes(#[trigger] sds[k]).len() > 0 ==> has_season(
            ss,
            season_dir_number(sds[k]),
        )
}

proof fn lemma_last_season_dir_step(sds: Seq<SeasonDir>, i: int, n: i32)
    requires
        0 <= i < sds.len(),
    ensures
        last_season_dir(sds.take(i + 1), n) == (if season_dir_episodes(sds[i]).len() > 0
            && season_dir_number(sds[i]) == n {
            i
        } else {
            last_season_dir(sds.take(i), n)
        }),
{
    assert(sds.take(i + 1).drop_last() =~= sds.take(i));
    assert(sds.take(i + 1).last() == sds[i]);
}

proof fn lemma_last_season_dir_range(sds: Seq<SeasonDir>, n: i32)
    ensures
        -1 <= last_season_dir(sds, n) < sds.len(),
        last_season_dir(sds, n) >= 0 ==> season_dir_episodes(sds[last_season_dir(sds, n)]).len()
            > 0 && season_dir_number(sds[last_season_dir(sds, n)]) == n,
    decreases sds.len(),
{
    if sds.len() > 0 {
        lemma_last_season_dir_range(sds.drop_last(), n);
    }
}

/// The first position in `ss` whose number is not below `n`.
fn season_position(ss: &Vec<Season>, n: i32) -> (r: usize)
    ensures
        r <= ss.len(),
        forall|k: int| 0 <= k < r ==> #[trigger] ss@[k].number < n,
        r < ss.len() ==> ss@[r as int].number >= n,
{
    let mut j: usize = 0;
    while j < ss.len() && ss[j].number < n
        invariant
            j <= ss.len(),
            forall|k: int| 0 <= k < j ==> #[trigger] ss@[k].number < n,
        decreases ss.len() - j,
    {
        j = j + 1;
    }
    j
}

/// The name of the file or directory at `path`, or `default` where it has none.
fn name_or(path: &String, default: &str) -> (r: String)
    ensures
        r@ == (match spec_file_name(path@) {
            Some(f) => f,
            None => default@,
        }),
{
    match file_name(path.as_str()) {
        Some(f) => f,
        None => String::from_str(default),
    }
}

/// Builds the seasons of a show made of season directories: each directory
/// with media files gives a season numbered by its name; a later directory of
/// the same number replaces an earlier one; seasons come by increasing number.
pub fn seasons_from_season_dirs(sds: &Vec<SeasonDir>) -> (r: Vec<Season>)
    ensures
        seasons_from_dirs(r@, sds@),
{
    let mut seasons: Vec<Season> = Vec::new();
    let mut i: usize = 0;
    while i < sds.len()
        invariant
            i <= sds.len(),
            seasons_from_dirs(seasons@, sds@.take(i as int)),
        decreases sds.len() - i,
    {
        let sd = &sds[i];
        let ghost pre = sds@.take(i as int);
        let ghost post = sds@.take(i + 1);
        assert(post[i as int] == sds@[i as int]);
        assert forall|k: int| 0 <= k < i implies #[trigger] post[k] == pre[k] by {}
        let name = name_or(&sd.path, "Unknown Season");
        let number = guess_season(name.as_str());
        let episodes = index_episodes(&sd.files);
        assert(episodes@.len() == season_dir_episodes(sds@[i as int]).len()) by {
            let perm = choose|perm: Seq<int>|
                {
                    &&& #[trigger] is_stable_order(perm, name_keys(season_dir_episodes(sds@[i as int])))
                    &&& name_keys(season_dir_episodes(sds@[i as int])).len() == season_dir_episodes(sds@[i as int]).len()
                    &&& episodes@.map_values(|e: Episode| episode_shape(e)).len() == season_dir_episodes(sds@[i as int]).len()
                    &&& forall|q: int| 0 <= q < episodes@.map_values(|e: Episode| episode_shape(e)).len()
                        ==> episodes@.map_values(|e: Episode| episode_shape(e))[q]
                            == season_dir_episodes(sds@[i as int])[#[trigger] perm[q]]
                };
        }
        proof {
            assert forall|n: i32| n != number || episodes@.len() == 0 implies last_season_dir(post, n)
                == last_season_dir(pre, n) by {
                lemma_last_season_dir_step(sds@, i as int, n);
                assert(sds@.take(i as int) == pre);
            }
            lemma_last_season_dir_step(sds@, i as int, number);
        }
        if episodes.len() > 0 {
            let season = Season { id: new_media_id(), name, number, episodes };
            let pos = season_position(&seasons, number);
            let ghost old = seasons@;
            if pos < seasons.len() && seasons[pos].number == number {
                seasons.set(pos, season);
                proof {
                    assert(seasons@ == old.update(pos as int, season));
                    assert forall|a: int, b: int| 0 <= a < b < seasons@.len() implies #[trigger] seasons@[a].number
                        < #[trigger] seasons@[b].number by {
                        assert(old[a].number < old[b].number);
                    }
                    assert forall|q: int| 0 <= q < seasons@.len() implies season_from_dir(
                        #[trigger] seasons@[q],
                        post,
                    ) by {
                        if q != pos {
                            assert(seasons@[q] == old[q]);
                            assert(season_from_dir(old[q], pre));
                            assert(old[q].number != number) by {
                                if q < pos {
                                    assert(old[q].number < old[pos as int].number);
                                } else {
                                    assert(old[pos as int].number < old[q].number);
                                }
                            }
                            let k = last_season_dir(pre, old[q].number);
                            assert(post[k] == pre[k]);
                        }
                    }
                    assert forall|k: int|
                        0 <= k < post.len() && season_dir_episodes(#[trigger] post[k]).len() > 0
                            implies has_season(seasons@, season_dir_number(post[k])) by {
                        if k == i {
                            assert(seasons@[pos as int].number == number);
                        } else {
                            assert(post[k] == pre[k]);
                            assert(has_season(old, season_dir_number(pre[k])));
                            let w = choose|w: int| 0 <= w < old.len() && #[trigger] old[w].number
                                == season_dir_number(pre[k]);
                            if w == pos {
                                assert(seasons@[pos as int].number == number);
                            } else {
                                assert(seasons@[w].number == old[w].number);
                            }
                        }
                    }
                }
            } else {
                seasons.insert(pos, season);
                proof {
                    assert(seasons@ == old.insert(pos as int, season));
                    assert forall|a: int, b: int| 0 <= a < b < seasons@.len() implies #[trigger] seasons@[a].number
                        < #[trigger] seasons@[b].number by {
                        if b < pos {
                            assert(old[a].number < old[b].number);
                        } else if a > pos {
                            assert(old[a - 1].number < old[b - 1].number);
                        } else if a < pos && b > pos {
                            assert(old[a].number < number);
                            assert(pos < old.len());
                            assert(old[pos as int].number > number);
                            if b - 1 > pos {
                                assert(old[pos as int].number < old[b - 1].number);
                            }
                        } else if a == pos {
                            assert(old[pos as int].number > number);
                            if b - 1 > pos {
                                assert(old[pos as int].number < old[b - 1].number);
                            }
                        } else {
                            assert(old[a].number < number);
                        }
                    }
                    assert forall|q: int| 0 <= q < seasons@.len() implies season_from_dir(
                        #[trigger] seasons@[q],
                        post,
                    ) by {
                        if q != pos {
                            let oq = if q < pos { q } else { q - 1 };
                            assert(seasons@[q] == old[oq]);
                            assert(season_from_dir(old[oq], pre));
                            assert(old[oq].number != number) by {
                                if oq < pos {
                                    assert(old[oq].number < number);
                                } else {
                                    assert(old[pos as int].number > number);
                                    if oq > pos {
                                        assert(old[pos as int].number < old[oq].number);
                                    }
                                }
                            }
                            let k = last_season_dir(pre, old[oq].number);
                            assert(post[k] == pre[k]);
                        }
                    }
                    assert forall|k: int|
                        0 <= k < post.len() && season_dir_episodes(#[trigger] post[k]).len() > 0
                            implies has_season(seasons@, season_dir_number(post[k])) by {
                        if k == i {
                            assert(seasons@[pos as int].number == number);
                        } else {
                            assert(post[k] == pre[k]);
                            assert(has_season(old, season_dir_number(pre[k])));
                            let w = choose|w: int| 0 <= w < old.len() && #[trigger] old[w].number
                                == season_dir_number(pre[k]);
                            if w < pos {
                                assert(seasons@[w].number == old[w].number);
                            } else {
                                assert(seasons@[w + 1].number == old[w].number);
                            }
                        }
                    }
                }
            }
        } else {
            proof {
                assert forall|q: int| 0 <= q < seasons@.len() implies season_from_dir(
                    #[trigger] seasons@[q],
                    post,
                ) by {
                    let k = last_season_dir(pre, seasons@[q].number);
                    assert(post[k] == pre[k]);
                }
                assert forall|k: int|
                    0 <= k < post.len() && season_dir_episodes(#[trigger] post[k]).len() > 0
                        implies has_season(seasons@, season_dir_number(post[k])) by {
                    assert(post[k] == pre[k]);
                }
            }
        }
        i = i + 1;
    }
    assert(sds@.take(i as int) =~= sds@);
    seasons
}


// ---------------------------------------------------------------------------
// Seasons read from episode names
// ---------------------------------------------------------------------------

/// The season number guessed from an episode's name.
pub open spec fn season_of(c: Shape) -> i32 {
    spec_guess_season(c.0)
}

/// The episodes among `cands` whose season number is `n`, in order.
#[verifier::opaque]
pub open spec fn with_season(cands: Seq<Shape>, n: i32) -> Seq<Shape> {
    cands.filter(|c: Shape| season_of(c) == n)
}

/// The name given to a season found from episode names: `Season ` and its number.
pub open spec fn season_label(n: i32) -> Seq<char> {
    "Season "@ + spec_i32_decimal(n)
}

pub open spec fn season_from_files(s: Season, cands: Seq<Shape>) -> bool {
    &&& with_season(cands, s.number).len() > 0
    &&& s.name@ == season_label(s.number)
    &&& episodes_from(s.episodes@, with_season(cands, s.number))
    &&& is_new_id(s.id@)
}

/// `ss` are the seasons of a show whose episodes lie directly in its
/// directory: one per season number guessed from the episode names, by
/// increasing number, each with the episodes of that number.
pub open spec fn seasons_from_files(ss: Seq<Season>, cands: Seq<Shape>) -> bool {
    &&& numbers_increase(ss)
    &&& forall|i: int| 0 <= i < ss.len() ==> season_from_files(#[trigger] ss[i], cands)
    &&& forall|k: int| 0 <= k < cands.len() ==> has_season(ss, season_of(#[trigger] cands[k]))
}

proof fn lemma_with_season_step(cands: Seq<Shape>, k: int, n: i32)
    requires
        0 <= k < cands.len(),
    ensures
        with_season(cands.take(k + 1), n) == (if season_of(cands[k]) == n {
            with_season(cands.take(k), n).push(cands[k])
        } else {
            with_season(cands.take(k), n)
        }),
{
    reveal(with_season);
    reveal_with_fuel(Seq::filter, 1);
    assert(cands.take(k + 1).drop_last() =~= cands.take(k));
    assert(cands.take(k + 1).last() == cands[k]);
}

pub open spec fn shapes(es: Seq<Episode>) -> Seq<Shape> {
    es.map_values(|e: Episode| episode_shape(e))
}

pub open spec fn covers(nums: Seq<i32>, n: i32) -> bool {
    exists|g: int| 0 <= g < nums.len() && nums[g] == n
}

/// The position in `nums` (increasing) of the first number not below `n`.
fn number_position(nums: &Vec<i32>, n: i32) -> (r: usize)
    ensures
        r <= nums.len(),
        forall|k: int| 0 <= k < r ==> #[trigger] nums@[k] < n,
        r < nums.len() ==> nums@[r as int] >= n,
{
    let mut j: usize = 0;
    while j < nums.len() && nums[j] < n
        invariant
            j <= nums.len(),
            forall|k: int| 0 <= k < j ==> #[trigger] nums@[k] < n,
        decreases nums.len() - j,
    {
        j = j + 1;
    }
    j
}

/// "Season " followed by the number.
fn season_label_string(n: i32) -> (r: String)
    ensures
        r@ == season_label(n),
{
    let mut out = str_chars("Season ");
    let digits = i32_decimal(n);
    let mut k: usize = 0;
    let ghost start = out@;
    while k < digits.len()
        invariant
            k <= digits.len(),
            out@ == start + digits@.take(k as int),
        decreases digits.len() - k,
    {
        out.push(digits[k]);
        assert(out@ =~= start + digits@.take(k + 1));
        k = k + 1;
    }
    assert(digits@.take(k as int) =~= digits@);
    chars_to_string(out.as_slice())
}

/// Groups episodes (in order) by the season number guessed from their names;
/// the groups come by increasing number.
fn group_by_season(eps: Vec<Episode>) -> (r: (Vec<i32>, Vec<Vec<Episode>>))
    requires
        forall|k: int| 0 <= k < eps.len() ==> is_new_id(#[trigger] eps@[k].id@),
    ensures
        r.0.len() == r.1.len(),
        forall|a: int, b: int| 0 <= a < b < r.0.len() ==> #[trigger] r.0@[a] < #[trigger] r.0@[b],
        forall|g: int|
            0 <= g < r.0.len() ==> shapes(#[trigger] r.1@[g]@) == with_season(shapes(eps@), r.0@[g])
                && with_season(shapes(eps@), r.0@[g]).len() > 0,
        forall|g: int, k: int|
            0 <= g < r.1.len() && 0 <= k < r.1@[g].len() ==> is_new_id(#[trigger] r.1@[g]@[k].id@),
        forall|k: int| 0 <= k < eps.len() ==> covers(r.0@, season_of(#[trigger] shapes(eps@)[k])),
{
    let ghost all = shapes(eps@);
    let n = eps.len();
    let mut rest = eps;
    let mut nums: Vec<i32> = Vec::new();
    let mut groups: Vec<Vec<Episode>> = Vec::new();
    let mut k: usize = 0;
    while k < n
        invariant
            k <= n,
            n == all.len(),
            shapes(rest@) == all.skip(k as int),
            all == shapes(eps@),
            rest.len() == n - k,
            forall|q: int| 0 <= q < rest.len() ==> is_new_id(#[trigger] rest@[q].id@),
            nums.len() == groups.len(),
            forall|a: int, b: int| 0 <= a < b < nums.len() ==> #[trigger] nums@[a] < #[trigger] nums@[b],
            forall|g: int|
                0 <= g < nums.len() ==> shapes(#[trigger] groups@[g]@) == with_season(
                    all.take(k as int),
                    nums@[g],
                ) && with_season(all.take(k as int), nums@[g]).len() > 0,
            forall|g: int, q: int|
                0 <= g < groups.len() && 0 <= q < groups@[g].len() ==> is_new_id(
                    #[trigger] groups@[g]@[q].id@,
                ),
            forall|q: int| 0 <= q < k ==> covers(nums@, season_of(#[trigger] all[q])),
        decreases n - k,
    {
        let ghost old_eps = rest@;
        let e = rest.remove(0);
        assert(episode_shape(e) == all[k as int]) by {
            assert(shapes(old_eps)[0] == all.skip(k as int)[0]);
        }
        assert(shapes(rest@) =~= all.skip(k + 1)) by {
            assert forall|q: int| 0 <= q < rest@.len() implies shapes(rest@)[q] == all.skip(k + 1)[q] by {
                assert(rest@[q] == old_eps[q + 1]);
                assert(shapes(old_eps)[q + 1] == all.skip(k as int)[q + 1]);
            }
        }
        assert(is_new_id(e.id@)) by {
            assert(e == old_eps[0]);
            assert(is_new_id(old_eps[0].id@));
        }
        assert forall|q: int| 0 <= q < rest.len() implies is_new_id(#[trigger] rest@[q].id@) by {
            assert(rest@[q] == old_eps[q + 1]);
            assert(is_new_id(old_eps[q + 1].id@));
        }
        let number = guess_season(e.name.as_str());
        assert(season_of(all[k as int]) == number);
        proof {
            assert forall|m: i32| true implies with_season(all.take(k + 1), m) == (if season_of(all[k as int]) == m {
                with_season(all.take(k as int), m).push(all[k as int])
            } else {
                with_season(all.take(k as int), m)
            }) by {
                lemma_with_season_step(all, k as int, m);
            }
        }
        let pos = number_position(&nums, number);
        let ghost old_nums = nums@;
        let ghost old_groups = groups@;
        if pos < nums.len() && nums[pos] == number {
            let mut g = groups.remove(pos);
            let ghost old_g = g@;
            g.push(e);
            assert(shapes(g@) =~= shapes(old_g).push(all[k as int]));
            groups.insert(pos, g);
            proof {
                assert(groups@ == old_groups.update(pos as int, g));
                assert forall|h: int| 0 <= h < nums.len() implies shapes(#[trigger] groups@[h]@)
                    == with_season(all.take(k + 1), nums@[h]) && with_season(
                    all.take(k + 1),
                    nums@[h],
                ).len() > 0 by {
                    lemma_with_season_step(all, k as int, nums@[h]);
                    assert(shapes(old_groups[h]@) == with_season(all.take(k as int), old_nums[h]));
                    if h != pos {
                        assert(groups@[h] == old_groups[h]);
                        assert(nums@[h] != number) by {
                            if h < pos {
                                assert(nums@[h] < nums@[pos as int]);
                            } else {
                                assert(nums@[pos as int] < nums@[h]);
                            }
                        }
                    } else {
                        assert(old_g == old_groups[pos as int]@);
                    }
                }
                assert forall|h: int, q: int|
                    0 <= h < groups.len() && 0 <= q < groups@[h].len() implies is_new_id(
                        #[trigger] groups@[h]@[q].id@,
                    ) by {
                    if h == pos && q == old_g.len() {
                        assert(groups@[h]@[q] == e);
                    } else if h == pos {
                        assert(groups@[h]@[q] == old_g[q]);
                        assert(is_new_id(old_groups[h]@[q].id@));
                    } else {
                        assert(is_new_id(old_groups[h]@[q].id@));
                    }
                }
                assert forall|q: int| 0 <= q < k + 1 implies covers(nums@, season_of(#[trigger] all[q])) by {
                    if q == k {
                        assert(nums@[pos as int] == season_of(all[q]));
                    }
                }
            }
        } else {
            let mut g: Vec<Episode> = Vec::new();
            g.push(e);
            assert(shapes(g@) =~= seq![all[k as int]]);
            nums.insert(pos, number);
            groups.insert(pos, g);
            proof {
                assert(nums@ == old_nums.insert(pos as int, number));
                assert(groups@ == old_groups.insert(pos as int, g));
                assert forall|a: int, b: int| 0 <= a < b < nums.len() implies #[trigger] nums@[a]
                    < #[trigger] nums@[b] by {
                    if b < pos {
                        assert(old_nums[a] < old_nums[b]);
                    } else if a > pos {
                        assert(old_nums[a - 1] < old_nums[b - 1]);
                    } else if a < pos && b > pos {
                        assert(old_nums[a] < number);
                        assert(old_nums[pos as int] > number);
                        if b - 1 > pos {
                            assert(old_nums[pos as int] < old_nums[b - 1]);
                        }
                    } else if a == pos {
                        assert(old_nums[pos as int] > number);
                        if b - 1 > pos {
                            assert(old_nums[pos as int] < old_nums[b - 1]);
                        }
                    } else {
                        assert(old_nums[a] < number);
                    }
                }
                // No episode so far had this number.
                assert(with_season(all.take(k as int), number).len() == 0) by {
                    reveal(with_season);
                    if with_season(all.take(k as int), number).len() > 0 {
                        let c = with_season(all.take(k as int), number)[0];
                        all.take(k as int).lemma_filter_contains_rev(|c: Shape| season_of(c) == number, c);
                        assert(all.take(k as int).filter(|c: Shape| season_of(c) == number).contains(c));
                        let q = choose|q: int| 0 <= q < k && all.take(k as int)[q] == c;
                        assert(season_of(c) == number) by {
                            all.take(k as int).lemma_filter_pred(|c: Shape| season_of(c) == number, 0);
                        }
                        assert(all[q] == c);
                        assert(covers(old_nums, season_of(all[q])));
                        let w = choose|w: int| 0 <= w < old_nums.len() && old_nums[w] == season_of(all[q]);
                        if w < pos {
                            assert(old_nums[w] < number);
                        } else {
                            assert(old_nums[pos as int] > number);
                            if w > pos {
                                assert(old_nums[pos as int] < old_nums[w]);
                            }
                        }
                    }
                }
                assert(with_season(all.take(k as int), number) =~= seq![]);
                assert forall|h: int| 0 <= h < nums.len() implies shapes(#[trigger] groups@[h]@)
                    == with_season(all.take(k + 1), nums@[h]) && with_season(
                    all.take(k + 1),
                    nums@[h],
                ).len() > 0 by {
                    lemma_with_season_step(all, k as int, nums@[h]);
                    if h == pos {
                        assert(with_season(all.take(k + 1), number) =~= seq![all[k as int]]);
                    } else {
                        let oh = if h < pos { h } else { h - 1 };
                        assert(nums@[h] == old_nums[oh]);
                        assert(groups@[h] == old_groups[oh]);
                        assert(shapes(old_groups[oh]@) == with_season(all.take(k as int), old_nums[oh]));
                        assert(old_nums[oh] != number) by {
                            if oh < pos {
                                assert(old_nums[oh] < number);
                            } else {
                                assert(old_nums[pos as int] > number);
                                if oh > pos {
                                    assert(old_nums[pos as int] < old_nums[oh]);
                                }
                            }
                        }
                    }
                }
                assert forall|h: int, q: int|
                    0 <= h < groups.len() && 0 <= q < groups@[h].len() implies is_new_id(
                        #[trigger] groups@[h]@[q].id@,
                    ) by {
                    if h == pos {
                        assert(groups@[h]@[q] == e);
                    } else {
                        let oh = if h < pos { h } else { h - 1 };
                        assert(groups@[h] == old_groups[oh]);
                        assert(is_new_id(old_groups[oh]@[q].id@));
                    }
                }
                assert forall|q: int| 0 <= q < k + 1 implies covers(nums@, season_of(#[trigger] all[q])) by {
                    if q == k {
                        assert(nums@[pos as int] == season_of(all[q]));
                    } else {
                        assert(covers(old_nums, season_of(all[q])));
                        let w = choose|w: int| 0 <= w < old_nums.len() && old_nums[w] == season_of(all[q]);
                        if w < pos {
                            assert(nums@[w] == old_nums[w]);
                        } else {
                            assert(nums@[w + 1] == old_nums[w]);
                        }
                    }
                }
            }
        }
        k = k + 1;
    }
    assert(all.take(n as int) =~= all);
    assert forall|g: int| 0 <= g < nums.len() implies shapes(#[trigger] groups@[g]@) == with_season(all, nums@[g])
        && with_season(all, nums@[g]).len() > 0 by {
        assert(shapes(groups@[g]@) == with_season(all.take(n as int), nums@[g]));
    }
    (nums, groups)
}


/// Builds the seasons of a show whose episodes lie directly in its directory:
/// the episodes are grouped by the season number guessed from their names,
/// each group named `Season <number>` and sorted by name; seasons come by
/// increasing number.
pub fn seasons_from_episode_files(files: &Vec<FileEntry>) -> (r: Vec<Season>)
    ensures
        seasons_from_files(r@, episode_candidates(files@)),
{
    let ghost cands = episode_candidates(files@);
    let eps = episodes_of_files(files);
    assert(shapes(eps@) == cands);
    let (nums, groups) = group_by_season(eps);
    let ghost all_groups = groups@;
    let mut groups = groups;
    let mut seasons: Vec<Season> = Vec::new();
    let mut g: usize = 0;
    while g < nums.len()
        invariant
            g <= nums.len(),
            nums.len() == all_groups.len(),
            groups@ == all_groups.skip(g as int),
            seasons.len() == g,
            forall|q: int| 0 <= q < g ==> (#[trigger] seasons@[q]).number == nums@[q],
            forall|q: int| 0 <= q < g ==> season_from_files(#[trigger] seasons@[q], cands),
            forall|a: int| 0 <= a < nums.len() ==> shapes(#[trigger] all_groups[a]@) == with_season(cands, nums@[a])
                && with_season(cands, nums@[a]).len() > 0,
            forall|a: int, q: int|
                0 <= a < all_groups.len() && 0 <= q < all_groups[a].len() ==> is_new_id(
                    #[trigger] all_groups[a]@[q].id@,
                ),
        decreases nums.len() - g,
    {
        let ghost old_groups = groups@;
        let group = groups.remove(0);
        assert(group == all_groups[g as int]);
        assert(groups@ =~= all_groups.skip(g + 1));
        let number = nums[g];
        assert forall|q: int| 0 <= q < group.len() implies is_new_id(#[trigger] group@[q].id@) by {
            assert(is_new_id(all_groups[g as int]@[q].id@));
        }
        assert(shapes(all_groups[g as int]@) == with_season(cands, number));
        let episodes = sort_episodes(group);
        let name = season_label_string(number);
        let season = Season { id: new_media_id(), name, number, episodes };
        let ghost old_seasons = seasons@;
        seasons.push(season);
        assert forall|q: int| 0 <= q < g + 1 implies season_from_files(#[trigger] seasons@[q], cands) by {
            if q < g {
                assert(seasons@[q] == old_seasons[q]);
            }
        }
        assert forall|q: int| 0 <= q < g + 1 implies (#[trigger] seasons@[q]).number == nums@[q] by {
            if q < g {
                assert(seasons@[q] == old_seasons[q]);
            }
        }
        g = g + 1;
    }
    assert forall|k: int| 0 <= k < cands.len() implies has_season(seasons@, season_of(#[trigger] cands[k])) by {
        assert(covers(nums@, season_of(shapes(eps@)[k])));
        let w = choose|w: int| 0 <= w < nums@.len() && nums@[w] == season_of(shapes(eps@)[k]);
        assert(seasons@[w].number == nums@[w]);
    }
    assert forall|a: int, b: int| 0 <= a < b < seasons@.len() implies #[trigger] seasons@[a].number
        < #[trigger] seasons@[b].number by {
        assert(seasons@[a].number == nums@[a]);
        assert(seasons@[b].number == nums@[b]);
    }
    seasons
}

// ---------------------------------------------------------------------------
// Shows
// ---------------------------------------------------------------------------

/// The title of a show: guessed from its directory name, or from
/// `Unknown Show` where the path has none.
pub open spec fn show_dir_name(d: ShowDir) -> Seq<char> {
    spec_guess_name(
        match spec_file_name(d.path@) {
            Some(f) => f,
            None => "Unknown Show"@,
        },
    )
}

/// A show directory with season directories takes its seasons from them
/// (and ignores the files beside them); otherwise from its own files.
pub open spec fn show_seasons_from(ss: Seq<Season>, d: ShowDir) -> bool {
    if d.season_dirs.len() > 0 {
        seasons_from_dirs(ss, d.season_dirs@)
    } else {
        seasons_from_files(ss, episode_candidates(d.files@))
    }
}

/// Whether a show directory holds media files where its seasons are read.
pub open spec fn show_has_media(d: ShowDir) -> bool {
    if d.season_dirs.len() > 0 {
        exists|k: int| 0 <= k < d.season_dirs.len() && season_dir_episodes(#[trigger] d.season_dirs@[k]).len() > 0
    } else {
        episode_candidates(d.files@).len() > 0
    }
}

/// `t` is the show made of the directory `d`.
pub open spec fn show_from(t: Tv, d: ShowDir) -> bool {
    &&& t.name@ == show_dir_name(d)
    &&& is_new_id(t.id@)
    &&& show_seasons_from(t.seasons@, d)
}

/// Builds the show of a show directory; `None` where it yields no season.
pub fn build_show(d: &ShowDir) -> (r: Option<Tv>)
    ensures
        match r {
            Some(t) => show_has_media(*d) && show_from(t, *d),
            None => !show_has_media(*d),
        },
{
    let dir_name = name_or(&d.path, "Unknown Show");
    let name = guess_name(dir_name.as_str());
    let seasons = if d.season_dirs.len() > 0 {
        let ss = seasons_from_season_dirs(&d.season_dirs);
        proof {
            if ss@.len() > 0 {
                let k = last_season_dir(d.season_dirs@, ss@[0].number);
                lemma_last_season_dir_range(d.season_dirs@, ss@[0].number);
                assert(season_from_dir(ss@[0], d.season_dirs@));
                assert(season_dir_episodes(d.season_dirs@[k]).len() > 0);
            }
            if show_has_media(*d) {
                let k = choose|k: int| 0 <= k < d.season_dirs.len() && season_dir_episodes(#[trigger] d.season_dirs@[k]).len() > 0;
                assert(has_season(ss@, season_dir_number(d.season_dirs@[k])));
            }
        }
        ss
    } else {
        let ss = seasons_from_episode_files(&d.files);
        proof {
            if ss@.len() > 0 {
                assert(season_from_files(ss@[0], episode_candidates(d.files@)));
                reveal(with_season);
                episode_candidates(d.files@).lemma_filter_len(|c: Shape| season_of(c) == ss@[0].number);
            }
            if show_has_media(*d) {
                assert(has_season(ss@, season_of(episode_candidates(d.files@)[0])));
            }
        }
        ss
    };
    if seasons.len() > 0 {
        Some(Tv { id: new_media_id(), name, seasons })
    } else {
        None
    }
}

/// The show directories that yield a show, in order.
pub open spec fn dirs_with_media(ds: Seq<ShowDir>) -> Seq<ShowDir>
    decreases ds.len(),
{
    if ds.len() == 0 {
        seq![]
    } else {
        let rest = dirs_with_media(ds.drop_last());
        if show_has_media(ds.last()) {
            rest.push(ds.last())
        } else {
            rest
        }
    }
}

pub open spec fn show_keys(ds: Seq<ShowDir>) -> Seq<Seq<char>> {
    ds.map_values(|d: ShowDir| lowercased(show_dir_name(d)))
}

/// `out` holds the shows of the directories `ds` with media files, sorted by
/// title (Unicode lowercase, stable).
pub open spec fn shows_from(out: Seq<Tv>, ds: Seq<ShowDir>) -> bool {
    let kept = dirs_with_media(ds);
    exists|perm: Seq<int>|
        {
            &&& #[trigger] is_stable_order(perm, show_keys(kept))
            &&& out.len() == kept.len()
            &&& forall|i: int| 0 <= i < out.len() ==> show_from(out[i], kept[#[trigger] perm[i]])
        }
}

/// Builds the shows of the show directories, skipping those without media
/// files, and sorts them by title (Unicode lowercase, stable).
pub fn index_shows(dirs: &Vec<ShowDir>) -> (r: Vec<Tv>)
    ensures
        shows_from(r@, dirs@),
{
    let mut tvs: Vec<Tv> = Vec::new();
    let mut keys: Vec<Vec<char>> = Vec::new();
    let ghost mut srcs: Seq<ShowDir> = seq![];
    let mut i: usize = 0;
    while i < dirs.len()
        invariant
            i <= dirs.len(),
            srcs == dirs_with_media(dirs@.take(i as int)),
            tvs.len() == srcs.len(),
            keys.len() == srcs.len(),
            forall|k: int| 0 <= k < tvs.len() ==> show_from(#[trigger] tvs@[k], srcs[k]),
            forall|k: int| 0 <= k < keys.len() ==> #[trigger] keys@[k]@ == lowercased(show_dir_name(srcs[k])),
        decreases dirs.len() - i,
    {
        assert(dirs@.take(i + 1).drop_last() =~= dirs@.take(i as int));
        assert(dirs@.take(i + 1).last() == dirs@[i as int]);
        match build_show(&dirs[i]) {
            Some(t) => {
                let key = lowercase_key(t.name.as_str());
                let ghost old_tvs = tvs@;
                let ghost old_keys = keys@;
                tvs.push(t);
                keys.push(key);
                proof {
                    srcs = srcs.push(dirs@[i as int]);
                    assert forall|k: int| 0 <= k < tvs.len() implies show_from(#[trigger] tvs@[k], srcs[k]) by {
                        if k < old_tvs.len() {
                            assert(tvs@[k] == old_tvs[k]);
                        }
                    }
                    assert forall|k: int| 0 <= k < keys.len() implies #[trigger] keys@[k]@ == lowercased(
                        show_dir_name(srcs[k]),
                    ) by {
                        if k < old_keys.len() {
                            assert(keys@[k] == old_keys[k]);
                        }
                    }
                }
            },
            None => {},
        }
        i = i + 1;
    }
    assert(dirs@.take(i as int) =~= dirs@);
    assert(key_views(keys@) =~= show_keys(srcs));
    let ghost inp = tvs@;
    let r = sort_by_keys(tvs, keys);
    proof {
        let perm = choose|perm: Seq<int>|
            {
                &&& #[trigger] is_stable_order(perm, key_views(keys@))
                &&& key_views(keys@).len() == inp.len()
                &&& r@.len() == inp.len()
                &&& forall|i: int| 0 <= i < r@.len() ==> r@[i] == inp[#[trigger] perm[i]]
            };
        assert forall|q: int| 0 <= q < r@.len() implies show_from(r@[q], srcs[#[trigger] perm[q]]) by {
            assert(r@[q] == inp[perm[q]]);
        }
        assert(is_stable_order(perm, show_keys(srcs)));
    }
    r
}

/// Builds the library: the movies of the movie directory walk and the shows of
/// the show directories.
pub fn index(movie_files: &Vec<FileEntry>, show_dirs: &Vec<ShowDir>) -> (r: Library)
    ensures
        movies_from(r.movies@, movie_candidates(movie_files@)),
        shows_from(r.shows@, show_dirs@),
{
    Library { movies: index_movies(movie_files), shows: index_shows(show_dirs) }
}


// ---------------------------------------------------------------------------
// Episodes of a show in viewing order
// ---------------------------------------------------------------------------

impl Movie {
    /// A copy of the movie.
    pub fn duplicate(&self) -> (r: Movie)
        ensures
            r == *self,
    {
        Movie {
            id: self.id.clone(),
            name: self.name.clone(),
            path: self.path.clone(),
            created_at: self.created_at,
            size: self.size,
        }
    }
}

impl Episode {
    /// A copy of the episode.
    pub fn duplicate(&self) -> (r: Episode)
        ensures
            r == *self,
    {
        Episode {
            id: self.id.clone(),
            name: self.name.clone(),
            path: self.path.clone(),
            created_at: self.created_at,
            size: self.size,
        }
    }
}

/// The episodes of the seasons `ss`, season after season.
pub open spec fn flat_episodes(ss: Seq<Season>) -> Seq<Episode>
    decreases ss.len(),
{
    if ss.len() == 0 {
        seq![]
    } else {
        flat_episodes(ss.drop_last()) + ss.last().episodes@
    }
}

impl Tv {
    /// All episodes of the show, season after season, each season in its own order.
    pub fn flatten_show(&self) -> (r: Vec<Episode>)
        ensures
            r@ == flat_episodes(self.seasons@),
    {
        let mut entries: Vec<Episode> = Vec::new();
        let mut i: usize = 0;
        while i < self.seasons.len()
            invariant
                i <= self.seasons.len(),
                entries@ == flat_episodes(self.seasons@.take(i as int)),
            decreases self.seasons.len() - i,
        {
            let season = &self.seasons[i];
            let ghost before = entries@;
            let mut k: usize = 0;
            while k < season.episodes.len()
                invariant
                    k <= season.episodes.len(),
                    entries@ == before + season.episodes@.take(k as int),
                decreases season.episodes.len() - k,
            {
                entries.push(season.episodes[k].duplicate());
                assert(entries@ =~= before + season.episodes@.take(k + 1));
                k = k + 1;
            }
            assert(season.episodes@.take(k as int) =~= season.episodes@);
            assert(self.seasons@.take(i + 1).drop_last() =~= self.seasons@.take(i as int));
            assert(self.seasons@.take(i + 1).last() == self.seasons@[i as int]);
            i = i + 1;
        }
        assert(self.seasons@.take(i as int) =~= self.seasons@);
        entries
    }
}


// ---------------------------------------------------------------------------
// Only media files are indexed
// ---------------------------------------------------------------------------

proof fn lemma_movie_candidates_media(fs: Seq<FileEntry>)
    ensures
        forall|k: int| 0 <= k < movie_candidates(fs).len() ==> spec_valid_ext(#[trigger] movie_candidates(fs)[k].1),
    decreases fs.len(),
{
    if fs.len() > 0 {
        lemma_movie_candidates_media(fs.drop_last());
        let rest = movie_candidates(fs.drop_last());
        assert forall|k: int| 0 <= k < movie_candidates(fs).len() implies spec_valid_ext(#[trigger] movie_candidates(fs)[k].1) by {
            if k < rest.len() {
                assert(movie_candidates(fs)[k] == rest[k]);
            }
        }
    }
}

proof fn lemma_episode_candidates_media(fs: Seq<FileEntry>)
    ensures
        forall|k: int| 0 <= k < episode_candidates(fs).len() ==> spec_valid_ext(#[trigger] episode_candidates(fs)[k].1),
    decreases fs.len(),
{
    if fs.len() > 0 {
        lemma_episode_candidates_media(fs.drop_last());
        let rest = episode_candidates(fs.drop_last());
        assert forall|k: int| 0 <= k < episode_candidates(fs).len() implies spec_valid_ext(#[trigger] episode_candidates(fs)[k].1) by {
            if k < rest.len() {
                assert(episode_candidates(fs)[k] == rest[k]);
            }
        }
    }
}

/// Only media files (`mkv`, `mp4`, `avi`) become movies.
pub proof fn lemma_indexed_movies_are_media(out: Seq<Movie>, files: Seq<FileEntry>)
    requires
        movies_from(out, movie_candidates(files)),
    ensures
        forall|i: int| 0 <= i < out.len() ==> spec_valid_ext(#[trigger] out[i].path@),
{
    let cands = movie_candidates(files);
    let shapes_out = out.map_values(|m: Movie| movie_shape(m));
    let perm = choose|perm: Seq<int>|
        {
            &&& #[trigger] is_stable_order(perm, name_keys(cands))
            &&& name_keys(cands).len() == cands.len()
            &&& shapes_out.len() == cands.len()
            &&& forall|i: int| 0 <= i < shapes_out.len() ==> shapes_out[i] == cands[#[trigger] perm[i]]
        };
    lemma_movie_candidates_media(files);
    assert forall|i: int| 0 <= i < out.len() implies spec_valid_ext(#[trigger] out[i].path@) by {
        assert(shapes_out[i] == movie_shape(out[i]));
        assert(0 <= perm[i] < cands.len());
        assert(shapes_out[i] == cands[perm[i]]);
        assert(spec_valid_ext(movie_candidates(files)[perm[i]].1));
    }
}

/// Only media files (`mkv`, `mp4`, `avi`) become episodes.
pub proof fn lemma_indexed_episodes_are_media(out: Seq<Episode>, files: Seq<FileEntry>)
    requires
        episodes_from(out, episode_candidates(files)),
    ensures
        forall|i: int| 0 <= i < out.len() ==> spec_valid_ext(#[trigger] out[i].path@),
{
    let cands = episode_candidates(files);
    let shapes_out = out.map_values(|e: Episode| episode_shape(e));
    let perm = choose|perm: Seq<int>|
        {
            &&& #[trigger] is_stable_order(perm, name_keys(cands))
            &&& name_keys(cands).len() == cands.len()
            &&& shapes_out.len() == cands.len()
            &&& forall|i: int| 0 <= i < shapes_out.len() ==> shapes_out[i] == cands[#[trigger] perm[i]]
        };
    lemma_episode_candidates_media(files);
    assert forall|i: int| 0 <= i < out.len() implies spec_valid_ext(#[trigger] out[i].path@) by {
        assert(shapes_out[i] == episode_shape(out[i]));
        assert(0 <= perm[i] < cands.len());
        assert(shapes_out[i] == cands[perm[i]]);
        assert(spec_valid_ext(episode_candidates(files)[perm[i]].1));
    }
}

} // verus!
