//! Guessing titles, season numbers and episode numbers from file and
//! directory names.

use vstd::prelude::*;
use crate::text::{
    all_ascii_digits, ascii_lower, chars_to_string, digits_value, is_ascii_digit, is_whitespace,
    parse_i32, spec_is_whitespace, spec_parse_i32, str_chars, to_ascii_lower,
};

verus! {

// ---------------------------------------------------------------------------
// Season and episode numbers
// ---------------------------------------------------------------------------

/// What `regex::Regex::new(pattern)` and then `captures(haystack)` yield as the
/// text of capture group 1 of the leftmost match: `None` where the pattern does
/// not compile, nothing matches, or group 1 takes no part in the match.
pub uninterp spec fn regex_first_group(pattern: Seq<char>, haystack: Seq<char>) -> Option<Seq<char>>;

/// Compiles `pattern` with `regex::Regex::new` and returns the text of capture
/// group 1 of the first match in `haystack` (`Regex::captures`, then `get(1)`).
/// The result is named by `regex_first_group`; nothing else is claimed of it.
#[verifier::external_body]
fn first_group(pattern: &str, haystack: &str) -> (r: Option<String>)
    ensures
        opt_view(r) == regex_first_group(pattern@, haystack@),
{
    match regex::Regex::new(pattern) {
        Ok(re) => match re.captures(haystack) {
            Some(caps) => caps.get(1).map(|m| m.as_str().to_string()),
            None => None,
        },
        Err(_) => None,
    }
}

pub open spec fn opt_view(o: Option<String>) -> Option<Seq<char>> {
    match o {
        Some(s) => Some(s@),
        None => None,
    }
}

/// The number that the first captured group (in pattern order) reads as an
/// `i32`, or 0 where it does not parse or where no pattern captured anything.
pub open spec fn spec_number_from_groups(groups: Seq<Option<Seq<char>>>) -> i32
    decreases groups.len(),
{
    if groups.len() == 0 {
        0
    } else {
        match groups[0] {
            Some(g) => match spec_parse_i32(g) {
                Some(v) => v,
                None => 0,
            },
            None => spec_number_from_groups(groups.drop_first()),
        }
    }
}

/// Reads the number out of the groups captured by patterns tried in order:
/// the first pattern that captured decides, and a group that does not parse
/// as an `i32` gives 0.
pub fn number_from_groups(groups: &Vec<Option<String>>) -> (r: i32)
    ensures
        r == spec_number_from_groups(groups@.map_values(|o: Option<String>| opt_view(o))),
{
    let ghost gs = groups@.map_values(|o: Option<String>| opt_view(o));
    let mut i: usize = 0;
    assert(gs.skip(0) =~= gs);
    while i < groups.len()
        invariant
            i <= groups.len(),
            gs == groups@.map_values(|o: Option<String>| opt_view(o)),
            spec_number_from_groups(gs) == spec_number_from_groups(gs.skip(i as int)),
        decreases groups.len() - i,
    {
        assert(gs.skip(i as int)[0] == opt_view(groups@[i as int]));
        match &groups[i] {
            Some(g) => {
                let chars = str_chars(g.as_str());
                return match parse_i32(&chars) {
                    Some(v) => v,
                    None => 0,
                };
            },
            None => {},
        }
        assert(gs.skip(i as int).drop_first() =~= gs.skip(i + 1));
        i = i + 1;
    }
    0
}

/// The season number read from a name: `S01E02`, then `Season 2`, then `S1`
/// (case-insensitive, one or two digits); 0 where none of them is found.
pub open spec fn spec_guess_season(item: Seq<char>) -> i32 {
    spec_number_from_groups(
        seq![
            regex_first_group("(?i)S(\\d{1,2})E\\d{1,2}"@, item),
            regex_first_group("(?i)Season[ _]?(\\d{1,2})"@, item),
            regex_first_group("(?i)S(\\d{1,2})"@, item),
        ],
    )
}

/// The episode number read from a name: `S01E02`, then `Episode 3`, then `E3`
/// (case-insensitive, one or two digits); 0 where none of them is found.
pub open spec fn spec_guess_episode(item: Seq<char>) -> i32 {
    spec_number_from_groups(
        seq![
            regex_first_group("(?i)S\\d{1,2}E(\\d{1,2})"@, item),
            regex_first_group("(?i)Episode[ _]?(\\d{1,2})"@, item),
            regex_first_group("(?i)E(\\d{1,2})"@, item),
        ],
    )
}

/// The patterns tried for the season number, in order.
pub open spec fn season_patterns() -> Seq<Seq<char>> {
    seq!["(?i)S(\\d{1,2})E\\d{1,2}"@, "(?i)Season[ _]?(\\d{1,2})"@, "(?i)S(\\d{1,2})"@]
}

/// The patterns tried for the episode number, in order.
pub open spec fn episode_patterns() -> Seq<Seq<char>> {
    seq!["(?i)S\\d{1,2}E(\\d{1,2})"@, "(?i)Episode[ _]?(\\d{1,2})"@, "(?i)E(\\d{1,2})"@]
}

/// The text a pattern turns on case-insensitive matching with (the regex
/// crate's `i` flag).
pub open spec fn case_insensitive_flag() -> Seq<char> {
    "(?i)"@
}

/// Season and episode markers are matched in any case: both numbers are
/// read with patterns that each begin with the case-insensitive flag, so that
/// `season 2`, `Season 2` and `SEASON 2` read alike.
pub proof fn lemma_numbers_ignore_case(item: Seq<char>)
    ensures
        spec_guess_season(item) == spec_number_from_groups(
            seq![
                regex_first_group(season_patterns()[0], item),
                regex_first_group(season_patterns()[1], item),
                regex_first_group(season_patterns()[2], item),
            ],
        ),
        spec_guess_episode(item) == spec_number_from_groups(
            seq![
                regex_first_group(episode_patterns()[0], item),
                regex_first_group(episode_patterns()[1], item),
                regex_first_group(episode_patterns()[2], item),
            ],
        ),
        forall|i: int| 0 <= i < 3 ==> #[trigger] season_patterns()[i].take(4) == case_insensitive_flag(),
        forall|i: int| 0 <= i < 3 ==> #[trigger] episode_patterns()[i].take(4) == case_insensitive_flag(),
{
    reveal_strlit("(?i)");
    reveal_strlit("(?i)S(\\d{1,2})E\\d{1,2}");
    reveal_strlit("(?i)Season[ _]?(\\d{1,2})");
    reveal_strlit("(?i)S(\\d{1,2})");
    reveal_strlit("(?i)S\\d{1,2}E(\\d{1,2})");
    reveal_strlit("(?i)Episode[ _]?(\\d{1,2})");
    reveal_strlit("(?i)E(\\d{1,2})");
    assert(season_patterns()[0].take(4) =~= case_insensitive_flag());
    assert(season_patterns()[1].take(4) =~= case_insensitive_flag());
    assert(season_patterns()[2].take(4) =~= case_insensitive_flag());
    assert(episode_patterns()[0].take(4) =~= case_insensitive_flag());
    assert(episode_patterns()[1].take(4) =~= case_insensitive_flag());
    assert(episode_patterns()[2].take(4) =~= case_insensitive_flag());
}

/// Extracts the season number from a file or directory name.
/// Returns 0 if not found.
pub fn guess_season(item: &str) -> (r: i32)
    ensures
        r == spec_guess_season(item@),
{
    let mut groups: Vec<Option<String>> = Vec::new();
    groups.push(first_group("(?i)S(\\d{1,2})E\\d{1,2}", item));
    groups.push(first_group("(?i)Season[ _]?(\\d{1,2})", item));
    groups.push(first_group("(?i)S(\\d{1,2})", item));
    let r = number_from_groups(&groups);
    assert(groups@.map_values(|o: Option<String>| opt_view(o)) =~= seq![
        regex_first_group("(?i)S(\\d{1,2})E\\d{1,2}"@, item@),
        regex_first_group("(?i)Season[ _]?(\\d{1,2})"@, item@),
        regex_first_group("(?i)S(\\d{1,2})"@, item@),
    ]);
    r
}

/// Extracts the episode number from a file or directory name.
/// Returns 0 if not found.
pub fn guess_episode(item: &str) -> (r: i32)
    ensures
        r == spec_guess_episode(item@),
{
    let mut groups: Vec<Option<String>> = Vec::new();
    groups.push(first_group("(?i)S\\d{1,2}E(\\d{1,2})", item));
    groups.push(first_group("(?i)Episode[ _]?(\\d{1,2})", item));
    groups.push(first_group("(?i)E(\\d{1,2})", item));
    let r = number_from_groups(&groups);
    assert(groups@.map_values(|o: Option<String>| opt_view(o)) =~= seq![
        regex_first_group("(?i)S\\d{1,2}E(\\d{1,2})"@, item@),
        regex_first_group("(?i)Episode[ _]?(\\d{1,2})"@, item@),
        regex_first_group("(?i)E(\\d{1,2})"@, item@),
    ]);
    r
}


// ---------------------------------------------------------------------------
// Titles
// ---------------------------------------------------------------------------

/// Punctuation that separates words in release names: `.`, `_`, `[`, `]`, `(`, `)`.
pub open spec fn is_separator_punct(c: char) -> bool {
    c == '.' || c == '_' || c == '[' || c == ']' || c == '(' || c == ')'
}

pub open spec fn clean_char(c: char) -> char {
    if is_separator_punct(c) {
        ' '
    } else {
        c
    }
}

/// The words of `s` (maximal runs of non-whitespace characters, as
/// `split_whitespace` yields them); `cur` is the word being read and `acc`
/// the words already closed.
pub open spec fn split_words(s: Seq<char>, cur: Seq<char>, acc: Seq<Seq<char>>) -> Seq<Seq<char>>
    decreases s.len(),
{
    if s.len() == 0 {
        if cur.len() > 0 {
            acc.push(cur)
        } else {
            acc
        }
    } else if spec_is_whitespace(s[0]) {
        split_words(s.drop_first(), seq![], if cur.len() > 0 { acc.push(cur) } else { acc })
    } else {
        split_words(s.drop_first(), cur.push(s[0]), acc)
    }
}

/// The words of a name once its separator punctuation is read as spaces.
pub open spec fn name_words(s: Seq<char>) -> Seq<Seq<char>> {
    split_words(s.map_values(|c: char| clean_char(c)), seq![], seq![])
}

/// A four-digit year from 1900 to 2099.
pub open spec fn is_year_word(w: Seq<char>) -> bool {
    w.len() == 4 && all_ascii_digits(w) && 1900 <= digits_value(w) <= 2099
}

/// `str::eq_ignore_ascii_case`.
pub open spec fn eq_ignore_ascii_case(a: Seq<char>, b: Seq<char>) -> bool {
    a.len() == b.len() && forall|i: int| 0 <= i < a.len() ==> ascii_lower(#[trigger] a[i]) == ascii_lower(b[i])
}

/// A release-quality tag such as `1080p` or `x264`, in any ASCII case.
pub open spec fn is_quality_word(w: Seq<char>) -> bool {
    ||| eq_ignore_ascii_case(w, "1080p"@)
    ||| eq_ignore_ascii_case(w, "720p"@)
    ||| eq_ignore_ascii_case(w, "bluray"@)
    ||| eq_ignore_ascii_case(w, "webrip"@)
    ||| eq_ignore_ascii_case(w, "web-dl"@)
    ||| eq_ignore_ascii_case(w, "hdrip"@)
    ||| eq_ignore_ascii_case(w, "x264"@)
    ||| eq_ignore_ascii_case(w, "x265"@)
    ||| eq_ignore_ascii_case(w, "hevc"@)
}

/// `w` is `S`, `d` digits, `E`, then one or two digits (any ASCII case).
pub open spec fn is_code_with(w: Seq<char>, d: int) -> bool {
    &&& 2 + d < w.len() <= 4 + d
    &&& ascii_lower(w[0]) == 's'
    &&& all_ascii_digits(w.subrange(1, 1 + d))
    &&& ascii_lower(w[1 + d]) == 'e'
    &&& all_ascii_digits(w.subrange(2 + d, w.len() as int))
}

/// A season and episode code such as `S01E02`: `S`, one or two digits, `E`,
/// one or two digits, in any ASCII case.
pub open spec fn is_episode_code(w: Seq<char>) -> bool {
    is_code_with(w, 1) || is_code_with(w, 2)
}

/// A word at which the title ends: a year, a quality tag or a season and
/// episode code.
pub open spec fn ends_title(w: Seq<char>) -> bool {
    is_year_word(w) || is_quality_word(w) || is_episode_code(w)
}

/// The index of the first word from `i` on that ends the title, or the number
/// of words.
pub open spec fn title_end(ws: Seq<Seq<char>>, i: int) -> int
    decreases ws.len() - i,
{
    if i >= ws.len() || ends_title(ws[i]) {
        i
    } else {
        title_end(ws, i + 1)
    }
}

/// Words joined by single spaces.
pub open spec fn join_words(ws: Seq<Seq<char>>) -> Seq<char>
    decreases ws.len(),
{
    if ws.len() == 0 {
        seq![]
    } else if ws.len() == 1 {
        ws[0]
    } else {
        join_words(ws.drop_last()) + seq![' '] + ws.last()
    }
}

/// The title guessed from a release name: its words (separator punctuation
/// read as spaces) up to the first year, quality tag or season and episode
/// code, joined by spaces.
pub open spec fn spec_guess_name(item: Seq<char>) -> Seq<char> {
    let ws = name_words(item);
    join_words(ws.take(title_end(ws, 0)))
}

pub open spec fn word_views(ws: Seq<Vec<char>>) -> Seq<Seq<char>> {
    ws.map_values(|w: Vec<char>| w@)
}

/// Splits a name into words, reading separator punctuation as spaces.
fn split_name_words(chars: &Vec<char>) -> (r: Vec<Vec<char>>)
    ensures
        word_views(r@) == name_words(chars@),
{
    let ghost cleaned = chars@.map_values(|c: char| clean_char(c));
    let ghost acc: Seq<Seq<char>> = seq![];
    let mut words: Vec<Vec<char>> = Vec::new();
    let mut cur: Vec<char> = Vec::new();
    let mut i: usize = 0;
    assert(cleaned.skip(0) =~= cleaned);
    while i < chars.len()
        invariant
            i <= chars.len(),
            cleaned == chars@.map_values(|c: char| clean_char(c)),
            split_words(cleaned, seq![], seq![]) == split_words(cleaned.skip(i as int), cur@, acc),
            word_views(words@) == acc,
        decreases chars.len() - i,
    {
        let c0 = chars[i];
        let c = if c0 == '.' || c0 == '_' || c0 == '[' || c0 == ']' || c0 == '(' || c0 == ')' {
            ' '
        } else {
            c0
        };
        assert(cleaned.skip(i as int)[0] == c);
        assert(cleaned.skip(i as int).drop_first() =~= cleaned.skip(i + 1));
        if is_whitespace(c) {
            if cur.len() > 0 {
                proof {
                    acc = acc.push(cur@);
                }
                words.push(cur);
                assert(word_views(words@) =~= acc);
            }
            cur = Vec::new();
        } else {
            cur.push(c);
        }
        i = i + 1;
    }
    assert(cleaned.skip(i as int).len() == 0);
    if cur.len() > 0 {
        proof {
            acc = acc.push(cur@);
        }
        words.push(cur);
        assert(word_views(words@) =~= acc);
    }
    words
}

fn eq_ignore_case_lit(w: &Vec<char>, lit: &str) -> (r: bool)
    ensures
        r == eq_ignore_ascii_case(w@, lit@),
{
    let l = str_chars(lit);
    if w.len() != l.len() {
        return false;
    }
    let mut i: usize = 0;
    while i < w.len()
        invariant
            i <= w.len(),
            w.len() == l.len(),
            l@ == lit@,
            forall|k: int| 0 <= k < i ==> ascii_lower(#[trigger] w@[k]) == ascii_lower(l@[k]),
        decreases w.len() - i,
    {
        let a = w[i];
        let b = l[i];
        let la = to_ascii_lower(a);
        let lb = to_ascii_lower(b);
        if la != lb {
            return false;
        }
        i = i + 1;
    }
    true
}

fn is_quality(w: &Vec<char>) -> (r: bool)
    ensures
        r == is_quality_word(w@),
{
    eq_ignore_case_lit(w, "1080p") || eq_ignore_case_lit(w, "720p") || eq_ignore_case_lit(
        w,
        "bluray",
    ) || eq_ignore_case_lit(w, "webrip") || eq_ignore_case_lit(w, "web-dl")
        || eq_ignore_case_lit(w, "hdrip") || eq_ignore_case_lit(w, "x264") || eq_ignore_case_lit(
        w,
        "x265",
    ) || eq_ignore_case_lit(w, "hevc")
}

fn is_year(w: &Vec<char>) -> (r: bool)
    ensures
        r == is_year_word(w@),
{
    if w.len() != 4 {
        return false;
    }
    let mut v: u32 = 0;
    let mut i: usize = 0;
    while i < 4
        invariant
            w.len() == 4,
            i <= 4,
            all_ascii_digits(w@.take(i as int)),
            v == digits_value(w@.take(i as int)),
            i == 0 ==> v == 0,
            i == 1 ==> v < 10,
            i == 2 ==> v < 100,
            i == 3 ==> v < 1000,
            i == 4 ==> v < 10000,
        decreases 4 - i,
    {
        let c = w[i];
        if !('0' <= c && c <= '9') {
            assert(!is_ascii_digit(w@[i as int]));
            return false;
        }
        let ghost t = w@.take(i + 1);
        assert(t.drop_last() =~= w@.take(i as int));
        assert(all_ascii_digits(t)) by {
            assert forall|k: int| 0 <= k < t.len() implies is_ascii_digit(#[trigger] t[k]) by {
                if k < i {
                    assert(t[k] == w@.take(i as int)[k]);
                }
            }
        }
        v = v * 10 + (c as u32 - '0' as u32);
        i = i + 1;
    }
    assert(w@.take(4) =~= w@);
    1900 <= v && v <= 2099
}

fn all_digits_between(w: &Vec<char>, from: usize, to: usize) -> (r: bool)
    requires
        from <= to <= w.len(),
    ensures
        r == all_ascii_digits(w@.subrange(from as int, to as int)),
{
    let mut i = from;
    while i < to
        invariant
            from <= i <= to <= w.len(),
            forall|k: int| from <= k < i ==> is_ascii_digit(#[trigger] w@[k]),
        decreases to - i,
    {
        let c = w[i];
        if !('0' <= c && c <= '9') {
            assert(w@.subrange(from as int, to as int)[i - from] == c);
            return false;
        }
        i = i + 1;
    }
    assert forall|k: int| 0 <= k < to - from implies is_ascii_digit(#[trigger] w@.subrange(from as int, to as int)[k]) by {
        assert(w@.subrange(from as int, to as int)[k] == w@[from + k]);
    }
    true
}

fn is_code_with_exec(w: &Vec<char>, d: usize) -> (r: bool)
    requires
        1 <= d <= 2,
    ensures
        r == is_code_with(w@, d as int),
{
    let n = w.len();
    if !(2 + d < n && n <= 4 + d) {
        return false;
    }
    to_ascii_lower(w[0]) == 's' && all_digits_between(w, 1, 1 + d) && to_ascii_lower(w[1 + d]) == 'e'
        && all_digits_between(w, 2 + d, n)
}

fn is_episode_code_exec(w: &Vec<char>) -> (r: bool)
    ensures
        r == is_episode_code(w@),
{
    is_code_with_exec(w, 1) || is_code_with_exec(w, 2)
}

/// Guesses a title from a release name: separator punctuation becomes spaces,
/// and the words before the first year (1900 to 2099), quality tag or season
/// and episode code are kept, joined by single spaces.
pub fn guess_name(item: &str) -> (r: String)
    ensures
        r@ == spec_guess_name(item@),
{
    let chars = str_chars(item);
    let words = split_name_words(&chars);
    let ghost ws = word_views(words@);
    let mut out: Vec<char> = Vec::new();
    let mut i: usize = 0;
    while i < words.len()
        invariant
            i <= words.len(),
            ws == word_views(words@),
            ws.len() == words.len(),
            title_end(ws, 0) == title_end(ws, i as int),
            out@ == join_words(ws.take(i as int)),
        ensures
            i <= words.len(),
            title_end(ws, 0) == i as int,
            out@ == join_words(ws.take(i as int)),
        decreases words.len() - i,
    {
        let w = &words[i];
        assert(ws[i as int] == w@);
        if is_year(w) || is_quality(w) || is_episode_code_exec(w) {
            break;
        }
        let ghost t = ws.take(i + 1);
        assert(t.drop_last() =~= ws.take(i as int));
        if i > 0 {
            out.push(' ');
        } else {
            assert(t =~= seq![w@]);
        }
        let mut k: usize = 0;
        let ghost before = out@;
        while k < w.len()
            invariant
                k <= w.len(),
                out@ == before + w@.take(k as int),
            decreases w.len() - k,
        {
            out.push(w[k]);
            assert(out@ =~= before + w@.take(k + 1));
            k = k + 1;
        }
        assert(w@.take(k as int) =~= w@);
        i = i + 1;
    }
    chars_to_string(out.as_slice())
}


/// No character of `s` is separator punctuation.
pub open spec fn has_no_separator(s: Seq<char>) -> bool {
    forall|i: int| 0 <= i < s.len() ==> !is_separator_punct(#[trigger] s[i])
}

proof fn lemma_split_words_clean(s: Seq<char>, cur: Seq<char>, acc: Seq<Seq<char>>)
    requires
        has_no_separator(s),
        has_no_separator(cur),
        forall|k: int| 0 <= k < acc.len() ==> has_no_separator(#[trigger] acc[k]),
    ensures
        forall|k: int|
            0 <= k < split_words(s, cur, acc).len() ==> has_no_separator(
                #[trigger] split_words(s, cur, acc)[k],
            ),
    decreases s.len(),
{
    if s.len() == 0 {
        if cur.len() > 0 {
            assert forall|k: int| 0 <= k < acc.push(cur).len() implies has_no_separator(#[trigger] acc.push(cur)[k]) by {
                if k < acc.len() {
                    assert(acc.push(cur)[k] == acc[k]);
                }
            }
        }
    } else {
        assert(has_no_separator(s.drop_first())) by {
            assert forall|i: int| 0 <= i < s.drop_first().len() implies !is_separator_punct(#[trigger] s.drop_first()[i]) by {
                assert(s.drop_first()[i] == s[i + 1]);
            }
        }
        if spec_is_whitespace(s[0]) {
            let acc2 = if cur.len() > 0 { acc.push(cur) } else { acc };
            assert forall|k: int| 0 <= k < acc2.len() implies has_no_separator(#[trigger] acc2[k]) by {
                if k < acc.len() {
                    assert(acc2[k] == acc[k]);
                }
            }
            lemma_split_words_clean(s.drop_first(), seq![], acc2);
            assert(split_words(s, cur, acc) == split_words(s.drop_first(), seq![], acc2));
        } else {
            assert(!is_separator_punct(s[0]));
            assert(has_no_separator(cur.push(s[0]))) by {
                assert forall|i: int| 0 <= i < cur.push(s[0]).len() implies !is_separator_punct(#[trigger] cur.push(s[0])[i]) by {
                    if i < cur.len() {
                        assert(cur.push(s[0])[i] == cur[i]);
                    }
                }
            }
            lemma_split_words_clean(s.drop_first(), cur.push(s[0]), acc);
            assert(split_words(s, cur, acc) == split_words(s.drop_first(), cur.push(s[0]), acc));
        }
    }
}

proof fn lemma_title_end_range(ws: Seq<Seq<char>>, i: int)
    requires
        0 <= i <= ws.len(),
    ensures
        i <= title_end(ws, i) <= ws.len(),
    decreases ws.len() - i,
{
    if i < ws.len() && !ends_title(ws[i]) {
        lemma_title_end_range(ws, i + 1);
    }
}

proof fn lemma_join_clean(ws: Seq<Seq<char>>)
    requires
        forall|k: int| 0 <= k < ws.len() ==> has_no_separator(#[trigger] ws[k]),
    ensures
        has_no_separator(join_words(ws)),
    decreases ws.len(),
{
    if ws.len() == 1 {
        assert(has_no_separator(ws[0]));
    } else if ws.len() > 1 {
        assert forall|k: int| 0 <= k < ws.drop_last().len() implies has_no_separator(#[trigger] ws.drop_last()[k]) by {
            assert(ws.drop_last()[k] == ws[k]);
        }
        lemma_join_clean(ws.drop_last());
        let a = join_words(ws.drop_last());
        let j = a + seq![' '] + ws.last();
        assert(has_no_separator(ws[ws.len() - 1]));
        assert forall|i: int| 0 <= i < j.len() implies !is_separator_punct(#[trigger] j[i]) by {
            if i < a.len() {
                assert(j[i] == a[i]);
            } else if i == a.len() {
                assert(j[i] == ' ');
            } else {
                assert(j[i] == ws.last()[i - a.len() - 1]);
            }
        }
    }
}

/// A guessed title holds none of the separator punctuation `.`, `_`, `[`,
/// `]`, `(`, `)`: they only ever separate words.
pub proof fn lemma_guess_name_has_no_separators(item: Seq<char>)
    ensures
        has_no_separator(spec_guess_name(item)),
{
    let cleaned = item.map_values(|c: char| clean_char(c));
    assert(has_no_separator(cleaned)) by {
        assert forall|i: int| 0 <= i < cleaned.len() implies !is_separator_punct(#[trigger] cleaned[i]) by {
            assert(cleaned[i] == clean_char(item[i]));
        }
    }
    let empty: Seq<char> = seq![];
    let none: Seq<Seq<char>> = seq![];
    assert(has_no_separator(empty));
    lemma_split_words_clean(cleaned, empty, none);
    let ws = name_words(item);
    lemma_title_end_range(ws, 0);
    let kept = ws.take(title_end(ws, 0));
    assert forall|k: int| 0 <= k < kept.len() implies has_no_separator(#[trigger] kept[k]) by {
        assert(kept[k] == ws[k]);
    }
    lemma_join_clean(kept);
}

/// A word as `split_whitespace` yields it: not empty, without whitespace.
pub open spec fn is_word(w: Seq<char>) -> bool {
    w.len() > 0 && forall|i: int| 0 <= i < w.len() ==> !spec_is_whitespace(#[trigger] w[i])
}

proof fn lemma_split_words_are_words(s: Seq<char>, cur: Seq<char>, acc: Seq<Seq<char>>)
    requires
        forall|i: int| 0 <= i < cur.len() ==> !spec_is_whitespace(#[trigger] cur[i]),
        forall|k: int| 0 <= k < acc.len() ==> is_word(#[trigger] acc[k]),
    ensures
        forall|k: int|
            0 <= k < split_words(s, cur, acc).len() ==> is_word(#[trigger] split_words(s, cur, acc)[k]),
    decreases s.len(),
{
    if s.len() == 0 {
        if cur.len() > 0 {
            assert forall|k: int| 0 <= k < acc.push(cur).len() implies is_word(#[trigger] acc.push(cur)[k]) by {
                if k < acc.len() {
                    assert(acc.push(cur)[k] == acc[k]);
                }
            }
        }
    } else if spec_is_whitespace(s[0]) {
        let acc2 = if cur.len() > 0 { acc.push(cur) } else { acc };
        assert forall|k: int| 0 <= k < acc2.len() implies is_word(#[trigger] acc2[k]) by {
            if k < acc.len() {
                assert(acc2[k] == acc[k]);
            }
        }
        let empty: Seq<char> = seq![];
        lemma_split_words_are_words(s.drop_first(), empty, acc2);
        assert(split_words(s, cur, acc) == split_words(s.drop_first(), empty, acc2));
    } else {
        let c2 = cur.push(s[0]);
        assert forall|i: int| 0 <= i < c2.len() implies !spec_is_whitespace(#[trigger] c2[i]) by {
            if i < cur.len() {
                assert(c2[i] == cur[i]);
            }
        }
        lemma_split_words_are_words(s.drop_first(), c2, acc);
        assert(split_words(s, cur, acc) == split_words(s.drop_first(), c2, acc));
    }
}

proof fn lemma_split_word_prefix(w: Seq<char>, r: Seq<char>, cur: Seq<char>, acc: Seq<Seq<char>>)
    requires
        forall|i: int| 0 <= i < w.len() ==> !spec_is_whitespace(#[trigger] w[i]),
    ensures
        split_words(w + r, cur, acc) == split_words(r, cur + w, acc),
    decreases w.len(),
{
    if w.len() == 0 {
        assert(w + r =~= r);
        assert(cur + w =~= cur);
    } else {
        let wr = w + r;
        assert(wr[0] == w[0]);
        assert(!spec_is_whitespace(w[0]));
        assert(wr.drop_first() =~= w.drop_first() + r);
        assert forall|i: int| 0 <= i < w.drop_first().len() implies !spec_is_whitespace(#[trigger] w.drop_first()[i]) by {
            assert(w.drop_first()[i] == w[i + 1]);
        }
        lemma_split_word_prefix(w.drop_first(), r, cur.push(w[0]), acc);
        assert(cur.push(w[0]) + w.drop_first() =~= cur + w);
    }
}

proof fn lemma_split_join(ws: Seq<Seq<char>>, r: Seq<char>, acc: Seq<Seq<char>>)
    requires
        ws.len() >= 1,
        forall|k: int| 0 <= k < ws.len() ==> is_word(#[trigger] ws[k]),
    ensures
        split_words(join_words(ws) + r, seq![], acc) == split_words(r, ws.last(), acc + ws.drop_last()),
    decreases ws.len(),
{
    let empty: Seq<char> = seq![];
    if ws.len() == 1 {
        assert(is_word(ws[0]));
        lemma_split_word_prefix(ws[0], r, empty, acc);
        assert(empty + ws[0] =~= ws[0]);
        assert(acc + ws.drop_last() =~= acc);
    } else {
        let w0 = ws.drop_last();
        let last = ws.last();
        assert forall|k: int| 0 <= k < w0.len() implies is_word(#[trigger] w0[k]) by {
            assert(w0[k] == ws[k]);
        }
        assert(is_word(ws[ws.len() - 1]));
        let r1 = seq![' '] + last + r;
        assert(join_words(ws) + r =~= join_words(w0) + r1);
        lemma_split_join(w0, r1, acc);
        let prev = w0.last();
        assert(is_word(w0[w0.len() - 1]));
        assert(r1[0] == ' ');
        assert(r1.drop_first() =~= last + r);
        assert(split_words(r1, prev, acc + w0.drop_last()) == split_words(
            last + r,
            empty,
            (acc + w0.drop_last()).push(prev),
        ));
        assert((acc + w0.drop_last()).push(prev) =~= acc + w0);
        lemma_split_word_prefix(last, r, empty, acc + w0);
        assert(empty + last =~= last);
    }
}

proof fn lemma_title_end_skips(ws: Seq<Seq<char>>, i: int)
    requires
        0 <= i <= ws.len(),
    ensures
        forall|j: int| i <= j < title_end(ws, i) ==> !ends_title(#[trigger] ws[j]),
    decreases ws.len() - i,
{
    if i < ws.len() && !ends_title(ws[i]) {
        lemma_title_end_skips(ws, i + 1);
    }
}

proof fn lemma_title_end_none(ws: Seq<Seq<char>>, i: int)
    requires
        0 <= i <= ws.len(),
        forall|j: int| i <= j < ws.len() ==> !ends_title(#[trigger] ws[j]),
    ensures
        title_end(ws, i) == ws.len(),
    decreases ws.len() - i,
{
    if i < ws.len() {
        lemma_title_end_none(ws, i + 1);
    }
}

/// Guessing a title from a guessed title gives it back unchanged.
pub proof fn lemma_guess_name_idempotent(item: Seq<char>)
    ensures
        spec_guess_name(spec_guess_name(item)) == spec_guess_name(item),
{
    let cleaned = item.map_values(|c: char| clean_char(c));
    let empty: Seq<char> = seq![];
    let none: Seq<Seq<char>> = seq![];
    lemma_split_words_are_words(cleaned, empty, none);
    let ws = name_words(item);
    lemma_title_end_range(ws, 0);
    lemma_title_end_skips(ws, 0);
    let kept = ws.take(title_end(ws, 0));
    assert forall|k: int| 0 <= k < kept.len() implies is_word(#[trigger] kept[k]) && !ends_title(kept[k]) by {
        assert(kept[k] == ws[k]);
    }
    let g = join_words(kept);
    assert(g == spec_guess_name(item));
    lemma_guess_name_has_no_separators(item);
    let g_clean = g.map_values(|c: char| clean_char(c));
    assert(g_clean =~= g) by {
        assert forall|i: int| 0 <= i < g.len() implies g_clean[i] == g[i] by {
            assert(!is_separator_punct(g[i]));
        }
    }
    if kept.len() == 0 {
        assert(g =~= empty);
        assert(name_words(g) =~= none);
    } else {
        lemma_split_join(kept, empty, none);
        assert(g + empty =~= g);
        assert(none + kept.drop_last() =~= kept.drop_last());
        assert(kept.drop_last().push(kept.last()) =~= kept);
        assert(name_words(g) == kept);
    }
    lemma_title_end_none(kept, 0);
    assert(kept.take(kept.len() as int) =~= kept);
}

proof fn lemma_split_words_keeps_prefix(s: Seq<char>, cur: Seq<char>, acc: Seq<Seq<char>>)
    ensures
        split_words(s, cur, acc).len() >= acc.len(),
        forall|i: int| 0 <= i < acc.len() ==> #[trigger] split_words(s, cur, acc)[i] == acc[i],
    decreases s.len(),
{
    if s.len() > 0 {
        if spec_is_whitespace(s[0]) {
            let acc2 = if cur.len() > 0 { acc.push(cur) } else { acc };
            lemma_split_words_keeps_prefix(s.drop_first(), seq![], acc2);
            assert forall|i: int| 0 <= i < acc.len() implies #[trigger] split_words(s, cur, acc)[i] == acc[i] by {
                assert(acc2[i] == acc[i]);
            }
        } else {
            lemma_split_words_keeps_prefix(s.drop_first(), cur.push(s[0]), acc);
        }
    }
}

proof fn lemma_split_words_concat(s1: Seq<char>, s2: Seq<char>, cur: Seq<char>, acc: Seq<Seq<char>>)
    requires
        s2.len() > 0,
        spec_is_whitespace(s2[0]),
    ensures
        split_words(s1 + s2, cur, acc) == split_words(s2, seq![], split_words(s1, cur, acc)),
    decreases s1.len(),
{
    let empty: Seq<char> = seq![];
    if s1.len() == 0 {
        assert(s1 + s2 =~= s2);
        let acc2 = if cur.len() > 0 { acc.push(cur) } else { acc };
        assert(split_words(s2, cur, acc) == split_words(s2.drop_first(), empty, acc2));
        assert(split_words(s2, empty, acc2) == split_words(s2.drop_first(), empty, acc2));
    } else {
        let s = s1 + s2;
        assert(s[0] == s1[0]);
        assert(s.drop_first() =~= s1.drop_first() + s2);
        if spec_is_whitespace(s1[0]) {
            let acc2 = if cur.len() > 0 { acc.push(cur) } else { acc };
            lemma_split_words_concat(s1.drop_first(), s2, empty, acc2);
            assert(split_words(s, cur, acc) == split_words(s.drop_first(), empty, acc2));
            assert(split_words(s1, cur, acc) == split_words(s1.drop_first(), empty, acc2));
        } else {
            lemma_split_words_concat(s1.drop_first(), s2, cur.push(s1[0]), acc);
            assert(split_words(s, cur, acc) == split_words(s.drop_first(), cur.push(s1[0]), acc));
            assert(split_words(s1, cur, acc) == split_words(s1.drop_first(), cur.push(s1[0]), acc));
        }
    }
}

proof fn lemma_title_end_prefix(ws: Seq<Seq<char>>, w: Seq<Seq<char>>, i: int)
    requires
        w.len() < ws.len(),
        forall|j: int| 0 <= j < w.len() ==> #[trigger] ws[j] == w[j],
        ends_title(ws[w.len() as int]),
        0 <= i <= w.len(),
    ensures
        title_end(ws, i) == title_end(w, i),
    decreases w.len() - i,
{
    if i < w.len() {
        assert(ws[i] == w[i]);
        lemma_title_end_prefix(ws, w, i + 1);
    }
}

/// Characters of the quality tags: ASCII digits, lowercase letters and `-`.
spec fn is_tag_char(c: char) -> bool {
    ('0' <= c && c <= '9') || ('a' <= c && c <= 'z') || c == '-'
}

proof fn lemma_tag_word(tag: Seq<char>, q: Seq<char>)
    requires
        eq_ignore_ascii_case(tag, q),
        q.len() > 0,
        forall|i: int| 0 <= i < q.len() ==> is_tag_char(#[trigger] q[i]),
    ensures
        is_word(tag),
        has_no_separator(tag),
{
    assert forall|i: int| 0 <= i < tag.len() implies !spec_is_whitespace(#[trigger] tag[i])
        && !is_separator_punct(tag[i]) by {
        assert(ascii_lower(tag[i]) == ascii_lower(q[i]));
        assert(is_tag_char(q[i]));
    }
}

/// A title ends before a release-quality tag (`1080p`, `720p`, `bluray`,
/// `webrip`, `web-dl`, `hdrip`, `x264`, `x265`, `hevc`, in any ASCII case):
/// whatever follows the tag as a separate word, the title guessed is the one
/// guessed from what precedes it.
pub proof fn lemma_guess_name_stops_at_quality_tag(a: Seq<char>, tag: Seq<char>, rest: Seq<char>)
    requires
        eq_ignore_ascii_case(tag, "1080p"@) || eq_ignore_ascii_case(tag, "720p"@)
            || eq_ignore_ascii_case(tag, "bluray"@) || eq_ignore_ascii_case(tag, "webrip"@)
            || eq_ignore_ascii_case(tag, "web-dl"@) || eq_ignore_ascii_case(tag, "hdrip"@)
            || eq_ignore_ascii_case(tag, "x264"@) || eq_ignore_ascii_case(tag, "x265"@)
            || eq_ignore_ascii_case(tag, "hevc"@),
        rest.len() == 0 || spec_is_whitespace(clean_char(rest[0])),
    ensures
        spec_guess_name(a + seq![' '] + tag + rest) == spec_guess_name(a),
{
    reveal_strlit("1080p");
    reveal_strlit("720p");
    reveal_strlit("bluray");
    reveal_strlit("webrip");
    reveal_strlit("web-dl");
    reveal_strlit("hdrip");
    reveal_strlit("x264");
    reveal_strlit("x265");
    reveal_strlit("hevc");
    if eq_ignore_ascii_case(tag, "1080p"@) {
        lemma_tag_word(tag, "1080p"@);
    } else if eq_ignore_ascii_case(tag, "720p"@) {
        lemma_tag_word(tag, "720p"@);
    } else if eq_ignore_ascii_case(tag, "bluray"@) {
        lemma_tag_word(tag, "bluray"@);
    } else if eq_ignore_ascii_case(tag, "webrip"@) {
        lemma_tag_word(tag, "webrip"@);
    } else if eq_ignore_ascii_case(tag, "web-dl"@) {
        lemma_tag_word(tag, "web-dl"@);
    } else if eq_ignore_ascii_case(tag, "hdrip"@) {
        lemma_tag_word(tag, "hdrip"@);
    } else if eq_ignore_ascii_case(tag, "x264"@) {
        lemma_tag_word(tag, "x264"@);
    } else if eq_ignore_ascii_case(tag, "x265"@) {
        lemma_tag_word(tag, "x265"@);
    } else {
        lemma_tag_word(tag, "hevc"@);
    }
    assert(ends_title(tag));
    let empty: Seq<char> = seq![];
    let none: Seq<Seq<char>> = seq![];
    let full = a + seq![' '] + tag + rest;
    let ca = a.map_values(|c: char| clean_char(c));
    let cr = rest.map_values(|c: char| clean_char(c));
    let tail = seq![' '] + tag + cr;
    let cf = full.map_values(|c: char| clean_char(c));
    assert(cf =~= ca + tail) by {
        assert forall|i: int| 0 <= i < cf.len() implies cf[i] == (ca + tail)[i] by {
            if i < a.len() {
            } else if i == a.len() {
            } else if i < a.len() + 1 + tag.len() {
                assert(full[i] == tag[i - a.len() - 1]);
                assert(!is_separator_punct(tag[i - a.len() - 1]));
            } else {
                assert(full[i] == rest[i - a.len() - 1 - tag.len()]);
            }
        }
    }
    let w = name_words(a);
    assert(tail[0] == ' ');
    lemma_split_words_concat(ca, tail, empty, none);
    assert(name_words(full) == split_words(tail, empty, w));
    assert(tail.drop_first() =~= tag + cr);
    assert(split_words(tail, empty, w) == split_words(tag + cr, empty, w));
    lemma_split_word_prefix(tag, cr, empty, w);
    assert(empty + tag =~= tag);
    let ws = name_words(full);
    assert(ws == split_words(cr, tag, w));
    let n = w.len();
    if cr.len() == 0 {
        assert(ws == w.push(tag));
        assert forall|j: int| 0 <= j < n implies #[trigger] ws[j] == w[j] by {}
        assert(ws[n as int] == tag);
    } else {
        assert(cr[0] == clean_char(rest[0]));
        assert(ws == split_words(cr.drop_first(), empty, w.push(tag)));
        lemma_split_words_keeps_prefix(cr.drop_first(), empty, w.push(tag));
        assert forall|j: int| 0 <= j < n implies #[trigger] ws[j] == w[j] by {
            assert(w.push(tag)[j] == w[j]);
        }
        assert(ws[n as int] == w.push(tag)[n as int]);
    }
    lemma_title_end_prefix(ws, w, 0);
    lemma_title_end_range(w, 0);
    let te = title_end(w, 0);
    assert(ws.take(te) =~= w.take(te));
}

} // verus!
