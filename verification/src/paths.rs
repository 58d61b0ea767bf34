//! File names and extensions of `/`-separated paths, as `std::path::Path`
//! reads them on Unix.

use vstd::prelude::*;
use crate::text::chars_to_string;
use crate::text::str_chars;

verus! {

/// The parts of `s` between the separators `sep`, empty parts included;
/// `cur` is the part being read and `acc` the parts already closed.
pub open spec fn split_parts(s: Seq<char>, sep: char, cur: Seq<char>, acc: Seq<Seq<char>>) -> Seq<
    Seq<char>,
>
    decreases s.len(),
{
    if s.len() == 0 {
        acc.push(cur)
    } else if s[0] == sep {
        split_parts(s.drop_first(), sep, seq![], acc.push(cur))
    } else {
        split_parts(s.drop_first(), sep, cur.push(s[0]), acc)
    }
}

/// A path part that names something: neither empty (repeated or trailing
/// separators) nor `.` (which `Path::components` normalizes away).
pub open spec fn is_named_part(p: Seq<char>) -> bool {
    p.len() > 0 && p != seq!['.']
}

/// The parts of a path that `Path::components` keeps, apart from the root.
pub open spec fn path_parts(path: Seq<char>) -> Seq<Seq<char>> {
    split_parts(path, '/', seq![], seq![]).filter(|p: Seq<char>| is_named_part(p))
}

/// `Path::file_name`: the last part, unless there is none or it is `..`.
pub open spec fn spec_file_name(path: Seq<char>) -> Option<Seq<char>> {
    let parts = path_parts(path);
    if parts.len() == 0 || parts.last() == seq!['.', '.'] {
        None
    } else {
        Some(parts.last())
    }
}

/// The index of the last `.` in `f`, or -1.
pub open spec fn last_dot(f: Seq<char>) -> int
    decreases f.len(),
{
    if f.len() == 0 {
        -1
    } else if f.last() == '.' {
        f.len() - 1
    } else {
        last_dot(f.drop_last())
    }
}

/// `Path::extension`: what follows the last `.` of the file name, where some
/// text precedes that dot.
pub open spec fn spec_extension(path: Seq<char>) -> Option<Seq<char>> {
    match spec_file_name(path) {
        None => None,
        Some(f) => if last_dot(f) <= 0 {
            None
        } else {
            Some(f.skip(last_dot(f) + 1))
        },
    }
}

/// `Path::file_stem`: the file name without its extension.
pub open spec fn spec_file_stem(path: Seq<char>) -> Option<Seq<char>> {
    match spec_file_name(path) {
        None => None,
        Some(f) => if last_dot(f) <= 0 {
            Some(f)
        } else {
            Some(f.take(last_dot(f)))
        },
    }
}

/// The extensions of media files that the library indexes.
pub open spec fn is_media_extension(e: Seq<char>) -> bool {
    e == seq!['m', 'k', 'v'] || e == seq!['m', 'p', '4'] || e == seq!['a', 'v', 'i']
}

pub open spec fn spec_valid_ext(path: Seq<char>) -> bool {
    match spec_extension(path) {
        Some(e) => is_media_extension(e),
        None => false,
    }
}

proof fn lemma_filter_push(s: Seq<Seq<char>>, x: Seq<char>)
    ensures
        s.push(x).filter(|p: Seq<char>| is_named_part(p)) == (if is_named_part(x) {
            s.filter(|p: Seq<char>| is_named_part(p)).push(x)
        } else {
            s.filter(|p: Seq<char>| is_named_part(p))
        }),
{
    reveal_with_fuel(Seq::filter, 1);
    assert(s.push(x).drop_last() =~= s);
}

fn is_named(cur: &Vec<char>) -> (r: bool)
    ensures
        r == is_named_part(cur@),
{
    if cur.len() == 0 {
        false
    } else if cur.len() == 1 && cur[0] == '.' {
        assert(cur@ =~= seq!['.']);
        false
    } else {
        assert(cur@.len() != 1 ==> cur@ != seq!['.']);
        assert(cur@.len() == 1 ==> cur@[0] != '.');
        true
    }
}

/// `Path::file_name` of a path given by its characters.
pub fn file_name_chars(path: &Vec<char>) -> (r: Option<Vec<char>>)
    ensures
        match r {
            Some(f) => spec_file_name(path@) == Some(f@),
            None => spec_file_name(path@) is None,
        },
{
    let ghost acc: Seq<Seq<char>> = seq![];
    let mut cur: Vec<char> = Vec::new();
    let mut last: Option<Vec<char>> = None;
    let mut i: usize = 0;
    assert(path@.skip(0) =~= path@);
    reveal_with_fuel(Seq::filter, 1);
    while i < path.len()
        invariant
            i <= path.len(),
            split_parts(path@, '/', seq![], seq![]) == split_parts(
                path@.skip(i as int),
                '/',
                cur@,
                acc,
            ),
            match last {
                Some(l) => {
                    let f = acc.filter(|p: Seq<char>| is_named_part(p));
                    f.len() > 0 && f.last() == l@
                },
                None => acc.filter(|p: Seq<char>| is_named_part(p)).len() == 0,
            },
        decreases path.len() - i,
    {
        let c = path[i];
        assert(path@.skip(i as int)[0] == c);
        assert(path@.skip(i as int).drop_first() =~= path@.skip(i + 1));
        if c == '/' {
            proof {
                lemma_filter_push(acc, cur@);
            }
            if is_named(&cur) {
                last = Some(cur);
            }
            proof {
                acc = acc.push(cur@);
            }
            cur = Vec::new();
        } else {
            cur.push(c);
        }
        i = i + 1;
    }
    proof {
        lemma_filter_push(acc, cur@);
    }
    if is_named(&cur) {
        last = Some(cur);
    }
    let ghost full = acc.push(cur@);
    assert(split_parts(path@, '/', seq![], seq![]) == full);
    match last {
        None => None,
        Some(l) => {
            if l.len() == 2 && l[0] == '.' && l[1] == '.' {
                assert(l@ =~= seq!['.', '.']);
                None
            } else {
                assert(l@.len() != 2 ==> l@ != seq!['.', '.']);
                assert(l@.len() == 2 ==> (l@[0] != '.' || l@[1] != '.'));
                Some(l)
            }
        },
    }
}

/// The index of the last `.` in `f`, or `None`.
fn find_last_dot(f: &Vec<char>) -> (r: Option<usize>)
    ensures
        match r {
            Some(k) => last_dot(f@) == k as int && k < f@.len(),
            None => last_dot(f@) == -1,
        },
{
    let mut i: usize = f.len();
    assert(f@.take(i as int) =~= f@);
    while i > 0
        invariant
            i <= f.len(),
            last_dot(f@) == last_dot(f@.take(i as int)),
        decreases i,
    {
        let ghost t = f@.take(i as int);
        assert(t.last() == f@[i - 1]);
        if f[i - 1] == '.' {
            return Some(i - 1);
        }
        assert(t.drop_last() =~= f@.take(i - 1));
        i = i - 1;
    }
    None
}

fn char_range(v: &Vec<char>, from: usize, to: usize) -> (r: Vec<char>)
    requires
        from <= to <= v.len(),
    ensures
        r@ == v@.subrange(from as int, to as int),
{
    let mut out: Vec<char> = Vec::new();
    let mut i = from;
    while i < to
        invariant
            from <= i <= to <= v.len(),
            out@ == v@.subrange(from as int, i as int),
        decreases to - i,
    {
        out.push(v[i]);
        assert(out@ =~= v@.subrange(from as int, i + 1));
        i = i + 1;
    }
    out
}

/// `Path::extension` of a path given by its characters.
pub fn extension_chars(path: &Vec<char>) -> (r: Option<Vec<char>>)
    ensures
        match r {
            Some(e) => spec_extension(path@) == Some(e@),
            None => spec_extension(path@) is None,
        },
{
    match file_name_chars(path) {
        None => None,
        Some(f) => match find_last_dot(&f) {
            None => None,
            Some(k) => {
                if k == 0 {
                    None
                } else {
                    let n = f.len();
                    assert(k < n);
                    let e = char_range(&f, k + 1, n);
                    assert(e@ =~= f@.skip(k + 1));
                    Some(e)
                }
            },
        },
    }
}

/// `Path::file_stem` of a path given by its characters.
pub fn file_stem_chars(path: &Vec<char>) -> (r: Option<Vec<char>>)
    ensures
        match r {
            Some(s) => spec_file_stem(path@) == Some(s@),
            None => spec_file_stem(path@) is None,
        },
{
    match file_name_chars(path) {
        None => None,
        Some(f) => match find_last_dot(&f) {
            None => Some(f),
            Some(k) => {
                if k == 0 {
                    Some(f)
                } else {
                    let s = char_range(&f, 0, k);
                    assert(s@ =~= f@.take(k as int));
                    Some(s)
                }
            },
        },
    }
}

/// The file name of a path (its last named part), as `Path::file_name` gives it.
pub fn file_name(path: &str) -> (r: Option<String>)
    ensures
        match r {
            Some(f) => spec_file_name(path@) == Some(f@),
            None => spec_file_name(path@) is None,
        },
{
    let chars = str_chars(path);
    match file_name_chars(&chars) {
        Some(f) => Some(chars_to_string(f.as_slice())),
        None => None,
    }
}

/// The file name of a path without its extension, as `Path::file_stem` gives it.
pub fn file_stem(path: &str) -> (r: Option<String>)
    ensures
        match r {
            Some(f) => spec_file_stem(path@) == Some(f@),
            None => spec_file_stem(path@) is None,
        },
{
    let chars = str_chars(path);
    match file_stem_chars(&chars) {
        Some(f) => Some(chars_to_string(f.as_slice())),
        None => None,
    }
}

/// Whether the path names a media file: its extension is `mkv`, `mp4` or `avi`.
pub fn valid_ext(path: &str) -> (r: bool)
    ensures
        r == spec_valid_ext(path@),
{
    let chars = str_chars(path);
    match extension_chars(&chars) {
        None => false,
        Some(e) => {
            if e.len() != 3 {
                assert(!is_media_extension(e@));
                false
            } else {
                let r = (e[0] == 'm' && e[1] == 'k' && e[2] == 'v') || (e[0] == 'm' && e[1] == 'p'
                    && e[2] == '4') || (e[0] == 'a' && e[1] == 'v' && e[2] == 'i');
                assert(e@ =~= seq![e@[0], e@[1], e@[2]]);
                r
            }
        },
    }
}

} // verus!
