//! Which directory entries are media files, and under what names they are listed.

use vstd::prelude::*;

verus! {

/// One entry of the media directory, as the caller read it.
pub struct Entry {
    pub name: String,
    pub is_dir: bool,
}

impl Entry {
    pub fn new(name: String, is_dir: bool) -> (r: Entry)
        ensures
            r.name@ == name@,
            r.is_dir == is_dir,
    {
        Entry { name, is_dir }
    }
}

/// `c` after ASCII case folding.
pub open spec fn lower_char(c: char) -> char {
    if 'A' <= c && c <= 'Z' {
        ((c as u32) + 32) as char
    } else {
        c
    }
}

/// `s` after ASCII case folding.
pub open spec fn lowered(s: Seq<char>) -> Seq<char> {
    s.map_values(|c: char| lower_char(c))
}

/// Relies on str::to_ascii_lowercase: ASCII letters become lower case,
/// every other character stays.
#[verifier::external_body]
fn ascii_lowercase(s: &str) -> (r: String)
    ensures
        r@ == lowered(s@),
{
    s.to_ascii_lowercase()
}

/// The index of the last `.` in `s`, or -1 where there is none.
pub open spec fn last_dot(s: Seq<char>) -> int
    decreases s.len(),
{
    if s.len() == 0 {
        -1
    } else if s.last() == '.' {
        s.len() - 1
    } else {
        last_dot(s.drop_last())
    }
}

/// What follows the last `.` of a file name. A name without a dot, or whose
/// only dot leads it (`.jpg`), has no extension.
pub open spec fn extension(s: Seq<char>) -> Option<Seq<char>> {
    let k = last_dot(s);
    if k > 0 {
        Some(s.subrange(k + 1, s.len() as int))
    } else {
        None
    }
}

/// The lower-case extensions of the media files that are listed.
pub open spec fn is_media_extension(e: Seq<char>) -> bool {
    ||| e == "jpg"@
    ||| e == "png"@
    ||| e == "jpeg"@
    ||| e == "webp"@
    ||| e == "gif"@
    ||| e == "mp4"@
    ||| e == "mkv"@
    ||| e == "webm"@
}

/// A file name whose lower-cased extension is a media extension.
pub open spec fn is_media_name(name: Seq<char>) -> bool {
    match extension(lowered(name)) {
        Some(e) => is_media_extension(e),
        None => false,
    }
}

/// An entry that is listed: a file, not a directory, with a media name.
pub open spec fn is_listed(e: Entry) -> bool {
    !e.is_dir && is_media_name(e.name@)
}

/// The listing of `entries`: the lower-cased names of the media files, in
/// the order of the entries.
pub open spec fn listed(entries: Seq<Entry>) -> Seq<Seq<char>>
    decreases entries.len(),
{
    if entries.len() == 0 {
        seq![]
    } else {
        let rest = listed(entries.drop_last());
        if is_listed(entries.last()) {
            rest.push(lowered(entries.last().name@))
        } else {
            rest
        }
    }
}

/// Where no entry is a media file, the listing is empty.
pub proof fn lemma_no_media_empty_listing(entries: Seq<Entry>)
    requires
        forall|i: int| 0 <= i < entries.len() ==> !is_listed(#[trigger] entries[i]),
    ensures
        listed(entries) == Seq::<Seq<char>>::empty(),
    decreases entries.len(),
{
    if entries.len() > 0 {
        let init = entries.drop_last();
        assert forall|i: int| 0 <= i < init.len() implies !is_listed(#[trigger] init[i]) by {
            assert(init[i] == entries[i]);
        }
        lemma_no_media_empty_listing(init);
        assert(!is_listed(entries[entries.len() - 1]));
    }
}

proof fn lemma_last_dot_range(s: Seq<char>)
    ensures
        -1 <= last_dot(s) < s.len(),
        last_dot(s) >= 0 ==> s[last_dot(s)] == '.',
    decreases s.len(),
{
    if s.len() > 0 {
        lemma_last_dot_range(s.drop_last());
    }
}

/// The index of the last `.` of `s`, if there is one.
fn last_dot_index(s: &str) -> (r: Option<usize>)
    ensures
        r == (if last_dot(s@) >= 0 {
            Some(last_dot(s@) as usize)
        } else {
            None::<usize>
        }),
{
    let n = s.unicode_len();
    let mut r: Option<usize> = None;
    let mut i: usize = 0;
    while i < n
        invariant
            n == s@.len(),
            i <= n,
            r == (if last_dot(s@.subrange(0, i as int)) >= 0 {
                Some(last_dot(s@.subrange(0, i as int)) as usize)
            } else {
                None::<usize>
            }),
        decreases n - i,
    {
        proof {
            assert(s@.subrange(0, i + 1).drop_last() =~= s@.subrange(0, i as int));
            lemma_last_dot_range(s@.subrange(0, i as int));
        }
        if s.get_char(i) == '.' {
            r = Some(i);
        }
        i += 1;
    }
    assert(s@.subrange(0, n as int) =~= s@);
    r
}

/// Whether the characters of `s` from `start` on are those of `word`.
fn tail_is(s: &str, start: usize, word: &str) -> (r: bool)
    requires
        start <= s@.len(),
    ensures
        r == (s@.subrange(start as int, s@.len() as int) == word@),
{
    let n = s.unicode_len();
    let w = word.unicode_len();
    if n - start != w {
        return false;
    }
    let mut t: usize = 0;
    while t < w
        invariant
            n == s@.len(),
            w == word@.len(),
            start <= n,
            n - start == w,
            t <= w,
            forall|p: int| 0 <= p < t ==> s@[start + p] == word@[p],
        decreases w - t,
    {
        if s.get_char(start + t) != word.get_char(t) {
            assert(s@.subrange(start as int, n as int)[t as int] != word@[t as int]);
            return false;
        }
        t += 1;
    }
    assert(s@.subrange(start as int, n as int) =~= word@);
    true
}

/// Whether `name` is that of a media file: its extension, lower-cased, is
/// one of the media extensions.
pub fn media_name(name: &str) -> (r: bool)
    ensures
        r == is_media_name(name@),
{
    let low = ascii_lowercase(name);
    let s = low.as_str();
    let n = s.unicode_len();
    proof {
        lemma_last_dot_range(s@);
    }
    match last_dot_index(s) {
        None => false,
        Some(k) => {
            if k == 0 {
                return false;
            }
            assert(k < n);
            let at = k + 1;
            tail_is(s, at, "jpg") || tail_is(s, at, "png") || tail_is(s, at, "jpeg") || tail_is(
                s,
                at,
                "webp",
            ) || tail_is(s, at, "gif") || tail_is(s, at, "mp4") || tail_is(s, at, "mkv")
                || tail_is(s, at, "webm")
        },
    }
}

/// The names under which the media files among `entries` are listed:
/// lower-cased, in the order of the entries. Directories and other files
/// are passed over.
pub fn list_files(entries: &Vec<Entry>) -> (r: Vec<String>)
    ensures
        r.deep_view() == listed(entries@),
{
    let mut r: Vec<String> = Vec::new();
    let mut i: usize = 0;
    while i < entries.len()
        invariant
            i <= entries@.len(),
            r.deep_view() == listed(entries@.subrange(0, i as int)),
        decreases entries@.len() - i,
    {
        let e = &entries[i];
        let ghost before = r.deep_view();
        assert(entries@.subrange(0, i + 1).drop_last() =~= entries@.subrange(0, i as int));
        if !e.is_dir && media_name(e.name.as_str()) {
            let low = ascii_lowercase(e.name.as_str());
            r.push(low);
            assert(r.deep_view() =~= before.push(lowered(e.name@)));
        }
        i += 1;
    }
    assert(entries@.subrange(0, entries@.len() as int) =~= entries@);
    r
}

} // verus!
