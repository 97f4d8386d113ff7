//! Names of the output files derived from the source image paths.

use vstd::prelude::*;

verus! {

/// The position of the last `c` in `s`, or -1 where it has none.
pub open spec fn last_index_of(s: Seq<char>, c: char) -> int
    decreases s.len(),
{
    if s.len() == 0 {
        -1
    } else if s.last() == c {
        s.len() - 1
    } else {
        last_index_of(s.drop_last(), c)
    }
}

pub open spec fn ascii_upper(c: char) -> char {
    if 'a' <= c && c <= 'z' {
        ((c as u8) - 32) as u8 as char
    } else {
        c
    }
}

/// `s` with each ASCII lower-case letter made upper case.
pub open spec fn upper(s: Seq<char>) -> Seq<char> {
    s.map_values(|c: char| ascii_upper(c))
}

/// The directory part of a path: everything up to and including the last `/`.
pub open spec fn dir_part(path: Seq<char>) -> Seq<char> {
    path.take(last_index_of(path, '/') + 1)
}

/// The file name part of a path: everything after the last `/`.
pub open spec fn name_part(path: Seq<char>) -> Seq<char> {
    path.skip(last_index_of(path, '/') + 1)
}

/// The output name of an asset: the directory kept, the file name up to and
/// including its last `.` in upper case, then `BIN`.
pub open spec fn upcase_name(path: Seq<char>) -> Seq<char> {
    let name = name_part(path);
    dir_part(path) + upper(name.take(last_index_of(name, '.') + 1)) + "BIN"@
}

/// The name of one section of a split asset: the directory kept, the file
/// name before its last `.` in upper case, then `P`, the section and `.BIN`.
pub open spec fn section_name(path: Seq<char>, section: Seq<char>) -> Seq<char> {
    let name = name_part(path);
    let stem = if last_index_of(name, '.') >= 0 {
        name.take(last_index_of(name, '.'))
    } else {
        Seq::empty()
    };
    dir_part(path) + upper(stem) + "P"@ + section + ".BIN"@
}

/// One past the position of the last `c` in `s`, or 0 where it has none.
fn find_last(s: &str, c: char) -> (r: usize)
    ensures
        r == last_index_of(s@, c) + 1,
        r <= s@.len(),
{
    let n = s.unicode_len();
    let mut r: usize = 0;
    assert(s@.take(0) =~= Seq::<char>::empty());
    for i in 0..n
        invariant
            n == s@.len(),
            r == last_index_of(s@.take(i as int), c) + 1,
            r <= i,
    {
        assert(s@.take(i + 1).drop_last() =~= s@.take(i as int));
        if s.get_char(i) == c {
            r = i + 1;
        }
    }
    assert(s@.take(n as int) =~= s@);
    r
}

/// Relies on str::to_ascii_uppercase: each of `a` to `z` becomes its upper
/// case, every other character stays as it is.
#[verifier::external_body]
fn to_upper(s: &str) -> (r: String)
    ensures
        r@ == upper(s@),
{
    s.to_ascii_uppercase()
}

/// Splits `path` into its directory part and its file name.
fn split_path(path: &str) -> (r: (String, &str))
    ensures
        r.0@ == dir_part(path@),
        r.1@ == name_part(path@),
{
    let d = find_last(path, '/');
    let n = path.unicode_len();
    (String::from_str(path.substring_char(0, d)), path.substring_char(d, n))
}

/// The name of the file that an asset's encoded pixels are written to.
pub fn upcase_filename(path: &str) -> (r: String)
    ensures
        r@ == upcase_name(path@),
{
    let (mut out, name) = split_path(path);
    let dot = find_last(name, '.');
    let stem = to_upper(name.substring_char(0, dot));
    out.append(stem.as_str());
    out.append("BIN");
    out
}

/// The name of the file that holds section `section` of a split asset.
pub fn section_filename(path: &str, section: &str) -> (r: String)
    ensures
        r@ == section_name(path@, section@),
{
    let (mut out, name) = split_path(path);
    let dot = find_last(name, '.');
    let stem_len = if dot > 0 {
        dot - 1
    } else {
        0
    };
    let stem = to_upper(name.substring_char(0, stem_len));
    out.append(stem.as_str());
    out.append("P");
    out.append(section);
    out.append(".BIN");
    proof {
        if dot == 0 {
            assert(name@.take(0) =~= Seq::<char>::empty());
        }
    }
    out
}

pub open spec fn ascii_lower(c: char) -> char {
    if 'A' <= c && c <= 'Z' {
        ((c as u8) + 32) as u8 as char
    } else {
        c
    }
}

/// `s` with each ASCII upper-case letter made lower case.
pub open spec fn lower(s: Seq<char>) -> Seq<char> {
    s.map_values(|c: char| ascii_lower(c))
}

/// Relies on str::to_ascii_lowercase: each of `A` to `Z` becomes its lower
/// case, every other character stays as it is.
#[verifier::external_body]
pub(crate) fn to_lower(s: &str) -> (r: String)
    ensures
        r@ == lower(s@),
{
    s.to_ascii_lowercase()
}

/// A path names a PNG file where it ends in `.png`, in any case.
pub open spec fn png_path(path: Seq<char>) -> bool {
    let l = lower(path);
    l.len() >= 4 && l.skip(l.len() - 4) == ".png"@
}

pub fn is_png_name(path: &str) -> (r: bool)
    ensures
        r == png_path(path@),
{
    let low = to_lower(path);
    let l = low.as_str();
    let n = l.unicode_len();
    if n < 4 {
        return false;
    }
    let tail = l.substring_char(n - 4, n);
    let png = ".png";
    proof {
        reveal_strlit(".png");
    }
    let r = tail.unicode_len() == 4 && tail.get_char(0) == '.' && tail.get_char(1) == 'p' && tail.get_char(2) == 'n'
        && tail.get_char(3) == 'g';
    assert(r == (tail@ =~= png@));
    r
}

} // verus!
