//! Which of the files found in a folder are of a wanted kind. A file's kind
//! is told by its extension, whatever its case. Walking the folder is the
//! caller's part: it hands over, for each file in the order found, the file's
//! extension, or `None` for a file without one.

use vstd::prelude::*;

verus! {

/// What std's `str::to_lowercase` makes of a string.
pub uninterp spec fn lowercase_of(s: Seq<char>) -> Seq<char>;

/// std's `str::to_lowercase`: the lowercase equivalent of the string, as a
/// new string. What that is for each character is std's to say, and is not
/// stated here.
#[verifier::external_body]
pub(crate) fn to_lowercase(s: &str) -> (r: String)
    ensures
        r@ == lowercase_of(s@),
{
    s.to_lowercase()
}

/// The extensions of source videos.
pub open spec fn video_extensions() -> Seq<Seq<char>> {
    seq!["mp4"@, "mkv"@, "avi"@, "mov"@]
}

/// The extension of rectangle streams.
pub open spec fn bin_extensions() -> Seq<Seq<char>> {
    seq!["bin"@]
}

/// The extension of built archives.
pub open spec fn dist_extensions() -> Seq<Seq<char>> {
    seq!["exe"@]
}

/// The views of a list of strings.
pub open spec fn texts(list: Seq<String>) -> Seq<Seq<char>> {
    Seq::new(list.len(), |i: int| list[i]@)
}

/// A file with this extension is of a wanted kind: it has an extension, and
/// the extension in lowercase is among the wanted ones.
pub open spec fn wanted_kind(extension: Option<String>, wanted: Seq<Seq<char>>) -> bool {
    extension.is_some() && wanted.contains(lowercase_of(extension.unwrap()@))
}

/// The indices, among the first `n` files, of those of a wanted kind.
pub open spec fn picked(extensions: Seq<Option<String>>, wanted: Seq<Seq<char>>, n: int) -> Seq<
    usize,
>
    decreases n,
{
    if n <= 0 {
        Seq::empty()
    } else {
        let before = picked(extensions, wanted, n - 1);
        if wanted_kind(extensions[n - 1], wanted) {
            before.push((n - 1) as usize)
        } else {
            before
        }
    }
}

/// Whether an extension, already in lowercase, is among the wanted ones.
pub fn is_wanted(lowered: &str, wanted: &Vec<String>) -> (found: bool)
    ensures
        found == texts(wanted@).contains(lowered@),
{
    let needle = lowered.to_owned();
    let mut k: usize = 0;
    while k < wanted.len()
        invariant
            k <= wanted.len(),
            needle@ == lowered@,
            forall|j: int| 0 <= j < k ==> texts(wanted@)[j] != lowered@,
        decreases wanted.len() - k,
    {
        if wanted[k] == needle {
            assert(texts(wanted@)[k as int] == lowered@);
            return true;
        }
        k = k + 1;
    }
    false
}

/// Picks the files of a wanted kind: the indices, in the order found, of the
/// files whose extension in lowercase is one of `wanted`.
pub fn scan_files_with_ext(extensions: &Vec<Option<String>>, wanted: &Vec<String>) -> (found: Vec<
    usize,
>)
    ensures
        found@ == picked(extensions@, texts(wanted@), extensions@.len() as int),
{
    let mut found: Vec<usize> = Vec::new();
    let mut i: usize = 0;
    while i < extensions.len()
        invariant
            i <= extensions.len(),
            found@ == picked(extensions@, texts(wanted@), i as int),
        decreases extensions.len() - i,
    {
        match &extensions[i] {
            Some(extension) => {
                let lowered = to_lowercase(extension.as_str());
                if is_wanted(lowered.as_str(), wanted) {
                    found.push(i);
                }
            },
            None => {},
        }
        i = i + 1;
    }
    found
}

/// Picks the source videos: files that end in `mp4`, `mkv`, `avi` or `mov`.
pub fn scan_video_files(extensions: &Vec<Option<String>>) -> (found: Vec<usize>)
    ensures
        found@ == picked(extensions@, video_extensions(), extensions@.len() as int),
{
    let mut wanted: Vec<String> = Vec::new();
    wanted.push("mp4".to_owned());
    wanted.push("mkv".to_owned());
    wanted.push("avi".to_owned());
    wanted.push("mov".to_owned());
    assert(texts(wanted@) =~= video_extensions());
    scan_files_with_ext(extensions, &wanted)
}

/// Picks the rectangle streams: files that end in `bin`.
pub fn scan_bin_files(extensions: &Vec<Option<String>>) -> (found: Vec<usize>)
    ensures
        found@ == picked(extensions@, bin_extensions(), extensions@.len() as int),
{
    let mut wanted: Vec<String> = Vec::new();
    wanted.push("bin".to_owned());
    assert(texts(wanted@) =~= bin_extensions());
    scan_files_with_ext(extensions, &wanted)
}

/// Picks the built archives: files that end in `exe`.
pub fn scan_dist_files(extensions: &Vec<Option<String>>) -> (found: Vec<usize>)
    ensures
        found@ == picked(extensions@, dist_extensions(), extensions@.len() as int),
{
    let mut wanted: Vec<String> = Vec::new();
    wanted.push("exe".to_owned());
    assert(texts(wanted@) =~= dist_extensions());
    scan_files_with_ext(extensions, &wanted)
}

} // verus!
