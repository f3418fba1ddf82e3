//! Build targets: which streams can be packed into an archive, under which
//! name, and with which audio track.
//!
//! A project is a folder that holds `<project>.ogg` and, for each resolution
//! it was converted to, `<project>_<resolution>.bin`. Looking at the disk is
//! the caller's part; what the names are and which targets follow from what
//! was found is decided here.

use crate::archive::{archive_bytes, build_archive, parts_fit, ArchiveError};
use crate::text::{contains, occurs_in, replace, replaced};
use vstd::prelude::*;

verus! {

/// The number of known resolutions.
pub const RESOLUTION_COUNT: usize = 4;

/// The name of the `i`-th known resolution.
pub open spec fn resolution_name(i: int) -> Seq<char> {
    if i == 0 {
        "720p"@
    } else if i == 1 {
        "1080p"@
    } else if i == 2 {
        "1440p"@
    } else {
        "2160p"@
    }
}

/// The width in pixels of the `i`-th known resolution.
pub open spec fn resolution_width(i: int) -> u16 {
    if i == 0 {
        1280
    } else if i == 1 {
        1920
    } else if i == 2 {
        2560
    } else {
        3840
    }
}

/// The height in pixels of the `i`-th known resolution.
pub open spec fn resolution_height(i: int) -> u16 {
    if i == 0 {
        720
    } else if i == 1 {
        1080
    } else if i == 2 {
        1440
    } else {
        2160
    }
}

/// The first known resolution, from the `from`-th on, whose name occurs in
/// `filename`; the second one, 1080p, when none does.
pub open spec fn first_match(filename: Seq<char>, from: int) -> int
    decreases 4 - from,
{
    if from >= 4 {
        1
    } else if occurs_in(resolution_name(from), filename) {
        from
    } else {
        first_match(filename, from + 1)
    }
}

/// The known resolution that is called `name`, if there is one.
pub open spec fn named(name: Seq<char>, from: int) -> Option<int>
    decreases 4 - from,
{
    if from >= 4 {
        None
    } else if resolution_name(from) == name {
        Some(from)
    } else {
        named(name, from + 1)
    }
}

/// The `i`-th known resolution: its name, width and height.
pub fn resolution_entry(i: usize) -> (e: (&'static str, u16, u16))
    requires
        i < 4,
    ensures
        e.0@ == resolution_name(i as int),
        e.1 == resolution_width(i as int),
        e.2 == resolution_height(i as int),
{
    if i == 0 {
        ("720p", 1280, 720)
    } else if i == 1 {
        ("1080p", 1920, 1080)
    } else if i == 2 {
        ("1440p", 2560, 1440)
    } else {
        ("2160p", 3840, 2160)
    }
}

/// Finds the resolution of a stream from its file name: the first known
/// resolution whose name the file name holds, and 1080p where it holds none.
pub fn detect_resolution(filename: &str) -> (r: (String, u16, u16))
    ensures
        r.0@ == resolution_name(first_match(filename@, 0)),
        r.1 == resolution_width(first_match(filename@, 0)),
        r.2 == resolution_height(first_match(filename@, 0)),
{
    let mut i: usize = 0;
    while i < 4
        invariant
            i <= 4,
            first_match(filename@, 0) == first_match(filename@, i as int),
        decreases 4 - i,
    {
        let (name, w, h) = resolution_entry(i);
        if contains(filename, name) {
            return (name.to_owned(), w, h);
        }
        i = i + 1;
    }
    ("1080p".to_owned(), 1920, 1080)
}

/// The width and height of the resolution called `name`, if it is a known
/// one.
pub fn resolution_dimensions(name: &str) -> (r: Option<(u16, u16)>)
    ensures
        r == match named(name@, 0) {
            Some(i) => Some((resolution_width(i), resolution_height(i))),
            None => None::<(u16, u16)>,
        },
{
    let wanted = name.to_owned();
    let mut i: usize = 0;
    while i < 4
        invariant
            i <= 4,
            wanted@ == name@,
            named(name@, 0) == named(name@, i as int),
        decreases 4 - i,
    {
        let (known, w, h) = resolution_entry(i);
        if known.to_owned() == wanted {
            return Some((w, h));
        }
        i = i + 1;
    }
    None
}

/// `stem` without the resolution tags `_720p`, `_1080p`, `_1440p` and
/// `_2160p`, taken out in that order.
pub open spec fn stripped_stem(stem: Seq<char>) -> Seq<char> {
    replaced(
        replaced(replaced(replaced(stem, "_720p"@, ""@), "_1080p"@, ""@), "_1440p"@, ""@),
        "_2160p"@,
        ""@,
    )
}

/// The name of the audio file that goes with `stem`.
pub open spec fn ogg_name(stem: Seq<char>) -> Seq<char> {
    stem + ".ogg"@
}

/// The two names under which the audio of a stream is looked for, next to the
/// stream file: first the stream's own stem, then the stem without its
/// resolution tag.
pub fn audio_candidates(stem: &str) -> (c: (String, String))
    ensures
        c.0@ == ogg_name(stem@),
        c.1@ == ogg_name(stripped_stem(stem@)),
{
    proof {
        reveal_strlit("_720p");
        reveal_strlit("_1080p");
        reveal_strlit("_1440p");
        reveal_strlit("_2160p");
    }
    let mut exact = stem.to_owned();
    exact.push_str(".ogg");
    let a = replace(stem, "_720p", "");
    let b = replace(a.as_str(), "_1080p", "");
    let c = replace(b.as_str(), "_1440p", "");
    let mut stripped = replace(c.as_str(), "_2160p", "");
    stripped.push_str(".ogg");
    (exact, stripped)
}

/// Picks the audio file of a stream, given which of the two candidates
/// exist: the exact name first, then the stripped one, and none where
/// neither exists.
pub fn detect_audio_path(stem: &str, exact_exists: bool, stripped_exists: bool) -> (r: Option<
    String,
>)
    ensures
        r.is_some() == (exact_exists || stripped_exists),
        exact_exists ==> r.unwrap()@ == ogg_name(stem@),
        !exact_exists && stripped_exists ==> r.unwrap()@ == ogg_name(stripped_stem(stem@)),
{
    let (exact, stripped) = audio_candidates(stem);
    if exact_exists {
        Some(exact)
    } else if stripped_exists {
        Some(stripped)
    } else {
        None
    }
}

/// One stream that can be packed: its project, its resolution, and where its
/// two files lie.
#[derive(Debug, Clone)]
pub struct BuildTarget {
    pub project: String,
    pub resolution: String,
    pub width: u16,
    pub height: u16,
    pub bin_path: String,
    pub audio_path: String,
}

/// A build target as the contracts see it.
pub struct TargetModel {
    pub project: Seq<char>,
    pub resolution: Seq<char>,
    pub width: u16,
    pub height: u16,
    pub bin_path: Seq<char>,
    pub audio_path: Seq<char>,
}

impl View for BuildTarget {
    type V = TargetModel;

    open spec fn view(&self) -> TargetModel {
        TargetModel {
            project: self.project@,
            resolution: self.resolution@,
            width: self.width,
            height: self.height,
            bin_path: self.bin_path@,
            audio_path: self.audio_path@,
        }
    }
}

/// What a build tells its caller.
#[derive(Debug, Clone)]
pub enum BuildStatus {
    Starting,
    Building(String),
    Finished(String),
    Error(String),
}

/// What a caller may fix in advance of a build.
pub struct BuildArgs {
    pub project_name: Option<String>,
    pub resolutions: Option<String>,
    pub build_all: bool,
}

/// The name of a project's stream file for one resolution.
pub open spec fn bin_name(project: Seq<char>, resolution: Seq<char>) -> Seq<char> {
    project + "_"@ + resolution + ".bin"@
}

/// The name of the archive built from a target.
pub open spec fn output_name(project: Seq<char>, resolution: Seq<char>) -> Seq<char> {
    project + "_"@ + resolution + ".exe"@
}

/// The name of a project's stream file for one resolution:
/// `<project>_<resolution>.bin`.
pub fn bin_file_name(project: &str, resolution: &str) -> (name: String)
    ensures
        name@ == bin_name(project@, resolution@),
{
    let mut name = project.to_owned();
    name.push_str("_");
    name.push_str(resolution);
    name.push_str(".bin");
    name
}

/// The name of a project's audio file: `<project>.ogg`.
pub fn audio_file_name(project: &str) -> (name: String)
    ensures
        name@ == ogg_name(project@),
{
    let mut name = project.to_owned();
    name.push_str(".ogg");
    name
}

/// The name of the archive built from a target:
/// `<project>_<resolution>.exe`.
pub fn output_file_name(target: &BuildTarget) -> (name: String)
    ensures
        name@ == output_name(target@.project, target@.resolution),
{
    let mut name = target.project.clone();
    name.push_str("_");
    name.push_str(target.resolution.as_str());
    name.push_str(".exe");
    name
}

/// The target of a project for the `i`-th known resolution.
pub open spec fn target_for(
    project: Seq<char>,
    i: int,
    bin_path: Seq<char>,
    audio_path: Seq<char>,
) -> TargetModel {
    TargetModel {
        project,
        resolution: resolution_name(i),
        width: resolution_width(i),
        height: resolution_height(i),
        bin_path,
        audio_path,
    }
}

/// The targets of a project for the first `n` known resolutions: one for
/// each whose stream file was found, in the order of the resolutions.
pub open spec fn builds_upto(
    project: Seq<char>,
    audio_path: Seq<char>,
    bins: Seq<Option<String>>,
    n: int,
) -> Seq<TargetModel>
    decreases n,
{
    if n <= 0 {
        Seq::empty()
    } else {
        let before = builds_upto(project, audio_path, bins, n - 1);
        if n - 1 < bins.len() && bins[n - 1].is_some() {
            before.push(target_for(project, n - 1, bins[n - 1].unwrap()@, audio_path))
        } else {
            before
        }
    }
}

/// The views of a list of targets.
pub open spec fn targets_view(targets: Seq<BuildTarget>) -> Seq<TargetModel> {
    Seq::new(targets.len(), |i: int| targets[i]@)
}

/// The targets of one project. `audio_path` is where the project's audio
/// lies, if it was found; `bin_paths` holds, for each known resolution in
/// order, where the stream file lies, if it was found. A project without
/// audio has no targets.
pub fn get_available_builds(
    project: &str,
    audio_path: &Option<String>,
    bin_paths: &Vec<Option<String>>,
) -> (targets: Vec<BuildTarget>)
    ensures
        targets_view(targets@) == match *audio_path {
            None => Seq::<TargetModel>::empty(),
            Some(audio) => builds_upto(project@, audio@, bin_paths@, 4),
        },
{
    let mut targets: Vec<BuildTarget> = Vec::new();
    let audio = match audio_path {
        None => {
            assert(targets_view(targets@) =~= Seq::<TargetModel>::empty());
            return targets;
        },
        Some(audio) => audio,
    };
    assert(targets_view(targets@) =~= builds_upto(project@, audio@, bin_paths@, 0));
    let mut i: usize = 0;
    while i < 4
        invariant
            i <= 4,
            targets_view(targets@) == builds_upto(project@, audio@, bin_paths@, i as int),
        decreases 4 - i,
    {
        if i < bin_paths.len() {
            match &bin_paths[i] {
                Some(bin) => {
                    let (name, w, h) = resolution_entry(i);
                    let ghost before = targets_view(targets@);
                    let target = BuildTarget {
                        project: project.to_owned(),
                        resolution: name.to_owned(),
                        width: w,
                        height: h,
                        bin_path: bin.clone(),
                        audio_path: audio.clone(),
                    };
                    targets.push(target);
                    assert(targets_view(targets@) =~= before.push(
                        target_for(project@, i as int, bin@, audio@),
                    ));
                },
                None => {},
            }
        }
        i = i + 1;
    }
    targets
}

/// Whether a target passes the caller's filters: its project is the one
/// asked for, if one was, and its resolution is among those asked for, if any
/// were.
pub open spec fn selected(
    target: TargetModel,
    project: Option<String>,
    resolutions: Option<Vec<String>>,
) -> bool {
    &&& project.is_some() ==> target.project == project.unwrap()@
    &&& resolutions.is_some() ==> exists|k: int|
        0 <= k < resolutions.unwrap()@.len() && (#[trigger] resolutions.unwrap()@[k])@
            == target.resolution
}

/// The indices, among the first `n` targets, of those that pass the filters.
pub open spec fn selection(
    all: Seq<BuildTarget>,
    project: Option<String>,
    resolutions: Option<Vec<String>>,
    n: int,
) -> Seq<usize>
    decreases n,
{
    if n <= 0 {
        Seq::empty()
    } else {
        let before = selection(all, project, resolutions, n - 1);
        if selected(all[n - 1]@, project, resolutions) {
            before.push((n - 1) as usize)
        } else {
            before
        }
    }
}

/// Whether `name` is one of `names`.
fn is_listed(name: &String, names: &Vec<String>) -> (found: bool)
    ensures
        found == exists|k: int| 0 <= k < names@.len() && (#[trigger] names@[k])@ == name@,
{
    let mut k: usize = 0;
    while k < names.len()
        invariant
            k <= names.len(),
            forall|j: int| 0 <= j < k ==> (#[trigger] names@[j])@ != name@,
        decreases names.len() - k,
    {
        if names[k] == *name {
            return true;
        }
        k = k + 1;
    }
    false
}

/// Whether a target passes the caller's filters.
pub fn target_selected(
    target: &BuildTarget,
    project: &Option<String>,
    resolutions: &Option<Vec<String>>,
) -> (pass: bool)
    ensures
        pass == selected(target@, *project, *resolutions),
{
    match project {
        Some(wanted) => {
            if target.project != *wanted {
                return false;
            }
        },
        None => {},
    }
    match resolutions {
        Some(names) => is_listed(&target.resolution, names),
        None => true,
    }
}

/// Picks the targets to build: the indices, in order, of the targets that
/// pass the caller's filters.
pub fn select_targets(
    all: &Vec<BuildTarget>,
    project: &Option<String>,
    resolutions: &Option<Vec<String>>,
) -> (picked: Vec<usize>)
    ensures
        picked@ == selection(all@, *project, *resolutions, all@.len() as int),
{
    let mut picked: Vec<usize> = Vec::new();
    let mut i: usize = 0;
    while i < all.len()
        invariant
            i <= all.len(),
            picked@ == selection(all@, *project, *resolutions, i as int),
        decreases all.len() - i,
    {
        if target_selected(&all[i], project, resolutions) {
            picked.push(i);
        }
        i = i + 1;
    }
    picked
}

/// An archive ready to be written: its file name and its bytes.
#[derive(Debug)]
pub struct BuiltArchive {
    pub file_name: String,
    pub bytes: Vec<u8>,
}

/// Builds the archive of one target from the bytes of the host binary, of the
/// stream and of the audio track. The footer carries the target's width and
/// height. Fails only where the parts are too long for 64-bit offsets.
pub fn build_single_target(target: &BuildTarget, host: &[u8], video: &[u8], audio: &[u8]) -> (r:
    Result<BuiltArchive, ArchiveError>)
    ensures
        match r {
            Ok(built) => {
                &&& parts_fit(host@.len(), video@.len(), audio@.len())
                &&& built.file_name@ == output_name(target@.project, target@.resolution)
                &&& built.bytes@ == archive_bytes(
                    host@,
                    video@,
                    audio@,
                    target.width,
                    target.height,
                )
            },
            Err(e) => !parts_fit(host@.len(), video@.len(), audio@.len()) && e
                == ArchiveError::TooLarge,
        },
{
    match build_archive(host, video, audio, target.width, target.height) {
        Ok(bytes) => Ok(BuiltArchive { file_name: output_file_name(target), bytes }),
        Err(e) => Err(e),
    }
}

} // verus!
