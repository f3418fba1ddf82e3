//! The archive: a host binary, a video stream and an audio track in one file,
//! with a footer of 44 bytes at the very end that says where each part lies.
//!
//! The host binary is opaque and of any length, which is why the footer is
//! found from the end of the file and not from its start.

use crate::le::{le_u16, le_u64, lemma_u16_round_trip, lemma_u64_round_trip, push_u16, push_u64};
use crate::le::{read_u16, read_u64, u16_le, u64_le};
use vstd::prelude::*;
use vstd::slice::slice_subrange;

verus! {

/// Bytes taken by the footer.
pub const FOOTER_SIZE: usize = 44;

/// The eight bytes that close a built archive: the letters `PS_PATCH`.
pub open spec fn magic_bytes() -> Seq<u8> {
    seq![0x50u8, 0x53u8, 0x5fu8, 0x50u8, 0x41u8, 0x54u8, 0x43u8, 0x48u8]
}

/// The eight bytes that close a built archive.
pub fn magic() -> (m: [u8; 8])
    ensures
        m@ == magic_bytes(),
{
    let m: [u8; 8] = [0x50, 0x53, 0x5f, 0x50, 0x41, 0x54, 0x43, 0x48];
    assert(m@ =~= magic_bytes());
    m
}

/// The record at the end of a built archive.
#[derive(Debug, Clone, Copy)]
pub struct PayloadFooter {
    pub video_offset: u64,
    pub video_len: u64,
    pub audio_offset: u64,
    pub audio_len: u64,
    pub width: u16,
    pub height: u16,
    pub magic: [u8; 8],
}

/// A footer as the contracts see it.
pub struct FooterModel {
    pub video_offset: u64,
    pub video_len: u64,
    pub audio_offset: u64,
    pub audio_len: u64,
    pub width: u16,
    pub height: u16,
    pub magic: Seq<u8>,
}

impl View for PayloadFooter {
    type V = FooterModel;

    open spec fn view(&self) -> FooterModel {
        FooterModel {
            video_offset: self.video_offset,
            video_len: self.video_len,
            audio_offset: self.audio_offset,
            audio_len: self.audio_len,
            width: self.width,
            height: self.height,
            magic: self.magic@,
        }
    }
}

/// Why a file is not an archive, or cannot be made into one.
#[derive(Debug, Clone, Copy, PartialEq, Eq, Structural)]
pub enum ArchiveError {
    /// The file is shorter than a footer.
    TooShort,
    /// The last eight bytes are not `PS_PATCH`: the file was never patched.
    BadMagic,
    /// The footer names bytes that the file does not have.
    OutOfRange,
    /// The parts are too long for their offsets to be written down.
    TooLarge,
}

/// The parts of an archive, taken out of it.
#[derive(Debug)]
pub struct LoadedAssets {
    pub video_data: Vec<u8>,
    pub audio_data: Vec<u8>,
    pub width: u16,
    pub height: u16,
}

/// The 44 bytes of a footer: four 64-bit numbers, two 16-bit numbers, eight
/// bytes of magic, all little-endian and without padding.
pub open spec fn footer_bytes(f: FooterModel) -> Seq<u8> {
    u64_le(f.video_offset) + u64_le(f.video_len) + u64_le(f.audio_offset) + u64_le(f.audio_len)
        + u16_le(f.width) + u16_le(f.height) + f.magic
}

/// The footer of an archive whose parts have the given lengths: the video
/// starts where the host ends, the audio where the video ends.
pub open spec fn footer_for(
    host_len: nat,
    video_len: nat,
    audio_len: nat,
    width: u16,
    height: u16,
) -> FooterModel {
    FooterModel {
        video_offset: host_len as u64,
        video_len: video_len as u64,
        audio_offset: (host_len + video_len) as u64,
        audio_len: audio_len as u64,
        width,
        height,
        magic: magic_bytes(),
    }
}

/// Whether the parts are short enough for their offsets and lengths to be
/// written as 64-bit numbers.
pub open spec fn parts_fit(host_len: nat, video_len: nat, audio_len: nat) -> bool {
    host_len + video_len <= u64::MAX && audio_len <= u64::MAX
}

/// A whole archive: host, video, audio, footer.
pub open spec fn archive_bytes(
    host: Seq<u8>,
    video: Seq<u8>,
    audio: Seq<u8>,
    width: u16,
    height: u16,
) -> Seq<u8> {
    host + video + audio + footer_bytes(
        footer_for(host.len(), video.len(), audio.len(), width, height),
    )
}

/// What the last 44 bytes of `bytes` say, read as a footer.
pub open spec fn footer_at(bytes: Seq<u8>) -> FooterModel {
    let end = bytes.len() as int;
    let base = end - 44;
    FooterModel {
        video_offset: le_u64(bytes.subrange(base, end)) as u64,
        video_len: le_u64(bytes.subrange(base + 8, end)) as u64,
        audio_offset: le_u64(bytes.subrange(base + 16, end)) as u64,
        audio_len: le_u64(bytes.subrange(base + 24, end)) as u64,
        width: le_u16(bytes.subrange(base + 32, end)) as u16,
        height: le_u16(bytes.subrange(base + 34, end)) as u16,
        magic: bytes.subrange(base + 36, end),
    }
}

/// Reading a file as an archive: too short for a footer, or not closed by
/// the magic, or the footer that its last 44 bytes hold.
pub open spec fn parsed(bytes: Seq<u8>) -> Result<FooterModel, ArchiveError> {
    if bytes.len() < 44 {
        Err(ArchiveError::TooShort)
    } else if bytes.subrange(bytes.len() - 8, bytes.len() as int) != magic_bytes() {
        Err(ArchiveError::BadMagic)
    } else {
        Ok(footer_at(bytes))
    }
}

/// Whether the bytes from `offset` on, `len` of them, lie in a file of
/// `file_len` bytes.
pub open spec fn in_file(file_len: nat, offset: u64, len: u64) -> bool {
    offset + len <= file_len
}

/// Taking the parts out of a file: the footer must parse and both of its
/// ranges must lie in the file.
pub open spec fn loaded(bytes: Seq<u8>) -> Result<(Seq<u8>, Seq<u8>, u16, u16), ArchiveError> {
    match parsed(bytes) {
        Err(e) => Err(e),
        Ok(f) => if in_file(bytes.len(), f.video_offset, f.video_len) && in_file(
            bytes.len(),
            f.audio_offset,
            f.audio_len,
        ) {
            Ok(
                (
                    bytes.subrange(f.video_offset as int, f.video_offset + f.video_len),
                    bytes.subrange(f.audio_offset as int, f.audio_offset + f.audio_len),
                    f.width,
                    f.height,
                ),
            )
        } else {
            Err(ArchiveError::OutOfRange)
        },
    }
}

/// A footer takes 44 bytes.
pub proof fn footer_takes_44_bytes(f: FooterModel)
    requires
        f.magic.len() == 8,
    ensures
        footer_bytes(f).len() == 44,
{
}

/// Reading back the bytes of a footer gives the footer, whatever stands
/// before them.
pub proof fn footer_round_trip(before: Seq<u8>, f: FooterModel)
    requires
        f.magic.len() == 8,
    ensures
        footer_at(before + footer_bytes(f)) == f,
        (before + footer_bytes(f)).subrange(
            (before + footer_bytes(f)).len() - 8,
            (before + footer_bytes(f)).len() as int,
        ) == f.magic,
{
    let all = before + footer_bytes(f);
    let end = all.len() as int;
    let base = end - 44;
    assert(base == before.len());
    let t5 = f.magic;
    let t4 = u16_le(f.height) + t5;
    let t3 = u16_le(f.width) + t4;
    let t2 = u64_le(f.audio_len) + t3;
    let t1 = u64_le(f.audio_offset) + t2;
    let t0 = u64_le(f.video_len) + t1;
    assert(all.subrange(base, end) =~= u64_le(f.video_offset) + t0);
    assert(all.subrange(base + 8, end) =~= u64_le(f.video_len) + t1);
    assert(all.subrange(base + 16, end) =~= u64_le(f.audio_offset) + t2);
    assert(all.subrange(base + 24, end) =~= u64_le(f.audio_len) + t3);
    assert(all.subrange(base + 32, end) =~= u16_le(f.width) + t4);
    assert(all.subrange(base + 34, end) =~= u16_le(f.height) + t5);
    assert(all.subrange(base + 36, end) =~= f.magic);
    lemma_u64_round_trip(f.video_offset, t0);
    lemma_u64_round_trip(f.video_len, t1);
    lemma_u64_round_trip(f.audio_offset, t2);
    lemma_u64_round_trip(f.audio_len, t3);
    lemma_u16_round_trip(f.width, t4);
    lemma_u16_round_trip(f.height, t5);
    assert(footer_at(all).magic == f.magic);
}

/// Building an archive and reading it back gives what went in: the footer
/// names the host's length as the video's offset and the end of the video as
/// the audio's offset, carries both lengths and both sides unchanged, and the
/// bytes in the two ranges it names are the video and the audio. The file is
/// 44 bytes longer than its three parts together.
pub proof fn archive_round_trip(
    host: Seq<u8>,
    video: Seq<u8>,
    audio: Seq<u8>,
    width: u16,
    height: u16,
)
    requires
        parts_fit(host.len(), video.len(), audio.len()),
    ensures
        archive_bytes(host, video, audio, width, height).len() == host.len() + video.len()
            + audio.len() + 44,
        parsed(archive_bytes(host, video, audio, width, height)) == Ok::<FooterModel, ArchiveError>(
            footer_for(host.len(), video.len(), audio.len(), width, height),
        ),
        loaded(archive_bytes(host, video, audio, width, height)) == Ok::<
            (Seq<u8>, Seq<u8>, u16, u16),
            ArchiveError,
        >((video, audio, width, height)),
{
    let f = footer_for(host.len(), video.len(), audio.len(), width, height);
    let before = host + video + audio;
    footer_takes_44_bytes(f);
    footer_round_trip(before, f);
    lemma_parts(host, video, audio, footer_bytes(f));
}

/// In a file made of four parts, the second and the third lie where the
/// lengths of the parts before them say.
proof fn lemma_parts(host: Seq<u8>, video: Seq<u8>, audio: Seq<u8>, tail: Seq<u8>)
    ensures
        (host + video + audio + tail).len() == host.len() + video.len() + audio.len() + tail.len(),
        (host + video + audio + tail).subrange(
            host.len() as int,
            (host.len() + video.len()) as int,
        ) == video,
        (host + video + audio + tail).subrange(
            (host.len() + video.len()) as int,
            (host.len() + video.len() + audio.len()) as int,
        ) == audio,
{
    let all = host + video + audio + tail;
    let a = host.len() as int;
    let b = (host.len() + video.len()) as int;
    let c = (host.len() + video.len() + audio.len()) as int;
    assert(all.subrange(a, b) =~= video);
    assert(all.subrange(b, c) =~= audio);
}

/// Appends the 44 bytes of a footer.
pub fn encode_footer(footer: &PayloadFooter, out: &mut Vec<u8>)
    ensures
        final(out)@ == old(out)@ + footer_bytes(footer@),
{
    let ghost before = out@;
    push_u64(out, footer.video_offset);
    push_u64(out, footer.video_len);
    push_u64(out, footer.audio_offset);
    push_u64(out, footer.audio_len);
    push_u16(out, footer.width);
    push_u16(out, footer.height);
    let ghost head = out@;
    let mut i: usize = 0;
    while i < 8
        invariant
            i <= 8,
            out@ == head + footer.magic@.subrange(0, i as int),
        decreases 8 - i,
    {
        out.push(footer.magic[i]);
        assert(out@ =~= head + footer.magic@.subrange(0, i as int + 1));
        i = i + 1;
    }
    assert(footer.magic@.subrange(0, 8) =~= footer.magic@);
    assert(out@ =~= before + footer_bytes(footer@));
}

/// Appends every byte of `part`.
fn append(out: &mut Vec<u8>, part: &[u8])
    ensures
        final(out)@ == old(out)@ + part@,
{
    let ghost before = out@;
    let n = part.len();
    let mut i: usize = 0;
    while i < n
        invariant
            n == part@.len(),
            i <= n,
            out@ == before + part@.subrange(0, i as int),
        decreases n - i,
    {
        out.push(part[i]);
        assert(out@ =~= before + part@.subrange(0, i as int + 1));
        i = i + 1;
    }
    assert(part@.subrange(0, n as int) =~= part@);
}

/// Builds an archive: the host, the video, the audio, and the footer that
/// locates them. The offsets come from the lengths alone; `width` and
/// `height` are carried as given. Fails only where the parts are too long for
/// 64-bit offsets.
pub fn build_archive(host: &[u8], video: &[u8], audio: &[u8], width: u16, height: u16) -> (r: Result<
    Vec<u8>,
    ArchiveError,
>)
    ensures
        match r {
            Ok(bytes) => parts_fit(host@.len(), video@.len(), audio@.len()) && bytes@
                == archive_bytes(host@, video@, audio@, width, height),
            Err(e) => !parts_fit(host@.len(), video@.len(), audio@.len()) && e
                == ArchiveError::TooLarge,
        },
{
    let host_len = host.len() as u64;
    let video_len = video.len() as u64;
    let audio_len = audio.len() as u64;
    let audio_offset = match host_len.checked_add(video_len) {
        Some(offset) => offset,
        None => {
            return Err(ArchiveError::TooLarge);
        },
    };
    let footer = PayloadFooter {
        video_offset: host_len,
        video_len,
        audio_offset,
        audio_len,
        width,
        height,
        magic: magic(),
    };
    let mut out: Vec<u8> = Vec::new();
    append(&mut out, host);
    append(&mut out, video);
    append(&mut out, audio);
    encode_footer(&footer, &mut out);
    proof {
        assert(footer@ == footer_for(host@.len(), video@.len(), audio@.len(), width, height));
        assert(out@ =~= archive_bytes(host@, video@, audio@, width, height));
    }
    Ok(out)
}

/// Where the footer starts in a file of `file_len` bytes, when the file is
/// long enough to hold one.
pub fn footer_offset(file_len: u64) -> (r: Option<u64>)
    ensures
        r == if file_len >= 44 {
            Some((file_len - 44) as u64)
        } else {
            None::<u64>
        },
{
    if file_len >= 44 {
        Some(file_len - 44)
    } else {
        None
    }
}

/// Reads the footer from the end of `bytes`, which may be a whole file or
/// any tail of it that holds the last 44 bytes. A file shorter than a footer
/// is refused, and so is one whose last eight bytes are not the magic.
pub fn parse_footer(bytes: &[u8]) -> (r: Result<PayloadFooter, ArchiveError>)
    ensures
        match r {
            Ok(footer) => parsed(bytes@) == Ok::<FooterModel, ArchiveError>(footer@),
            Err(e) => parsed(bytes@) == Err::<FooterModel, ArchiveError>(e),
        },
{
    let end = bytes.len();
    if end < FOOTER_SIZE {
        return Err(ArchiveError::TooShort);
    }
    let base = end - FOOTER_SIZE;
    let expected = magic();
    let mut found: [u8; 8] = [0; 8];
    let mut i: usize = 0;
    while i < 8
        invariant
            i <= 8,
            end == bytes@.len(),
            base + 44 == end,
            forall|k: int| 0 <= k < i ==> found@[k] == bytes@[base + 36 + k],
        decreases 8 - i,
    {
        found[i] = bytes[base + 36 + i];
        i = i + 1;
    }
    assert(found@ =~= bytes@.subrange(base + 36, end as int));
    let mut same = true;
    let mut j: usize = 0;
    assert(found@.subrange(0, 0) =~= expected@.subrange(0, 0));
    while j < 8
        invariant
            j <= 8,
            same == (found@.subrange(0, j as int) == expected@.subrange(0, j as int)),
        decreases 8 - j,
    {
        proof {
            let a = found@.subrange(0, j as int + 1);
            let b = expected@.subrange(0, j as int + 1);
            assert(a.drop_last() =~= found@.subrange(0, j as int));
            assert(b.drop_last() =~= expected@.subrange(0, j as int));
            assert(a.last() == found@[j as int]);
            assert(b.last() == expected@[j as int]);
            if a == b {
                assert(a.drop_last() == b.drop_last());
            }
            if found@.subrange(0, j as int) == expected@.subrange(0, j as int) && found@[j as int]
                == expected@[j as int] {
                assert(a =~= b);
            }
        }
        if found[j] != expected[j] {
            same = false;
        }
        j = j + 1;
    }
    proof {
        assert(found@.subrange(0, 8) =~= found@);
        assert(expected@.subrange(0, 8) =~= expected@);
    }
    if !same {
        return Err(ArchiveError::BadMagic);
    }
    let footer = PayloadFooter {
        video_offset: read_u64(slice_subrange(bytes, base, end)),
        video_len: read_u64(slice_subrange(bytes, base + 8, end)),
        audio_offset: read_u64(slice_subrange(bytes, base + 16, end)),
        audio_len: read_u64(slice_subrange(bytes, base + 24, end)),
        width: read_u16(slice_subrange(bytes, base + 32, end)),
        height: read_u16(slice_subrange(bytes, base + 34, end)),
        magic: found,
    };
    Ok(footer)
}

/// Copies `len` bytes of `file` from `offset` on, when the file has them.
pub fn extract_range(file: &[u8], offset: u64, len: u64) -> (r: Option<Vec<u8>>)
    ensures
        r.is_some() == in_file(file@.len(), offset, len),
        r.is_some() ==> r.unwrap()@ == file@.subrange(offset as int, offset + len),
{
    let total = file.len() as u64;
    if offset > total || len > total - offset {
        return None;
    }
    let start = offset as usize;
    let stop = (offset + len) as usize;
    let mut out: Vec<u8> = Vec::new();
    append(&mut out, slice_subrange(file, start, stop));
    assert(out@ =~= file@.subrange(offset as int, offset + len));
    Some(out)
}

/// Takes the parts out of an archive: the footer is read from the end, then
/// the video and the audio are copied from the ranges that it names.
pub fn load(file: &[u8]) -> (r: Result<LoadedAssets, ArchiveError>)
    ensures
        match r {
            Ok(assets) => loaded(file@) == Ok::<(Seq<u8>, Seq<u8>, u16, u16), ArchiveError>(
                (assets.video_data@, assets.audio_data@, assets.width, assets.height),
            ),
            Err(e) => loaded(file@) == Err::<(Seq<u8>, Seq<u8>, u16, u16), ArchiveError>(e),
        },
{
    let footer = match parse_footer(file) {
        Ok(footer) => footer,
        Err(e) => {
            return Err(e);
        },
    };
    let video_data = match extract_range(file, footer.video_offset, footer.video_len) {
        Some(data) => data,
        None => {
            return Err(ArchiveError::OutOfRange);
        },
    };
    let audio_data = match extract_range(file, footer.audio_offset, footer.audio_len) {
        Some(data) => data,
        None => {
            return Err(ArchiveError::OutOfRange);
        },
    };
    Ok(LoadedAssets { video_data, audio_data, width: footer.width, height: footer.height })
}

} // verus!
