//! Compressed byte frames for messages and snapshots.
use vstd::prelude::*;

verus! {

/// Compression level of messages to viewers.
pub const SERVER_MSG_ZSTD_LEVEL: i32 = 1;

/// Worker threads that compress messages to viewers.
pub const SERVER_MSG_ZSTD_WORKERS: u32 = 4;

/// Compression level of snapshots.
pub const SNAPSHOT_ZSTD_LEVEL: i32 = 3;

/// The error type of the compression library.
#[verifier::external_type_specification]
#[verifier::external_body]
pub struct ExIoError(std::io::Error);

/// What a sequence of zstd frames decompresses to; none if it is not one.
pub uninterp spec fn zstd_decoded(bytes: Seq<u8>) -> Option<Seq<u8>>;

/// The four bytes with which every zstd frame starts.
pub open spec fn zstd_magic() -> Seq<u8> {
    seq![0x28u8, 0xB5u8, 0x2Fu8, 0xFDu8]
}

/// Whether bytes start like a zstd frame.
pub open spec fn is_frame(bytes: Seq<u8>) -> bool {
    bytes.len() >= 4 && bytes.take(4) == zstd_magic()
}

/// Whether bytes are a frame around `raw`.
pub open spec fn frames(bytes: Seq<u8>, raw: Seq<u8>) -> bool {
    is_frame(bytes) && zstd_decoded(bytes) == Some(raw)
}

/// The serialised snapshot that a file holds: what its frame decompresses to, or
/// the file itself where it is not a frame.
pub open spec fn snapshot_payload(file: Seq<u8>) -> Option<Seq<u8>> {
    if is_frame(file) {
        zstd_decoded(file)
    } else {
        Some(file)
    }
}

/// `zstd::encode_all` from memory into memory, at the level of snapshots: it
/// succeeds, and the frame that it makes starts with the zstd magic number and
/// decompresses to the input. That memory runs out is left aside, and which of the
/// possible frames is made for the level is left open.
#[verifier::external_body]
fn compress(raw: &Vec<u8>, level: i32) -> (framed: Result<Vec<u8>, std::io::Error>)
    requires
        level == SNAPSHOT_ZSTD_LEVEL,
    ensures
        framed is Ok,
        framed matches Ok(bytes) ==> frames(bytes@, raw@),
{
    zstd::encode_all(&raw[..], level)
}

/// A `zstd::stream::Encoder` that compresses with several threads where the linked
/// library can, at the level and with the threads of messages: the frame that it
/// makes starts with the zstd magic number and decompresses to the input. Which of
/// the possible frames is made is left open, and so is whether the threads start.
#[verifier::external_body]
fn compress_parallel(raw: &Vec<u8>, level: i32, workers: u32) -> (framed: Result<
    Vec<u8>,
    std::io::Error,
>)
    requires
        level == SERVER_MSG_ZSTD_LEVEL,
        workers == SERVER_MSG_ZSTD_WORKERS,
    ensures
        framed matches Ok(bytes) ==> frames(bytes@, raw@),
{
    let mut encoder = zstd::stream::Encoder::new(Vec::new(), level)?;
    let _ = encoder.multithread(workers);
    std::io::Write::write_all(&mut encoder, &raw[..])?;
    encoder.finish()
}

/// `zstd::decode_all`: the bytes determine what they decompress to, and whether
/// they do. That memory runs out is left aside.
#[verifier::external_body]
fn decompress(bytes: &Vec<u8>) -> (raw: Result<Vec<u8>, std::io::Error>)
    ensures
        match raw {
            Ok(r) => zstd_decoded(bytes@) == Some(r@),
            Err(_) => zstd_decoded(bytes@) is None,
        },
{
    zstd::decode_all(&bytes[..])
}

/// Why bytes could not be framed or unframed.
#[derive(Clone, Copy, Debug, PartialEq, Eq, Structural)]
pub enum CodecError {
    /// The compressor failed.
    Compress,
    /// The bytes are not a valid compressed frame.
    Decompress,
}

/// The level and the worker threads with which messages to viewers are compressed.
pub fn server_message_settings() -> (settings: (i32, u32))
    ensures
        settings == (1i32, 4u32),
{
    (SERVER_MSG_ZSTD_LEVEL, SERVER_MSG_ZSTD_WORKERS)
}

/// The level with which snapshots are compressed.
pub fn snapshot_level() -> (level: i32)
    ensures
        level == 3,
{
    SNAPSHOT_ZSTD_LEVEL
}

/// Compress a serialised message for the wire.
pub fn encode_server_message(raw: &Vec<u8>) -> (wire: Result<Vec<u8>, CodecError>)
    ensures
        match wire {
            Ok(bytes) => frames(bytes@, raw@),
            Err(e) => e == CodecError::Compress,
        },
{
    let (level, workers) = server_message_settings();
    match compress_parallel(raw, level, workers) {
        Ok(bytes) => Ok(bytes),
        Err(_) => Err(CodecError::Compress),
    }
}

/// Recover a serialised message from the wire.
pub fn decode_server_message(wire: &Vec<u8>) -> (raw: Result<Vec<u8>, CodecError>)
    ensures
        match raw {
            Ok(bytes) => zstd_decoded(wire@) == Some(bytes@),
            Err(e) => zstd_decoded(wire@) is None && e == CodecError::Decompress,
        },
{
    match decompress(wire) {
        Ok(bytes) => Ok(bytes),
        Err(_) => Err(CodecError::Decompress),
    }
}

/// Compress a serialised snapshot for the disk.
pub fn frame_snapshot(raw: &Vec<u8>) -> (framed: Result<Vec<u8>, CodecError>)
    ensures
        framed matches Ok(bytes) && frames(bytes@, raw@),
{
    match compress(raw, snapshot_level()) {
        Ok(bytes) => Ok(bytes),
        Err(_) => Err(CodecError::Compress),
    }
}

fn starts_with_magic(bytes: &Vec<u8>) -> (yes: bool)
    ensures
        yes == is_frame(bytes@),
{
    let yes = bytes.len() >= 4 && bytes[0] == 0x28 && bytes[1] == 0xB5 && bytes[2] == 0x2F
        && bytes[3] == 0xFD;
    proof {
        if yes {
            assert(bytes@.take(4) =~= zstd_magic());
        } else if bytes.len() >= 4 && bytes@.take(4) == zstd_magic() {
            assert(bytes@.take(4)[0] == 0x28u8);
            assert(bytes@.take(4)[1] == 0xB5u8);
            assert(bytes@.take(4)[2] == 0x2Fu8);
            assert(bytes@.take(4)[3] == 0xFDu8);
        }
    }
    yes
}

/// Recover a serialised snapshot from the disk. Files that do not start like a
/// compressed frame hold the snapshot as it is.
pub fn unframe_snapshot(file: Vec<u8>) -> (raw: Result<Vec<u8>, CodecError>)
    ensures
        match raw {
            Ok(bytes) => snapshot_payload(file@) == Some(bytes@),
            Err(e) => snapshot_payload(file@) is None && e == CodecError::Decompress,
        },
{
    if starts_with_magic(&file) {
        match decompress(&file) {
            Ok(bytes) => Ok(bytes),
            Err(_) => Err(CodecError::Decompress),
        }
    } else {
        Ok(file)
    }
}

/// What was put into a frame comes out of it again: reading a framed snapshot
/// succeeds with the very bytes that were framed, and so does reading a message.
pub proof fn lemma_frame_round_trip(bytes: Seq<u8>, raw: Seq<u8>)
    requires
        frames(bytes, raw),
    ensures
        snapshot_payload(bytes) == Some(raw),
        zstd_decoded(bytes) == Some(raw),
{
}

/// A snapshot that was never compressed reads back as it is, unless it starts with
/// the magic number of a frame.
pub proof fn lemma_plain_snapshot(raw: Seq<u8>)
    requires
        !is_frame(raw),
    ensures
        snapshot_payload(raw) == Some(raw),
{
}

} // verus!
