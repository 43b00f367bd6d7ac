//! Compressed frames.
use simulife::codec::{
    decode_server_message, encode_server_message, frame_snapshot, server_message_settings,
    snapshot_level, unframe_snapshot, CodecError,
};

/// One cell as it is serialised: organic, soil energy, light, rate, occupant.
type Cell = (u16, u16, bool, f32, u8);

fn payload() -> Vec<u8> {
    let cells: Vec<Cell> = vec![(0, 0, true, 0.0, 0); 1024];
    let message = (7u64, vec![((0i32, 0i32), cells)]);
    rmp_serde::to_vec(&message).expect("raw msgpack")
}

#[test]
fn server_message_zstd_roundtrips_and_compresses() {
    let raw = payload();
    let wire = encode_server_message(&raw).expect("encode");

    // Compression should actually shrink the payload meaningfully.
    assert!(
        wire.len() < raw.len() / 2,
        "expected ≥2× compression, got {} → {}",
        raw.len(),
        wire.len()
    );

    let decoded = decode_server_message(&wire).expect("decode");
    assert_eq!(decoded, raw);
    let (tick, chunks): (u64, Vec<((i32, i32), Vec<Cell>)>) =
        rmp_serde::from_slice(&decoded).expect("msgpack");
    assert_eq!(tick, 7);
    assert_eq!(chunks.len(), 1);
    assert_eq!(chunks[0].1.len(), 1024);
}

#[test]
fn server_message_decode_rejects_garbage() {
    // Empty buffer can't even be a zstd frame.
    assert!(decode_server_message(&vec![]).is_err());
    // Random bytes that aren't a valid zstd frame.
    assert!(decode_server_message(&vec![0, 1, 2, 3, 4, 5]).is_err());
}

#[test]
fn save_writes_zstd_magic_header() {
    let raw = payload();
    let file = frame_snapshot(&raw).expect("frame");
    assert_eq!(&file[..4], &[0x28, 0xB5, 0x2F, 0xFD], "save output should be zstd-framed");
    assert!(file.len() < raw.len());
    assert_eq!(unframe_snapshot(file).expect("unframe"), raw);
}

#[test]
fn load_handles_uncompressed_msgpack() {
    let raw = payload();
    assert_eq!(unframe_snapshot(raw.clone()).expect("plain"), raw);
    assert_eq!(unframe_snapshot(vec![]).expect("empty"), Vec::<u8>::new());
}

#[test]
fn broken_frames_are_refused() {
    assert_eq!(
        unframe_snapshot(vec![0x28, 0xB5, 0x2F, 0xFD, 1]),
        Err(CodecError::Decompress)
    );
    assert_eq!(decode_server_message(&vec![9; 20]), Err(CodecError::Decompress));
}

#[test]
fn every_snapshot_can_be_framed() {
    assert_eq!(server_message_settings(), (1, 4));
    assert_eq!(snapshot_level(), 3);
    let ramp: Vec<u8> = (0..300_000u32).map(|i| (i * i >> 7) as u8).collect();
    for raw in [vec![], vec![0x28, 0xB5, 0x2F, 0xFD], vec![7; 1 << 20], ramp] {
        let file = frame_snapshot(&raw).expect("frame");
        assert_eq!(zstd::encode_all(&raw[..], 3).expect("zstd"), file);
        assert_eq!(unframe_snapshot(file).expect("unframe"), raw);
    }
}
