use std::io::Read;

use timelapse::archive::ArchiveError;
use timelapse::frames::{Frame, FrameCollection};

fn collection(ts: &[i64]) -> FrameCollection {
    FrameCollection {
        frames: ts
            .iter()
            .map(|t| Frame { path: format!("/c/{}.jpg", t), timestamp: *t })
            .collect(),
    }
}

#[test]
fn packages_three_frames_byte_identically() {
    let fc = collection(&[1700000001, 1700000002, 1700000003]);
    let contents: Vec<Vec<u8>> = vec![b"aaaa".to_vec(), b"bb".to_vec(), vec![0, 255, 7]];
    let bytes = fc.into_zip(contents.clone()).expect("archive should build");

    let mut archive =
        zip::ZipArchive::new(std::io::Cursor::new(bytes)).expect("archive should parse");
    assert_eq!(archive.len(), 3);
    let expected_names = ["1700000001.jpg", "1700000002.jpg", "1700000003.jpg"];
    for i in 0..3 {
        let mut entry = archive.by_index(i).expect("entry");
        assert_eq!(entry.name(), expected_names[i]);
        let mut data = Vec::new();
        entry.read_to_end(&mut data).expect("entry bytes");
        assert_eq!(data, contents[i]);
    }
}

#[test]
fn empty_selection_is_the_not_found_condition() {
    let fc = collection(&[]);
    let r = fc.into_zip(Vec::new());
    assert!(matches!(r, Err(ArchiveError::NoFrames)));
}

#[test]
fn entries_are_stored_uncompressed() {
    let fc = collection(&[5]);
    let payload: Vec<u8> = (0..=255u8).collect();
    let bytes = fc.into_zip(vec![payload.clone()]).expect("archive should build");
    let mut archive =
        zip::ZipArchive::new(std::io::Cursor::new(bytes)).expect("archive should parse");
    let entry = archive.by_index(0).expect("entry");
    assert_eq!(entry.compression(), zip::CompressionMethod::Stored);
    assert_eq!(entry.size(), payload.len() as u64);
}

#[test]
fn duplicate_timestamps_are_refused() {
    let fc = collection(&[42, 42]);
    let r = fc.into_zip(vec![b"a".to_vec(), b"b".to_vec()]);
    assert!(matches!(r, Err(ArchiveError::Failed)));
}

#[test]
fn packages_many_distinct_frames() {
    let ts: Vec<i64> = (0..40).map(|i| 1700000000 + i).collect();
    let contents: Vec<Vec<u8>> = (0..40u8).map(|i| vec![i; (i as usize) + 1]).collect();
    let fc = collection(&ts);
    let bytes = fc.into_zip(contents.clone()).expect("archive should build");
    let mut archive =
        zip::ZipArchive::new(std::io::Cursor::new(bytes)).expect("archive should parse");
    assert_eq!(archive.len(), 40);
    for i in 0..40 {
        let mut entry = archive.by_index(i).expect("entry");
        assert_eq!(entry.name(), format!("{}.jpg", ts[i]));
        let mut data = Vec::new();
        entry.read_to_end(&mut data).expect("entry bytes");
        assert_eq!(data, contents[i]);
    }
}

#[test]
fn negative_timestamp_names_carry_their_sign() {
    let fc = collection(&[-7]);
    let bytes = fc.into_zip(vec![b"x".to_vec()]).expect("archive should build");
    let mut archive =
        zip::ZipArchive::new(std::io::Cursor::new(bytes)).expect("archive should parse");
    let entry = archive.by_index(0).expect("entry");
    assert_eq!(entry.name(), "-7.jpg");
}
