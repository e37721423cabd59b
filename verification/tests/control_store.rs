//! The record log and the value files of the consensus store, with JSON bodies.
use reverse_cluster::control_store::{
    append_record, empty_log, parsed_records, read_records, read_value, rewrite_records, LogEnd,
    RaftFile,
    StoreFormatError,
};

type Record = (u64, String);

fn body(r: &Record) -> Vec<u8> {
    serde_json::to_vec(r).unwrap()
}

fn append(image: &mut Vec<u8>, r: &Record) {
    image.extend_from_slice(&append_record(&body(r)));
}

fn read(image: &Vec<u8>) -> Vec<Record> {
    let bodies = read_records(Some(image)).unwrap();
    parsed_records(
        bodies
            .iter()
            .map(|b| serde_json::from_slice(b).ok())
            .collect(),
    )
}

#[test]
fn log_round_trips_and_appends_are_monotonic() {
    let mut image = empty_log();
    append(&mut image, &(1u64, "a".to_string()));
    append(&mut image, &(2u64, "b".to_string()));
    assert_eq!(read(&image), vec![(1, "a".into()), (2, "b".into())]);
    // Reopen + append keeps prior records.
    append(&mut image, &(3u64, "c".to_string()));
    assert_eq!(read(&image).len(), 3);
}

#[test]
fn log_drops_a_torn_tail() {
    let mut image = empty_log();
    append(&mut image, &(1u64, "alpha".to_string()));
    append(&mut image, &(2u64, "beta".to_string()));
    // Corrupt the tail with bytes that can't frame a valid record.
    image.extend_from_slice(&[0x10, 0, 0, 0, 0xAA, 0xBB, 0xCC]);
    assert_eq!(
        read(&image).len(),
        2,
        "the two whole records survive a torn tail"
    );
}

#[test]
fn rewrite_drops_prefix_and_suffix() {
    let mut image = empty_log();
    for i in 1..=5u64 {
        append(&mut image, &(i, "x".to_string()));
    }
    assert_eq!(read(&image).len(), 5);
    // Keep only records 2..=4 (a purge of 1 + a truncate of 5).
    let kept: Vec<Record> = vec![(2, "x".into()), (3, "x".into()), (4, "x".into())];
    let image = rewrite_records(&kept.iter().map(body).collect());
    assert_eq!(read(&image), kept);
}

fn read_json(file: &Option<Vec<u8>>) -> Result<Option<(u64, bool)>, String> {
    read_value(
        file.as_ref()
            .map(|b| serde_json::from_slice(b).map_err(|e| e.to_string())),
    )
}

#[test]
fn value_round_trips_and_absent_is_none() {
    let mut file: Option<Vec<u8>> = None;
    assert!(read_json(&file).unwrap().is_none());
    file = Some(serde_json::to_vec(&(7u64, true)).unwrap());
    assert_eq!(read_json(&file).unwrap(), Some((7, true)));
    // Overwrite is last-writer-wins.
    file = Some(serde_json::to_vec(&(9u64, false)).unwrap());
    assert_eq!(read_json(&file).unwrap(), Some((9, false)));
    // What is there and does not parse is no fresh node.
    assert!(read_json(&Some(b"{".to_vec())).is_err());
}

#[test]
fn a_log_image_is_its_header_and_its_frames() {
    assert_eq!(empty_log(), b"RRRL\x01\0\0\0".to_vec());
    // The checksum of the standard check string.
    assert_eq!(
        append_record(&b"123456789".to_vec()),
        b"\x09\0\0\0\x26\x39\xF4\xCB123456789".to_vec()
    );
}

#[test]
fn a_missing_log_is_empty_and_a_foreign_one_is_refused() {
    assert_eq!(read_records(None), Ok(Vec::new()));
    assert_eq!(
        read_records(Some(&b"RRRL".to_vec())),
        Err(StoreFormatError::BadMagic)
    );
    assert_eq!(
        read_records(Some(&b"XXXX\x01\0\0\0".to_vec())),
        Err(StoreFormatError::BadMagic)
    );
    assert_eq!(
        StoreFormatError::BadMagic.message(),
        "raft log: bad magic or too small"
    );
}

#[test]
fn a_record_that_does_not_parse_ends_the_log() {
    let values = vec![Some(1), Some(2), None, Some(4)];
    assert_eq!(parsed_records(values), vec![1, 2]);
}

#[test]
fn a_flipped_bit_ends_the_log() {
    let mut image = empty_log();
    append(&mut image, &(1u64, "a".to_string()));
    let at = image.len();
    append(&mut image, &(2u64, "b".to_string()));
    append(&mut image, &(3u64, "c".to_string()));
    image[at + 9] ^= 1;
    assert_eq!(read(&image), vec![(1, "a".to_string())]);
}

#[test]
fn file_names() {
    let names: Vec<&str> = [
        RaftFile::Log,
        RaftFile::Vote,
        RaftFile::Committed,
        RaftFile::Purged,
        RaftFile::Snapshot,
    ]
    .iter()
    .map(|f| f.name())
    .collect();
    assert_eq!(
        names,
        vec![
            "raft-log.bin",
            "raft-vote.json",
            "raft-committed.json",
            "raft-purged.json",
            "raft-snapshot.json"
        ]
    );
}

/// Opens the log as it is and appends one record where writing goes on.
fn reopen_and_append(image: &mut Vec<u8>, r: &Record) -> LogEnd {
    let bodies = read_records(Some(image)).unwrap();
    let mut end = LogEnd::after(&bodies, read(image).len()).unwrap();
    let write = end.write_of(&body(r));
    assert!(write.fits());
    image.truncate(write.at as usize);
    image.extend_from_slice(&write.bytes);
    end.append(&write, Ok::<(), String>(())).unwrap();
    end
}

#[test]
fn a_record_behind_a_torn_frame_is_read() {
    let mut image = empty_log();
    append(&mut image, &(1u64, "alpha".to_string()));
    image.extend_from_slice(&[16, 0, 0, 0, 0, 0, 0, 0]);
    let end = reopen_and_append(&mut image, &(2u64, "beta".to_string()));
    assert_eq!(read(&image), vec![(1, "alpha".into()), (2, "beta".into())]);
    assert_eq!(end.end(), image.len() as u64);
    assert_eq!(LogEnd::of_image(&image), end);
}

#[test]
fn a_record_behind_one_that_does_not_parse_is_read() {
    let mut image = empty_log();
    append(&mut image, &(1u64, "alpha".to_string()));
    image.extend_from_slice(&append_record(&b"{".to_vec()));
    append(&mut image, &(9u64, "behind".to_string()));
    assert_eq!(read(&image).len(), 1);
    reopen_and_append(&mut image, &(2u64, "beta".to_string()));
    assert_eq!(read(&image), vec![(1, "alpha".into()), (2, "beta".into())]);
}

#[test]
fn a_failed_write_does_not_move_the_end() {
    let bodies = read_records(Some(&empty_log())).unwrap();
    let mut end = LogEnd::after(&bodies, 0).unwrap();
    assert_eq!(end.end(), 8);
    let write = end.write_of(&b"x".to_vec());
    assert_eq!(end.append(&write, Err("full")), Err("full"));
    assert_eq!(end.end(), 8);
    assert_eq!(end.append(&write, Ok::<(), String>(())), Ok(()));
    assert_eq!(end.end(), 17);
}
