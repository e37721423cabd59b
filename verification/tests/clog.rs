//! The cluster log, on a file that is a byte string.
use reverse_cluster::clog::{
    encode_body, parse_body, parse_entries, read_entries, ClusterMutation, ClusterReplay, FileClusterLog, LogPos,
    NullClusterLog,
};
use reverse_cluster::ownership::{PlacementGeneration, PlacementMode, QueryPlacement};
use reverse_cluster::shard::ShardError;

struct Log {
    image: Vec<u8>,
    log: FileClusterLog,
    broken: bool,
}

impl Log {
    fn open(image: Vec<u8>, floor: LogPos) -> Result<Log, String> {
        assert!(FileClusterLog::has_positions(&image, floor));
        Ok(Log {
            log: FileClusterLog::open(&image, floor).map_err(|e| e.message())?,
            image,
            broken: false,
        })
    }

    fn fresh() -> Log {
        Log::open(FileClusterLog::empty_image(), LogPos(0)).unwrap()
    }

    fn append(&mut self, m: &ClusterMutation) -> Result<LogPos, ShardError> {
        let write = self.log.frame_of(m);
        assert!(write.fits());
        self.image.truncate(write.at as usize);
        let written = if self.broken {
            // Part of the frame reaches the file.
            let half = write.bytes.len() / 2;
            self.image.extend_from_slice(&write.bytes[..half]);
            Err("the file is broken".to_string())
        } else {
            self.image.extend_from_slice(&write.bytes);
            Ok(())
        };
        self.log.append(&write, written)
    }

    fn replay(&self, from: LogPos) -> Result<ClusterReplay, ShardError> {
        FileClusterLog::replay(&self.image, from)
    }

    fn last_pos(&self) -> LogPos {
        self.log.last_pos()
    }

    fn checkpoint(&mut self, up_to: LogPos) -> Result<(), ShardError> {
        self.image = FileClusterLog::checkpoint(&self.image, up_to)?;
        self.log.resume(&self.image);
        Ok(())
    }
}

fn add(logical: u64, dsl: &str) -> ClusterMutation {
    ClusterMutation::Add {
        logical,
        version: 1,
        dsl: dsl.to_string(),
        tags: Vec::new(),
        placement: QueryPlacement::standalone(),
    }
}

#[test]
fn append_then_replay_round_trips() {
    let mut log = Log::fresh();
    assert_eq!(log.append(&add(1, "1994 upper deck")).unwrap(), LogPos(1));
    assert_eq!(
        log.append(&ClusterMutation::Remove { logical: 1 }).unwrap(),
        LogPos(2)
    );
    assert_eq!(log.append(&add(2, "topps chrome")).unwrap(), LogPos(3));
    assert_eq!(log.last_pos(), LogPos(3));
    // Reopen and replay from the start.
    let mut log = Log::open(log.image, LogPos(0)).unwrap();
    let replay = log.replay(LogPos(0)).unwrap();
    assert_eq!(replay.skipped_bytes, 0);
    assert_eq!(replay.entries.len(), 3);
    assert_eq!(replay.entries[0], (LogPos(1), add(1, "1994 upper deck")));
    assert_eq!(
        replay.entries[1],
        (LogPos(2), ClusterMutation::Remove { logical: 1 })
    );
    // Positions go on across a reopen.
    assert_eq!(log.append(&add(3, "x")).unwrap(), LogPos(4));
}

#[test]
fn upsert_frame_round_trips_with_and_without_tags() {
    let tagged = ClusterMutation::Upsert {
        logical: 7,
        version: 2,
        dsl: "psa 10 charizard".to_string(),
        tags: vec![("category".into(), "cards".into())],
        placement: QueryPlacement::standalone(),
    };
    let untagged = ClusterMutation::Upsert {
        logical: 8,
        version: 1,
        dsl: "topps chrome".to_string(),
        tags: Vec::new(),
        placement: QueryPlacement::standalone(),
    };
    let mut log = Log::fresh();
    log.append(&add(7, "old version")).unwrap();
    log.append(&tagged).unwrap();
    log.append(&untagged).unwrap();
    // Reopen and replay: the mixed Add/Upsert stream survives byte-exact, in order.
    let log = Log::open(log.image, LogPos(0)).unwrap();
    let replay = log.replay(LogPos(0)).unwrap();
    assert_eq!(replay.skipped_bytes, 0);
    assert_eq!(replay.entries.len(), 3);
    assert_eq!(replay.entries[1].1, tagged);
    assert_eq!(replay.entries[2].1, untagged);
}

#[test]
fn v4_round_trips_ownership_and_v3_is_refused() {
    let placement =
        QueryPlacement::selective(PlacementGeneration(9), 16, vec![2, 7, 11]).expect("placement");
    let mutation = ClusterMutation::Add {
        logical: 44,
        version: 5,
        dsl: "1994 upper deck".into(),
        tags: vec![("category".into(), "cards".into())],
        placement,
    };
    let mut log = Log::fresh();
    log.append(&mutation).expect("append");
    assert_eq!(
        log.replay(LogPos(0)).expect("replay").entries[0].1,
        mutation
    );
    let bytes = log.image;
    assert_eq!(
        u32::from_le_bytes(bytes[4..8].try_into().expect("version")),
        4
    );

    let mut legacy = bytes;
    legacy[4..8].copy_from_slice(&3u32.to_le_bytes());
    let error = Log::open(legacy, LogPos(0)).err().expect("v3 must fail");
    assert!(
        error.contains("predates ADR-109") && error.contains("rebuild"),
        "got: {error}"
    );
}

#[test]
fn replay_from_cursor_skips_captured_prefix() {
    let mut log = Log::fresh();
    for i in 1..=5 {
        log.append(&add(i, "q")).unwrap();
    }
    let replay = log.replay(LogPos(3)).unwrap();
    let positions: Vec<u64> = replay.entries.iter().map(|(p, _)| p.0).collect();
    assert_eq!(positions, vec![4, 5]);
}

#[test]
fn torn_tail_is_dropped_not_fatal() {
    let mut log = Log::fresh();
    log.append(&add(1, "alpha")).unwrap();
    log.append(&add(2, "beta")).unwrap();
    // Corrupt the tail by appending junk that can't frame a valid record.
    let mut image = log.image;
    image.extend_from_slice(&[0xFF, 0xFF, 0xFF, 0x7F, 0xAA, 0xBB]);
    let log = Log::open(image, LogPos(0)).unwrap();
    let replay = log.replay(LogPos(0)).unwrap();
    assert_eq!(replay.entries.len(), 2, "the two whole records survive");
    assert!(replay.skipped_bytes > 0, "torn tail counted");
}

#[test]
fn checkpoint_truncates_captured_records() {
    let mut log = Log::fresh();
    for i in 1..=5 {
        log.append(&add(i, "q")).unwrap();
    }
    let size_before = log.image.len();
    log.checkpoint(LogPos(3)).unwrap();
    let size_after = log.image.len();
    assert!(size_after < size_before, "captured prefix dropped");
    // Only records after the cursor remain; new appends stay monotonic.
    let replay = log.replay(LogPos(0)).unwrap();
    let positions: Vec<u64> = replay.entries.iter().map(|(p, _)| p.0).collect();
    assert_eq!(positions, vec![4, 5]);
    assert_eq!(log.append(&add(6, "q")).unwrap(), LogPos(6));
}

#[test]
fn append_surfaces_write_errors() {
    let mut log = Log::fresh();
    assert!(log.append(&add(1, "ok")).is_ok());
    log.broken = true;
    assert!(matches!(log.append(&add(2, "no")), Err(ShardError::Log(_))));
    // The position stays free, and what the failed write left does not hide the next record.
    log.broken = false;
    assert_eq!(log.append(&add(2, "yes")).unwrap(), LogPos(2));
    let replay = log.replay(LogPos(0)).unwrap();
    assert_eq!(replay.entries.len(), 2);
    assert_eq!(replay.entries[1], (LogPos(2), add(2, "yes")));
    assert_eq!(replay.skipped_bytes, 0);
}

#[test]
fn null_log_assigns_positions_and_replays_empty() {
    let mut log = NullClusterLog::new();
    assert_eq!(log.append(&add(1, "q")).unwrap(), LogPos(1));
    assert_eq!(log.append(&add(2, "q")).unwrap(), LogPos(2));
    assert_eq!(log.last_pos().unwrap(), LogPos(2));
    assert_eq!(log.replay(LogPos(0)).unwrap().entries.len(), 0);
    log.checkpoint(LogPos(2)).unwrap();
}

#[test]
fn a_log_without_its_magic_is_refused() {
    assert!(read_entries(b"CML").is_err());
    assert!(read_entries(b"XXXX\x04\0\0\0").is_err());
    assert!(read_entries(b"CMLG\x05\0\0\0").is_err());
    assert!(matches!(
        FileClusterLog::replay(b"XXXX\x04\0\0\0", LogPos(0)),
        Err(ShardError::Log(m)) if m.starts_with("replay: ")
    ));
    assert!(matches!(
        FileClusterLog::checkpoint(b"XXXX\x04\0\0\0", LogPos(0)),
        Err(ShardError::Log(m)) if m.starts_with("checkpoint read: ")
    ));
}

#[test]
fn removal_is_seventeen_bytes() {
    let body = encode_body(258, &ClusterMutation::Remove { logical: 3 });
    assert_eq!(
        body,
        vec![2, 1, 0, 0, 0, 0, 0, 0, 1, 3, 0, 0, 0, 0, 0, 0, 0]
    );
    assert_eq!(
        parse_body(&body),
        Some((LogPos(258), ClusterMutation::Remove { logical: 3 }))
    );
}

#[test]
fn text_that_is_not_utf8_is_torn() {
    let mut body = encode_body(1, &add(1, "ab"));
    assert!(parse_body(&body).is_some());
    let at = body.windows(2).position(|w| w == b"ab").unwrap();
    body[at] = 0xFF;
    assert_eq!(parse_body(&body), None);
}

#[test]
fn placements_are_checked() {
    assert!(QueryPlacement::selective(PlacementGeneration(1), 4, vec![3, 1]).is_none());
    assert!(QueryPlacement::selective(PlacementGeneration(1), 4, vec![4]).is_none());
    assert!(QueryPlacement::selective(PlacementGeneration(1), 4, vec![]).is_none());
    let p = QueryPlacement::from_raw(PlacementGeneration(1), 4, 2, vec![]).unwrap();
    assert_eq!(p.mode(), PlacementMode::ReplicatedBroad);
    assert!(QueryPlacement::from_raw(PlacementGeneration(1), 4, 9, vec![]).is_none());
}

#[test]
fn the_whole_torn_tail_is_counted() {
    assert_eq!(parse_entries(&[16, 0, 0, 0, 0, 0, 0, 0]), (vec![], 8));
    assert_eq!(parse_entries(&[1, 2, 3]), (vec![], 3));
    let mut log = Log::fresh();
    log.append(&add(1, "alpha")).unwrap();
    log.image.extend_from_slice(&[0xFF; 11]);
    assert_eq!(log.replay(LogPos(0)).unwrap().skipped_bytes, 11);
}

#[test]
fn a_record_behind_a_torn_tail_is_replayed() {
    let remove = |logical| ClusterMutation::Remove { logical };
    let mut log = Log::fresh();
    log.append(&remove(1)).unwrap();
    log.append(&remove(2)).unwrap();
    let whole = log.image.len();
    let mut image = log.image;
    image.extend_from_slice(&[0xFF, 0xFF, 0xFF, 0x7F, 0xAA, 0xBB]);
    let mut log = Log::open(image, LogPos(0)).unwrap();
    assert_eq!(log.log.end(), whole as u64);
    assert_eq!(log.append(&remove(3)).unwrap(), LogPos(3));
    let replay = log.replay(LogPos(0)).unwrap();
    let positions: Vec<u64> = replay.entries.iter().map(|(p, _)| p.0).collect();
    assert_eq!(positions, vec![1, 2, 3]);
    assert_eq!(replay.entries[2].1, remove(3));
    assert_eq!(replay.skipped_bytes, 0);
    // And once more after another reopen.
    let log = Log::open(log.image, LogPos(0)).unwrap();
    assert_eq!(log.last_pos(), LogPos(3));
    assert_eq!(log.replay(LogPos(0)).unwrap().entries.len(), 3);
}

#[test]
fn a_log_at_the_last_position_is_not_opened() {
    let mut image = FileClusterLog::empty_image();
    assert!(FileClusterLog::has_positions(&image, LogPos(u64::MAX - 1)));
    assert!(!FileClusterLog::has_positions(&image, LogPos(u64::MAX)));
    let log = FileClusterLog::open(&image, LogPos(u64::MAX - 2)).unwrap();
    let write = log.frame_of(&ClusterMutation::Remove { logical: 1 });
    image.extend_from_slice(&write.bytes);
    assert!(FileClusterLog::has_positions(&image, LogPos(0)));
    assert_eq!(
        FileClusterLog::open(&image, LogPos(0)).unwrap().last_pos(),
        LogPos(u64::MAX - 1)
    );
}
