use lewis::engine::{load_state, replay};
use lewis::frame::{frame_record, parse_journal};
use lewis::registry::{Assign, Lookup, Registry};
use lewis::{Acidic, Engine, Error};

fn set(name: &str, value: u32) -> Assign {
    Assign { name: name.as_bytes().to_vec(), value }
}

fn get(engine: &Engine<Registry>, name: &str) -> Option<u32> {
    engine.query(Lookup { name: name.as_bytes().to_vec() })
}

fn write(engine: &mut Engine<Registry>, journal: &mut Vec<u8>, event: Assign) {
    let r = engine.update(event, |record| {
        journal.extend_from_slice(&record);
        Ok(())
    });
    assert_eq!(r, Ok(()));
}

fn open(snapshot: Option<&[u8]>, journal: &[u8]) -> Engine<Registry> {
    match Engine::<Registry>::open(snapshot, journal) {
        Ok(e) => e,
        Err(e) => panic!("open failed: {:?}", e),
    }
}

fn open_err(snapshot: Option<&[u8]>, journal: &[u8]) -> Option<Error> {
    Engine::<Registry>::open(snapshot, journal).err()
}

#[test]
fn smoke() {
    let mut journal = Vec::new();
    {
        let mut engine = open(None, &journal);
        write(&mut engine, &mut journal, set("Pinkie Pie", 21));
        assert_eq!(get(&engine, "Pinkie Pie"), Some(21));
    }
    {
        let engine = open(None, &journal);
        assert_eq!(get(&engine, "Pinkie Pie"), Some(21));
    }
}

#[test]
fn write_survives_reopen() {
    let mut journal = Vec::new();
    let mut engine = open(None, &journal);
    assert_eq!(get(&engine, "Pinkie Pie"), None);
    write(&mut engine, &mut journal, set("Pinkie Pie", 21));
    assert_eq!(get(&engine, "Pinkie Pie"), Some(21));
    drop(engine);
    let reopened = open(None, &journal);
    assert_eq!(get(&reopened, "Pinkie Pie"), Some(21));
}

#[test]
fn checkpoint_alone_restores_state() {
    let mut journal = Vec::new();
    let mut engine = open(None, &journal);
    write(&mut engine, &mut journal, set("Pinkie Pie", 21));
    let mut snapshot: Option<Vec<u8>> = None;
    let r = engine.checkpoint(|bytes| {
        snapshot = Some(bytes);
        Ok(())
    });
    assert_eq!(r, Ok(()));
    let snapshot = snapshot.expect("checkpoint stored nothing");
    assert_eq!(get(&engine, "Pinkie Pie"), Some(21));
    // the journal is lost; the snapshot alone holds the write
    let mut reopened = open(Some(&snapshot), &[]);
    assert_eq!(get(&reopened, "Pinkie Pie"), Some(21));
    assert!(reopened.needs_checkpoint());
    let r = reopened.checkpoint(|_| Ok(()));
    assert_eq!(r, Ok(()));
    assert!(!reopened.needs_checkpoint());
}

#[test]
fn checkpoint_then_more_writes() {
    let mut journal = Vec::new();
    let mut engine = open(None, &journal);
    write(&mut engine, &mut journal, set("Pinkie Pie", 21));
    let mut snapshot = Vec::new();
    let r = engine.checkpoint(|bytes| {
        snapshot = bytes;
        Ok(())
    });
    assert_eq!(r, Ok(()));
    write(&mut engine, &mut journal, set("Pinkie Pie", 22));
    write(&mut engine, &mut journal, set("Rarity", 5));
    let reopened = open(Some(&snapshot), &journal);
    assert_eq!(get(&reopened, "Pinkie Pie"), Some(22));
    assert_eq!(get(&reopened, "Rarity"), Some(5));
}

#[test]
fn replay_matches_sequential_writes() {
    let events = [("Applejack", 1), ("Rarity", 2), ("Applejack", 3)];
    let mut journal = Vec::new();
    let mut engine = open(None, &journal);
    for (name, value) in events {
        write(&mut engine, &mut journal, set(name, value));
    }
    let mut direct = Registry::new();
    for (name, value) in events {
        direct.run_update(set(name, value));
    }
    let mut replayed = Registry::new();
    assert_eq!(replay(&journal, &mut replayed), Ok(()));
    assert_eq!(replayed.encode_state(), direct.encode_state());
    assert_eq!(replayed.get(b"Applejack"), Some(3));
    assert_eq!(replayed.get(b"Rarity"), Some(2));
    assert_eq!(get(&engine, "Applejack"), Some(3));
    assert_eq!(get(&engine, "Rarity"), Some(2));
    let reopened = open(None, &journal);
    assert_eq!(get(&reopened, "Applejack"), Some(3));
    assert_eq!(get(&reopened, "Rarity"), Some(2));
}

#[test]
fn codec_round_trip() {
    let bytes = Registry::encode_update(&set("Fluttershy", 7)).expect("encodes");
    let back = Registry::decode_update(&bytes).expect("decodes");
    assert_eq!(back.name, b"Fluttershy".to_vec());
    assert_eq!(back.value, 7);
    let mut s = Registry::new();
    s.set(b"Twilight".to_vec(), 9);
    s.set(b"Spike".to_vec(), 0);
    let bytes = s.encode_state().expect("encodes");
    let back = Registry::decode_state(&bytes).expect("decodes");
    assert_eq!(back.get(b"Twilight"), Some(9));
    assert_eq!(back.get(b"Spike"), Some(0));
    assert_eq!(back.get(b"Rarity"), None);
    assert_eq!(back.encode_state(), Some(bytes));
}

#[test]
fn frame_layout_is_big_endian_length_then_payload() {
    assert_eq!(frame_record(&[1, 2, 3]), vec![0, 0, 0, 0, 0, 0, 0, 3, 1, 2, 3]);
    assert_eq!(frame_record(&[]), vec![0, 0, 0, 0, 0, 0, 0, 0]);
    let long = vec![9u8; 258];
    let framed = frame_record(&long);
    assert_eq!(&framed[..8], &[0, 0, 0, 0, 0, 0, 1, 2]);
    assert_eq!(framed.len(), 266);
}

#[test]
fn parse_reads_records_in_order() {
    let mut bytes = frame_record(&[7, 8]);
    bytes.extend_from_slice(&frame_record(&[]));
    bytes.extend_from_slice(&frame_record(&vec![5u8; 300]));
    let records = parse_journal(&bytes).expect("well framed");
    assert_eq!(records, vec![vec![7, 8], vec![], vec![5u8; 300]]);
    assert_eq!(parse_journal(&[]), Ok(vec![]));
}

#[test]
fn parse_rejects_partial_header() {
    let mut bytes = frame_record(&[7, 8]);
    bytes.extend_from_slice(&[0, 0, 0]);
    assert_eq!(parse_journal(&bytes), Err(Error::CorruptedLog));
}

#[test]
fn parse_rejects_short_payload() {
    let bytes = vec![0, 0, 0, 0, 0, 0, 1, 0, 1, 2, 3];
    assert_eq!(parse_journal(&bytes), Err(Error::CorruptedLog));
}

#[test]
fn truncated_journal_fails_to_open() {
    let mut journal = Vec::new();
    let mut engine = open(None, &journal);
    write(&mut engine, &mut journal, set("Pinkie Pie", 21));
    let whole = journal.len();
    write(&mut engine, &mut journal, set("Rarity", 4));
    for cut in (whole + 1)..journal.len() {
        assert_eq!(open_err(None, &journal[..cut]), Some(Error::CorruptedLog));
    }
    assert_eq!(get(&open(None, &journal[..whole]), "Pinkie Pie"), Some(21));
}

#[test]
fn undecodable_record_is_a_serialization_error() {
    let journal = frame_record(&[0xff, 0xff]);
    assert_eq!(open_err(None, &journal), Some(Error::Serialization));
    let mut s = Registry::new();
    assert_eq!(replay(&journal, &mut s), Err(Error::Serialization));
}

#[test]
fn undecodable_snapshot_is_corrupted() {
    assert_eq!(open_err(Some(&[0xff, 0x00]), &[]), Some(Error::CorruptedSnapshot));
    assert_eq!(load_state::<Registry>(Some(&[0xff])).err(), Some(Error::CorruptedSnapshot));
    let fresh = load_state::<Registry>(None).expect("initial state");
    assert_eq!(fresh.encode_state(), Some(vec![]));
}

#[test]
fn failed_append_leaves_state_unchanged() {
    let mut journal = Vec::new();
    let mut engine = open(None, &journal);
    write(&mut engine, &mut journal, set("Pinkie Pie", 21));
    let r = engine.update(set("Pinkie Pie", 99), |_| Err(Error::Io("disk full".to_string())));
    assert_eq!(r, Err(Error::Io("disk full".to_string())));
    assert_eq!(get(&engine, "Pinkie Pie"), Some(21));
}

#[test]
fn failed_checkpoint_is_reported() {
    let mut journal = Vec::new();
    let mut engine = open(None, &journal);
    write(&mut engine, &mut journal, set("Pinkie Pie", 21));
    let r = engine.checkpoint(|_| Err(Error::Io("read-only".to_string())));
    assert_eq!(r, Err(Error::Io("read-only".to_string())));
    assert_eq!(get(&engine, "Pinkie Pie"), Some(21));
    assert_eq!(get(&open(None, &journal), "Pinkie Pie"), Some(21));
}

#[test]
fn appended_record_is_framed_encoding() {
    let mut engine = open(None, &[]);
    let mut seen = Vec::new();
    let r = engine.update(set("Rarity", 4), |record| {
        seen = record;
        Ok(())
    });
    assert_eq!(r, Ok(()));
    let payload = Registry::encode_update(&set("Rarity", 4)).expect("encodes");
    assert_eq!(seen, frame_record(&payload));
}

#[test]
fn assignment_bytes_are_two_records() {
    let bytes = Registry::encode_update(&set("AJ", 258)).expect("encodes");
    assert_eq!(
        bytes,
        vec![0, 0, 0, 0, 0, 0, 0, 2, b'A', b'J', 0, 0, 0, 0, 0, 0, 0, 8, 0, 0, 0, 0, 0, 0, 1, 2]
    );
}

#[test]
fn malformed_assignments_do_not_decode() {
    // one record only
    assert!(Registry::decode_update(&frame_record(b"AJ")).is_none());
    // a number record that is not eight bytes
    let mut bytes = frame_record(b"AJ");
    bytes.extend_from_slice(&frame_record(&[1, 2]));
    assert!(Registry::decode_update(&bytes).is_none());
    // a number too large for the register
    let mut bytes = frame_record(b"AJ");
    bytes.extend_from_slice(&frame_record(&[0, 0, 0, 1, 0, 0, 0, 0]));
    assert!(Registry::decode_update(&bytes).is_none());
    // a state with a name but no number
    assert!(Registry::decode_state(&frame_record(b"AJ")).is_none());
}

#[test]
fn setting_a_name_again_replaces_its_number() {
    let mut r = Registry::new();
    r.set(b"Rarity".to_vec(), 1);
    r.set(b"Spike".to_vec(), 2);
    r.set(b"Rarity".to_vec(), 3);
    assert_eq!(r.get(b"Rarity"), Some(3));
    assert_eq!(r.get(b"Spike"), Some(2));
    let mut expected = Registry::new();
    expected.set(b"Rarity".to_vec(), 3);
    expected.set(b"Spike".to_vec(), 2);
    assert_eq!(r.encode_state(), expected.encode_state());
}

#[test]
fn snapshot_starts_with_covered_journal_length() {
    let mut journal = Vec::new();
    let mut engine = open(None, &journal);
    write(&mut engine, &mut journal, set("AJ", 1));
    let mut snapshot = Vec::new();
    let r = engine.checkpoint(|bytes| {
        snapshot = bytes;
        Ok(())
    });
    assert_eq!(r, Ok(()));
    let mut expected = (journal.len() as u64).to_be_bytes().to_vec();
    expected.extend_from_slice(&engine_state_bytes(&engine));
    assert_eq!(snapshot, expected);
    // the covered record is not applied a second time
    let reopened = open(Some(&snapshot), &journal);
    assert_eq!(get(&reopened, "AJ"), Some(1));
    assert!(!reopened.needs_checkpoint());
}

fn engine_state_bytes(engine: &Engine<Registry>) -> Vec<u8> {
    let mut r = Registry::new();
    if let Some(v) = get(engine, "AJ") {
        r.set(b"AJ".to_vec(), v);
    }
    r.encode_state().expect("encodes")
}

#[test]
fn checkpoint_skips_covered_writes() {
    let mut journal = Vec::new();
    let mut engine = open(None, &journal);
    write(&mut engine, &mut journal, set("Rarity", 1));
    let mut snapshot = Vec::new();
    assert_eq!(
        engine.checkpoint(|bytes| {
            snapshot = bytes;
            Ok(())
        }),
        Ok(())
    );
    write(&mut engine, &mut journal, set("Rarity", 2));
    // only the write after the checkpoint is replayed on the snapshot
    let reopened = open(Some(&snapshot), &journal);
    assert_eq!(get(&reopened, "Rarity"), Some(2));
    let mut old_journal = journal.clone();
    old_journal.truncate(snapshot_len_prefix(&snapshot));
    let at_checkpoint = open(Some(&snapshot), &old_journal);
    assert_eq!(get(&at_checkpoint, "Rarity"), Some(1));
}

fn snapshot_len_prefix(snapshot: &[u8]) -> usize {
    let mut b = [0u8; 8];
    b.copy_from_slice(&snapshot[..8]);
    u64::from_be_bytes(b) as usize
}

#[test]
fn short_snapshot_is_corrupted() {
    assert_eq!(open_err(Some(&[0, 0, 0]), &[]), Some(Error::CorruptedSnapshot));
}

#[test]
fn undecodable_record_fails_before_a_cut_tail() {
    let mut journal = frame_record(&[0xff, 0xff]);
    journal.push(0);
    assert_eq!(open_err(None, &journal), Some(Error::Serialization));
    let mut s = Registry::new();
    assert_eq!(replay(&journal, &mut s), Err(Error::Serialization));
}

#[test]
fn records_before_a_failure_are_applied_by_replay() {
    let mut journal = Vec::new();
    let mut engine = open(None, &journal);
    write(&mut engine, &mut journal, set("Spike", 8));
    journal.extend_from_slice(&[0, 0]);
    let mut s = Registry::new();
    assert_eq!(replay(&journal, &mut s), Err(Error::CorruptedLog));
    assert_eq!(s.get(b"Spike"), Some(8));
}

#[test]
fn duplicate_names_do_not_decode() {
    let mut bytes = Vec::new();
    for _ in 0..2 {
        bytes.extend_from_slice(&frame_record(b"AJ"));
        bytes.extend_from_slice(&frame_record(&[0, 0, 0, 0, 0, 0, 0, 1]));
    }
    assert!(Registry::decode_state(&bytes).is_none());
    let mut once = frame_record(b"AJ");
    once.extend_from_slice(&frame_record(&[0, 0, 0, 0, 0, 0, 0, 1]));
    let r = Registry::decode_state(&once).expect("decodes");
    assert_eq!(r.get(b"AJ"), Some(1));
}
