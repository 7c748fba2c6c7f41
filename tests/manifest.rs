use bitcask::engine::BitcaskCore;
use bitcask::errors::DBError;
use bitcask::options::Options;
use bitcask::index::MemIndex;
use bitcask::manifest::{decode_record, encode_edit};
use bitcask::segment::EntryHandle;
use bitcask::version::{Version, VersionEdit};
use bitcask::versionset::VersionSet;

fn rotation(new: u64, old: Option<u64>) -> VersionEdit {
    let mut e = VersionEdit::new();
    e.new_mut = Some(new);
    e.mut_to_imm = old;
    e
}

#[test]
fn edit_record_round_trip() {
    let mut e = rotation(5, Some(4));
    e.compact_input_imm = vec![1, 2];
    e.compact_output_imm = vec![9];
    let rec = encode_edit(&e);
    assert_eq!(8 + 9 + 9 + 4 + 16 + 4 + 8, rec.len());
    let (d, end) = decode_record(&rec, 0).unwrap();
    assert_eq!(rec.len(), end);
    assert_eq!(Some(5), d.new_mut);
    assert_eq!(Some(4), d.mut_to_imm);
    assert_eq!(vec![1, 2], d.compact_input_imm);
    assert_eq!(vec![9], d.compact_output_imm);
}

#[test]
fn apply_edit_moves_segments() {
    let v = Version::genesis(1);
    let v = v.apply(&rotation(1, None));
    assert_eq!(1, v.mut_id);
    assert!(v.imm_ids.is_empty());
    let v = v.apply(&rotation(2, Some(1)));
    assert_eq!(2, v.mut_id);
    assert_eq!(vec![1], v.imm_ids);
    let mut c = VersionEdit::new();
    c.compact_input_imm = vec![1];
    c.compact_output_imm = vec![3];
    let v = v.apply(&c);
    assert_eq!(2, v.mut_id);
    assert_eq!(vec![3], v.imm_ids);
}

#[test]
fn recovery_replays_durable_edits() {
    let mut log = Vec::new();
    log.extend_from_slice(&encode_edit(&rotation(1, None)));
    log.extend_from_slice(&encode_edit(&rotation(2, Some(1))));
    let mut vs = VersionSet::new(String::from("/db"));
    let n = vs.recovery(&log);
    assert_eq!(log.len(), n);
    assert_eq!(2, vs.current().mut_id);
    assert_eq!(vec![1], vs.current().imm_ids);
    assert_eq!(3, vs.new_logfile_id());
}

#[test]
fn recovery_ignores_torn_append() {
    let mut log = Vec::new();
    log.extend_from_slice(&encode_edit(&rotation(1, None)));
    let good = log.len();
    let rec = encode_edit(&rotation(2, Some(1)));
    for cut in 0..rec.len() {
        let mut torn = log.clone();
        torn.extend_from_slice(&rec[..cut]);
        let mut vs = VersionSet::new(String::from("/db"));
        assert_eq!(good, vs.recovery(&torn));
        assert_eq!(1, vs.current().mut_id);
        assert!(vs.current().imm_ids.is_empty());
    }
}

#[test]
fn log_and_apply_installs_only_after_append() {
    let mut vs = VersionSet::new(String::from("/db"));
    let id = vs.new_logfile_id();
    assert_eq!(1, id);
    let e = rotation(id, None);
    assert!(vs.log_and_apply(&e, Err(DBError::IOError)).is_err());
    assert_eq!(0, vs.current().mut_id);
    assert!(vs.log_and_apply(&e, Ok(())).is_ok());
    assert_eq!(1, vs.current().mut_id);
    assert_eq!("MANIFEST-000000001", vs.current_file_contents().as_str());
    assert_eq!("/db/MANIFEST-000000001", vs.manifest_path().as_str());
}

#[test]
fn index_upsert_lookup_remove() {
    let mut ix = MemIndex::new();
    let h1 = EntryHandle { file_id: 1, offset: 0, length: 10 };
    let h2 = EntryHandle { file_id: 1, offset: 10, length: 12 };
    assert_eq!(None, ix.lookup(b"a"));
    ix.upsert(b"a", h1);
    ix.upsert(b"b", h1);
    ix.upsert(b"a", h2);
    assert_eq!(Some(h2), ix.lookup(b"a"));
    assert_eq!(Some(h1), ix.lookup(b"b"));
    ix.remove(b"a");
    assert_eq!(None, ix.lookup(b"a"));
    assert_eq!(Some(h1), ix.lookup(b"b"));
}

#[test]
fn reopen_refuses_inconsistent_version() {
    let mut log = Vec::new();
    log.extend_from_slice(&encode_edit(&rotation(1, None)));
    let mut c = VersionEdit::new();
    c.compact_output_imm = vec![1];
    log.extend_from_slice(&encode_edit(&c));
    let r = BitcaskCore::recover(String::from("/db"), &Options::default(), &log);
    assert!(matches!(r, Err(DBError::CorruptRecord)));
}

#[test]
fn reopen_allocates_above_recovered_ids() {
    let mut log = Vec::new();
    log.extend_from_slice(&encode_edit(&rotation(7, None)));
    log.extend_from_slice(&encode_edit(&rotation(9, Some(7))));
    let (mut core, n) = BitcaskCore::recover(String::from("/db"), &Options::default(), &log).unwrap();
    assert_eq!(log.len(), n);
    assert_eq!(Some((9, 0)), core.active());
    let edit = core.begin_rotation().unwrap();
    assert_eq!(Some(10), edit.new_mut);
    assert_eq!(Some(9), edit.mut_to_imm);
}
