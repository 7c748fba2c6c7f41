use std::collections::HashMap;

use bitcask::engine::BitcaskCore;
use bitcask::errors::{DBError, DBResult};
use bitcask::manifest::encode_edit;
use bitcask::options::Options;
use bitcask::writebatch::WriteBatch;

/// The engine core with its files kept in memory.
struct Sim {
    core: BitcaskCore,
    files: HashMap<u64, Vec<u8>>,
    manifest: Vec<u8>,
    options: Options,
}

fn open_empty(target_file_size: u64) -> Sim {
    let mut options = Options::default();
    options.target_file_size = target_file_size;
    Sim {
        core: BitcaskCore::new(String::from("/tmp/db"), &options),
        files: HashMap::new(),
        manifest: Vec::new(),
        options,
    }
}

fn write(db: &mut Sim, batch: &WriteBatch) -> DBResult<()> {
    if db.core.needs_rotation() {
        let edit = db.core.begin_rotation()?;
        db.files.insert(edit.new_mut.unwrap(), Vec::new());
        db.manifest.extend_from_slice(&encode_edit(&edit));
        db.core.finish_rotation(&edit, Ok(()))?;
    }
    let plan = db.core.plan_write(batch)?;
    let f = db.files.get_mut(&plan.file_id()).unwrap();
    f.truncate(plan.offset() as usize);
    f.extend_from_slice(plan.data());
    db.core.commit_write(plan, Ok(()), Ok(()))
}

fn put(db: &mut Sim, key: &[u8], value: &[u8]) {
    let mut b = WriteBatch::new();
    b.put(key, value);
    write(db, &b).unwrap();
}

fn delete(db: &mut Sim, key: &[u8]) {
    let mut b = WriteBatch::new();
    b.delete(key);
    write(db, &b).unwrap();
}

fn get_with(db: &Sim, key: &[u8], verify: bool) -> DBResult<Option<Vec<u8>>> {
    match db.core.locate(key)? {
        None => Ok(None),
        Some(h) => {
            let f = &db.files[&h.file_id];
            let start = h.offset as usize;
            let end = std::cmp::min((h.offset + h.length) as usize, f.len());
            db.core.finish_get(key, h, &f[start..end], verify)
        }
    }
}

fn get(db: &Sim, key: &[u8]) -> Option<Vec<u8>> {
    get_with(db, key, true).unwrap()
}

fn reopen(db: Sim) -> Sim {
    let (mut core, _) =
        BitcaskCore::recover(String::from("/tmp/db"), &db.options, &db.manifest).unwrap();
    let mut ids: Vec<u64> = core.version_set().current().imm_ids.clone();
    ids.sort();
    let m = core.version_set().current().mut_id;
    if m != 0 {
        ids.push(m);
    }
    for id in ids {
        core.load_segment(id, &db.files[&id]);
    }
    Sim { core, files: db.files, manifest: db.manifest, options: db.options }
}

#[test]
fn put_get_delete_survives_reopen() {
    let mut db = open_empty(1 << 20);
    assert_eq!(None, get(&db, b"name"));
    put(&mut db, b"name", b"guoxiang");
    assert_eq!(Some(b"guoxiang".to_vec()), get(&db, b"name"));
    delete(&mut db, b"name");
    assert_eq!(None, get(&db, b"name"));
    let db = reopen(db);
    assert_eq!(None, get(&db, b"name"));
}

#[test]
fn values_survive_reopen() {
    let mut db = open_empty(1 << 20);
    put(&mut db, b"a", b"1");
    put(&mut db, b"b", b"2");
    put(&mut db, b"a", b"3");
    let mut db = reopen(db);
    assert_eq!(Some(b"3".to_vec()), get(&db, b"a"));
    assert_eq!(Some(b"2".to_vec()), get(&db, b"b"));
    // writing goes on at the recovered tail
    put(&mut db, b"c", b"4");
    let db = reopen(db);
    assert_eq!(Some(b"4".to_vec()), get(&db, b"c"));
    assert_eq!(Some(b"3".to_vec()), get(&db, b"a"));
}

#[test]
fn latest_put_wins() {
    let mut db = open_empty(1 << 20);
    put(&mut db, b"k", b"v1");
    put(&mut db, b"k", b"v2");
    assert_eq!(Some(b"v2".to_vec()), get(&db, b"k"));
}

#[test]
fn last_write_wins_within_batch() {
    let mut db = open_empty(1 << 20);
    let mut b = WriteBatch::new();
    b.put(b"k", b"a");
    b.delete(b"k");
    b.put(b"k", b"b");
    write(&mut db, &b).unwrap();
    assert_eq!(Some(b"b".to_vec()), get(&db, b"k"));
}

#[test]
fn tombstone_hides_earlier_puts() {
    let mut db = open_empty(1 << 20);
    put(&mut db, b"k", b"a");
    put(&mut db, b"k", b"b");
    delete(&mut db, b"k");
    put(&mut db, b"other", b"x");
    assert_eq!(None, get(&db, b"k"));
    put(&mut db, b"k", b"c");
    assert_eq!(Some(b"c".to_vec()), get(&db, b"k"));
}

#[test]
fn rotation_at_threshold() {
    let mut db = open_empty(40);
    put(&mut db, b"k1", b"0123456789");
    let first = db.core.active().unwrap().0;
    assert_eq!(1, first);
    // 33 bytes so far: below the threshold, no rotation
    put(&mut db, b"k2", b"0123456789");
    assert_eq!(first, db.core.active().unwrap().0);
    // 66 bytes: the next write rotates once
    put(&mut db, b"k3", b"0123456789");
    let (second, tail) = db.core.active().unwrap();
    assert_eq!(2, second);
    assert_eq!(33, tail);
    let v = db.core.version_set().current();
    assert_eq!(2, v.mut_id);
    assert_eq!(vec![1], v.imm_ids);
    for (k, _) in [(b"k1", 0), (b"k2", 0), (b"k3", 0)] {
        assert_eq!(Some(b"0123456789".to_vec()), get(&db, k));
    }
    let db = reopen(db);
    assert_eq!(2, db.core.version_set().current().mut_id);
    assert_eq!(Some(b"0123456789".to_vec()), get(&db, b"k1"));
    assert_eq!(Some(b"0123456789".to_vec()), get(&db, b"k3"));
}

#[test]
fn corrupted_frame_is_detected_on_read() {
    let mut db = open_empty(1 << 20);
    put(&mut db, b"name", b"guoxiang");
    let f = db.files.get_mut(&1).unwrap();
    let last = f.len() - 1;
    f[last] ^= 0x01;
    assert_eq!(Err(DBError::ChecksumMismatch), get_with(&db, b"name", true));
    assert_eq!(Ok(Some(b"guoxianf".to_vec())), get_with(&db, b"name", false));
}

#[test]
fn short_read_is_truncated() {
    let mut db = open_empty(1 << 20);
    put(&mut db, b"name", b"guoxiang");
    let h = db.core.locate(b"name").unwrap().unwrap();
    let f = &db.files[&1];
    let r = db.core.finish_get(b"name", h, &f[0..(h.length as usize - 1)], true);
    assert_eq!(Err(DBError::TruncatedRead), r);
}

#[test]
fn write_without_segment_is_refused() {
    let db = open_empty(1 << 20);
    let mut b = WriteBatch::new();
    b.put(b"k", b"v");
    assert!(matches!(db.core.plan_write(&b), Err(DBError::InvariantViolation)));
}

#[test]
fn failed_manifest_append_keeps_version() {
    let mut db = open_empty(1 << 20);
    let edit = db.core.begin_rotation().unwrap();
    assert_eq!(Err(DBError::IOError), db.core.finish_rotation(&edit, Err(DBError::IOError)));
    assert!(db.core.active().is_none());
    assert_eq!(0, db.core.version_set().current().mut_id);
    assert!(db.core.needs_rotation());
}

#[test]
fn failed_sync_is_recorded() {
    let mut db = open_empty(1 << 20);
    put(&mut db, b"a", b"1");
    let mut b = WriteBatch::new();
    b.put(b"a", b"2");
    let plan = db.core.plan_write(&b).unwrap();
    let r = db.core.commit_write(plan, Ok(()), Err(DBError::IOError));
    assert_eq!(Err(DBError::IOError), r);
    assert_eq!(Some(DBError::IOError), db.core.bg_error());
    assert_eq!(Some(b"1".to_vec()), get(&db, b"a"));
    assert!(matches!(db.core.plan_write(&b), Err(DBError::IOError)));
}

#[test]
fn stale_plan_is_refused() {
    let mut db = open_empty(1 << 20);
    put(&mut db, b"a", b"1");
    let mut b = WriteBatch::new();
    b.put(b"a", b"2");
    let plan = db.core.plan_write(&b).unwrap();
    put(&mut db, b"b", b"3");
    assert_eq!(Err(DBError::InvariantViolation), db.core.commit_write(plan, Ok(()), Ok(())));
    assert_eq!(Some(b"1".to_vec()), get(&db, b"a"));
}

#[test]
fn torn_segment_tail_is_dropped_on_reopen() {
    let mut db = open_empty(1 << 20);
    put(&mut db, b"a", b"1");
    put(&mut db, b"b", b"2");
    let f = db.files.get_mut(&1).unwrap();
    let n = f.len();
    f.truncate(n - 3);
    let (mut core, _) =
        BitcaskCore::recover(String::from("/tmp/db"), &db.options, &db.manifest).unwrap();
    let kept = core.load_segment(1, &db.files[&1]);
    assert_eq!(23, kept);
    let db = Sim { core, files: db.files, manifest: db.manifest, options: db.options };
    assert_eq!(Some(b"1".to_vec()), get(&db, b"a"));
    assert_eq!(None, get(&db, b"b"));
}
