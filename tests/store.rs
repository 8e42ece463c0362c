use kvs::error::KvsError;
use kvs::store::{value_from_record, KvCore, PendingWrite, COMPACTION_THRESHOLD};
use std::collections::BTreeMap;

/// Log files kept in memory, carrying out what the store hands back.
struct Disk {
    files: BTreeMap<u64, Vec<u8>>,
}

impl Disk {
    fn new() -> Disk {
        let mut files = BTreeMap::new();
        files.insert(1, Vec::new());
        Disk { files }
    }

    /// Appends `w`'s record to the active log, commits it, and runs the
    /// compaction that falls due; returns whether one ran.
    fn write(&mut self, core: &mut KvCore, w: PendingWrite) -> Result<bool, KvsError> {
        let gen = core.current_gen();
        self.files.entry(gen).or_default().extend_from_slice(w.record());
        let due = core.commit_write(w, Ok(()))?;
        if due {
            self.compact(core);
        }
        Ok(due)
    }

    fn compact(&mut self, core: &mut KvCore) {
        let plan = core.begin_compaction().unwrap();
        self.files.insert(plan.active_gen, Vec::new());
        let mut compacted = Vec::new();
        for p in &plan.copies {
            let file = &self.files[&p.gen];
            compacted.extend_from_slice(&file[p.pos as usize..(p.pos + p.len) as usize]);
        }
        self.files.insert(plan.compaction_gen, compacted);
        core.finish_compaction(Ok(())).unwrap();
        let stale: Vec<u64> = self
            .files
            .keys()
            .copied()
            .filter(|g| *g < core.safe_point())
            .collect();
        for g in stale {
            self.files.remove(&g);
        }
    }
}

fn set(core: &mut KvCore, disk: &mut Disk, k: &str, v: &str) {
    let w = KvCore::prepare_set(k.as_bytes().to_vec(), v.as_bytes().to_vec()).unwrap();
    disk.write(core, w).unwrap();
}

fn remove(core: &mut KvCore, disk: &mut Disk, k: &str) -> Result<(), KvsError> {
    let w = core.prepare_remove(&k.as_bytes().to_vec())?;
    disk.write(core, w)?;
    Ok(())
}

fn get(core: &KvCore, disk: &Disk, k: &str) -> Option<String> {
    let p = core.locate(&k.as_bytes().to_vec())?;
    let file = &disk.files[&p.gen];
    let value = value_from_record(&file[p.pos as usize..(p.pos + p.len) as usize]).unwrap();
    Some(String::from_utf8(value).unwrap())
}

fn reopen(disk: &mut Disk) -> KvCore {
    let mut core = KvCore::new();
    let gens: Vec<u64> = disk.files.keys().copied().collect();
    for g in gens {
        core.load(g, &disk.files[&g]);
    }
    disk.files.insert(core.current_gen(), Vec::new());
    core
}

#[test]
fn overwrite_and_miss() {
    let mut core = KvCore::new();
    let mut disk = Disk::new();
    set(&mut core, &mut disk, "a", "1");
    set(&mut core, &mut disk, "b", "2");
    set(&mut core, &mut disk, "a", "3");
    assert_eq!(get(&core, &disk, "a"), Some("3".to_owned()));
    assert_eq!(get(&core, &disk, "b"), Some("2".to_owned()));
    assert_eq!(get(&core, &disk, "c"), None);
}

#[test]
fn remove_then_remove_again() {
    let mut core = KvCore::new();
    let mut disk = Disk::new();
    set(&mut core, &mut disk, "k", "v");
    remove(&mut core, &mut disk, "k").unwrap();
    assert_eq!(get(&core, &disk, "k"), None);
    assert_eq!(remove(&mut core, &mut disk, "k"), Err(KvsError::KeyNotFound));
}

#[test]
fn stale_bytes_count_shadowed_and_remove_records() {
    let mut core = KvCore::new();
    let mut disk = Disk::new();
    set(&mut core, &mut disk, "k", "v");
    assert_eq!(core.uncompacted(), 0);
    set(&mut core, &mut disk, "k", "w");
    assert_eq!(core.uncompacted(), 11);
    remove(&mut core, &mut disk, "k").unwrap();
    assert_eq!(core.uncompacted(), 11 + 11 + 6);
    assert_eq!(core.active_len(), 11 + 11 + 6);
}

#[test]
fn compaction_keeps_last_values_and_drops_files() {
    let mut core = KvCore::new();
    let mut disk = Disk::new();
    let big = "x".repeat(1000);
    let mut max_files = 0;
    let mut compactions = 0;
    for round in 0..3 {
        for i in 0..10000 {
            let value = format!("{}-{}-{}", big, round, i % 7);
            let w = KvCore::prepare_set(format!("k_{}", i % 500).into_bytes(), value.into_bytes())
                .unwrap();
            if disk.write(&mut core, w).unwrap() {
                compactions += 1;
            }
            max_files = max_files.max(disk.files.len());
        }
    }
    assert!(compactions > 0);
    assert!(core.uncompacted() <= COMPACTION_THRESHOLD);
    let expected = format!("{}-{}-{}", big, 2, 9500 % 7);
    assert_eq!(get(&core, &disk, "k_0"), Some(expected));
    assert!(disk.files.len() <= 2);
    assert!(max_files >= disk.files.len());
    assert!(core.safe_point() > 0);
}

#[test]
fn explicit_compaction_moves_everything_to_one_log() {
    let mut core = KvCore::new();
    let mut disk = Disk::new();
    set(&mut core, &mut disk, "a", "1");
    set(&mut core, &mut disk, "b", "2");
    set(&mut core, &mut disk, "a", "3");
    remove(&mut core, &mut disk, "b").unwrap();
    let gen = core.current_gen();
    disk.compact(&mut core);
    assert_eq!(core.current_gen(), gen + 2);
    assert_eq!(core.uncompacted(), 0);
    assert_eq!(core.safe_point(), gen + 1);
    assert!(!core.is_compacting());
    assert_eq!(get(&core, &disk, "a"), Some("3".to_owned()));
    assert_eq!(get(&core, &disk, "b"), None);
    assert_eq!(core.locate(&b"a".to_vec()).unwrap().pos, 0);
    assert_eq!(disk.files.keys().copied().collect::<Vec<_>>(), vec![gen + 1, gen + 2]);
    assert_eq!(disk.files[&(gen + 1)].len(), 11);
}

#[test]
fn compaction_of_an_empty_store() {
    let mut core = KvCore::new();
    let mut disk = Disk::new();
    set(&mut core, &mut disk, "k", "v");
    remove(&mut core, &mut disk, "k").unwrap();
    let plan = core.begin_compaction().unwrap();
    assert_eq!(plan.compaction_gen, 2);
    assert_eq!(plan.active_gen, 3);
    assert!(plan.copies.is_empty());
    core.finish_compaction(Ok(())).unwrap();
    assert_eq!(core.safe_point(), 2);
    assert_eq!(core.uncompacted(), 0);
}

#[test]
fn a_failed_copy_abandons_the_compaction() {
    let mut core = KvCore::new();
    let mut disk = Disk::new();
    set(&mut core, &mut disk, "a", "1");
    set(&mut core, &mut disk, "a", "2");
    let before = core.locate(&b"a".to_vec()).unwrap();
    let plan = core.begin_compaction().unwrap();
    assert_eq!(plan.copies, vec![before]);
    disk.files.insert(plan.active_gen, Vec::new());
    let err = core.finish_compaction(Err(KvsError::Io("disk full".to_owned())));
    assert_eq!(err, Err(KvsError::Io("disk full".to_owned())));
    assert!(!core.is_compacting());
    assert_eq!(core.locate(&b"a".to_vec()), Some(before));
    assert_eq!(core.safe_point(), 0);
    assert_eq!(core.uncompacted(), 11);
    assert_eq!(get(&core, &disk, "a"), Some("2".to_owned()));
    assert_eq!(core.current_gen(), 3);
}

#[test]
fn a_failed_append_changes_nothing_but_the_active_log() {
    let mut core = KvCore::new();
    let mut disk = Disk::new();
    set(&mut core, &mut disk, "a", "1");
    let w = KvCore::prepare_set(b"a".to_vec(), b"2".to_vec()).unwrap();
    let r = core.commit_write(w, Err(KvsError::Io("disk full".to_owned())));
    assert_eq!(r, Err(KvsError::Io("disk full".to_owned())));
    assert_eq!(core.current_gen(), 2);
    assert_eq!(core.active_len(), 0);
    assert_eq!(get(&core, &disk, "a"), Some("1".to_owned()));
    disk.files.insert(2, Vec::new());
    set(&mut core, &mut disk, "a", "3");
    assert_eq!(get(&core, &disk, "a"), Some("3".to_owned()));
}

#[test]
fn recovery_after_reopen() {
    let mut core = KvCore::new();
    let mut disk = Disk::new();
    set(&mut core, &mut disk, "x", "1");
    drop(core);
    let core = reopen(&mut disk);
    assert_eq!(get(&core, &disk, "x"), Some("1".to_owned()));
    assert_eq!(core.current_gen(), 2);
}

#[test]
fn recovery_ignores_a_torn_last_record() {
    let mut core = KvCore::new();
    let mut disk = Disk::new();
    set(&mut core, &mut disk, "a", "1");
    set(&mut core, &mut disk, "b", "2");
    set(&mut core, &mut disk, "a", "torn");
    let last = *disk.files.keys().last().unwrap();
    disk.files.get_mut(&last).unwrap().pop();
    let core = reopen(&mut disk);
    assert_eq!(get(&core, &disk, "a"), Some("1".to_owned()));
    assert_eq!(get(&core, &disk, "b"), Some("2".to_owned()));
}

#[test]
fn recovery_replays_removes_and_later_generations() {
    let mut core = KvCore::new();
    let mut disk = Disk::new();
    set(&mut core, &mut disk, "a", "1");
    set(&mut core, &mut disk, "b", "2");
    let mut core = reopen(&mut disk);
    remove(&mut core, &mut disk, "a").unwrap();
    set(&mut core, &mut disk, "b", "3");
    let core = reopen(&mut disk);
    assert_eq!(get(&core, &disk, "a"), None);
    assert_eq!(get(&core, &disk, "b"), Some("3".to_owned()));
    assert_eq!(core.current_gen(), 3);
    assert_eq!(core.uncompacted(), 11 + 6 + 11);
}

#[test]
fn get_does_not_change_the_store() {
    let mut core = KvCore::new();
    let mut disk = Disk::new();
    set(&mut core, &mut disk, "k", "v");
    let before = (core.current_gen(), core.active_len(), core.uncompacted());
    for _ in 0..3 {
        assert_eq!(get(&core, &disk, "k"), Some("v".to_owned()));
    }
    assert_eq!(before, (core.current_gen(), core.active_len(), core.uncompacted()));
}

#[test]
fn a_record_that_is_no_put_is_unexpected() {
    let record = vec![2, 0, 0, 0, 1, b'k'];
    assert_eq!(value_from_record(&record), Err(KvsError::UnexpectedCommandType));
    assert_eq!(value_from_record(&[]), Err(KvsError::UnexpectedCommandType));
    let put = vec![1, 0, 0, 0, 1, b'k', 0, 0, 0, 2, b'o', b'k'];
    assert_eq!(value_from_record(&put), Ok(b"ok".to_vec()));
}

#[test]
fn a_log_of_generation_zero_is_replayed() {
    let mut log = Vec::new();
    kvs::codec::encode(&kvs::codec::Command::set(b"z".to_vec(), b"0".to_vec()), &mut log).unwrap();
    let mut disk = Disk { files: BTreeMap::new() };
    disk.files.insert(0, log);
    let core = reopen(&mut disk);
    assert_eq!(core.current_gen(), 1);
    assert_eq!(get(&core, &disk, "z"), Some("0".to_owned()));
}
