// Scenario and property tests of the save slot manager: slot allocation,
// per-request isolation, the two pointers, and deletion.

use encrypt_save::save::{CurrentSave, SaveConfig, SaveGame, SlotEntry};

fn fresh(dir: &[u8]) -> (SaveConfig, CurrentSave) {
    (SaveConfig::new(dir.to_vec()), CurrentSave::new())
}

#[test]
fn save_allocates_increasing_fresh_ids() {
    let (mut cfg, mut cur) = fresh(b"saves");
    let mut seen: Vec<u32> = Vec::new();
    for n in 1..=3u32 {
        let out = cfg
            .save(&mut cur, &SaveGame(0), &vec![n as u8])
            .expect("save of a fresh slot must succeed");
        assert!(!seen.contains(&out.slot_id));
        if let Some(prev) = seen.last() {
            assert!(out.slot_id > *prev);
        }
        seen.push(out.slot_id);
        assert_eq!(cfg.entries().len(), n as usize);
    }
    assert_eq!(seen, vec![1, 2, 3]);
}

#[test]
fn save_unknown_id_is_a_no_op() {
    let (mut cfg, mut cur) = fresh(b"saves");
    cfg.save(&mut cur, &SaveGame(0), &b"one".to_vec()).unwrap();
    cur.0 = 1;
    let r = cfg.save(&mut cur, &SaveGame(9), &b"two".to_vec());
    assert!(r.is_none());
    assert_eq!(cfg.entries().len(), 1);
    assert_eq!(cfg.last_saved(), 1);
    assert_eq!(cur.0, 1);
}

#[test]
fn save_existing_id_rewrites_in_place() {
    let (mut cfg, mut cur) = fresh(b"saves");
    let first = cfg.save(&mut cur, &SaveGame(0), &b"one".to_vec()).unwrap();
    assert!(first.settings_changed);
    let second = cfg.save(&mut cur, &SaveGame(1), &b"two".to_vec()).unwrap();
    assert_eq!(second.slot_id, 1);
    assert!(!second.settings_changed);
    assert_eq!(cfg.entries().len(), 1);
    assert_eq!(cfg.last_saved(), 1);
    assert_eq!(cur.0, 1);
    assert_eq!(first.job.path, second.job.path);
}

#[test]
fn generated_file_names_have_the_expected_shape() {
    let (mut cfg, mut cur) = fresh(b"");
    let out = cfg.save(&mut cur, &SaveGame(0), &b"state".to_vec()).unwrap();
    let name = &cfg.entries()[0].path;
    assert_eq!(name.len(), 16);
    assert!(name[..12].iter().all(|b| b.is_ascii_alphanumeric()));
    assert_eq!(&name[12..], b".dat");
    // empty save directory: the job path is the bare file name
    assert_eq!(&out.job.path, name);
}

#[test]
fn job_path_is_resolved_under_the_save_directory() {
    let (mut cfg, mut cur) = fresh(b"saves");
    let out = cfg.save(&mut cur, &SaveGame(0), &b"state".to_vec()).unwrap();
    let name = &cfg.entries()[0].path;
    let mut expected = b"saves/".to_vec();
    expected.extend_from_slice(name);
    assert_eq!(out.job.path, expected);
    let resolved = cfg.resolve_path(1).unwrap();
    assert_eq!(resolved, expected);
    assert!(cfg.resolve_path(2).is_none());
}

#[test]
fn random_string_is_twelve_alphanumerics() {
    let token = encrypt_save::save::random_string();
    assert_eq!(token.len(), 12);
    assert!(token.iter().all(|b| b.is_ascii_alphanumeric()));
}

#[test]
fn delete_resets_current_and_conditionally_last() {
    // delete of the slot named by last_saved resets it
    let (mut cfg, mut cur) = fresh(b"saves");
    cfg.save(&mut cur, &SaveGame(0), &b"one".to_vec()).unwrap();
    cfg.save(&mut cur, &SaveGame(0), &b"two".to_vec()).unwrap();
    assert_eq!(cfg.last_saved(), 2);
    assert!(cfg.delete_target(2).is_some());
    cfg.apply_delete(&mut cur, 2, true);
    assert_eq!(cfg.entries().len(), 1);
    assert_eq!(cfg.entries()[0].id, 1);
    assert_eq!(cur.0, 0);
    assert_eq!(cfg.last_saved(), 0);

    // delete of another slot leaves last_saved alone, current still resets
    let (mut cfg, mut cur) = fresh(b"saves");
    cfg.save(&mut cur, &SaveGame(0), &b"one".to_vec()).unwrap();
    cfg.save(&mut cur, &SaveGame(0), &b"two".to_vec()).unwrap();
    cfg.apply_delete(&mut cur, 1, true);
    assert_eq!(cfg.entries().len(), 1);
    assert_eq!(cfg.entries()[0].id, 2);
    assert_eq!(cur.0, 0);
    assert_eq!(cfg.last_saved(), 2);
}

#[test]
fn failed_removal_keeps_the_entry() {
    let (mut cfg, mut cur) = fresh(b"saves");
    cfg.save(&mut cur, &SaveGame(0), &b"one".to_vec()).unwrap();
    cfg.apply_delete(&mut cur, 1, false);
    assert_eq!(cfg.entries().len(), 1);
    assert_eq!(cfg.last_saved(), 1);
    assert_eq!(cur.0, 1);
}

#[test]
fn delete_target_is_resolved_under_the_save_directory() {
    let (mut cfg, mut cur) = fresh(b"saves");
    cfg.save(&mut cur, &SaveGame(0), &b"one".to_vec()).unwrap();
    let mut expected = b"saves/".to_vec();
    expected.extend_from_slice(&cfg.entries()[0].path);
    let target = cfg.delete_target(1).unwrap();
    assert_eq!(target, expected);
    assert!(cfg.delete_target(7).is_none());
}

#[test]
fn load_moves_current_only_on_success() {
    let (mut cfg, mut cur) = fresh(b"saves");
    let out = cfg.save(&mut cur, &SaveGame(0), &b"payload".to_vec()).unwrap();
    cur.0 = 0;
    // the bytes the writer would have put on disk decode back
    let plain = cfg
        .apply_load(&mut cur, 1, Some(&out.job.contents))
        .expect("decoding what was encoded must succeed");
    assert_eq!(plain, b"payload".to_vec());
    assert_eq!(cur.0, 1);
    // a corrupt image leaves the pointer where it was
    let garbage = vec![1u8, 2, 3, 4];
    let r = cfg.apply_load(&mut cur, 1, Some(&garbage));
    assert!(r.is_err());
    assert_eq!(cur.0, 1);
}

#[test]
fn load_recent_with_no_last_save_is_a_no_op() {
    let (cfg, _cur) = fresh(b"saves");
    assert_eq!(cfg.last_saved(), 0);
    assert!(cfg.recent_slot().is_none());
}

#[test]
fn load_recent_resolves_the_last_saved_slot() {
    let (mut cfg, mut cur) = fresh(b"saves");
    cfg.save(&mut cur, &SaveGame(0), &b"one".to_vec()).unwrap();
    cfg.save(&mut cur, &SaveGame(0), &b"two".to_vec()).unwrap();
    assert_eq!(cfg.recent_slot(), Some(2));
    // a stale pointer (slot deleted) makes it a no-op again
    cfg.apply_delete(&mut cur, 2, true);
    assert!(cfg.recent_slot().is_none());
}

#[test]
fn full_lifecycle_scenario() {
    let (mut cfg, mut cur) = fresh(b"saves");
    // first save allocates slot 1
    let o1 = cfg.save(&mut cur, &SaveGame(0), &b"S1".to_vec()).unwrap();
    assert_eq!(o1.slot_id, 1);
    assert_eq!(cfg.entries().len(), 1);
    assert_eq!(cfg.last_saved(), 1);
    assert_eq!(cur.0, 1);
    // second save allocates slot 2
    let o2 = cfg.save(&mut cur, &SaveGame(0), &b"S2".to_vec()).unwrap();
    assert_eq!(o2.slot_id, 2);
    assert_eq!(cfg.entries().len(), 2);
    assert_eq!(cfg.last_saved(), 2);
    assert_eq!(cur.0, 2);
    // loading slot 1 moves current but not last_saved
    let plain = cfg.apply_load(&mut cur, 1, Some(&o1.job.contents)).unwrap();
    assert_eq!(plain, b"S1".to_vec());
    assert_eq!(cur.0, 1);
    assert_eq!(cfg.last_saved(), 2);
    // deleting slot 2 empties both pointers
    cfg.apply_delete(&mut cur, 2, true);
    assert_eq!(cfg.entries().len(), 1);
    assert_eq!(cfg.entries()[0].id, 1);
    assert_eq!(cfg.last_saved(), 0);
    assert_eq!(cur.0, 0);
}

#[test]
fn entries_are_kept_in_ascending_id_order() {
    let entries = vec![
        SlotEntry { id: 5, path: b"five.dat".to_vec() },
        SlotEntry { id: 2, path: b"two.dat".to_vec() },
        SlotEntry { id: 9, path: b"nine.dat".to_vec() },
    ];
    let cfg = SaveConfig::from_entries(entries, b"saves".to_vec(), 5).unwrap();
    let ids: Vec<u32> = cfg.entries().iter().map(|e| e.id).collect();
    assert_eq!(ids, vec![2, 5, 9]);
    assert_eq!(cfg.entries()[1].path, b"five.dat".to_vec());
    assert_eq!(cfg.last_saved(), 5);
    assert_eq!(cfg.save_dir(), &b"saves".to_vec());
}

#[test]
fn a_written_table_is_read_back_unchanged() {
    let (mut cfg, mut cur) = fresh(b"saves");
    cfg.save(&mut cur, &SaveGame(0), &b"one".to_vec()).unwrap();
    cfg.save(&mut cur, &SaveGame(0), &b"two".to_vec()).unwrap();
    let persisted: Vec<SlotEntry> = cfg
        .entries()
        .iter()
        .map(|e| SlotEntry { id: e.id, path: e.path.clone() })
        .collect();
    let reread = SaveConfig::from_entries(
        persisted,
        cfg.save_dir().clone(),
        cfg.last_saved(),
    )
    .expect("a table this library wrote must be accepted");
    assert_eq!(reread.entries().len(), cfg.entries().len());
    for (a, b) in reread.entries().iter().zip(cfg.entries().iter()) {
        assert_eq!(a.id, b.id);
        assert_eq!(a.path, b.path);
    }
    assert_eq!(reread.last_saved(), cfg.last_saved());
    assert_eq!(reread.save_dir(), cfg.save_dir());
}

#[test]
fn from_entries_rejects_invalid_tables() {
    let dup = vec![
        SlotEntry { id: 3, path: b"a.dat".to_vec() },
        SlotEntry { id: 3, path: b"b.dat".to_vec() },
    ];
    assert!(SaveConfig::from_entries(dup, Vec::new(), 0).is_none());
    let zero = vec![SlotEntry { id: 0, path: b"a.dat".to_vec() }];
    assert!(SaveConfig::from_entries(zero, Vec::new(), 0).is_none());
}
