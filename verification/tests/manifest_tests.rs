//! The manifest: change application, the stored change-set format, and
//! replay of manifest file bytes.

use badgerkv::error::Error;
use badgerkv::manifest::{
    apply_change_set, apply_manifest_change, decode_change_set, encode_change_set,
    manifest_rewrite_bytes, new_create_change, replay_manifest, Manifest, ManifestChange,
    ManifestOp,
};

#[test]
fn test_create_then_delete() {
    let mut m = Manifest::new();
    let create = new_create_change(3, 1, 0);
    apply_manifest_change(&mut m, create).unwrap();
    assert_eq!(m.tables.len(), 1);
    assert_eq!(m.tables[0].0, 3);
    assert_eq!(m.tables[0].1.level, 1);
    assert_eq!(m.creations, 1);
    assert_eq!(m.deletions, 0);
    assert!(m.levels.len() >= 2);
    assert!(m.levels[1].tables.contains(&3));

    // A second create of a live id is refused.
    let dup = apply_manifest_change(&mut m, create);
    assert_eq!(dup.unwrap_err(), Error::ManifestTableExists(3));

    let delete = ManifestChange { id: 3, op: ManifestOp::Delete, level: 0, key_id: 0 };
    apply_manifest_change(&mut m, delete).unwrap();
    assert_eq!(m.tables.len(), 0);
    assert_eq!(m.creations, 1);
    assert_eq!(m.deletions, 1);
    assert!(!m.levels[1].tables.contains(&3));

    // Deleting an absent id is refused.
    let gone = apply_manifest_change(&mut m, delete);
    assert_eq!(gone.unwrap_err(), Error::ManifestTableAbsent(3));
}

#[test]
fn test_change_set_roundtrip() {
    let changes = vec![
        new_create_change(1, 0, 0),
        new_create_change(2, 1, 7),
        ManifestChange { id: 1, op: ManifestOp::Delete, level: 0, key_id: 0 },
    ];
    let body = encode_change_set(&changes);
    let back = decode_change_set(&body).unwrap();
    assert_eq!(back.len(), 3);
    for (a, b) in changes.iter().zip(back.iter()) {
        assert_eq!(a, b);
    }
    assert!(decode_change_set(&body[..body.len() - 1]).is_none());
}

#[test]
fn test_replay_rewrite() {
    let mut m = Manifest::new();
    apply_manifest_change(&mut m, new_create_change(3, 1, 0)).unwrap();
    let bytes = manifest_rewrite_bytes(&m, 0);

    let (replayed, offset) = replay_manifest(&bytes, 0).unwrap();
    assert_eq!(offset as usize, bytes.len());
    assert_eq!(replayed.tables.len(), 1);
    assert_eq!(replayed.tables[0].0, 3);
    assert_eq!(replayed.tables[0].1.level, 1);
    assert_eq!(replayed.creations, 1);
    assert_eq!(replayed.deletions, 0);
}

#[test]
fn test_replay_truncated_tail() {
    let mut m = Manifest::new();
    apply_manifest_change(&mut m, new_create_change(3, 1, 0)).unwrap();
    let bytes = manifest_rewrite_bytes(&m, 0);
    let good_end = bytes.len();

    // Zero bytes after a complete set look like a truncated next record:
    // replay stops at the end of the last complete set.
    let mut padded = bytes.clone();
    padded.extend_from_slice(&[0u8; 7]);
    let (replayed, offset) = replay_manifest(&padded, 0).unwrap();
    assert_eq!(offset as usize, good_end);
    assert_eq!(replayed.tables.len(), 1);
    assert_eq!(replayed.tables[0].0, 3);

    // A partial record inside the set region stops replay before it too.
    let mut cut = bytes.clone();
    cut.truncate(good_end - 3);
    let (replayed2, offset2) = replay_manifest(&cut, 0).unwrap();
    assert_eq!(offset2, 8);
    assert_eq!(replayed2.tables.len(), 0);
}

#[test]
fn test_replay_header_errors() {
    let m = Manifest::new();
    let bytes = manifest_rewrite_bytes(&m, 9);

    // Wrong magic bytes.
    let mut bad_magic = bytes.clone();
    bad_magic[0] = b'X';
    assert_eq!(replay_manifest(&bad_magic, 9).unwrap_err(), Error::ManifestBadMagic);

    // External magic mismatch.
    match replay_manifest(&bytes, 4).unwrap_err() {
        Error::ManifestExtMagicMismatch(expected, got) => {
            assert_eq!(expected, 4);
            assert_eq!(got, 9);
        },
        other => panic!("unexpected error: {:?}", other),
    }

    // Unsupported format version.
    let mut bad_version = bytes.clone();
    bad_version[7] = 99;
    match replay_manifest(&bad_version, 9).unwrap_err() {
        Error::ManifestVersionUnsupport(expected, got) => {
            assert_eq!(expected, 8);
            assert_eq!(got, 99);
        },
        other => panic!("unexpected error: {:?}", other),
    }

    // A corrupted change set fails its checksum.
    let mut me = Manifest::new();
    apply_manifest_change(&mut me, new_create_change(1, 0, 0)).unwrap();
    let mut corrupt = manifest_rewrite_bytes(&me, 0);
    let last = corrupt.len() - 1;
    corrupt[last] ^= 0xff;
    assert_eq!(replay_manifest(&corrupt, 0).unwrap_err(), Error::ManifestBadChecksum);
}

#[test]
fn test_revert_to_manifest() {
    // Every table the manifest names must exist on disk; stray files are
    // returned for removal.
    let doomed =
        badgerkv::db::revert_to_manifest(&vec![1, 2], &vec![1, 2, 7, 9]).unwrap();
    assert_eq!(doomed, vec![7, 9]);

    let missing = badgerkv::db::revert_to_manifest(&vec![1, 5], &vec![1]);
    match missing.unwrap_err() {
        Error::ManifestTableAbsent(id) => assert_eq!(id, 5),
        other => panic!("unexpected error: {:?}", other),
    }
}

#[test]
fn test_as_changes_snapshot() {
    let mut m = Manifest::new();
    apply_manifest_change(&mut m, new_create_change(5, 0, 0)).unwrap();
    apply_manifest_change(&mut m, new_create_change(9, 2, 1)).unwrap();
    let changes = m.as_changes();
    assert_eq!(changes.len(), 2);
    assert_eq!(changes[0].id, 5);
    assert_eq!(changes[1].id, 9);
    assert_eq!(changes[1].level, 2);
    assert_eq!(changes[1].key_id, 1);

    // Applying the snapshot to an empty manifest reproduces the tables.
    let mut m2 = Manifest::new();
    apply_change_set(&mut m2, &changes).unwrap();
    assert_eq!(m2.tables.len(), 2);
    assert_eq!(m2.tables[0].0, 5);
    assert_eq!(m2.tables[1].0, 9);
}

#[test]
fn test_should_rewrite_manifest() {
    let mut m = badgerkv::manifest::Manifest::new();
    m.creations = 20_000;
    m.deletions = 9_000;
    assert!(!badgerkv::manifest::should_rewrite_manifest(&m, 10_000, 10));
    m.deletions = 19_000;
    // 19000 deletions > 10 * (20000 - 19000) live: rewrite pays off.
    assert!(badgerkv::manifest::should_rewrite_manifest(&m, 10_000, 10));
}
