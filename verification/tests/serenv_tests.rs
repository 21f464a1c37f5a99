use serenv::cli::{CliAction, SerenvCli, SerenvEmitCmdOptions, SerenvEmitShOptions,
    SerenvSaveOptions};
use serenv::reconcile::EnvironmentChange;
use serenv::snapshot::{EnvEntry, SavedEnvironment};
use serenv::SerenvError;

fn entry(name: &[u8], value: &[u8]) -> EnvEntry {
    EnvEntry { name: name.to_vec(), value: value.to_vec() }
}

fn snapshot(vars: &[(&[u8], &[u8])]) -> SavedEnvironment {
    let mut list = Vec::new();
    for (name, value) in vars {
        list.push(entry(name, value));
    }
    SavedEnvironment::from_env(list)
}

fn assert_unset(change: &EnvironmentChange, name: &[u8]) {
    match change {
        EnvironmentChange::Unset(n) => assert_eq!(n.as_slice(), name),
        EnvironmentChange::Assign(_, _) => panic!("expected Unset, got Assign"),
    }
}

fn assert_assign(change: &EnvironmentChange, name: &[u8], value: &[u8]) {
    match change {
        EnvironmentChange::Assign(n, v) => {
            assert_eq!(n.as_slice(), name);
            assert_eq!(v.as_slice(), value);
        }
        EnvironmentChange::Unset(_) => panic!("expected Assign, got Unset"),
    }
}

fn change_name(change: &EnvironmentChange) -> Vec<u8> {
    match change {
        EnvironmentChange::Unset(n) => n.clone(),
        EnvironmentChange::Assign(n, _) => n.clone(),
    }
}

#[test]
fn lookup_finds_saved_values() {
    let snap = snapshot(&[(b"PATH", b"/usr/bin"), (b"HOME", b"/root")]);
    assert_eq!(snap.len(), 2);
    assert_eq!(snap.get(&b"PATH".to_vec()).unwrap().as_slice(), b"/usr/bin");
    assert_eq!(snap.get(&b"HOME".to_vec()).unwrap().as_slice(), b"/root");
    assert!(snap.get(&b"SHELL".to_vec()).is_none());
}

#[test]
fn later_duplicate_overrides_earlier() {
    let snap = SavedEnvironment::from_env(vec![entry(b"A", b"1"), entry(b"A", b"2")]);
    assert_eq!(snap.len(), 1);
    assert_eq!(snap.get(&b"A".to_vec()).unwrap().as_slice(), b"2");
}

#[test]
fn insert_entry_replaces_binding() {
    let mut snap = snapshot(&[(b"A", b"1")]);
    snap.insert_entry(b"A".to_vec(), b"9".to_vec());
    assert_eq!(snap.len(), 1);
    assert_eq!(snap.get(&b"A".to_vec()).unwrap().as_slice(), b"9");
}

#[test]
fn round_trip_preserves_snapshot() {
    let snap = snapshot(&[(b"A", b"1"), (b"B", b""), (b"WEIRD", b"a b'c\"d\ne")]);
    let bytes = snap.encode();
    let back = SavedEnvironment::decode(&bytes).unwrap();
    assert_eq!(back.len(), 3);
    assert_eq!(back.get(&b"A".to_vec()).unwrap().as_slice(), b"1");
    assert_eq!(back.get(&b"B".to_vec()).unwrap().as_slice(), b"");
    assert_eq!(back.get(&b"WEIRD".to_vec()).unwrap().as_slice(), b"a b'c\"d\ne");
}

#[test]
fn round_trip_preserves_non_utf8_bytes() {
    let snap = snapshot(&[(b"\xff\xfe", b"\x00\x01\xff")]);
    let bytes = snap.encode();
    let back = SavedEnvironment::decode(&bytes).unwrap();
    assert_eq!(back.get(&b"\xff\xfe".to_vec()).unwrap().as_slice(), b"\x00\x01\xff");
}

#[test]
fn round_trip_of_empty_snapshot() {
    let snap = snapshot(&[]);
    let bytes = snap.encode();
    assert_eq!(bytes, vec![0u8; 8]);
    let back = SavedEnvironment::decode(&bytes).unwrap();
    assert_eq!(back.len(), 0);
}

#[test]
fn encoding_bytes_are_exact() {
    let snap = snapshot(&[(b"A", b"1")]);
    let bytes = snap.encode();
    let mut expected: Vec<u8> = Vec::new();
    expected.extend_from_slice(&1u64.to_le_bytes());
    expected.extend_from_slice(&1u64.to_le_bytes());
    expected.push(b'A');
    expected.extend_from_slice(&1u64.to_le_bytes());
    expected.push(b'1');
    assert_eq!(bytes, expected);
}

#[test]
fn decode_rejects_short_input() {
    assert_eq!(SavedEnvironment::decode(&vec![1, 2, 3]).unwrap_err(), SerenvError::DecodingError);
}

#[test]
fn decode_rejects_missing_entries() {
    let mut bytes = Vec::new();
    bytes.extend_from_slice(&2u64.to_le_bytes());
    bytes.extend_from_slice(&1u64.to_le_bytes());
    bytes.push(b'A');
    bytes.extend_from_slice(&1u64.to_le_bytes());
    bytes.push(b'1');
    assert_eq!(SavedEnvironment::decode(&bytes).unwrap_err(), SerenvError::DecodingError);
}

#[test]
fn decode_rejects_trailing_bytes() {
    let mut bytes = snapshot(&[(b"A", b"1")]).encode();
    bytes.push(0);
    assert_eq!(SavedEnvironment::decode(&bytes).unwrap_err(), SerenvError::DecodingError);
}

#[test]
fn decode_rejects_unsorted_entries() {
    let mut bytes = Vec::new();
    bytes.extend_from_slice(&2u64.to_le_bytes());
    for name in [b"B", b"A"] {
        bytes.extend_from_slice(&1u64.to_le_bytes());
        bytes.extend_from_slice(name);
        bytes.extend_from_slice(&1u64.to_le_bytes());
        bytes.push(b'1');
    }
    assert_eq!(SavedEnvironment::decode(&bytes).unwrap_err(), SerenvError::DecodingError);
}

#[test]
fn decode_rejects_duplicate_names() {
    let mut bytes = Vec::new();
    bytes.extend_from_slice(&2u64.to_le_bytes());
    for _ in 0..2 {
        bytes.extend_from_slice(&1u64.to_le_bytes());
        bytes.push(b'A');
        bytes.extend_from_slice(&1u64.to_le_bytes());
        bytes.push(b'1');
    }
    assert_eq!(SavedEnvironment::decode(&bytes).unwrap_err(), SerenvError::DecodingError);
}

#[test]
fn decode_rejects_oversized_length() {
    let mut bytes = Vec::new();
    bytes.extend_from_slice(&1u64.to_le_bytes());
    bytes.extend_from_slice(&u64::MAX.to_le_bytes());
    bytes.push(b'A');
    assert_eq!(SavedEnvironment::decode(&bytes).unwrap_err(), SerenvError::DecodingError);
}

#[test]
fn reconcile_mixed_scenario() {
    // saved = {A:1, B:x}; live = {A:1, C:y}: A is a no-op, C must go,
    // B must come back.
    let saved = snapshot(&[(b"A", b"1"), (b"B", b"x")]);
    let live = snapshot(&[(b"A", b"1"), (b"C", b"y")]);
    let changes = saved.changes(&live);
    assert_eq!(changes.len(), 2);
    assert_unset(&changes[0], b"C");
    assert_assign(&changes[1], b"B", b"x");
}

#[test]
fn reconcile_extra_live_variable() {
    // saved = {}; live = {A:1}: the one live variable is unset.
    let saved = snapshot(&[]);
    let live = snapshot(&[(b"A", b"1")]);
    let changes = saved.changes(&live);
    assert_eq!(changes.len(), 1);
    assert_unset(&changes[0], b"A");
}

#[test]
fn reconcile_missing_empty_valued_variable() {
    // saved = {A:""}; live = {}: A is re-established with its empty value.
    let saved = snapshot(&[(b"A", b"")]);
    let live = snapshot(&[]);
    let changes = saved.changes(&live);
    assert_eq!(changes.len(), 1);
    assert_assign(&changes[0], b"A", b"");
}

#[test]
fn reconcile_equal_environments_is_noop() {
    let saved = snapshot(&[(b"A", b"1"), (b"B", b"2")]);
    let live = snapshot(&[(b"B", b"2"), (b"A", b"1")]);
    assert_eq!(saved.changes(&live).len(), 0);
}

#[test]
fn reconcile_empty_snapshot_unsets_everything() {
    let saved = snapshot(&[]);
    let live = snapshot(&[(b"A", b"1"), (b"B", b"2"), (b"C", b"3")]);
    let changes = saved.changes(&live);
    assert_eq!(changes.len(), 3);
    assert_unset(&changes[0], b"A");
    assert_unset(&changes[1], b"B");
    assert_unset(&changes[2], b"C");
}

#[test]
fn reconcile_covers_each_discrepancy_once() {
    let saved = snapshot(&[(b"A", b"1"), (b"B", b"2"), (b"C", b"3")]);
    let live = snapshot(&[(b"A", b"1"), (b"B", b"9"), (b"D", b"4")]);
    let changes = saved.changes(&live);
    // Discrepancies: B differs, C is missing live, D is extra live.
    let mut names: Vec<Vec<u8>> = changes.iter().map(change_name).collect();
    names.sort();
    assert_eq!(names, vec![b"B".to_vec(), b"C".to_vec(), b"D".to_vec()]);
    let mut deduped = names.clone();
    deduped.dedup();
    assert_eq!(names, deduped);
}

#[test]
fn reconcile_then_apply_then_reconcile_is_empty() {
    let saved = snapshot(&[(b"A", b"1"), (b"B", b"2")]);
    let live = snapshot(&[(b"A", b"3"), (b"C", b"4")]);
    let changes = saved.changes(&live);
    // Apply the changes to the live environment by hand.
    let mut restored = snapshot(&[(b"A", b"3"), (b"C", b"4")]);
    for change in &changes {
        match change {
            EnvironmentChange::Unset(name) => {
                let mut kept = Vec::new();
                for i in 0..restored.entries.len() {
                    if restored.entries[i].name != *name {
                        let e = &restored.entries[i];
                        kept.push(entry(&e.name, &e.value));
                    }
                }
                restored = SavedEnvironment::from_env(kept);
            }
            EnvironmentChange::Assign(name, value) => {
                restored.insert_entry(name.clone(), value.clone());
            }
        }
    }
    assert_eq!(saved.changes(&restored).len(), 0);
    assert_eq!(restored.get(&b"A".to_vec()).unwrap().as_slice(), b"1");
    assert_eq!(restored.get(&b"B".to_vec()).unwrap().as_slice(), b"2");
    assert!(restored.get(&b"C".to_vec()).is_none());
}

#[test]
fn sh_rendering_of_mixed_scenario() {
    let saved = snapshot(&[(b"A", b"1"), (b"B", b"x")]);
    let live = snapshot(&[(b"A", b"1"), (b"C", b"y")]);
    let changes = saved.changes(&live);
    let lines = serenv::render::render_sh_script(&changes);
    assert_eq!(lines, vec!["unset C;".to_string(), "export B=x;".to_string()]);
}

#[test]
fn sh_rendering_escapes_empty_value() {
    let changes = vec![EnvironmentChange::Assign(b"A".to_vec(), b"".to_vec())];
    let lines = serenv::render::render_sh_script(&changes);
    assert_eq!(lines, vec!["export A='';".to_string()]);
}

#[test]
fn sh_rendering_quotes_metacharacters() {
    let changes = vec![EnvironmentChange::Assign(b"A".to_vec(), b"two words".to_vec())];
    let lines = serenv::render::render_sh_script(&changes);
    assert_eq!(lines, vec!["export A='two words';".to_string()]);
}

#[test]
fn sh_rendering_replaces_invalid_utf8() {
    let changes = vec![EnvironmentChange::Unset(vec![0xff])];
    let lines = serenv::render::render_sh_script(&changes);
    assert_eq!(lines, vec!["unset '\u{fffd}';".to_string()]);
}

#[test]
fn cmd_rendering_of_mixed_scenario() {
    let saved = snapshot(&[(b"A", b"1"), (b"B", b"x")]);
    let live = snapshot(&[(b"A", b"1"), (b"C", b"y")]);
    let changes = saved.changes(&live);
    let lines = serenv::render::render_cmd_script(&changes);
    assert_eq!(lines, vec!["set C=".to_string(), "set B=x".to_string()]);
}

#[test]
fn cmd_rendering_escapes_empty_value() {
    let changes = vec![EnvironmentChange::Assign(b"A".to_vec(), b"".to_vec())];
    let lines = serenv::render::render_cmd_script(&changes);
    assert_eq!(lines, vec!["set A=".to_string()]);
}

#[test]
fn cmd_rendering_quotes_spaces() {
    let changes = vec![EnvironmentChange::Unset(b"".to_vec())];
    let lines = serenv::render::render_cmd_script(&changes);
    assert_eq!(lines, vec!["set \"\"=".to_string()]);
}

#[test]
fn save_command_writes_the_artifact() {
    let live = vec![entry(b"A", b"1"), entry(b"B", b"2")];
    let command = SerenvCli::Save(SerenvSaveOptions {});
    match command.cli(None, live).unwrap() {
        CliAction::WriteArtifact(bytes) => {
            let expected = snapshot(&[(b"A", b"1"), (b"B", b"2")]).encode();
            assert_eq!(bytes, expected);
        }
        CliAction::PrintLines(_) => panic!("save must write the artifact"),
    }
}

#[test]
fn emit_without_artifact_reports_not_found() {
    let command = SerenvCli::EmitSh(SerenvEmitShOptions {});
    assert_eq!(command.cli(None, Vec::new()).unwrap_err(), SerenvError::NotFound);
}

#[test]
fn emit_with_corrupt_artifact_reports_decoding_error() {
    let bytes = vec![9, 9, 9];
    let command = SerenvCli::EmitCmd(SerenvEmitCmdOptions {});
    assert_eq!(command.cli(Some(&bytes), Vec::new()).unwrap_err(), SerenvError::DecodingError);
}

#[test]
fn saved_then_emitted_unchanged_environment_prints_nothing() {
    let live = vec![entry(b"A", b"1"), entry(b"B", b"2")];
    let save = SerenvCli::Save(SerenvSaveOptions {});
    let artifact = match save.cli(None, live.clone()).unwrap() {
        CliAction::WriteArtifact(bytes) => bytes,
        CliAction::PrintLines(_) => panic!("save must write the artifact"),
    };
    let emit = SerenvCli::EmitSh(SerenvEmitShOptions {});
    match emit.cli(Some(&artifact), live).unwrap() {
        CliAction::PrintLines(lines) => assert_eq!(lines.len(), 0),
        CliAction::WriteArtifact(_) => panic!("emit must print"),
    }
}

#[test]
fn emit_sh_renders_restoration_script() {
    let saved_vars = vec![entry(b"A", b"1"), entry(b"B", b"x")];
    let save = SerenvCli::Save(SerenvSaveOptions {});
    let artifact = match save.cli(None, saved_vars).unwrap() {
        CliAction::WriteArtifact(bytes) => bytes,
        CliAction::PrintLines(_) => panic!("save must write the artifact"),
    };
    let live = vec![entry(b"A", b"1"), entry(b"C", b"y")];
    let emit = SerenvCli::EmitSh(SerenvEmitShOptions {});
    match emit.cli(Some(&artifact), live).unwrap() {
        CliAction::PrintLines(lines) => {
            assert_eq!(lines, vec!["unset C;".to_string(), "export B=x;".to_string()]);
        }
        CliAction::WriteArtifact(_) => panic!("emit must print"),
    }
}
