use wallet_policy::codec::{parse_descriptor, to_descriptor_string};
use wallet_policy::editor::{DefineDescriptor, DescriptorTemplate};
use wallet_policy::import::ImportDescriptor;
use wallet_policy::keys::{DeviceKind, Key, KeyRegistry, KeySource};
use wallet_policy::path::{Path, PathKind, PathSequence, PathWarning};
use wallet_policy::policy::{build, DerivedKey, KeySet, PolicyError};
use wallet_policy::register::{policy_eq, RegisterDescriptor, RegistrationError};
use wallet_policy::types::Network;
use wallet_policy::warnings::compute_warnings;

fn key(fp: u32, name: &str, source: KeySource) -> Key {
    Key {
        fingerprint: fp,
        name: name.to_string(),
        xpub: format!("xpub{fp}"),
        source,
        account: None,
    }
}

fn filled_path(seq: PathSequence, fps: &[u32], threshold: usize) -> Path {
    let mut p = Path::new_path(seq).with_n_keys(fps.len()).with_threshold(threshold);
    for (j, fp) in fps.iter().enumerate() {
        p.set_slot(j, Some(*fp));
    }
    p
}

fn simple_registry() -> KeyRegistry {
    let mut reg = KeyRegistry::new();
    reg.insert_or_replace(key(1, "hot key", KeySource::HotSigner));
    reg.insert_or_replace(key(2, "imported key", KeySource::ImportedXpub));
    reg.insert_or_replace(key(3, "device key", KeySource::HardwareDevice(DeviceKind::Specter)));
    reg.insert_or_replace(key(4, "cosigner", KeySource::CosignerToken));
    reg
}

#[test]
fn registry_insert_get_rename() {
    let mut reg = KeyRegistry::new();
    reg.insert_or_replace(key(7, "first", KeySource::HotSigner));
    assert_eq!(reg.get(7).unwrap().name, "first");
    assert!(reg.get(8).is_none());
    reg.rename(7, "renamed".to_string());
    let k = reg.get(7).unwrap();
    assert_eq!(k.name, "renamed");
    assert_eq!(k.source, KeySource::HotSigner);
    reg.insert_or_replace(key(7, "replaced", KeySource::ImportedXpub));
    assert_eq!(reg.get(7).unwrap().name, "replaced");
    assert_eq!(reg.keys.len(), 1);
}

#[test]
fn build_assigns_derivation_indices_per_fingerprint() {
    // Primary: 1-of-1 hot key; one recovery path with time-lock 1000 and a
    // 1-of-1 imported key. Distinct fingerprints both derive at index 0.
    let reg = simple_registry();
    let paths = vec![
        filled_path(PathSequence::Primary, &[1], 1),
        filled_path(PathSequence::Recovery(1000), &[2], 1),
    ];
    let out = build(&paths, &reg, false, Network::Bitcoin).unwrap();
    match &out.policy.primary {
        KeySet::Single(k) => assert_eq!(*k, DerivedKey { fingerprint: 1, index: 0 }),
        _ => panic!("primary should be a single key"),
    }
    assert_eq!(out.policy.recovery.len(), 1);
    assert_eq!(out.policy.recovery[0].0, 1000);
    match &out.policy.recovery[0].1 {
        KeySet::Single(k) => assert_eq!(*k, DerivedKey { fingerprint: 2, index: 0 }),
        _ => panic!("recovery should be a single key"),
    }
    assert!(!out.hw_is_used);

    // The same fingerprint in both paths: the second use derives at index 1.
    let paths = vec![
        filled_path(PathSequence::Primary, &[1], 1),
        filled_path(PathSequence::Recovery(1000), &[1], 1),
    ];
    let out = build(&paths, &reg, false, Network::Bitcoin).unwrap();
    match &out.policy.primary {
        KeySet::Single(k) => assert_eq!(*k, DerivedKey { fingerprint: 1, index: 0 }),
        _ => panic!("primary should be a single key"),
    }
    match &out.policy.recovery[0].1 {
        KeySet::Single(k) => assert_eq!(*k, DerivedKey { fingerprint: 1, index: 1 }),
        _ => panic!("recovery should be a single key"),
    }
    assert_eq!(out.key_names.len(), 1);
    assert_eq!(out.key_names[0], (1, "hot key".to_string()));
}

#[test]
fn build_orders_recovery_paths_by_timelock() {
    let reg = simple_registry();
    let paths = vec![
        filled_path(PathSequence::Primary, &[1], 1),
        filled_path(PathSequence::Recovery(5000), &[2], 1),
        filled_path(PathSequence::Recovery(100), &[3], 1),
    ];
    let out = build(&paths, &reg, false, Network::Bitcoin).unwrap();
    assert_eq!(out.policy.recovery.len(), 2);
    assert_eq!(out.policy.recovery[0].0, 100);
    assert_eq!(out.policy.recovery[1].0, 5000);
    // A device-held key is noticed for the later registration step.
    assert!(out.hw_is_used);
}

#[test]
fn build_errors_are_reported_precisely() {
    let reg = simple_registry();
    let one = vec![filled_path(PathSequence::Primary, &[1], 1)];
    assert_eq!(build(&one, &reg, false, Network::Bitcoin).unwrap_err(), PolicyError::InsufficientPaths);

    let unfilled_primary = vec![
        Path::new_primary_path(),
        filled_path(PathSequence::Recovery(1000), &[2], 1),
    ];
    assert_eq!(
        build(&unfilled_primary, &reg, false, Network::Bitcoin).unwrap_err(),
        PolicyError::EmptyPrimaryPath
    );

    let unfilled_recovery = vec![
        filled_path(PathSequence::Primary, &[1], 1),
        Path::new_recovery_path(),
    ];
    assert_eq!(
        build(&unfilled_recovery, &reg, false, Network::Bitcoin).unwrap_err(),
        PolicyError::IncompletePath
    );

    let unknown = vec![
        filled_path(PathSequence::Primary, &[1], 1),
        filled_path(PathSequence::Recovery(1000), &[99], 1),
    ];
    assert_eq!(build(&unknown, &reg, false, Network::Bitcoin).unwrap_err(), PolicyError::UnknownKey);
}

#[test]
fn taproot_validity_depends_on_key_support() {
    // The Specter key does not support taproot, so the primary path is
    // refused under the alternate output type but accepted without it.
    let reg = simple_registry();
    let paths = vec![
        filled_path(PathSequence::Primary, &[3], 1),
        filled_path(PathSequence::Recovery(1000), &[2], 1),
    ];
    assert!(build(&paths, &reg, false, Network::Bitcoin).is_ok());
    assert_eq!(
        build(&paths, &reg, true, Network::Bitcoin).unwrap_err(),
        PolicyError::EmptyPrimaryPath
    );
}

#[test]
fn duplicate_timelocks_flag_every_sharing_path() {
    let reg = simple_registry();
    let paths = vec![
        filled_path(PathSequence::Primary, &[1], 1),
        filled_path(PathSequence::Recovery(1000), &[2], 1),
        filled_path(PathSequence::Recovery(1000), &[3], 1),
        filled_path(PathSequence::Recovery(2000), &[2], 1),
    ];
    let w = compute_warnings(&paths, &reg);
    assert_eq!(w[0], None);
    assert_eq!(w[1], Some(PathWarning::DuplicateSequence));
    assert_eq!(w[2], Some(PathWarning::DuplicateSequence));
    assert_eq!(w[3], None);
}

#[test]
fn warnings_are_deterministic_and_ranked() {
    let reg = simple_registry();
    // All slots held by the co-signing server.
    let cosigner_only = vec![
        filled_path(PathSequence::Primary, &[4], 1),
        filled_path(PathSequence::Recovery(1000), &[4, 4], 2),
    ];
    let w = compute_warnings(&cosigner_only, &reg);
    assert_eq!(w[0], Some(PathWarning::OnlyCosignerKeys));
    assert_eq!(w[1], Some(PathWarning::OnlyCosignerKeys));
    let w2 = compute_warnings(&cosigner_only, &reg);
    assert_eq!(w, w2);

    // A cosigner key inside the safety-net path is a disallowed source,
    // unless the path is all cosigner keys, which ranks first.
    let safety_net_mixed = vec![
        filled_path(PathSequence::Primary, &[1], 1),
        filled_path(PathSequence::SafetyNet, &[4, 2], 1),
    ];
    let w = compute_warnings(&safety_net_mixed, &reg);
    assert_eq!(w[1], Some(PathWarning::KeySourceKindDisallowed));

    // A duplicate time-lock outranks the per-path checks.
    let dup_and_cosigner = vec![
        filled_path(PathSequence::Primary, &[1], 1),
        filled_path(PathSequence::Recovery(1000), &[4], 1),
        filled_path(PathSequence::Recovery(1000), &[2], 1),
    ];
    let w = compute_warnings(&dup_and_cosigner, &reg);
    assert_eq!(w[1], Some(PathWarning::DuplicateSequence));
    assert_eq!(w[2], Some(PathWarning::DuplicateSequence));
}

#[test]
fn editor_hotkey_flow_builds_policy() {
    let mut ed = DefineDescriptor::new(Network::Signet);
    ed.load_template(DescriptorTemplate::SimpleInheritance);
    assert_eq!(ed.paths.len(), 2);
    // Fill the primary slot with a fresh hot-signer key.
    ed.keys_edited_new(&vec![(0, 0)], key(10, "hot_signer_key", KeySource::HotSigner));
    // Set the recovery time-lock.
    ed.sequence_edited(1, 1000);
    assert_eq!(ed.paths[1].sequence, PathSequence::Recovery(1000));
    // Fill the recovery slot with an imported key.
    ed.keys_edited_new(&vec![(1, 0)], key(11, "External recovery key", KeySource::ImportedXpub));
    assert!(ed.valid());
    let out = ed.apply().expect("the configuration is complete");
    assert_eq!(out.policy.recovery[0].0, 1000);
    assert!(!out.hw_is_used);
    assert!(ed.error.is_none());
}

#[test]
fn editor_tracks_hw_usage() {
    let mut ed = DefineDescriptor::new(Network::Testnet);
    ed.load_template(DescriptorTemplate::SimpleInheritance);
    // A device key in the primary path.
    ed.keys_edited_new(
        &vec![(0, 0)],
        key(20, "My Specter key", KeySource::HardwareDevice(DeviceKind::Specter)),
    );
    ed.keys_edited_new(&vec![(1, 0)], key(21, "External recovery key", KeySource::ImportedXpub));
    assert!(ed.apply().unwrap().hw_is_used);

    // Replacing the primary key with a hot signer key drops the flag.
    ed.keys_edited_new(&vec![(0, 0)], key(22, "hot signer key", KeySource::HotSigner));
    // The path already references key 20, so key 22 took its slot only if
    // the slot did not already hold it; the editor replaces the slot.
    assert!(ed.keys.get(22).is_some());
    let out = ed.apply().unwrap();
    assert!(!out.hw_is_used);

    // A device key in the recovery path raises it again.
    ed.keys_edited_new(
        &vec![(1, 0)],
        key(23, "specter again", KeySource::HardwareDevice(DeviceKind::Specter)),
    );
    assert!(ed.apply().unwrap().hw_is_used);
}

#[test]
fn deleting_last_slot_prunes_non_primary_path_only() {
    let mut ed = DefineDescriptor::new(Network::Bitcoin);
    ed.load_template(DescriptorTemplate::SimpleInheritance);
    assert_eq!(ed.paths.len(), 2);
    // Removing the recovery path's only slot removes the whole path.
    ed.delete_key(1, 0);
    assert_eq!(ed.paths.len(), 1);
    assert_eq!(ed.paths[0].kind(), PathKind::Primary);
    // The primary path is never pruned: its slot list just shrinks.
    ed.add_key(0);
    assert_eq!(ed.paths[0].slots.len(), 2);
    ed.delete_key(0, 1);
    ed.delete_key(0, 0);
    assert_eq!(ed.paths.len(), 1);
    assert_eq!(ed.paths[0].slots.len(), 0);
}

#[test]
fn removing_slot_clamps_threshold() {
    let mut p = Path::new_primary_path().with_n_keys(3).with_threshold(3);
    p.remove_slot(2);
    assert_eq!(p.threshold, 2);
    assert_eq!(p.slots.len(), 2);
    let mut q = Path::new_primary_path().with_n_keys(3).with_threshold(1);
    q.remove_slot(0);
    assert_eq!(q.threshold, 1);
}

#[test]
fn editor_add_paths_and_safety_net_once() {
    let mut ed = DefineDescriptor::new(Network::Bitcoin);
    ed.load_template(DescriptorTemplate::Custom);
    ed.add_recovery_path();
    assert_eq!(ed.paths.len(), 3);
    ed.add_safety_net_path();
    assert_eq!(ed.paths.len(), 4);
    ed.add_safety_net_path();
    assert_eq!(ed.paths.len(), 4);
}

#[test]
fn descriptor_text_round_trip() {
    let reg = simple_registry();
    let paths = vec![
        filled_path(PathSequence::Primary, &[1, 2], 2),
        filled_path(PathSequence::Recovery(144), &[2, 3, 4], 2),
        filled_path(PathSequence::SafetyNet, &[3], 1),
    ];
    let out = build(&paths, &reg, true, Network::Testnet).unwrap();
    let text = to_descriptor_string(&out.policy);
    let parsed = parse_descriptor(&text).expect("own text form parses");
    assert!(policy_eq(&out.policy, &parsed));
}

#[test]
fn descriptor_parse_rejects_garbage() {
    assert!(parse_descriptor("").is_none());
    assert!(parse_descriptor("not a descriptor").is_none());
    assert!(parse_descriptor("1 2 3").is_none());
    assert!(parse_descriptor("0 0 0 1 0 0").is_some());
    assert!(parse_descriptor("0 0 0 1 0 1 10 0 2 0").is_some());
    // Trailing content is refused.
    assert!(parse_descriptor("0 0 0 1 0 0 7").is_none());
}

#[test]
fn import_checks_network() {
    let reg = simple_registry();
    let paths = vec![
        filled_path(PathSequence::Primary, &[1], 1),
        filled_path(PathSequence::Recovery(1000), &[2], 1),
    ];
    let out = build(&paths, &reg, false, Network::Signet).unwrap();
    let text = to_descriptor_string(&out.policy);

    // Any test network accepts a descriptor of another test network.
    let mut imp = ImportDescriptor::new(Network::Testnet);
    imp.update(text.clone());
    assert!(imp.imported_descriptor.valid);
    assert!(!imp.wrong_network);
    assert!(imp.apply().is_some());

    // The main network refuses it, and says it is the network.
    let mut imp = ImportDescriptor::new(Network::Bitcoin);
    imp.update(text);
    assert!(!imp.imported_descriptor.valid);
    assert!(imp.wrong_network);
    assert!(imp.apply().is_none());

    // Garbage is invalid, but not for the network's sake.
    let mut imp = ImportDescriptor::new(Network::Bitcoin);
    imp.update("garbage".to_string());
    assert!(!imp.imported_descriptor.valid);
    assert!(!imp.wrong_network);

    // A blank entry shows no error.
    let mut imp = ImportDescriptor::new(Network::Bitcoin);
    imp.update(String::new());
    assert!(imp.imported_descriptor.valid);
}

#[test]
fn registration_bookkeeping_and_stale_guard() {
    let reg = simple_registry();
    let paths = vec![
        filled_path(PathSequence::Primary, &[1], 1),
        filled_path(PathSequence::Recovery(1000), &[2], 1),
    ];
    let a = build(&paths, &reg, false, Network::Bitcoin).unwrap().policy;
    let other_paths = vec![
        filled_path(PathSequence::Primary, &[1], 1),
        filled_path(PathSequence::Recovery(2000), &[2], 1),
    ];
    let b = build(&other_paths, &reg, false, Network::Bitcoin).unwrap().policy;
    assert!(!policy_eq(&a, &b));

    let mut st = RegisterDescriptor::new_create_wallet();
    st.load_context(Some(&a));
    assert!(st.start_registration(0, 77));
    // While one attempt runs, no second one starts.
    assert!(!st.start_registration(1, 78));
    st.registration_result(77, DeviceKind::Ledger, Ok(Some(vec![1u8; 32])));
    assert_eq!(st.registered, vec![77]);
    assert_eq!(st.hmacs.len(), 1);
    // An already registered key is not registered again.
    assert!(!st.start_registration(0, 77));
    // A user refusal is silent; a failure is surfaced.
    assert!(st.start_registration(1, 78));
    st.registration_result(78, DeviceKind::Jade, Err(RegistrationError::UserRefused));
    assert!(st.error.is_none());
    assert!(st.start_registration(1, 78));
    st.registration_result(78, DeviceKind::Jade, Err(RegistrationError::Failed("fault".to_string())));
    assert_eq!(st.error.as_deref(), Some("fault"));

    // Loading the same descriptor keeps the registrations ...
    st.load_context(Some(&a));
    assert_eq!(st.registered, vec![77]);
    // ... and a changed one discards them, so stale results cannot count.
    st.load_context(Some(&b));
    assert!(st.registered.is_empty());
    assert!(!st.done);

    let mut out = Vec::new();
    st.apply(&mut out);
    assert_eq!(out.len(), 1);
    assert_eq!(out[0].0, DeviceKind::Ledger);
    assert_eq!(out[0].1, 77);
}

#[test]
fn key_coordinates_and_path_keys() {
    let mut ed = DefineDescriptor::new(Network::Bitcoin);
    ed.load_template(DescriptorTemplate::SimpleInheritance);
    ed.add_key(0);
    // Key 30 fills one slot of each path; key 31 one slot of the primary.
    ed.keys_edited_new(&vec![(0, 0), (1, 0)], key(30, "everywhere", KeySource::ImportedXpub));
    ed.keys_edited_new(&vec![(0, 1)], key(31, "primary only", KeySource::HotSigner));
    let coords = ed.key_coordinates();
    assert_eq!(coords.len(), 2);
    assert_eq!(coords[0].0, 30);
    assert_eq!(coords[0].1, vec![(0, 0), (1, 0)]);
    assert_eq!(coords[1].0, 31);
    assert_eq!(coords[1].1, vec![(0, 1)]);
    assert_eq!(ed.path_keys(&vec![0]), vec![30, 31]);
    assert_eq!(ed.path_keys(&vec![0, 1]), vec![30, 31, 30]);
    assert_eq!(ed.path_keys(&vec![1]), vec![30]);
}

#[test]
fn one_key_fills_at_most_one_slot_per_path() {
    let mut ed = DefineDescriptor::new(Network::Bitcoin);
    ed.load_template(DescriptorTemplate::SimpleInheritance);
    ed.add_key(0);
    // Both coordinates belong to the primary path: only the first is
    // written, a path never references the same key twice.
    ed.keys_edited_new(&vec![(0, 0), (0, 1)], key(40, "dup", KeySource::ImportedXpub));
    assert_eq!(ed.paths[0].slots[0], Some(40));
    assert_eq!(ed.paths[0].slots[1], None);
}

#[test]
fn duplicate_timelocks_are_built_last_wins() {
    // Shared time-locks are only warned about, never rejected: the table
    // keeps one entry per time-lock and the later path wins it.
    let reg = simple_registry();
    let paths = vec![
        filled_path(PathSequence::Primary, &[1], 1),
        filled_path(PathSequence::Recovery(1000), &[2], 1),
        filled_path(PathSequence::Recovery(1000), &[3], 1),
    ];
    let out = build(&paths, &reg, false, Network::Bitcoin).unwrap();
    assert_eq!(out.policy.recovery.len(), 1);
    assert_eq!(out.policy.recovery[0].0, 1000);
    match &out.policy.recovery[0].1 {
        KeySet::Single(k) => assert_eq!(*k, DerivedKey { fingerprint: 3, index: 0 }),
        _ => panic!("one key per path here"),
    }
}

#[test]
fn multi_keysets_keep_threshold_and_order() {
    let reg = simple_registry();
    let paths = vec![
        filled_path(PathSequence::Primary, &[1, 2], 2),
        filled_path(PathSequence::Recovery(300), &[2, 3, 4], 2),
    ];
    let out = build(&paths, &reg, false, Network::Bitcoin).unwrap();
    match &out.policy.primary {
        KeySet::Multi(t, ks) => {
            assert_eq!(*t, 2);
            assert_eq!(
                ks.as_slice(),
                &[
                    DerivedKey { fingerprint: 1, index: 0 },
                    DerivedKey { fingerprint: 2, index: 0 },
                ]
            );
        }
        _ => panic!("primary should be a threshold set"),
    }
    match &out.policy.recovery[0].1 {
        KeySet::Multi(t, ks) => {
            assert_eq!(*t, 2);
            // Key 2 already appeared in the primary path, so its second
            // use derives at index one.
            assert_eq!(
                ks.as_slice(),
                &[
                    DerivedKey { fingerprint: 2, index: 1 },
                    DerivedKey { fingerprint: 3, index: 0 },
                    DerivedKey { fingerprint: 4, index: 0 },
                ]
            );
        }
        _ => panic!("recovery should be a threshold set"),
    }
    // Every distinct key once, in first-use order, with its alias.
    assert_eq!(
        out.key_names,
        vec![
            (1, "hot key".to_string()),
            (2, "imported key".to_string()),
            (3, "device key".to_string()),
            (4, "cosigner".to_string()),
        ]
    );
}

#[test]
fn cosigner_warning_counts_filled_slots_only() {
    let reg = simple_registry();
    // One cosigner key and one still-empty slot: every filled slot is a
    // server key, so the warning applies.
    let mut partly = Path::new_path(PathSequence::Recovery(1000)).with_n_keys(2);
    partly.set_slot(0, Some(4));
    let paths = vec![filled_path(PathSequence::Primary, &[1], 1), partly];
    let w = compute_warnings(&paths, &reg);
    assert_eq!(w[1], Some(PathWarning::OnlyCosignerKeys));

    // No filled slot at all: nothing to warn about.
    let empty = Path::new_path(PathSequence::Recovery(1000)).with_n_keys(2);
    let paths = vec![filled_path(PathSequence::Primary, &[1], 1), empty];
    let w = compute_warnings(&paths, &reg);
    assert_eq!(w[1], None);

    // A non-cosigner key among the filled slots lifts the warning.
    let mut mixed = Path::new_path(PathSequence::Recovery(1000)).with_n_keys(3);
    mixed.set_slot(0, Some(4));
    mixed.set_slot(2, Some(2));
    let paths = vec![filled_path(PathSequence::Primary, &[1], 1), mixed];
    let w = compute_warnings(&paths, &reg);
    assert_eq!(w[1], None);
}

#[test]
fn deleting_last_filled_slot_prunes_despite_empty_slots() {
    let mut ed = DefineDescriptor::new(Network::Bitcoin);
    ed.load_template(DescriptorTemplate::SimpleInheritance);
    // Give the recovery path a second, empty slot and fill only the first.
    ed.add_key(1);
    ed.keys_edited_new(&vec![(1, 0)], key(50, "lone key", KeySource::ImportedXpub));
    assert_eq!(ed.paths.len(), 2);
    assert_eq!(ed.paths[1].slots.len(), 2);
    // Removing an empty slot keeps the path: a key is still in place.
    ed.delete_key(1, 1);
    assert_eq!(ed.paths.len(), 2);
    ed.add_key(1);
    // Removing the slot with the last key prunes the whole path, even
    // though an empty slot would remain.
    ed.delete_key(1, 0);
    assert_eq!(ed.paths.len(), 1);
    assert_eq!(ed.paths[0].kind(), PathKind::Primary);
}
