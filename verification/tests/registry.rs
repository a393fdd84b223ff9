use pingora_enclavia::identity::EnclaveId;
use pingora_enclavia::registry::{
    enclave_id_from_host, files_to_load, is_target_file, load_one, owner_of_file, FileError,
    FileEventKind, FileRead, Notice, PcrsRaw, ProxyTargetRaw, Registry, RegistryError, Work,
};
use std::path::PathBuf;
use uuid::Uuid;

fn enclave(id: Uuid) -> EnclaveId {
    EnclaveId { bits: id.as_u128() }
}

fn raw(id: Uuid, endpoint: &str, pcr: &str) -> ProxyTargetRaw {
    ProxyTargetRaw {
        enclave_id: enclave(id),
        endpoint: endpoint.to_string(),
        pcrs: PcrsRaw { pcr0: pcr.to_string(), pcr1: pcr.to_string(), pcr2: pcr.to_string() },
        debug_mode: true,
    }
}

/// Reads a target file the way a caller of the library does.
fn parse(bytes: &[u8]) -> Result<ProxyTargetRaw, FileError> {
    let value: serde_json::Value =
        serde_json::from_slice(bytes).map_err(|e| FileError::Parse(e.to_string()))?;
    let text = |v: &serde_json::Value| v.as_str().expect("text").to_string();
    Ok(ProxyTargetRaw {
        enclave_id: EnclaveId::parse(value["enclave_id"].as_str().expect("id")).expect("uuid"),
        endpoint: text(&value["endpoint"]),
        pcrs: PcrsRaw {
            pcr0: text(&value["pcrs"]["pcr0"]),
            pcr1: text(&value["pcrs"]["pcr1"]),
            pcr2: text(&value["pcrs"]["pcr2"]),
        },
        debug_mode: value["debug_mode"].as_bool().unwrap_or(false),
    })
}

#[test]
fn extracts_uuid_from_leftmost_label() {
    let id = Uuid::new_v4();
    let host = format!("{id}.enclaves.beta.enclavia.io");
    assert_eq!(enclave_id_from_host(&host), Some(enclave(id)));
}

#[test]
fn rejects_non_uuid_leftmost_label() {
    assert!(enclave_id_from_host("api.beta.enclavia.io").is_none());
}

#[test]
fn loads_existing_files_and_reflects_writes() {
    let id = Uuid::new_v4();
    let name = format!("{id}.json");
    let pcr_hex = "ab".repeat(48);
    let file = format!(
        "{{\"enclave_id\":\"{id}\",\"endpoint\":\"wss://example/\",\
         \"pcrs\":{{\"pcr0\":\"{pcr_hex}\",\"pcr1\":\"{pcr_hex}\",\"pcr2\":\"{pcr_hex}\"}},\
         \"debug_mode\":true}}"
    );

    let mut reg = Registry::new(PathBuf::from("/targets"));
    let names = vec![name.clone()];
    assert_eq!(files_to_load(&names), vec![0]);
    assert_eq!(reg.reload_file(&name, &parse(file.as_bytes())), Ok(enclave(id)));
    let target = reg.get(enclave(id)).expect("present");
    assert_eq!(target.endpoint, "wss://example/");
    assert!(target.debug_mode);
    assert_eq!(target.pcrs.pcr0.len(), 48);
}

#[test]
fn missing_target_surfaces_config_not_found() {
    let reg = Registry::new(PathBuf::from("/targets"));
    let err = reg.get(enclave(Uuid::new_v4())).unwrap_err();
    assert!(matches!(err, RegistryError::ConfigNotFound(_)));
}

#[test]
fn a_host_may_carry_a_port_or_nothing_else() {
    let id = Uuid::new_v4();
    assert_eq!(enclave_id_from_host(&format!("{id}:6188")), Some(enclave(id)));
    assert_eq!(enclave_id_from_host(&format!("{id}")), Some(enclave(id)));
    assert_eq!(enclave_id_from_host(&format!("{id}.x:6188")), Some(enclave(id)));
    assert_eq!(enclave_id_from_host(&format!("{id}:1.x")), Some(enclave(id)));
    assert_eq!(enclave_id_from_host(&format!("x.{id}")), None);
    assert_eq!(enclave_id_from_host(&format!("urn:uuid:{id}")), None);
    assert_eq!(enclave_id_from_host(""), None);
}

#[test]
fn ids_are_read_in_every_spelling() {
    let id = EnclaveId { bits: 0x67e5_5044_10b1_426f_9247_bb68_0e5f_e0c8 };
    let text = "67e55044-10b1-426f-9247-bb680e5fe0c8";
    assert_eq!(id.text(), text);
    assert_eq!(EnclaveId::parse(text), Some(id));
    assert_eq!(EnclaveId::parse("67e5504410b1426f9247bb680e5fe0c8"), Some(id));
    assert_eq!(EnclaveId::parse("{67E55044-10B1-426F-9247-BB680E5FE0C8}"), Some(id));
    assert_eq!(EnclaveId::parse("URN:uuid:67e55044-10b1-426f-9247-bb680e5fe0c8"), Some(id));
    assert_eq!(EnclaveId::parse("67e55044-10b1-426f-9247-bb680e5fe0c"), None);
    assert_eq!(EnclaveId::parse("67e55044-10b1-426f-9247-bb680e5fe0cg"), None);
    assert_eq!(EnclaveId::parse("67e5504-410b1-426f-9247-bb680e5fe0c8"), None);
    assert_eq!(EnclaveId::parse("[67e55044-10b1-426f-9247-bb680e5fe0c8]"), None);
    assert_eq!(EnclaveId::parse("urn:uuid-67e55044-10b1-426f-9247-bb680e5fe0c8"), None);
    assert_eq!(EnclaveId::parse("67e5504410b1426f9247bb680e5fe0\u{e9}"), None);
    assert_eq!(EnclaveId { bits: 0 }.text(), "00000000-0000-0000-0000-000000000000");
    assert_eq!(EnclaveId { bits: u128::MAX }.text(), "ffffffff-ffff-ffff-ffff-ffffffffffff");
}

#[test]
fn only_json_files_hold_targets() {
    assert!(is_target_file("a.json"));
    assert!(is_target_file("a.b.json"));
    assert!(!is_target_file("a.json.tmp"));
    assert!(!is_target_file("a.JSON"));
    assert!(!is_target_file(".json"));
    assert!(!is_target_file("json"));
    assert!(!is_target_file("a."));
    assert!(!is_target_file(""));
    let names: Vec<String> =
        ["x.txt", "b.json", "json", "c.json"].iter().map(|s| s.to_string()).collect();
    assert_eq!(files_to_load(&names), vec![1, 3]);
}

#[test]
fn a_file_belongs_to_the_enclave_it_is_named_after() {
    let id = Uuid::new_v4();
    assert_eq!(owner_of_file(&format!("{id}.json")), Some(enclave(id)));
    assert_eq!(owner_of_file(&format!("{id}.json.tmp")), None);
    assert_eq!(owner_of_file(&format!("{id}.tmp")), Some(enclave(id)));
    assert_eq!(owner_of_file(&format!("{id}")), Some(enclave(id)));
    assert_eq!(owner_of_file(".json"), None);
    assert_eq!(owner_of_file("notes.json"), None);
}

#[test]
fn a_reload_takes_the_place_of_the_old_target() {
    let id = Uuid::new_v4();
    let other = Uuid::new_v4();
    let name = format!("{id}.json");
    let mut reg = Registry::new(PathBuf::from("/targets"));
    reg.reload_file(&format!("{other}.json"), &Ok(raw(other, "wss://other/", "00"))).unwrap();
    reg.reload_file(&name, &Ok(raw(id, "wss://one/", "00"))).unwrap();
    reg.reload_file(&name, &Ok(raw(id, "wss://two/", "0102"))).unwrap();
    let target = reg.get(enclave(id)).unwrap();
    assert_eq!(target.endpoint, "wss://two/");
    assert_eq!(target.pcrs.pcr2, vec![1, 2]);
    assert_eq!(target.enclave_id, enclave(id));
    assert_eq!(reg.get(enclave(other)).unwrap().endpoint, "wss://other/");
    assert_eq!(reg.targets.len(), 2);
}

#[test]
fn a_target_is_known_by_the_id_in_its_file() {
    let id = Uuid::new_v4();
    let mut reg = Registry::new(PathBuf::from("/targets"));
    assert_eq!(reg.reload_file("foo.json", &Ok(raw(id, "wss://x/", "00"))), Ok(enclave(id)));
    assert_eq!(reg.get(enclave(id)).unwrap().endpoint, "wss://x/");
    reg.remove_for_path("foo.json");
    assert!(matches!(reg.get(enclave(id)), Err(RegistryError::ConfigNotFound(_))));
    assert_eq!(reg.targets.len(), 0);
}

#[test]
fn a_deleted_file_takes_its_owner_and_what_it_supplied() {
    let a = Uuid::new_v4();
    let b = Uuid::new_v4();
    let c = Uuid::new_v4();
    let name = format!("{a}.json");
    let mut reg = Registry::new(PathBuf::from("/targets"));
    reg.reload_file("foo.json", &Ok(raw(a, "wss://a/", "00"))).unwrap();
    reg.reload_file(&name, &Ok(raw(b, "wss://b/", "00"))).unwrap();
    reg.reload_file("bar.json", &Ok(raw(c, "wss://c/", "00"))).unwrap();
    reg.handle_event(FileEventKind::Remove, &vec![name]);
    assert!(matches!(reg.get(enclave(a)), Err(RegistryError::ConfigNotFound(_))));
    assert!(matches!(reg.get(enclave(b)), Err(RegistryError::ConfigNotFound(_))));
    assert_eq!(reg.get(enclave(c)).unwrap().endpoint, "wss://c/");
    reg.remove_for_path("unknown.json");
    assert!(reg.get(enclave(c)).is_ok());
}

#[test]
fn a_second_file_of_an_enclave_is_served_until_it_is_deleted() {
    let id = Uuid::new_v4();
    let name = format!("{id}.json");
    let mut reg = Registry::new(PathBuf::from("/targets"));
    reg.reload_file(&name, &Ok(raw(id, "wss://one/", "00"))).unwrap();
    reg.reload_file("copy.json", &Ok(raw(id, "wss://two/", "00"))).unwrap();
    assert_eq!(reg.get(enclave(id)).unwrap().endpoint, "wss://two/");
    reg.remove_for_path("copy.json");
    assert_eq!(reg.get(enclave(id)).unwrap().endpoint, "wss://one/");
    reg.reload_file("copy.json", &Ok(raw(id, "wss://two/", "00"))).unwrap();
    reg.remove_for_path(&name);
    assert!(matches!(reg.get(enclave(id)), Err(RegistryError::ConfigNotFound(_))));
    assert_eq!(reg.targets.len(), 0);
}

#[test]
fn a_file_that_cannot_be_read_is_no_bad_config() {
    let id = Uuid::new_v4();
    let name = format!("{id}.json");
    let mut reg = Registry::new(PathBuf::from("/targets"));
    let unread = Err(FileError::Read("gone".to_string()));
    assert_eq!(reg.reload_file(&name, &unread), Err("read: gone".to_string()));
    assert!(matches!(reg.get(enclave(id)), Err(RegistryError::ConfigNotFound(_))));
    let malformed = Err(FileError::Parse("eof".to_string()));
    reg.reload_file(&name, &malformed).unwrap_err();
    reg.reload_file(&name, &unread).unwrap_err();
    assert!(matches!(reg.get(enclave(id)), Err(RegistryError::BadConfig { .. })));
}

#[test]
fn a_removed_scratch_file_keeps_the_failure_of_the_target_file() {
    let id = Uuid::new_v4();
    let name = format!("{id}.json");
    let mut reg = Registry::new(PathBuf::from("/targets"));
    reg.reload_file(&name, &Err(FileError::Parse("eof".to_string()))).unwrap_err();
    reg.remove_for_path(&format!("{id}.tmp"));
    assert!(matches!(reg.get(enclave(id)), Err(RegistryError::BadConfig { .. })));
    reg.remove_for_path(&name);
    assert!(matches!(reg.get(enclave(id)), Err(RegistryError::ConfigNotFound(_))));

    reg.reload_file(&name, &Ok(raw(id, "wss://x/", "00"))).unwrap();
    reg.remove_for_path(&format!("{id}.tmp"));
    assert!(matches!(reg.get(enclave(id)), Err(RegistryError::ConfigNotFound(_))));
}

#[test]
fn a_scan_serves_every_file_that_loads() {
    let a = Uuid::new_v4();
    let b = Uuid::new_v4();
    let bad = Uuid::new_v4();
    let read = |name: String, contents| FileRead { name, contents };
    let files = vec![
        read(format!("{a}.json"), Ok(raw(a, "wss://a/", "00"))),
        read(format!("{bad}.json"), Err(FileError::Parse("eof".to_string()))),
        read("odd.json".to_string(), Ok(raw(b, "wss://b/", "00"))),
        read("later.json".to_string(), Ok(raw(a, "wss://later/", "00"))),
    ];
    let mut reg = Registry::new(PathBuf::from("/targets"));
    let results = reg.reload_files(&files);
    assert_eq!(
        results,
        vec![Ok(enclave(a)), Err("parse: eof".to_string()), Ok(enclave(b)), Ok(enclave(a))]
    );
    assert_eq!(reg.get(enclave(a)).unwrap().endpoint, "wss://later/");
    assert_eq!(reg.get(enclave(b)).unwrap().enclave_id, enclave(b));
    assert!(matches!(reg.get(enclave(bad)), Err(RegistryError::BadConfig { .. })));
}

#[test]
fn notices_are_followed_in_order() {
    let id = Uuid::new_v4();
    let name = format!("{id}.json");
    let event = |kind| Notice::Event { kind, names: vec![name.clone()] };
    let mut reg = Registry::new(PathBuf::from("/targets"));
    let file = |endpoint: &str| {
        vec![FileRead { name: name.clone(), contents: Ok(raw(id, endpoint, "00")) }]
    };
    assert!(matches!(reg.handle_notice(&event(FileEventKind::Create)), Work::Load(_)));
    reg.reload_files(&file("wss://one/"));
    assert!(matches!(reg.handle_notice(&event(FileEventKind::Remove)), Work::Load(_)));
    assert!(matches!(reg.get(enclave(id)), Err(RegistryError::ConfigNotFound(_))));
    assert!(matches!(reg.handle_notice(&Notice::Failed), Work::Rescan));
    reg.reload_files(&file("wss://two/"));
    assert_eq!(reg.get(enclave(id)).unwrap().endpoint, "wss://two/");
    assert!(matches!(reg.handle_notice(&event(FileEventKind::Modify)), Work::Load(_)));
    reg.reload_files(&file("wss://three/"));
    assert_eq!(reg.get(enclave(id)).unwrap().endpoint, "wss://three/");
}

#[test]
fn a_file_that_cannot_be_loaded_is_bad_config() {
    let id = Uuid::new_v4();
    let name = format!("{id}.json");
    let mut reg = Registry::new(PathBuf::from("/targets"));
    let reason = reg.reload_file(&name, &Ok(raw(id, "wss://x/", "0"))).unwrap_err();
    assert_eq!(reason, "pcr0 hex: Odd number of digits");
    let e = reg.get(enclave(id)).unwrap_err();
    assert_eq!(e.message(), format!("bad config for enclave {id}: pcr0 hex: Odd number of digits"));
    match e {
        RegistryError::BadConfig { id: found, reason } => {
            assert_eq!(found, enclave(id));
            assert_eq!(reason, "pcr0 hex: Odd number of digits");
        }
        RegistryError::ConfigNotFound(_) => panic!("the failure is known"),
    }

    reg.reload_file(&name, &Ok(raw(id, "wss://x/", "00"))).unwrap();
    assert!(reg.get(enclave(id)).is_ok());
    reg.reload_file(&name, &Err(FileError::Read("gone".to_string()))).unwrap_err();
    assert_eq!(reg.get(enclave(id)).unwrap().endpoint, "wss://x/");
    reg.remove_for_path(&name);
    let e = reg.get(enclave(id)).unwrap_err();
    assert!(matches!(e, RegistryError::ConfigNotFound(_)));
    assert_eq!(e.message(), format!("no proxy target registered for enclave {id}"));
}

#[test]
fn a_failure_of_a_nameless_file_is_not_remembered() {
    let mut reg = Registry::new(PathBuf::from("/targets"));
    let reason = reg.reload_file("notes.json", &Err(FileError::Read("denied".to_string())));
    assert_eq!(reason, Err("read: denied".to_string()));
    assert!(reg.failures.is_empty());
}

#[test]
fn each_load_error_names_its_cause() {
    let id = Uuid::new_v4();
    let load = |f: fn(&mut ProxyTargetRaw)| {
        let mut target = raw(id, "wss://x/", "00");
        f(&mut target);
        load_one(&Ok(target)).unwrap_err()
    };
    assert_eq!(
        load(|t| t.pcrs.pcr0 = "0g".to_string()),
        "pcr0 hex: Invalid character 'g' at position 1"
    );
    assert_eq!(load(|t| t.pcrs.pcr1 = "0".to_string()), "pcr1 hex: Odd number of digits");
    assert_eq!(load(|t| t.pcrs.pcr2 = "0".to_string()), "pcr2 hex: Odd number of digits");
    assert_eq!(load_one(&Err(FileError::Read("e".to_string()))).unwrap_err(), "read: e");
    assert_eq!(load_one(&Err(FileError::Parse("e".to_string()))).unwrap_err(), "parse: e");
    assert!(parse(b"{").is_err());
}

#[test]
fn events_say_which_files_to_load_and_drop_removed_ones() {
    let id = Uuid::new_v4();
    let name = format!("{id}.json");
    let names = vec!["a.tmp".to_string(), name.clone(), "b.json".to_string()];
    let mut reg = Registry::new(PathBuf::from("/targets"));
    reg.reload_file(&name, &Ok(raw(id, "wss://x/", "00"))).unwrap();
    assert_eq!(reg.handle_event(FileEventKind::Create, &names), vec![1, 2]);
    assert_eq!(reg.handle_event(FileEventKind::Modify, &names), vec![1, 2]);
    assert_eq!(reg.handle_event(FileEventKind::Other, &names), Vec::<usize>::new());
    assert!(reg.get(enclave(id)).is_ok());
    assert_eq!(reg.handle_event(FileEventKind::Remove, &names), Vec::<usize>::new());
    assert!(matches!(reg.get(enclave(id)), Err(RegistryError::ConfigNotFound(_))));
}

#[test]
fn a_failed_watch_asks_for_a_rescan() {
    let mut reg = Registry::new(PathBuf::from("/targets"));
    assert!(matches!(reg.handle_notice(&Notice::Failed), Work::Rescan));
    let event = Notice::Event { kind: FileEventKind::Modify, names: vec!["x.json".to_string()] };
    match reg.handle_notice(&event) {
        Work::Load(found) => assert_eq!(found, vec![0]),
        Work::Rescan => panic!("nothing failed"),
    }
}

#[test]
fn the_directory_is_kept() {
    let reg = Registry::new(PathBuf::from("/run/enclavia/proxy-targets"));
    assert_eq!(reg.dir(), &PathBuf::from("/run/enclavia/proxy-targets"));
}
