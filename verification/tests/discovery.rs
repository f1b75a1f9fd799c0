//! Device discovery, identifier stability, and connection decisions.

use midi_piano::devices::{
    ble_descriptor, find_midi_characteristic, find_usb_port, is_midi_candidate, usb_descriptor,
    BleSighting, DeviceKind, MidiDeviceManager, MidiSinkInfo, UsbDevice, BLE_MIDI_CHARACTERISTIC_UUID,
    BLE_MIDI_SERVICE_UUID, USB_NAMESPACE,
};
use midi_piano::errors::DeviceError;
use midi_piano::sink::MidiTransport;

fn port(id: &str, name: &str) -> UsbDevice {
    UsbDevice { port_id: id.to_string(), port_name: name.to_string() }
}

fn sighting(adapter: &str, peripheral: &str, name: Option<&str>, services: Vec<u128>) -> BleSighting {
    BleSighting {
        adapter_key: adapter.to_string(),
        peripheral_id: peripheral.to_string(),
        local_name: name.map(|n| n.to_string()),
        services,
    }
}

#[test]
fn refresh_with_both_sides_failed_returns_an_empty_list() {
    let mut manager = MidiDeviceManager::new();
    let out = manager.refresh(None, None);
    assert_eq!(out.len(), 0);
}

#[test]
fn the_same_port_keeps_its_id_across_refreshes() {
    let mut manager = MidiDeviceManager::new();
    let first = manager.refresh(Some(vec![port("hw:1,0", "Piano")]), None);
    let second = manager.refresh(Some(vec![port("hw:1,0", "Piano")]), None);
    assert_eq!(first.len(), 1);
    assert_eq!(second.len(), 1);
    assert_eq!(first[0].info.id, second[0].info.id);
}

#[test]
fn usb_ids_are_namespaced_name_based_uuids() {
    let d = usb_descriptor(port("hw:1,0", "Piano"));
    let expected = uuid::Uuid::new_v5(&uuid::Uuid::from_u128(USB_NAMESPACE), b"hw:1,0").as_u128();
    assert_eq!(d.info.id, expected);
    assert_eq!(d.info.transport, MidiTransport::Usb);
    assert_eq!(d.info.name, "Piano");
    // a different port gets a different identifier
    let other = usb_descriptor(port("hw:2,0", "Piano"));
    assert_ne!(d.info.id, other.info.id);
}

#[test]
fn ble_ids_hash_adapter_and_peripheral_identity() {
    let a = ble_descriptor(&sighting("adapter0", "AA:BB", Some("Keys"), vec![]));
    let b = ble_descriptor(&sighting("adapter0", "AA:BB", Some("Keys"), vec![]));
    let c = ble_descriptor(&sighting("adapter0", "CC:DD", Some("Keys"), vec![]));
    assert_eq!(a.info.id, b.info.id);
    assert_ne!(a.info.id, c.info.id);
    assert_eq!(a.info.transport, MidiTransport::Bluetooth);
    match &a.kind {
        DeviceKind::Ble(dev) => {
            assert_eq!(dev.adapter_key, "adapter0");
            assert_eq!(dev.peripheral_id, "AA:BB");
            assert_eq!(dev.name, "Keys");
        }
        other => panic!("unexpected kind: {other:?}"),
    }
}

#[test]
fn candidates_match_by_service_or_case_insensitive_name() {
    assert!(is_midi_candidate(&sighting("a", "p", None, vec![BLE_MIDI_SERVICE_UUID])));
    assert!(is_midi_candidate(&sighting("a", "p", Some("My MIDI Keys"), vec![])));
    assert!(is_midi_candidate(&sighting("a", "p", Some("midi thing"), vec![])));
    assert!(!is_midi_candidate(&sighting("a", "p", Some("Plain Piano"), vec![])));
    assert!(!is_midi_candidate(&sighting("a", "p", None, vec![0x1234])));
}

#[test]
fn refresh_filters_candidates_and_sorts_by_name() {
    let mut manager = MidiDeviceManager::new();
    let out = manager.refresh(
        Some(vec![port("hw:2,0", "Zeta"), port("hw:1,0", "Alpha")]),
        Some(vec![
            sighting("a", "p1", Some("Middle MIDI"), vec![]),
            sighting("a", "p2", Some("Ignored Speaker"), vec![]),
        ]),
    );
    let names: Vec<String> = out.iter().map(|d| d.info.name.clone()).collect();
    assert_eq!(names, vec!["Alpha", "Middle MIDI", "Zeta"]);
}

#[test]
fn connect_finds_known_ids_and_rejects_unknown_ones() {
    let mut manager = MidiDeviceManager::new();
    let out = manager.refresh(Some(vec![port("hw:1,0", "Piano")]), None);
    let id = out[0].info.id;
    let d = manager.connect(id).unwrap();
    assert_eq!(d.info.id, id);
    match d.kind {
        DeviceKind::Usb(u) => assert_eq!(u.port_id, "hw:1,0"),
        other => panic!("unexpected kind: {other:?}"),
    }
    assert_eq!(manager.connect(id ^ 1), Err(DeviceError::DeviceUnavailable));
}

#[test]
fn a_vanished_port_is_unavailable_at_connect_time() {
    let ids = vec!["hw:0,0".to_string(), "hw:1,0".to_string()];
    assert_eq!(find_usb_port(&ids, &"hw:1,0".to_string()), Ok(1));
    assert_eq!(
        find_usb_port(&ids, &"hw:9,0".to_string()),
        Err(DeviceError::DeviceUnavailable)
    );
}

#[test]
fn the_midi_characteristic_is_located_or_reported_missing() {
    let present = vec![0x1111, BLE_MIDI_CHARACTERISTIC_UUID, 0x2222];
    assert_eq!(find_midi_characteristic(&present), Ok(1));
    let absent = vec![0x1111, 0x2222];
    assert_eq!(
        find_midi_characteristic(&absent),
        Err(DeviceError::CharacteristicNotFound)
    );
}

#[test]
fn with_id_bundles_the_fields() {
    let info = MidiSinkInfo::with_id(7, "Keys".to_string(), MidiTransport::Bluetooth);
    assert_eq!(info.id, 7);
    assert_eq!(info.name, "Keys");
    assert_eq!(info.transport, MidiTransport::Bluetooth);
}

#[test]
fn a_nameless_candidate_gets_a_placeholder_name() {
    let d = ble_descriptor(&sighting("a", "AA:BB", None, vec![BLE_MIDI_SERVICE_UUID]));
    assert_eq!(d.info.name, "BLE Device AA:BB");
    match &d.kind {
        DeviceKind::Ble(dev) => assert_eq!(dev.name, "BLE Device AA:BB"),
        other => panic!("unexpected kind: {other:?}"),
    }
}
