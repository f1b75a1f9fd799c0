//! Device discovery and connection decisions.
//!
//! A refresh takes what the wired enumeration and the wireless scan observed
//! (or `None` where a side failed: failure of either side degrades to zero
//! devices of that kind, never to an error), builds one descriptor per
//! device — with an identifier derived deterministically, by a namespaced
//! name-based UUID, from the transport-native identifiers, so the same
//! physical device keeps its identifier across refreshes — replaces the
//! device table wholesale, and returns the descriptors sorted by display
//! name. Connecting looks the identifier up in the current table; the port
//! re-match at connect time and the characteristic lookup are decision
//! functions over what the caller re-enumerated.

use vstd::prelude::*;

use vstd::string::StrSliceExecFns;
use vstd::string::StringExecFns;

use crate::errors::DeviceError;
use crate::sink::MidiTransport;
use crate::sorting::{
    lemma_insert_ord_at, lemma_insert_ord_sorted, sort_ord, sorted_ord, total_ord, transitive_ord,
};

verus! {

/// Namespace for wired device identifiers.
pub const USB_NAMESPACE: u128 = 0xdea27421_4dbe_474b_99ac_5a4a3f7bf110;

/// Namespace for wireless device identifiers.
pub const BLE_NAMESPACE: u128 = 0x5a08d524_f585_4a4f_b4bd_a3e4f82345fb;

/// The wireless service that marks a peripheral as a MIDI device.
pub const BLE_MIDI_SERVICE_UUID: u128 = 0x03b80e5a_ede8_4b33_a751_6ce34ec4c700;

/// The writable characteristic that carries MIDI payloads.
pub const BLE_MIDI_CHARACTERISTIC_UUID: u128 = 0x7772e5db_3868_4112_a1a9_f2669d106bf3;

/// A wired output port, by its transport-native identifier and display name.
#[derive(Debug, Clone, PartialEq, Eq)]
pub struct UsbDevice {
    pub port_id: String,
    pub port_name: String,
}

/// A wireless peripheral, by the adapter that saw it, its peripheral
/// identifier, and its display name.
#[derive(Debug, Clone, PartialEq, Eq)]
pub struct BleDevice {
    pub adapter_key: String,
    pub peripheral_id: String,
    pub name: String,
}

/// Which transport a descriptor connects through, with what the connection
/// needs.
#[derive(Debug, Clone, PartialEq, Eq)]
pub enum DeviceKind {
    Usb(UsbDevice),
    Ble(BleDevice),
}

/// What a session consumer needs to know of a sink: its stable identifier,
/// display name, and transport.
#[derive(Debug, Clone, PartialEq, Eq)]
pub struct MidiSinkInfo {
    pub id: u128,
    pub name: String,
    pub transport: MidiTransport,
}

impl MidiSinkInfo {
    /// Bundle an already-derived identifier with a name and transport.
    pub fn with_id(id: u128, name: String, transport: MidiTransport) -> (r: MidiSinkInfo)
        ensures
            r.id == id && r.name@ == name@ && r.transport == transport,
    {
        MidiSinkInfo { id, name, transport }
    }
}

/// One discovered device: what consumers see, and what connecting needs.
#[derive(Debug, Clone, PartialEq, Eq)]
pub struct MidiDeviceDescriptor {
    pub info: MidiSinkInfo,
    pub kind: DeviceKind,
}

/// What one wireless scan sighting reported: who saw it, its identifier, its
/// advertised name if any, and the service identifiers it advertises.
#[derive(Debug, Clone, PartialEq, Eq)]
pub struct BleSighting {
    pub adapter_key: String,
    pub peripheral_id: String,
    pub local_name: Option<String>,
    pub services: Vec<u128>,
}

/// Mathematical model of a sink description.
#[verifier::ext_equal]
pub struct MidiSinkInfoModel {
    pub id: u128,
    pub name: Seq<char>,
    pub transport: MidiTransport,
}

/// Mathematical model of the connection side of a descriptor.
#[verifier::ext_equal]
pub enum DeviceKindModel {
    Usb { port_id: Seq<char>, port_name: Seq<char> },
    Ble { adapter_key: Seq<char>, peripheral_id: Seq<char>, name: Seq<char> },
}

/// Mathematical model of a descriptor.
#[verifier::ext_equal]
pub struct DescriptorModel {
    pub info: MidiSinkInfoModel,
    pub kind: DeviceKindModel,
}

/// Mathematical model of a scan sighting.
#[verifier::ext_equal]
pub struct SightingModel {
    pub adapter_key: Seq<char>,
    pub peripheral_id: Seq<char>,
    pub local_name: Option<Seq<char>>,
    pub services: Seq<u128>,
}

impl View for MidiDeviceDescriptor {
    type V = DescriptorModel;

    open spec fn view(&self) -> DescriptorModel {
        DescriptorModel {
            info: MidiSinkInfoModel {
                id: self.info.id,
                name: self.info.name@,
                transport: self.info.transport,
            },
            kind: match self.kind {
                DeviceKind::Usb(u) => DeviceKindModel::Usb {
                    port_id: u.port_id@,
                    port_name: u.port_name@,
                },
                DeviceKind::Ble(b) => DeviceKindModel::Ble {
                    adapter_key: b.adapter_key@,
                    peripheral_id: b.peripheral_id@,
                    name: b.name@,
                },
            },
        }
    }
}

impl View for BleSighting {
    type V = SightingModel;

    open spec fn view(&self) -> SightingModel {
        SightingModel {
            adapter_key: self.adapter_key@,
            peripheral_id: self.peripheral_id@,
            local_name: match self.local_name {
                Some(ref n) => Some(n@),
                None => None,
            },
            services: self.services@,
        }
    }
}

/// The name-based (SHA-1) UUID of `name` under `namespace`, as an unsigned
/// 128-bit value: a pure function of its two arguments.
pub uninterp spec fn uuid_v5_of(namespace: u128, name: Seq<u8>) -> u128;

/// Relies on `uuid::Uuid::new_v5`: the RFC 9562 name-based (SHA-1) UUID of a
/// namespace and a name; deterministic, a function of the arguments alone.
#[verifier::external_body]
fn uuid_v5(namespace: u128, name: &[u8]) -> (r: u128)
    ensures
        r == uuid_v5_of(namespace, name@),
{
    uuid::Uuid::new_v5(&uuid::Uuid::from_u128(namespace), name).as_u128()
}

/// The lowercase form of a string, as `str::to_lowercase` defines it: a pure
/// function of the characters alone.
pub uninterp spec fn lower_of(s: Seq<char>) -> Seq<char>;

/// Relies on `str::to_lowercase`: the Unicode-lowercased string; the result
/// depends on the characters alone, and an empty string stays empty.
#[verifier::external_body]
fn lowercase(s: &str) -> (r: String)
    ensures
        r@ == lower_of(s@),
        s@.len() == 0 ==> r@.len() == 0,
{
    s.to_lowercase()
}

/// Whether `needle` occurs contiguously inside `haystack`.
pub open spec fn spec_contains_seq(haystack: Seq<char>, needle: Seq<char>) -> bool {
    exists|k: int|
        0 <= k <= haystack.len() - needle.len() && #[trigger] haystack.subrange(
            k,
            k + needle.len(),
        ) == needle
}

/// Substring search, character by character.
fn str_contains(haystack: &str, needle: &str) -> (r: bool)
    ensures
        r == spec_contains_seq(haystack@, needle@),
{
    let hn = haystack.unicode_len();
    let nn = needle.unicode_len();
    if nn > hn {
        proof {
            assert(!spec_contains_seq(haystack@, needle@));
        }
        return false;
    }
    if nn == 0 {
        proof {
            let l = needle@.len() as int;
            assert(haystack@.subrange(0, 0 + l) =~= needle@);
            assert(haystack@.subrange(0, 0 + l) == needle@);
        }
        return true;
    }
    let mut k: usize = 0;
    while k <= hn - nn
        invariant
            hn == haystack@.len(),
            nn == needle@.len(),
            1 <= nn <= hn,
            k <= hn - nn + 1,
            forall|k2: int|
                0 <= k2 < k ==> #[trigger] haystack@.subrange(k2, k2 + needle@.len()) != needle@,
        decreases hn - nn - k + 1,
    {
        let mut j: usize = 0;
        let mut matches = true;
        while j < nn
            invariant
                hn == haystack@.len(),
                nn == needle@.len(),
                k + nn <= hn,
                j <= nn,
                matches ==> haystack@.subrange(k as int, k + j) =~= needle@.subrange(0, j as int),
                !matches ==> haystack@.subrange(k as int, k + needle@.len()) != needle@,
            decreases nn - j,
        {
            let hc = haystack.get_char(k + j);
            let nc = needle.get_char(j);
            if hc != nc {
                proof {
                    let full = haystack@.subrange(k as int, k + needle@.len());
                    assert(full[j as int] == haystack@[k + j]);
                    assert(full[j as int] != needle@[j as int]);
                }
                matches = false;
                j = nn;
            } else {
                proof {
                    assert(haystack@.subrange(k as int, k + j + 1) =~= haystack@.subrange(
                        k as int,
                        k + j,
                    ).push(haystack@[k + j]));
                    assert(needle@.subrange(0, j + 1) =~= needle@.subrange(0, j as int).push(
                        needle@[j as int],
                    ));
                }
                j = j + 1;
            }
        }
        if matches {
            proof {
                assert(haystack@.subrange(k as int, k + needle@.len()) =~= needle@.subrange(
                    0,
                    needle@.len() as int,
                ));
                assert(needle@.subrange(0, needle@.len() as int) =~= needle@);
            }
            return true;
        }
        k = k + 1;
    }
    proof {
        assert forall|k2: int|
            0 <= k2 <= haystack@.len() - needle@.len() implies #[trigger] haystack@.subrange(
            k2,
            k2 + needle@.len(),
        ) != needle@ by {}
    }
    false
}

/// Whether a sighting is a MIDI candidate: it advertises the MIDI service,
/// or (fallback heuristic) its advertised name contains "midi", matched
/// case-insensitively.
pub open spec fn spec_is_midi_candidate(s: SightingModel) -> bool {
    s.services.contains(BLE_MIDI_SERVICE_UUID) || (s.local_name matches Some(n)
        && spec_contains_seq(lower_of(n), "midi"@))
}

/// Decide whether a scan sighting is a MIDI candidate.
pub fn is_midi_candidate(sighting: &BleSighting) -> (r: bool)
    ensures
        r == spec_is_midi_candidate(sighting@),
{
    let mut i: usize = 0;
    while i < sighting.services.len()
        invariant
            i <= sighting.services@.len(),
            forall|j: int| 0 <= j < i ==> sighting.services@[j] != BLE_MIDI_SERVICE_UUID,
        decreases sighting.services@.len() - i,
    {
        if sighting.services[i] == BLE_MIDI_SERVICE_UUID {
            return true;
        }
        i = i + 1;
    }
    proof {
        assert(!sighting@.services.contains(BLE_MIDI_SERVICE_UUID));
    }
    match &sighting.local_name {
        Some(name) => {
            let folded = lowercase(name.as_str());
            proof {
                reveal_strlit("midi");
            }
            str_contains(folded.as_str(), "midi")
        },
        None => false,
    }
}

/// The identifier of a wired port: a namespaced name-based UUID of the
/// port's transport-native identifier bytes.
pub open spec fn spec_usb_id(port_id: Seq<char>) -> u128 {
    uuid_v5_of(USB_NAMESPACE, vstd::utf8::encode_utf8(port_id))
}

/// Lexicographic order on character sequences, from position `k` on.
pub open spec fn chars_le_from(a: Seq<char>, b: Seq<char>, k: int) -> bool
    decreases a.len() - k,
{
    if k < 0 || k >= a.len() {
        true
    } else if k >= b.len() {
        false
    } else if a[k] != b[k] {
        a[k] < b[k]
    } else {
        chars_le_from(a, b, k + 1)
    }
}

/// Lexicographic order on character sequences, by code point.
pub open spec fn chars_le(a: Seq<char>, b: Seq<char>) -> bool {
    chars_le_from(a, b, 0)
}

proof fn lemma_chars_le_total(a: Seq<char>, b: Seq<char>, k: int)
    ensures
        chars_le_from(a, b, k) || chars_le_from(b, a, k),
    decreases a.len() - k,
{
    if 0 <= k < a.len() && k < b.len() && a[k] == b[k] {
        lemma_chars_le_total(a, b, k + 1);
    }
}

proof fn lemma_chars_le_trans(a: Seq<char>, b: Seq<char>, c: Seq<char>, k: int)
    requires
        chars_le_from(a, b, k),
        chars_le_from(b, c, k),
    ensures
        chars_le_from(a, c, k),
    decreases a.len() - k,
{
    if 0 <= k < a.len() {
        if k < c.len() && k < b.len() && a[k] == b[k] && b[k] == c[k] {
            lemma_chars_le_trans(a, b, c, k + 1);
        }
    }
}

/// Strict lexicographic order on character sequences.
pub open spec fn chars_lt(a: Seq<char>, b: Seq<char>) -> bool {
    chars_le(a, b) && a != b
}

proof fn lemma_chars_le_refl_from(a: Seq<char>, k: int)
    ensures
        chars_le_from(a, a, k),
    decreases a.len() - k,
{
    if 0 <= k < a.len() {
        lemma_chars_le_refl_from(a, k + 1);
    }
}

/// The order relates every string to itself.
pub(crate) proof fn lemma_chars_le_refl(a: Seq<char>)
    ensures
        chars_le(a, a),
{
    lemma_chars_le_refl_from(a, 0);
}

proof fn lemma_chars_le_antisym_from(a: Seq<char>, b: Seq<char>, k: int)
    requires
        0 <= k <= a.len(),
        0 <= k <= b.len(),
        a.subrange(0, k) == b.subrange(0, k),
        chars_le_from(a, b, k),
        chars_le_from(b, a, k),
    ensures
        a == b,
    decreases a.len() - k,
{
    if k >= a.len() {
        // both directions hold only when neither string goes on
        assert(k >= b.len());
        assert(a =~= a.subrange(0, k));
        assert(b =~= b.subrange(0, k));
    } else if k >= b.len() {
        assert(!chars_le_from(a, b, k));
    } else if a[k] != b[k] {
        assert(a[k] < b[k] && b[k] < a[k]);
    } else {
        assert(a.subrange(0, k + 1) =~= a.subrange(0, k).push(a[k]));
        assert(b.subrange(0, k + 1) =~= b.subrange(0, k).push(b[k]));
        lemma_chars_le_antisym_from(a, b, k + 1);
    }
}

/// Two strings each at or below the other are equal.
pub(crate) proof fn lemma_chars_le_antisym(a: Seq<char>, b: Seq<char>)
    requires
        chars_le(a, b),
        chars_le(b, a),
    ensures
        a == b,
{
    assert(a.subrange(0, 0) =~= b.subrange(0, 0));
    lemma_chars_le_antisym_from(a, b, 0);
}

/// Totality of the order, in strict form: where one string is not at or
/// below another, the other lies strictly below it.
pub(crate) proof fn lemma_chars_not_le(a: Seq<char>, b: Seq<char>)
    requires
        !chars_le(a, b),
    ensures
        chars_lt(b, a),
{
    lemma_chars_le_total(a, b, 0);
    if a == b {
        lemma_chars_le_refl(a);
    }
}

/// The strict order is transitive.
pub(crate) proof fn lemma_chars_lt_trans(a: Seq<char>, b: Seq<char>, c: Seq<char>)
    requires
        chars_lt(a, b),
        chars_lt(b, c),
    ensures
        chars_lt(a, c),
{
    lemma_chars_le_trans(a, b, c, 0);
    if a == c {
        lemma_chars_le_antisym(a, b);
    }
}

/// Compare two strings lexicographically by code point (the order display
/// names are sorted in, which for UTF-8 strings agrees with byte order).
pub(crate) fn str_le(a: &str, b: &str) -> (r: bool)
    ensures
        r == chars_le(a@, b@),
{
    let an = a.unicode_len();
    let bn = b.unicode_len();
    let mut k: usize = 0;
    loop
        invariant
            an == a@.len(),
            bn == b@.len(),
            k <= an,
            k <= bn,
            chars_le(a@, b@) == chars_le_from(a@, b@, k as int),
        decreases an - k,
    {
        if k >= an {
            return true;
        }
        if k >= bn {
            return false;
        }
        let ca = a.get_char(k);
        let cb = b.get_char(k);
        if ca != cb {
            return ca < cb;
        }
        k = k + 1;
    }
}

/// The ordering of descriptors: by display name.
pub open spec fn name_le() -> spec_fn(DescriptorModel, DescriptorModel) -> bool {
    |a: DescriptorModel, b: DescriptorModel| chars_le(a.info.name, b.info.name)
}

proof fn lemma_name_le_props()
    ensures
        total_ord::<DescriptorModel>(name_le()),
        transitive_ord::<DescriptorModel>(name_le()),
{
    assert forall|a: DescriptorModel, b: DescriptorModel| #[trigger]
        name_le()(a, b) || #[trigger] name_le()(b, a) by {
        lemma_chars_le_total(a.info.name, b.info.name, 0);
        if chars_le(a.info.name, b.info.name) {
            assert(name_le()(a, b));
        } else {
            assert(name_le()(b, a));
        }
    }
    assert forall|a: DescriptorModel, b: DescriptorModel, c: DescriptorModel| #[trigger]
        name_le()(a, b) && #[trigger] name_le()(b, c) implies name_le()(a, c) by {
        lemma_chars_le_trans(a.info.name, b.info.name, c.info.name, 0);
    }
}

/// The descriptor of a wired port.
pub open spec fn spec_usb_descriptor(port_id: Seq<char>, port_name: Seq<char>) -> DescriptorModel {
    DescriptorModel {
        info: MidiSinkInfoModel {
            id: spec_usb_id(port_id),
            name: port_name,
            transport: MidiTransport::Usb,
        },
        kind: DeviceKindModel::Usb { port_id, port_name },
    }
}

/// The identifier of a wireless peripheral: a namespaced name-based UUID of
/// the adapter identity and the peripheral identity, joined by `::`.
pub open spec fn spec_ble_id(adapter_key: Seq<char>, peripheral_id: Seq<char>) -> u128 {
    uuid_v5_of(
        BLE_NAMESPACE,
        vstd::utf8::encode_utf8(adapter_key + "::"@ + peripheral_id),
    )
}

/// The display name of a wireless sighting: its advertised name, or a
/// placeholder built from the peripheral identifier when it advertises none.
pub open spec fn spec_ble_name(s: SightingModel) -> Seq<char> {
    match s.local_name {
        Some(n) => n,
        None => "BLE Device "@ + s.peripheral_id,
    }
}

/// The descriptor of a wireless sighting.
pub open spec fn spec_ble_descriptor(s: SightingModel) -> DescriptorModel {
    DescriptorModel {
        info: MidiSinkInfoModel {
            id: spec_ble_id(s.adapter_key, s.peripheral_id),
            name: spec_ble_name(s),
            transport: MidiTransport::Bluetooth,
        },
        kind: DeviceKindModel::Ble {
            adapter_key: s.adapter_key,
            peripheral_id: s.peripheral_id,
            name: spec_ble_name(s),
        },
    }
}

/// The same physical wired port always gets the same identifier: the
/// identifier is a function of the port's native identifier alone, whenever
/// and however often it is enumerated.
pub proof fn lemma_usb_id_stable(
    port_id1: Seq<char>,
    port_name1: Seq<char>,
    port_id2: Seq<char>,
    port_name2: Seq<char>,
)
    requires
        port_id1 == port_id2,
    ensures
        spec_usb_descriptor(port_id1, port_name1).info.id == spec_usb_descriptor(
            port_id2,
            port_name2,
        ).info.id,
{
}

/// Build the descriptor of one wired port.
pub fn usb_descriptor(port: UsbDevice) -> (r: MidiDeviceDescriptor)
    ensures
        r@ == spec_usb_descriptor(port.port_id@, port.port_name@),
{
    let id = uuid_v5(USB_NAMESPACE, port.port_id.as_str().as_bytes());
    let name = clone_string(&port.port_name);
    MidiDeviceDescriptor {
        info: MidiSinkInfo { id, name, transport: MidiTransport::Usb },
        kind: DeviceKind::Usb(port),
    }
}

/// Build the descriptor of one wireless sighting.
pub fn ble_descriptor(sighting: &BleSighting) -> (r: MidiDeviceDescriptor)
    ensures
        r@ == spec_ble_descriptor(sighting@),
{
    let mut key = clone_string(&sighting.adapter_key);
    key.append("::");
    key.append(sighting.peripheral_id.as_str());
    proof {
        assert(key@ == sighting.adapter_key@ + "::"@ + sighting.peripheral_id@);
    }
    let id = uuid_v5(BLE_NAMESPACE, key.as_str().as_bytes());
    let name = match &sighting.local_name {
        Some(n) => clone_string(n),
        None => {
            let mut fallback = String::new();
            fallback.append("BLE Device ");
            fallback.append(sighting.peripheral_id.as_str());
            proof {
                assert(fallback@ == Seq::<char>::empty() + "BLE Device "@
                    + sighting.peripheral_id@);
                assert(fallback@ =~= "BLE Device "@ + sighting.peripheral_id@);
            }
            fallback
        },
    };
    let device_name = clone_string(&name);
    MidiDeviceDescriptor {
        info: MidiSinkInfo { id, name, transport: MidiTransport::Bluetooth },
        kind: DeviceKind::Ble(
            BleDevice {
                adapter_key: clone_string(&sighting.adapter_key),
                peripheral_id: clone_string(&sighting.peripheral_id),
                name: device_name,
            },
        ),
    }
}

/// Copy a string (`String::clone`, through vstd's specification).
pub(crate) fn clone_string(s: &String) -> (r: String)
    ensures
        r@ == s@,
{
    s.clone()
}

/// Copy a descriptor field by field.
fn clone_descriptor(d: &MidiDeviceDescriptor) -> (r: MidiDeviceDescriptor)
    ensures
        r@ == d@,
{
    let info = MidiSinkInfo {
        id: d.info.id,
        name: clone_string(&d.info.name),
        transport: d.info.transport,
    };
    let kind = match &d.kind {
        DeviceKind::Usb(u) => DeviceKind::Usb(
            UsbDevice { port_id: clone_string(&u.port_id), port_name: clone_string(&u.port_name) },
        ),
        DeviceKind::Ble(b) => DeviceKind::Ble(
            BleDevice {
                adapter_key: clone_string(&b.adapter_key),
                peripheral_id: clone_string(&b.peripheral_id),
                name: clone_string(&b.name),
            },
        ),
    };
    MidiDeviceDescriptor { info, kind }
}

/// The descriptors of a wired enumeration: one per port, in port order; a
/// failed enumeration counts as zero wired devices.
pub open spec fn spec_usb_descriptors(ports: Option<Seq<(Seq<char>, Seq<char>)>>) -> Seq<
    DescriptorModel,
> {
    match ports {
        None => Seq::empty(),
        Some(list) => list.map_values(|p: (Seq<char>, Seq<char>)| spec_usb_descriptor(p.0, p.1)),
    }
}

/// The descriptors of a wireless scan: one per MIDI candidate, in sighting
/// order; a failed scan (or an unavailable radio manager) counts as zero
/// wireless devices.
pub open spec fn spec_ble_descriptors(sightings: Option<Seq<SightingModel>>) -> Seq<
    DescriptorModel,
>
    decreases (match sightings {
        Some(list) => list.len() as int,
        None => 0,
    }),
{
    match sightings {
        None => Seq::empty(),
        Some(list) => if list.len() == 0 {
            Seq::empty()
        } else {
            spec_ble_descriptors(Some(list.drop_last())) + (if spec_is_midi_candidate(
                list.last(),
            ) {
                seq![spec_ble_descriptor(list.last())]
            } else {
                Seq::empty()
            })
        },
    }
}

/// The views of a list of wired ports.
pub open spec fn usb_port_views(ports: Seq<UsbDevice>) -> Seq<(Seq<char>, Seq<char>)> {
    ports.map_values(|p: UsbDevice| (p.port_id@, p.port_name@))
}

/// The device discovery and connection manager: the table of everything the
/// last refresh observed, keyed by stable identifier.
pub struct MidiDeviceManager {
    devices: Vec<MidiDeviceDescriptor>,
}

impl MidiDeviceManager {
    /// The current device table, in discovery order.
    pub closed spec fn table(&self) -> Seq<DescriptorModel> {
        self.devices@.map_values(|d: MidiDeviceDescriptor| d@)
    }

    /// A manager with an empty device table.
    pub fn new() -> (m: MidiDeviceManager)
        ensures
            m.table() == Seq::<DescriptorModel>::empty(),
    {
        let m = MidiDeviceManager { devices: Vec::new() };
        proof {
            assert(m.table() =~= Seq::<DescriptorModel>::empty());
        }
        m
    }

    /// Refresh the device table from what the wired enumeration and the
    /// wireless scan observed; `None` on either side means that side failed
    /// and is treated as zero devices of that kind, never as an error. The
    /// new table replaces the old one wholesale; the returned list is the
    /// table sorted by display name. When both sides failed the result is
    /// empty.
    pub fn refresh(&mut self, usb_ports: Option<Vec<UsbDevice>>, ble_sightings: Option<
        Vec<BleSighting>,
    >) -> (out: Vec<MidiDeviceDescriptor>)
        ensures
            final(self).table() == spec_usb_descriptors(
                match usb_ports {
                    Some(p) => Some(usb_port_views(p@)),
                    None => None,
                },
            ) + spec_ble_descriptors(
                match ble_sightings {
                    Some(s) => Some(s@.map_values(|x: BleSighting| x@)),
                    None => None,
                },
            ),
            out@.map_values(|d: MidiDeviceDescriptor| d@) == sort_ord(
                final(self).table(),
                name_le(),
            ),
            sorted_ord(out@.map_values(|d: MidiDeviceDescriptor| d@), name_le()),
            usb_ports is None && ble_sightings is None ==> out@.len() == 0,
    {
        let ghost usb_target = spec_usb_descriptors(
            match usb_ports {
                Some(ref p) => Some(usb_port_views(p@)),
                None => None,
            },
        );
        let ghost ble_target = spec_ble_descriptors(
            match ble_sightings {
                Some(ref s) => Some(s@.map_values(|x: BleSighting| x@)),
                None => None,
            },
        );
        let mut descriptors: Vec<MidiDeviceDescriptor> = Vec::new();
        match usb_ports {
            None => {
                proof {
                    assert(descriptors@.map_values(|d: MidiDeviceDescriptor| d@) =~= usb_target);
                }
            },
            Some(mut ports) => {
                let ghost pviews = usb_port_views(ports@);
                let total: usize = ports.len();
                proof {
                    assert(descriptors@.map_values(|d: MidiDeviceDescriptor| d@) =~= pviews.take(
                        0,
                    ).map_values(|p: (Seq<char>, Seq<char>)| spec_usb_descriptor(p.0, p.1)));
                }
                let mut consumed: usize = 0;
                while ports.len() > 0
                    invariant
                        consumed + ports@.len() == total,
                        pviews.len() == total,
                        usb_target == pviews.map_values(
                            |p: (Seq<char>, Seq<char>)| spec_usb_descriptor(p.0, p.1),
                        ),
                        forall|j: int|
                            0 <= j < ports@.len() ==> (#[trigger] ports@[j].port_id@,
                            ports@[j].port_name@) == pviews[consumed + j],
                        descriptors@.map_values(|d: MidiDeviceDescriptor| d@) == usb_target.take(
                            consumed as int,
                        ),
                    decreases ports@.len(),
                {
                    let ghost old_descs = descriptors@.map_values(|d: MidiDeviceDescriptor| d@);
                    let port = ports.remove(0);
                    proof {
                        assert((port.port_id@, port.port_name@) == pviews[consumed as int]);
                    }
                    let d = usb_descriptor(port);
                    descriptors.push(d);
                    proof {
                        assert(usb_target[consumed as int] == spec_usb_descriptor(
                            pviews[consumed as int].0,
                            pviews[consumed as int].1,
                        ));
                        assert(descriptors@.map_values(|dd: MidiDeviceDescriptor| dd@)
                            =~= old_descs.push(d@));
                        assert(usb_target.take(consumed + 1) =~= usb_target.take(
                            consumed as int,
                        ).push(usb_target[consumed as int]));
                    }
                    consumed = consumed + 1;
                }
                proof {
                    assert(usb_target.take(total as int) =~= usb_target);
                }
            },
        }
        proof {
            assert(descriptors@.map_values(|d: MidiDeviceDescriptor| d@) == usb_target);
        }
        match ble_sightings {
            None => {
                proof {
                    assert(usb_target + ble_target =~= usb_target);
                }
            },
            Some(sightings) => {
                let ghost sviews = sightings@.map_values(|x: BleSighting| x@);
                let mut si: usize = 0;
                proof {
                    assert(sviews.take(0) =~= Seq::<SightingModel>::empty());
                    assert(usb_target + spec_ble_descriptors(Some(sviews.take(0))) =~= usb_target);
                }
                while si < sightings.len()
                    invariant
                        si <= sightings@.len(),
                        sviews == sightings@.map_values(|x: BleSighting| x@),
                        ble_target == spec_ble_descriptors(Some(sviews)),
                        descriptors@.map_values(|d: MidiDeviceDescriptor| d@) == usb_target
                            + spec_ble_descriptors(Some(sviews.take(si as int))),
                    decreases sightings@.len() - si,
                {
                    let ghost old_descs = descriptors@.map_values(|d: MidiDeviceDescriptor| d@);
                    let sighting = &sightings[si];
                    proof {
                        assert(sighting@ == sviews[si as int]);
                        assert(sviews.take(si + 1).drop_last() =~= sviews.take(si as int));
                        assert(sviews.take(si + 1).last() == sviews[si as int]);
                    }
                    if is_midi_candidate(sighting) {
                        let d = ble_descriptor(sighting);
                        descriptors.push(d);
                        proof {
                            assert(descriptors@.map_values(|dd: MidiDeviceDescriptor| dd@)
                                =~= old_descs.push(d@));
                            assert(old_descs.push(d@) =~= usb_target + spec_ble_descriptors(
                                Some(sviews.take(si + 1)),
                            ));
                        }
                    } else {
                        proof {
                            assert(spec_ble_descriptors(Some(sviews.take(si + 1)))
                                =~= spec_ble_descriptors(Some(sviews.take(si as int))));
                        }
                    }
                    si = si + 1;
                }
                proof {
                    assert(sviews.take(sviews.len() as int) =~= sviews);
                }
            },
        }
        proof {
            assert(descriptors@.map_values(|d: MidiDeviceDescriptor| d@) == usb_target
                + ble_target);
        }

        // the new table replaces the old one wholesale
        let mut table: Vec<MidiDeviceDescriptor> = Vec::new();
        let mut ci: usize = 0;
        proof {
            let dviews = descriptors@.map_values(|d: MidiDeviceDescriptor| d@);
            assert(table@.map_values(|d: MidiDeviceDescriptor| d@) =~= dviews.take(0));
        }
        while ci < descriptors.len()
            invariant
                ci <= descriptors@.len(),
                table@.map_values(|d: MidiDeviceDescriptor| d@) == descriptors@.map_values(
                    |d: MidiDeviceDescriptor| d@,
                ).take(ci as int),
            decreases descriptors@.len() - ci,
        {
            let ghost dviews = descriptors@.map_values(|d: MidiDeviceDescriptor| d@);
            let ghost old_table = table@.map_values(|d: MidiDeviceDescriptor| d@);
            let c = clone_descriptor(&descriptors[ci]);
            table.push(c);
            proof {
                assert(c@ == dviews[ci as int]);
                assert(table@.map_values(|d: MidiDeviceDescriptor| d@) =~= old_table.push(c@));
                assert(dviews.take(ci + 1) =~= dviews.take(ci as int).push(dviews[ci as int]));
            }
            ci = ci + 1;
        }
        proof {
            let dviews = descriptors@.map_values(|d: MidiDeviceDescriptor| d@);
            assert(dviews.take(dviews.len() as int) =~= dviews);
        }
        self.devices = table;

        // return the descriptors sorted by display name
        let mut out: Vec<MidiDeviceDescriptor> = Vec::new();
        let mut idx: usize = 0;
        let ghost dviews = descriptors@.map_values(|d: MidiDeviceDescriptor| d@);
        proof {
            assert(out@.map_values(|d: MidiDeviceDescriptor| d@) =~= sort_ord(
                dviews.take(0),
                name_le(),
            ));
        }
        while idx < descriptors.len()
            invariant
                idx <= descriptors@.len(),
                dviews == descriptors@.map_values(|d: MidiDeviceDescriptor| d@),
                out@.map_values(|d: MidiDeviceDescriptor| d@) == sort_ord(
                    dviews.take(idx as int),
                    name_le(),
                ),
                sorted_ord(out@.map_values(|d: MidiDeviceDescriptor| d@), name_le()),
            decreases descriptors@.len() - idx,
        {
            let ghost old_out = out@.map_values(|d: MidiDeviceDescriptor| d@);
            let x = clone_descriptor(&descriptors[idx]);
            let ghost xv = dviews[idx as int];
            proof {
                assert(x@ == xv);
            }
            let mut j: usize = out.len();
            while j > 0 && !str_le(out[j - 1].info.name.as_str(), x.info.name.as_str())
                invariant
                    j <= out@.len(),
                    x@ == xv,
                    out@.map_values(|d: MidiDeviceDescriptor| d@) == old_out,
                    forall|mi: int|
                        j <= mi < out@.len() ==> !name_le()(#[trigger] old_out[mi], xv),
                decreases j,
            {
                proof {
                    assert(old_out[j - 1].info.name == out@[j - 1]@.info.name);
                }
                j = j - 1;
            }
            out.insert(j, x);
            proof {
                lemma_name_le_props();
                if j > 0 {
                    assert(old_out[j - 1].info.name == out@[j - 1]@.info.name);
                    assert(name_le()(old_out[j - 1], xv));
                }
                lemma_insert_ord_at(old_out, xv, name_le(), j as int);
                lemma_insert_ord_sorted(old_out, xv, name_le());
                assert(out@.map_values(|d: MidiDeviceDescriptor| d@) =~= old_out.subrange(
                    0,
                    j as int,
                ) + seq![xv] + old_out.subrange(j as int, old_out.len() as int));
                assert(dviews.take(idx + 1).drop_last() =~= dviews.take(idx as int));
                assert(dviews.take(idx + 1).last() == xv);
            }
            idx = idx + 1;
        }
        proof {
            assert(dviews.take(dviews.len() as int) =~= dviews);
        }
        out
    }

    /// Look an identifier up in the current device table: the first
    /// descriptor with that identifier, or `DeviceUnavailable` when the
    /// identifier is unknown.
    pub fn connect(&self, id: u128) -> (r: Result<MidiDeviceDescriptor, DeviceError>)
        ensures
            match r {
                Ok(d) => exists|i: int|
                    0 <= i < self.table().len() && d@ == self.table()[i] && (
                    #[trigger] self.table()[i]).info.id == id && (forall|j: int|
                        0 <= j < i ==> (#[trigger] self.table()[j]).info.id != id),
                Err(e) => e == DeviceError::DeviceUnavailable && (forall|i: int|
                    0 <= i < self.table().len() ==> (#[trigger] self.table()[i]).info.id != id),
            },
    {
        let mut i: usize = 0;
        while i < self.devices.len()
            invariant
                i <= self.devices@.len(),
                forall|j: int| 0 <= j < i ==> (#[trigger] self.table()[j]).info.id != id,
            decreases self.devices@.len() - i,
        {
            if self.devices[i].info.id == id {
                let d = clone_descriptor(&self.devices[i]);
                proof {
                    assert(self.table()[i as int] == self.devices@[i as int]@);
                }
                return Ok(d);
            }
            proof {
                assert(self.table()[i as int] == self.devices@[i as int]@);
            }
            i = i + 1;
        }
        Err(DeviceError::DeviceUnavailable)
    }
}

/// Re-match a wired port at connect time: the first port whose native
/// identifier equals the descriptor's, or `DeviceUnavailable` when the port
/// has vanished since discovery.
pub fn find_usb_port(port_ids: &Vec<String>, target: &String) -> (r: Result<usize, DeviceError>)
    ensures
        match r {
            Ok(i) => i < port_ids@.len() && port_ids@[i as int]@ == target@ && (forall|j: int|
                0 <= j < i ==> (#[trigger] port_ids@[j])@ != target@),
            Err(e) => e == DeviceError::DeviceUnavailable && (forall|j: int|
                0 <= j < port_ids@.len() ==> (#[trigger] port_ids@[j])@ != target@),
        },
{
    let mut i: usize = 0;
    while i < port_ids.len()
        invariant
            i <= port_ids@.len(),
            forall|j: int| 0 <= j < i ==> (#[trigger] port_ids@[j])@ != target@,
        decreases port_ids@.len() - i,
    {
        if port_ids[i] == *target {
            return Ok(i);
        }
        i = i + 1;
    }
    Err(DeviceError::DeviceUnavailable)
}

/// Locate the MIDI characteristic among a peripheral's discovered
/// characteristics: the first with the target identifier, or
/// `CharacteristicNotFound` when the peripheral exposes none.
pub fn find_midi_characteristic(characteristic_ids: &Vec<u128>) -> (r: Result<usize, DeviceError>)
    ensures
        match r {
            Ok(i) => i < characteristic_ids@.len() && characteristic_ids@[i as int]
                == BLE_MIDI_CHARACTERISTIC_UUID && (forall|j: int|
                0 <= j < i ==> characteristic_ids@[j] != BLE_MIDI_CHARACTERISTIC_UUID),
            Err(e) => e == DeviceError::CharacteristicNotFound && (forall|j: int|
                0 <= j < characteristic_ids@.len() ==> characteristic_ids@[j]
                    != BLE_MIDI_CHARACTERISTIC_UUID),
        },
{
    let mut i: usize = 0;
    while i < characteristic_ids.len()
        invariant
            i <= characteristic_ids@.len(),
            forall|j: int| 0 <= j < i ==> characteristic_ids@[j] != BLE_MIDI_CHARACTERISTIC_UUID,
        decreases characteristic_ids@.len() - i,
    {
        if characteristic_ids[i] == BLE_MIDI_CHARACTERISTIC_UUID {
            return Ok(i);
        }
        i = i + 1;
    }
    Err(DeviceError::CharacteristicNotFound)
}

} // verus!
