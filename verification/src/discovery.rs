use vstd::prelude::*;
use crate::decimal::{parse_unsigned, parse_unsigned_exec};
use crate::devices::{channel_count, position_channels, remembered_from_key, remembered_from_storage_key};
use crate::keyed::{
    entry_index, find_entry, find_text, has_entry, has_text, set_entry,
};
use crate::library::{Library, LibraryView};
use crate::model::{
    opt_text, storage_key, DeviceInfo, DeviceKey, DeviceKeyView, DeviceView, RememberedDevice,
    RememberedView,
};
use crate::text::{chars_of, starts_with, starts_with_vec};

verus! {

// ---------------------------------------------------------------------------
// Playback outputs from the PipeWire graph.

/// A node property that is read as a count: a JSON number or a string.
#[derive(Debug, Clone)]
pub enum PropNumber {
    Unsigned(u64),
    Text(String),
}

/// The properties of a PipeWire node that decide whether it is a playback
/// output and how it is known. Each is present when the node has it as a
/// string (`audio_channels` also as a non-negative integer).
#[derive(Debug, Clone)]
pub struct NodeProps {
    pub media_class: Option<String>,
    pub node_name: Option<String>,
    pub device_api: Option<String>,
    pub bluez_address: Option<String>,
    pub device_string: Option<String>,
    pub bluez_profile: Option<String>,
    pub device_serial: Option<String>,
    pub device_bus_path: Option<String>,
    pub object_path: Option<String>,
    pub device_profile_name: Option<String>,
    pub alsa_path: Option<String>,
    pub audio_channels: Option<PropNumber>,
    pub audio_position: Option<String>,
    pub node_description: Option<String>,
    pub media_name: Option<String>,
}

/// An object of the PipeWire graph: its type, and its properties when it has
/// them.
#[derive(Debug, Clone)]
pub struct PwObject {
    pub object_type: Option<String>,
    pub props: Option<NodeProps>,
}

/// The text of an optional string, or a default.
pub open spec fn text_or(o: Option<String>, default: Seq<char>) -> Seq<char> {
    match o {
        Some(s) => s@,
        None => default,
    }
}

/// The first of two optional strings that is present, or a default.
pub open spec fn first_text(a: Option<String>, b: Option<String>, default: Seq<char>) -> Seq<char> {
    match a {
        Some(s) => s@,
        None => text_or(b, default),
    }
}

/// The count a property gives: the number itself, or the unsigned integer
/// that its text spells.
pub open spec fn prop_count(n: Option<PropNumber>) -> Option<nat> {
    match n {
        Some(PropNumber::Unsigned(v)) => Some(v as nat),
        Some(PropNumber::Text(t)) => parse_unsigned(t@, u64::MAX as nat),
        None => None,
    }
}

/// The channels of an output: its `audio.channels` count, else the number of
/// positions it lists, taken as a `u32` and at least 1.
pub open spec fn node_channels(props: NodeProps) -> u32 {
    let c: u64 = match prop_count(props.audio_channels) {
        Some(n) => n as u64,
        None => position_channels(opt_text(props.audio_position)) as u64,
    };
    let t = c as u32;
    if t >= 1 {
        t
    } else {
        1
    }
}

/// The identity of an output: Bluetooth outputs by address and profile,
/// others by serial, bus path or object path and by profile or ALSA path; the
/// node name and `playback` stand in for what is missing.
pub open spec fn node_key(props: NodeProps) -> DeviceKeyView {
    let node_name = text_or(props.node_name, Seq::empty());
    let backend = text_or(props.device_api, "unknown"@);
    if backend == "bluez5"@ {
        DeviceKeyView {
            backend,
            stable_id: first_text(props.bluez_address, props.device_string, node_name),
            route: text_or(props.bluez_profile, "playback"@),
        }
    } else {
        DeviceKeyView {
            backend,
            stable_id: first_text(
                props.device_serial,
                props.device_bus_path,
                text_or(props.object_path, node_name),
            ),
            route: first_text(props.device_profile_name, props.alsa_path, "playback"@),
        }
    }
}

/// The output that a graph object is, if it is an audio sink node that is
/// not one of MassiveEQ's own; its assignment and bypass come from the library.
pub open spec fn node_device(obj: PwObject, lib: LibraryView) -> Option<DeviceView> {
    if !(obj.object_type matches Some(t) && t@ == "PipeWire:Interface:Node"@) {
        None
    } else if obj.props is None {
        None
    } else {
        let props = obj.props->0;
        let node_name = text_or(props.node_name, Seq::empty());
        if !(props.media_class matches Some(c) && c@ == "Audio/Sink"@) {
            None
        } else if starts_with(node_name, "massiveeq."@) {
            None
        } else {
            let key = node_key(props);
            let k = storage_key(key);
            Some(
                DeviceView {
                    key,
                    node_name,
                    description: first_text(
                        props.node_description,
                        props.media_name,
                        "Audio output"@,
                    ),
                    channels: node_channels(props),
                    connected: true,
                    assigned_profile: if lib.assignments.contains_key(k) {
                        Some(lib.assignments[k])
                    } else {
                        None
                    },
                    bypassed: lib.bypassed.contains(k),
                },
            )
        }
    }
}

fn text_of(o: &Option<String>, default: &str) -> (r: String)
    ensures
        r@ == text_or(*o, default@),
{
    match o {
        Some(s) => s.clone(),
        None => String::from_str(default),
    }
}

fn first_of(a: &Option<String>, b: &Option<String>, default: &str) -> (r: String)
    ensures
        r@ == first_text(*a, *b, default@),
{
    match a {
        Some(s) => s.clone(),
        None => text_of(b, default),
    }
}

fn is_some_text(o: &Option<String>, t: &str) -> (r: bool)
    ensures
        r == (*o matches Some(s) && s@ == t@),
{
    match o {
        Some(s) => crate::keyed::same_text(s.as_str(), t),
        None => false,
    }
}

/// The channels of an output (see [`node_channels`]).
pub fn output_channels(props: &NodeProps) -> (r: u32)
    ensures
        r == node_channels(*props),
{
    let count: Option<u64> = match &props.audio_channels {
        Some(PropNumber::Unsigned(v)) => Some(*v),
        Some(PropNumber::Text(t)) => parse_unsigned_exec(&chars_of(t.as_str()), u64::MAX),
        None => None,
    };
    let c: u64 = match count {
        Some(n) => n,
        None => match &props.audio_position {
            Some(p) => channel_count(Some(p.as_str())),
            None => channel_count(None),
        },
    };
    let t = c as u32;
    if t >= 1 {
        t
    } else {
        1
    }
}

/// The identity of an output (see [`node_key`]).
pub fn output_key(props: &NodeProps) -> (r: DeviceKey)
    ensures
        r@ == node_key(*props),
{
    let node_name = text_of(&props.node_name, "");
    proof {
        reveal_strlit("");
        assert(""@ =~= Seq::<char>::empty());
    }
    let backend = text_of(&props.device_api, "unknown");
    if crate::keyed::same_text(backend.as_str(), "bluez5") {
        DeviceKey {
            backend,
            stable_id: match &props.bluez_address {
                Some(s) => s.clone(),
                None => match &props.device_string {
                    Some(s) => s.clone(),
                    None => node_name,
                },
            },
            route: text_of(&props.bluez_profile, "playback"),
        }
    } else {
        let fallback = match &props.object_path {
            Some(s) => s.clone(),
            None => node_name,
        };
        DeviceKey {
            backend,
            stable_id: match &props.device_serial {
                Some(s) => s.clone(),
                None => match &props.device_bus_path {
                    Some(s) => s.clone(),
                    None => fallback,
                },
            },
            route: first_of(&props.device_profile_name, &props.alsa_path, "playback"),
        }
    }
}

/// The output that a graph object is, if it is one (see [`node_device`]).
pub fn device_from_object(obj: &PwObject, library: &Library) -> (r: Option<DeviceInfo>)
    requires
        library.wf(),
    ensures
        match r {
            Some(d) => node_device(*obj, library@) == Some(d@),
            None => node_device(*obj, library@) is None,
        },
{
    if !is_some_text(&obj.object_type, "PipeWire:Interface:Node") {
        return None;
    }
    let props = match &obj.props {
        Some(p) => p,
        None => {
            return None;
        },
    };
    let node_name = text_of(&props.node_name, "");
    proof {
        reveal_strlit("");
        assert(""@ =~= Seq::<char>::empty());
    }
    if !is_some_text(&props.media_class, "Audio/Sink") {
        return None;
    }
    if starts_with_vec(&chars_of(node_name.as_str()), &chars_of("massiveeq.")) {
        return None;
    }
    let key = output_key(props);
    let k = key.as_storage_key();
    let assigned = library.assignment(k.as_str());
    let bypassed = library.is_bypassed(k.as_str());
    Some(
        DeviceInfo {
            key,
            node_name,
            description: first_of(&props.node_description, &props.media_name, "Audio output"),
            channels: output_channels(props),
            connected: true,
            assigned_profile: assigned,
            bypassed,
        },
    )
}

// ---------------------------------------------------------------------------
// The order in which outputs are listed: connected ones first, each group by
// description, outputs that compare equal in the order they came.

/// `a <= b` in the lexicographic order of characters, the order of `String`
/// comparison.
pub open spec fn text_le(a: Seq<char>, b: Seq<char>) -> bool
    decreases a.len(),
{
    if a.len() == 0 {
        true
    } else if b.len() == 0 {
        false
    } else if a[0] != b[0] {
        a[0] < b[0]
    } else {
        text_le(a.drop_first(), b.drop_first())
    }
}

/// Whether output `a` may be listed before output `b`.
pub open spec fn listed_before(a: DeviceView, b: DeviceView) -> bool {
    (a.connected && !b.connected) || (a.connected == b.connected && text_le(
        a.description,
        b.description,
    ))
}

/// Inserts an output after every output that may be listed before it.
pub open spec fn insert_device(sorted: Seq<DeviceView>, d: DeviceView) -> Seq<DeviceView>
    decreases sorted.len(),
{
    if sorted.len() == 0 {
        seq![d]
    } else if listed_before(sorted.last(), d) {
        sorted.push(d)
    } else {
        insert_device(sorted.drop_last(), d).push(sorted.last())
    }
}

/// The outputs in listing order (a stable sort).
pub open spec fn sort_devices(devices: Seq<DeviceView>) -> Seq<DeviceView>
    decreases devices.len(),
{
    if devices.len() == 0 {
        Seq::empty()
    } else {
        insert_device(sort_devices(devices.drop_last()), devices.last())
    }
}

/// The views of a list of outputs.
pub open spec fn device_views(s: Seq<DeviceInfo>) -> Seq<DeviceView> {
    Seq::new(s.len(), |i: int| s[i]@)
}

/// `a <= b` as texts (see [`text_le`]).
pub fn text_le_exec(a: &str, b: &str) -> (r: bool)
    ensures
        r == text_le(a@, b@),
{
    let x = chars_of(a);
    let y = chars_of(b);
    let mut i: usize = 0;
    proof {
        assert(x@.skip(0) =~= x@);
        assert(y@.skip(0) =~= y@);
    }
    while i < x.len() && i < y.len()
        invariant
            i <= x.len(),
            i <= y.len(),
            x@ == a@,
            y@ == b@,
            text_le(x@, y@) == text_le(x@.skip(i as int), y@.skip(i as int)),
        decreases x.len() - i,
    {
        proof {
            assert(x@.skip(i as int)[0] == x@[i as int]);
            assert(y@.skip(i as int)[0] == y@[i as int]);
            assert(x@.skip(i as int).drop_first() =~= x@.skip(i + 1));
            assert(y@.skip(i as int).drop_first() =~= y@.skip(i + 1));
        }
        if x[i] != y[i] {
            proof {
                assert(x@.skip(i as int).len() > 0 && y@.skip(i as int).len() > 0);
                assert(text_le(x@.skip(i as int), y@.skip(i as int)) == (x@[i as int] < y@[i as int]));
            }
            return x[i] < y[i];
        }
        i += 1;
    }
    x.len() <= y.len()
}

fn listed_before_exec(a: &DeviceInfo, b: &DeviceInfo) -> (r: bool)
    ensures
        r == listed_before(a@, b@),
{
    (a.connected && !b.connected) || (a.connected == b.connected && text_le_exec(
        a.description.as_str(),
        b.description.as_str(),
    ))
}

proof fn lemma_insert_device_at(sorted: Seq<DeviceView>, d: DeviceView, j: int)
    requires
        0 <= j <= sorted.len(),
        j > 0 ==> listed_before(sorted[j - 1], d),
        forall|k: int| j <= k < sorted.len() ==> !listed_before(#[trigger] sorted[k], d),
    ensures
        insert_device(sorted, d) == sorted.take(j) + seq![d] + sorted.skip(j),
    decreases sorted.len(),
{
    if sorted.len() == 0 {
        assert(sorted.take(j) + seq![d] + sorted.skip(j) =~= seq![d]);
    } else if j == sorted.len() {
        assert(sorted.take(j) + seq![d] + sorted.skip(j) =~= sorted.push(d));
    } else {
        let last = sorted.last();
        assert(!listed_before(sorted[sorted.len() - 1], d));
        let t = sorted.drop_last();
        assert forall|k: int| j <= k < t.len() implies !listed_before(#[trigger] t[k], d) by {
            assert(t[k] == sorted[k]);
        }
        if j > 0 {
            assert(t[j - 1] == sorted[j - 1]);
        }
        lemma_insert_device_at(t, d, j);
        assert(t.take(j) + seq![d] + t.skip(j) + seq![last] =~= sorted.take(j) + seq![d]
            + sorted.skip(j));
    }
}

/// Inserts an output into a list in listing order.
fn insert_device_exec(sorted: &mut Vec<DeviceInfo>, d: DeviceInfo)
    ensures
        device_views(final(sorted)@) == insert_device(device_views(old(sorted)@), d@),
{
    let ghost before = sorted@;
    let mut j = sorted.len();
    while j > 0 && !listed_before_exec(&sorted[j - 1], &d)
        invariant
            j <= sorted@.len(),
            sorted@ == before,
            forall|k: int| j <= k < sorted@.len() ==> !listed_before(#[trigger] sorted@[k]@, d@),
        decreases j,
    {
        j -= 1;
    }
    let ghost dv = d@;
    proof {
        let v = device_views(before);
        assert forall|k: int| j <= k < v.len() implies !listed_before(#[trigger] v[k], dv) by {
            assert(v[k] == before[k]@);
        }
        if j > 0 {
            assert(v[j - 1] == before[j - 1]@);
        }
        lemma_insert_device_at(v, dv, j as int);
    }
    sorted.insert(j, d);
    proof {
        let v = device_views(before);
        assert(device_views(sorted@) =~= v.take(j as int) + seq![dv] + v.skip(j as int)) by {
            assert forall|k: int| 0 <= k < sorted@.len() implies #[trigger] device_views(sorted@)[k]
                == (v.take(j as int) + seq![dv] + v.skip(j as int))[k] by {
                if k < j {
                    assert(sorted@[k] == before[k]);
                } else if k > j {
                    assert(sorted@[k] == before[k - 1]);
                }
            }
        }
    }
}

/// The outputs of a list in listing order (see [`sort_devices`]).
pub fn sort_outputs(devices: Vec<DeviceInfo>) -> (r: Vec<DeviceInfo>)
    ensures
        device_views(r@) == sort_devices(device_views(devices@)),
{
    let ghost all = device_views(devices@);
    let ghost n = devices@.len();
    let mut rest = devices;
    let mut reversed: Vec<DeviceInfo> = Vec::new();
    while rest.len() > 0
        invariant
            rest@.len() <= n,
            all.len() == n,
            device_views(rest@) == all.take(rest@.len() as int),
            device_views(reversed@) == all.skip(rest@.len() as int).reverse(),
        decreases rest.len(),
    {
        let ghost m = rest@.len() as int;
        let ghost old_rev = device_views(reversed@);
        let d = rest.pop().unwrap();
        proof {
            assert(d@ == all[m - 1]) by {
                assert(device_views(rest@.push(d))[m - 1] == all.take(m)[m - 1]);
            }
            assert(device_views(rest@) =~= all.take(m - 1)) by {
                assert forall|k: int| 0 <= k < m - 1 implies #[trigger] device_views(rest@)[k]
                    == all.take(m - 1)[k] by {
                    assert(device_views(rest@.push(d))[k] == all.take(m)[k]);
                }
            }
        }
        reversed.push(d);
        proof {
            assert forall|q: int| 0 <= q < device_views(reversed@).len() implies #[trigger] device_views(reversed@)[q]
                == all.skip(m - 1).reverse()[q] by {
                if q < old_rev.len() {
                    assert(device_views(reversed@)[q] == old_rev[q]);
                    assert(old_rev[q] == all[n - 1 - q]);
                } else {
                    assert(device_views(reversed@)[q] == d@);
                }
            }
            assert(old_rev.len() == n - m);
            assert(device_views(reversed@).len() == n - m + 1);
            assert(device_views(reversed@) =~= all.skip(m - 1).reverse());
        }
    }
    let mut sorted: Vec<DeviceInfo> = Vec::new();
    proof {
        assert(all.take(0) =~= Seq::<DeviceView>::empty());
        assert(device_views(sorted@) =~= Seq::<DeviceView>::empty());
    }
    while reversed.len() > 0
        invariant
            reversed@.len() <= n,
            all.len() == n,
            device_views(reversed@) == all.skip(n - reversed@.len()).reverse(),
            device_views(sorted@) == sort_devices(all.take(n - reversed@.len())),
        decreases reversed.len(),
    {
        let ghost k = n - reversed@.len();
        let d = reversed.pop().unwrap();
        proof {
            let m = reversed@.len() as int;
            assert(d@ == all[k]) by {
                assert(device_views(reversed@.push(d))[m] == all.skip(k).reverse()[m]);
            }
            assert(device_views(reversed@) =~= all.skip(k + 1).reverse()) by {
                assert forall|q: int| 0 <= q < m implies #[trigger] device_views(reversed@)[q]
                    == all.skip(k + 1).reverse()[q] by {
                    assert(device_views(reversed@.push(d))[q] == all.skip(k).reverse()[q]);
                }
            }
            assert(all.take(k + 1).drop_last() =~= all.take(k));
        }
        insert_device_exec(&mut sorted, d);
    }
    proof {
        assert(all.take(n as int) =~= all);
    }
    sorted
}

// ---------------------------------------------------------------------------
// Merging the outputs found with the outputs the library remembers.

/// What is remembered of an output.
pub open spec fn remembered_of(d: DeviceView) -> RememberedView {
    RememberedView {
        key: d.key,
        node_name: d.node_name,
        description: d.description,
        channels: d.channels,
    }
}

/// The remembered outputs after each output of a list is remembered in turn.
pub open spec fn remember_all(m: Map<Seq<char>, RememberedView>, devices: Seq<DeviceView>) -> Map<
    Seq<char>,
    RememberedView,
>
    decreases devices.len(),
{
    if devices.len() == 0 {
        m
    } else {
        remember_all(m, devices.drop_last()).insert(
            storage_key(devices.last().key),
            remembered_of(devices.last()),
        )
    }
}

/// The remembered outputs, with those of the keys in `keys` that only an
/// assignment or a bypass names, when the key spells an output.
pub open spec fn with_named(
    m: Map<Seq<char>, RememberedView>,
    keys: Set<Seq<char>>,
) -> Map<Seq<char>, RememberedView> {
    Map::new(
        |k: Seq<char>| m.contains_key(k) || (keys.contains(k) && remembered_from_key(k) is Some),
        |k: Seq<char>|
            if m.contains_key(k) {
                m[k]
            } else {
                remembered_from_key(k)->0
            },
    )
}

/// The keys that an assignment or a bypass names.
pub open spec fn named_keys(lib: LibraryView) -> Set<Seq<char>> {
    lib.assignments.dom().union(lib.bypassed)
}

/// The storage keys of a list of outputs.
pub open spec fn keys_of(devices: Seq<DeviceView>) -> Set<Seq<char>> {
    Set::new(|k: Seq<char>| exists|i: int| 0 <= i < devices.len() && storage_key(#[trigger] devices[i].key) == k)
}

/// A remembered output that is not connected, with its assignment and bypass.
pub open spec fn offline_view(k: Seq<char>, r: RememberedView, lib: LibraryView) -> DeviceView {
    DeviceView {
        key: r.key,
        node_name: r.node_name,
        description: r.description,
        channels: r.channels,
        connected: false,
        assigned_profile: if lib.assignments.contains_key(k) {
            Some(lib.assignments[k])
        } else {
            None
        },
        bypassed: lib.bypassed.contains(k),
    }
}

/// The remembered outputs of a list whose keys are not connected, in order.
pub open spec fn disconnected(
    entries: Seq<(String, RememberedDevice)>,
    connected: Set<Seq<char>>,
    lib: LibraryView,
) -> Seq<DeviceView>
    decreases entries.len(),
{
    if entries.len() == 0 {
        Seq::empty()
    } else {
        let rest = disconnected(entries.drop_last(), connected, lib);
        let e = entries.last();
        if connected.contains(e.0@) {
            rest
        } else {
            rest.push(offline_view(e.0@, e.1@, lib))
        }
    }
}

/// The library once the connected outputs are remembered, and the outputs
/// that assignments and bypasses name are remembered from their keys.
pub open spec fn merged_library(old: LibraryView, connected: Seq<DeviceView>) -> LibraryView {
    LibraryView {
        remembered: with_named(remember_all(old.remembered, connected), named_keys(old)),
        ..old
    }
}

/// Extends the set of keys considered by one key.
proof fn lemma_with_named_step(
    m: Map<Seq<char>, RememberedView>,
    keys: Set<Seq<char>>,
    current: Map<Seq<char>, RememberedView>,
    k: Seq<char>,
)
    requires
        current == with_named(m, keys),
    ensures
        current.contains_key(k) ==> with_named(m, keys.insert(k)) == current,
        !current.contains_key(k) && remembered_from_key(k) is None ==> with_named(m, keys.insert(k))
            == current,
        !current.contains_key(k) && remembered_from_key(k) is Some ==> with_named(m, keys.insert(k))
            == current.insert(k, remembered_from_key(k)->0),
{
    if current.contains_key(k) {
        assert(with_named(m, keys.insert(k)) =~= current);
    }
    if !current.contains_key(k) && remembered_from_key(k) is None {
        assert(with_named(m, keys.insert(k)) =~= current);
    }
    if !current.contains_key(k) && remembered_from_key(k) is Some {
        assert(with_named(m, keys.insert(k)) =~= current.insert(k, remembered_from_key(k)->0));
    }
}

/// Remembers the output named by key `k`, when only an assignment or a bypass
/// names it and the key spells an output.
fn remember_named(library: &mut Library, k: &String, Ghost(m): Ghost<Map<Seq<char>, RememberedView>>, Ghost(keys): Ghost<Set<Seq<char>>>)
    requires
        old(library).wf(),
        old(library)@.remembered == with_named(m, keys),
    ensures
        final(library).wf(),
        final(library)@ == (LibraryView { remembered: with_named(m, keys.insert(k@)), ..old(library)@ }),
        final(library).assignments@ == old(library).assignments@,
        final(library).bypassed_devices@ == old(library).bypassed_devices@,
{
    proof {
        lemma_with_named_step(m, keys, library@.remembered, k@);
    }
    if find_entry(&library.remembered_devices, k.as_str()).is_none() {
        match remembered_from_storage_key(k.as_str()) {
            Some(r) => {
                set_entry(&mut library.remembered_devices, k.clone(), r);
            },
            None => {},
        }
    }
}

/// Merges the connected outputs with the library: each connected output is
/// remembered, the outputs that assignments and bypasses name are remembered
/// from their keys (see [`merged_library`]), and the connected outputs, then the
/// remembered ones that are not connected, are listed in listing order.
pub fn merge_devices(library: &mut Library, connected: Vec<DeviceInfo>) -> (r: Vec<DeviceInfo>)
    requires
        old(library).wf(),
    ensures
        final(library).wf(),
        final(library)@ == merged_library(old(library)@, device_views(connected@)),
        device_views(r@) == sort_devices(
            device_views(connected@) + disconnected(
                final(library).remembered_devices@,
                keys_of(device_views(connected@)),
                old(library)@,
            ),
        ),
{
    let ghost start = library@;
    let ghost views = device_views(connected@);
    let mut keys: Vec<String> = Vec::new();
    let mut i: usize = 0;
    proof {
        assert(views.take(0) =~= Seq::<DeviceView>::empty());
    }
    while i < connected.len()
        invariant
            i <= connected.len(),
            views == device_views(connected@),
            library.wf(),
            library@ == (LibraryView {
                remembered: remember_all(start.remembered, views.take(i as int)),
                ..start
            }),
            keys@.len() == i,
            forall|j: int| 0 <= j < i ==> (#[trigger] keys@[j])@ == storage_key(connected@[j].key@),
        decreases connected.len() - i,
    {
        let k = connected[i].key.as_storage_key();
        keys.push(k.clone());
        let r = RememberedDevice::from_device(&connected[i]);
        set_entry(&mut library.remembered_devices, k, r);
        proof {
            assert(views.take(i + 1).drop_last() =~= views.take(i as int));
            assert(views[i as int] == connected@[i as int]@);
        }
        i += 1;
    }
    proof {
        assert(views.take(i as int) =~= views);
    }
    let ghost m = library@.remembered;
    proof {
        assert(with_named(m, Set::empty()) =~= m);
    }
    let ghost mut seen = Set::<Seq<char>>::empty();
    let mut a: usize = 0;
    while a < library.assignments.len()
        invariant
            a <= library.assignments.len(),
            library.wf(),
            library@ == (LibraryView { remembered: with_named(m, seen), ..start }),
            seen == Set::new(|k: Seq<char>| exists|j: int| 0 <= j < a && (#[trigger] library.assignments@[j]).0@ == k),
        decreases library.assignments.len() - a,
    {
        let k = library.assignments[a].0.clone();
        let ghost before = library.assignments@;
        remember_named(library, &k, Ghost(m), Ghost(seen));
        proof {
            assert(library.assignments@ == before);
            seen = seen.insert(k@);
            assert(seen =~= Set::new(|kk: Seq<char>| exists|j: int| 0 <= j < a + 1 && (#[trigger] library.assignments@[j]).0@ == kk));
        }
        a += 1;
    }
    proof {
        assert(seen =~= start.assignments.dom()) by {
            assert forall|kk: Seq<char>| seen.contains(kk) implies start.assignments.dom().contains(kk) by {
                let j = choose|j: int| 0 <= j < a && (#[trigger] library.assignments@[j]).0@ == kk;
                assert(has_entry(library.assignments@, kk));
            }
            assert forall|kk: Seq<char>| start.assignments.dom().contains(kk) implies seen.contains(kk) by {
                let j = entry_index(library.assignments@, kk);
                assert(library.assignments@[j].0@ == kk);
            }
        }
    }
    let ghost named_a = seen;
    let mut b: usize = 0;
    while b < library.bypassed_devices.len()
        invariant
            b <= library.bypassed_devices.len(),
            library.wf(),
            library@ == (LibraryView { remembered: with_named(m, seen), ..start }),
            seen == named_a.union(Set::new(|k: Seq<char>| exists|j: int| 0 <= j < b && (#[trigger] library.bypassed_devices@[j])@ == k)),
        decreases library.bypassed_devices.len() - b,
    {
        let k = library.bypassed_devices[b].clone();
        let ghost before = library.bypassed_devices@;
        remember_named(library, &k, Ghost(m), Ghost(seen));
        proof {
            assert(library.bypassed_devices@ == before);
            seen = seen.insert(k@);
            assert(seen =~= named_a.union(Set::new(|kk: Seq<char>| exists|j: int| 0 <= j < b + 1 && (#[trigger] library.bypassed_devices@[j])@ == kk)));
        }
        b += 1;
    }
    proof {
        assert(seen =~= named_keys(start)) by {
            assert forall|kk: Seq<char>| seen.contains(kk) == named_keys(start).contains(kk) by {
                if has_text(library.bypassed_devices@, kk) {
                    let j = choose|j: int| 0 <= j < library.bypassed_devices@.len() && (#[trigger] library.bypassed_devices@[j])@ == kk;
                    assert(0 <= j < b);
                }
            }
        }
    }
    // The outputs to list.
    let ghost ck = keys_of(views);
    let mut devices = connected;
    let mut e: usize = 0;
    proof {
        assert(library.remembered_devices@.take(0) =~= Seq::<(String, RememberedDevice)>::empty());
        assert(device_views(devices@) + Seq::<DeviceView>::empty() =~= views);
    }
    while e < library.remembered_devices.len()
        invariant
            e <= library.remembered_devices.len(),
            library.wf(),
            library@ == merged_library(start, views),
            ck == keys_of(views),
            keys@.len() == views.len(),
            forall|j: int| 0 <= j < keys@.len() ==> (#[trigger] keys@[j])@ == storage_key(views[j].key),
            device_views(devices@) == views + disconnected(
                library.remembered_devices@.take(e as int),
                ck,
                start,
            ),
        decreases library.remembered_devices.len() - e,
    {
        let k = library.remembered_devices[e].0.as_str();
        let is_connected = find_text(&keys, k).is_some();
        proof {
            let t = library.remembered_devices@.take(e + 1);
            assert(t.drop_last() =~= library.remembered_devices@.take(e as int));
            assert(t.last() == library.remembered_devices@[e as int]);
            if is_connected {
                let j = choose|j: int| 0 <= j < keys@.len() && (#[trigger] keys@[j])@ == k@;
                assert(storage_key(views[j].key) == k@);
                assert(ck.contains(k@));
            }
            if ck.contains(k@) {
                assert(exists|j: int| 0 <= j < views.len() && storage_key(#[trigger] views[j].key) == k@);
                let j = choose|j: int| 0 <= j < views.len() && storage_key(#[trigger] views[j].key) == k@;
                assert(0 <= j < keys@.len());
                assert(keys@[j]@ == storage_key(views[j].key));
                assert(has_text(keys@, k@));
            }
            assert(is_connected == ck.contains(k@));
        }
        if !is_connected {
            let r = &library.remembered_devices[e].1;
            let d = DeviceInfo {
                key: r.key.duplicate(),
                node_name: r.node_name.clone(),
                description: r.description.clone(),
                channels: r.channels,
                connected: false,
                assigned_profile: library.assignment(k),
                bypassed: library.is_bypassed(k),
            };
            let ghost before = devices@;
            devices.push(d);
            proof {
                assert(device_views(devices@) =~= device_views(before).push(d@));
            }
        }
        e += 1;
    }
    proof {
        assert(library.remembered_devices@.take(e as int) =~= library.remembered_devices@);
    }
    sort_outputs(devices)
}

/// The outputs that a list of graph objects holds, in order.
pub open spec fn nodes_devices(objects: Seq<PwObject>, lib: LibraryView) -> Seq<DeviceView>
    decreases objects.len(),
{
    if objects.len() == 0 {
        Seq::empty()
    } else {
        let rest = nodes_devices(objects.drop_last(), lib);
        match node_device(objects.last(), lib) {
            Some(d) => rest.push(d),
            None => rest,
        }
    }
}

/// The outputs of the PipeWire graph, merged with the library (see
/// [`merge_devices`]).
pub fn discover_devices(library: &mut Library, objects: &Vec<PwObject>) -> (r: Vec<DeviceInfo>)
    requires
        old(library).wf(),
    ensures
        final(library).wf(),
        final(library)@ == merged_library(old(library)@, nodes_devices(objects@, old(library)@)),
        device_views(r@) == sort_devices(
            nodes_devices(objects@, old(library)@) + disconnected(
                final(library).remembered_devices@,
                keys_of(nodes_devices(objects@, old(library)@)),
                old(library)@,
            ),
        ),
{
    let mut connected: Vec<DeviceInfo> = Vec::new();
    let mut i: usize = 0;
    while i < objects.len()
        invariant
            i <= objects.len(),
            library.wf(),
            device_views(connected@) == nodes_devices(objects@.take(i as int), library@),
        decreases objects.len() - i,
    {
        proof {
            assert(objects@.take(i + 1).drop_last() =~= objects@.take(i as int));
            assert(objects@.take(i + 1).last() == objects@[i as int]);
        }
        match device_from_object(&objects[i], library) {
            Some(d) => {
                let ghost before = connected@;
                connected.push(d);
                proof {
                    assert(device_views(connected@) =~= device_views(before).push(d@));
                }
            },
            None => {},
        }
        i += 1;
    }
    proof {
        assert(objects@.take(i as int) =~= objects@);
    }
    merge_devices(library, connected)
}

} // verus!

