use vstd::prelude::*;
use crate::decimal::{Decimal, Number};

verus! {

/// Per-channel filter limit that a profile may not exceed.
pub const MAX_FILTERS_PER_CHANNEL: usize = 64;

/// Limit on the total number of GraphicEQ points in one profile.
pub const MAX_GRAPHIC_POINTS: usize = 4096;

/// Deepest permitted `Include:` nesting.
pub const MAX_INCLUDE_DEPTH: usize = 16;

/// One physical output channel of a stereo profile.
#[derive(Debug, Clone, Copy, PartialEq, Eq, Structural)]
pub enum Channel {
    Left,
    Right,
}

/// The channels that a profile command applies to.
#[derive(Debug, Clone, Copy, PartialEq, Eq, Structural)]
pub enum ChannelSelection {
    All,
    Left,
    Right,
}

impl ChannelSelection {
    /// Whether a selection covers a channel.
    pub open spec fn spec_contains(self, channel: Channel) -> bool {
        match self {
            ChannelSelection::All => true,
            ChannelSelection::Left => channel == Channel::Left,
            ChannelSelection::Right => channel == Channel::Right,
        }
    }

    pub fn contains(self, channel: Channel) -> (r: bool)
        ensures
            r == self.spec_contains(channel),
    {
        match self {
            ChannelSelection::All => true,
            ChannelSelection::Left => match channel {
                Channel::Left => true,
                Channel::Right => false,
            },
            ChannelSelection::Right => match channel {
                Channel::Left => false,
                Channel::Right => true,
            },
        }
    }
}

/// The supported biquad filter families.
#[derive(Debug, Clone, Copy, PartialEq, Eq, Structural)]
pub enum FilterKind {
    Peaking,
    LowShelf,
    HighShelf,
    LowPass,
    HighPass,
    BandPass,
    Notch,
    AllPass,
}

impl FilterKind {
    /// The canonical Equalizer APO spelling of a filter family.
    pub open spec fn spec_apo_name(self) -> Seq<char> {
        match self {
            FilterKind::Peaking => seq!['P', 'K'],
            FilterKind::LowShelf => seq!['L', 'S', 'C'],
            FilterKind::HighShelf => seq!['H', 'S', 'C'],
            FilterKind::LowPass => seq!['L', 'P', 'Q'],
            FilterKind::HighPass => seq!['H', 'P', 'Q'],
            FilterKind::BandPass => seq!['B', 'P'],
            FilterKind::Notch => seq!['N', 'O'],
            FilterKind::AllPass => seq!['A', 'P'],
        }
    }

    pub fn apo_name(self) -> (r: &'static str)
        ensures
            r@ == self.spec_apo_name(),
    {
        let r = match self {
            FilterKind::Peaking => "PK",
            FilterKind::LowShelf => "LSC",
            FilterKind::HighShelf => "HSC",
            FilterKind::LowPass => "LPQ",
            FilterKind::HighPass => "HPQ",
            FilterKind::BandPass => "BP",
            FilterKind::Notch => "NO",
            FilterKind::AllPass => "AP",
        };
        proof {
            reveal_strlit("PK");
            reveal_strlit("LSC");
            reveal_strlit("HSC");
            reveal_strlit("LPQ");
            reveal_strlit("HPQ");
            reveal_strlit("BP");
            reveal_strlit("NO");
            reveal_strlit("AP");
        }
        r
    }
}

impl FilterKind {
    /// The label of the PipeWire builtin filter that implements a family.
    pub open spec fn spec_pipewire_label(self) -> Seq<char> {
        match self {
            FilterKind::Peaking => "bq_peaking"@,
            FilterKind::LowShelf => "bq_lowshelf"@,
            FilterKind::HighShelf => "bq_highshelf"@,
            FilterKind::LowPass => "bq_lowpass"@,
            FilterKind::HighPass => "bq_highpass"@,
            FilterKind::BandPass => "bq_bandpass"@,
            FilterKind::Notch => "bq_notch"@,
            FilterKind::AllPass => "bq_allpass"@,
        }
    }

    pub fn pipewire_label(self) -> (r: &'static str)
        ensures
            r@ == self.spec_pipewire_label(),
    {
        match self {
            FilterKind::Peaking => "bq_peaking",
            FilterKind::LowShelf => "bq_lowshelf",
            FilterKind::HighShelf => "bq_highshelf",
            FilterKind::LowPass => "bq_lowpass",
            FilterKind::HighPass => "bq_highpass",
            FilterKind::BandPass => "bq_bandpass",
            FilterKind::Notch => "bq_notch",
            FilterKind::AllPass => "bq_allpass",
        }
    }
}

/// How a filter's Q was given: directly, as a bandwidth in octaves, or not
/// at all (the Butterworth Q of one over the square root of two).
#[derive(Debug, Clone, Copy, PartialEq, Eq, Structural)]
pub enum QFactor {
    Value(Decimal),
    BandwidthOctaves(Decimal),
    Butterworth,
}

/// One parametric filter band.
#[derive(Debug, Clone, Copy, PartialEq, Eq, Structural)]
pub struct Filter {
    pub enabled: bool,
    pub kind: FilterKind,
    pub frequency: Decimal,
    pub gain_db: Decimal,
    pub q: QFactor,
    pub channels: ChannelSelection,
}

/// One GraphicEQ point.
#[derive(Debug, Clone, Copy, PartialEq, Eq, Structural)]
pub struct GraphicPoint {
    pub frequency: Number,
    pub gain_db: Number,
}

/// A GraphicEQ curve, its points ordered by frequency.
#[derive(Debug, Clone)]
pub struct GraphicEq {
    pub channels: ChannelSelection,
    pub points: Vec<GraphicPoint>,
}

/// A convolution impulse response referenced by path.
#[derive(Debug, Clone)]
pub struct Convolution {
    pub channels: ChannelSelection,
    pub path: String,
}

/// A preamp gain for some channels.
#[derive(Debug, Clone, Copy, PartialEq, Eq, Structural)]
pub struct ChannelGain {
    pub channels: ChannelSelection,
    pub gain_db: Number,
}

#[derive(Debug, Clone, Copy, PartialEq, Eq, Structural)]
pub enum DiagnosticLevel {
    Warning,
    Error,
}

/// A problem found in profile text, with the line it was found on.
#[derive(Debug, Clone)]
pub struct Diagnostic {
    pub level: DiagnosticLevel,
    pub line: usize,
    pub source: String,
    pub message: String,
}

/// The mathematical content of a diagnostic.
pub struct DiagnosticView {
    pub level: DiagnosticLevel,
    pub line: nat,
    pub source: Seq<char>,
    pub message: Seq<char>,
}

impl View for Diagnostic {
    type V = DiagnosticView;

    open spec fn view(&self) -> DiagnosticView {
        DiagnosticView {
            level: self.level,
            line: self.line as nat,
            source: self.source@,
            message: self.message@,
        }
    }
}

/// A parsed equalizer profile.
#[derive(Debug, Clone)]
pub struct ProfileDocument {
    pub name: String,
    pub preamps: Vec<ChannelGain>,
    pub filters: Vec<Filter>,
    pub graphic_eqs: Vec<GraphicEq>,
    pub convolutions: Vec<Convolution>,
    pub diagnostics: Vec<Diagnostic>,
}

/// The mathematical content of a profile document.
pub struct DocumentView {
    pub name: Seq<char>,
    pub preamps: Seq<ChannelGain>,
    pub filters: Seq<Filter>,
    pub graphic_eqs: Seq<(ChannelSelection, Seq<GraphicPoint>)>,
    pub convolutions: Seq<(ChannelSelection, Seq<char>)>,
    pub diagnostics: Seq<DiagnosticView>,
}

impl View for ProfileDocument {
    type V = DocumentView;

    open spec fn view(&self) -> DocumentView {
        DocumentView {
            name: self.name@,
            preamps: self.preamps@,
            filters: self.filters@,
            graphic_eqs: Seq::new(
                self.graphic_eqs@.len(),
                |i: int| (self.graphic_eqs@[i].channels, self.graphic_eqs@[i].points@),
            ),
            convolutions: Seq::new(
                self.convolutions@.len(),
                |i: int| (self.convolutions@[i].channels, self.convolutions@[i].path@),
            ),
            diagnostics: Seq::new(self.diagnostics@.len(), |i: int| self.diagnostics@[i]@),
        }
    }
}

/// Whether no diagnostic of a list is an error.
pub open spec fn no_errors(diagnostics: Seq<DiagnosticView>) -> bool {
    forall|i: int| 0 <= i < diagnostics.len() ==> diagnostics[i].level != DiagnosticLevel::Error
}

/// The filters of a list that target a channel, in order.
pub open spec fn filters_for_channel(filters: Seq<Filter>, channel: Channel) -> Seq<Filter> {
    filters.filter(|f: Filter| f.channels.spec_contains(channel))
}

impl ProfileDocument {
    /// A document with a name and no content.
    pub fn empty(name: String) -> (r: Self)
        ensures
            r@.name == name@,
            r@.preamps.len() == 0,
            r@.filters.len() == 0,
            r@.graphic_eqs.len() == 0,
            r@.convolutions.len() == 0,
            r@.diagnostics.len() == 0,
    {
        ProfileDocument {
            name,
            preamps: Vec::new(),
            filters: Vec::new(),
            graphic_eqs: Vec::new(),
            convolutions: Vec::new(),
            diagnostics: Vec::new(),
        }
    }

    /// A profile may be activated exactly when no diagnostic is an error.
    pub fn is_activatable(&self) -> (r: bool)
        ensures
            r == no_errors(self@.diagnostics),
    {
        let mut i: usize = 0;
        while i < self.diagnostics.len()
            invariant
                i <= self.diagnostics.len(),
                forall|j: int|
                    0 <= j < i ==> self.diagnostics@[j].level != DiagnosticLevel::Error,
            decreases self.diagnostics.len() - i,
        {
            match self.diagnostics[i].level {
                DiagnosticLevel::Error => {
                    proof {
                        assert(self@.diagnostics[i as int].level == DiagnosticLevel::Error);
                    }
                    return false;
                },
                DiagnosticLevel::Warning => {},
            }
            i += 1;
        }
        proof {
            assert forall|j: int| 0 <= j < self@.diagnostics.len() implies self@.diagnostics[j].level
                != DiagnosticLevel::Error by {
                assert(self@.diagnostics[j] == self.diagnostics@[j]@);
            }
        }
        true
    }

    /// The filters that target a channel, in document order.
    pub fn filters_for(&self, channel: Channel) -> (r: Vec<Filter>)
        ensures
            r@ == filters_for_channel(self@.filters, channel),
    {
        let mut r: Vec<Filter> = Vec::new();
        let mut i: usize = 0;
        while i < self.filters.len()
            invariant
                i <= self.filters.len(),
                r@ == filters_for_channel(self.filters@.take(i as int), channel),
            decreases self.filters.len() - i,
        {
            let f = self.filters[i];
            proof {
                assert(self.filters@.take(i + 1).drop_last() =~= self.filters@.take(i as int));
                reveal(Seq::filter);
            }
            if f.channels.contains(channel) {
                r.push(f);
            }
            i += 1;
        }
        proof {
            assert(self.filters@.take(self.filters.len() as int) =~= self.filters@);
        }
        r
    }
}

// ---------------------------------------------------------------------------
// Output devices.

/// The stable identity of an output: its audio backend, a stable identifier
/// within the backend (a Bluetooth address, a serial number, ...) and its route.
#[derive(Debug, Clone)]
pub struct DeviceKey {
    pub backend: String,
    pub stable_id: String,
    pub route: String,
}

pub struct DeviceKeyView {
    pub backend: Seq<char>,
    pub stable_id: Seq<char>,
    pub route: Seq<char>,
}

impl View for DeviceKey {
    type V = DeviceKeyView;

    open spec fn view(&self) -> DeviceKeyView {
        DeviceKeyView { backend: self.backend@, stable_id: self.stable_id@, route: self.route@ }
    }
}

/// The text under which a device's settings are stored: its three key parts
/// joined by `|`.
pub open spec fn storage_key(key: DeviceKeyView) -> Seq<char> {
    key.backend + "|"@ + key.stable_id + "|"@ + key.route
}

impl DeviceKey {
    pub fn as_storage_key(&self) -> (r: String)
        ensures
            r@ == storage_key(self@),
    {
        let mut r = self.backend.clone();
        r.append("|");
        r.append(self.stable_id.as_str());
        r.append("|");
        r.append(self.route.as_str());
        r
    }

    /// A copy of the key.
    pub fn duplicate(&self) -> (r: Self)
        ensures
            r@ == self@,
    {
        DeviceKey {
            backend: self.backend.clone(),
            stable_id: self.stable_id.clone(),
            route: self.route.clone(),
        }
    }
}

/// A playback output as the service reports it.
#[derive(Debug, Clone)]
pub struct DeviceInfo {
    pub key: DeviceKey,
    pub node_name: String,
    pub description: String,
    pub channels: u32,
    pub connected: bool,
    pub assigned_profile: Option<String>,
    pub bypassed: bool,
}

pub struct DeviceView {
    pub key: DeviceKeyView,
    pub node_name: Seq<char>,
    pub description: Seq<char>,
    pub channels: u32,
    pub connected: bool,
    pub assigned_profile: Option<Seq<char>>,
    pub bypassed: bool,
}

/// The text of an optional string.
pub open spec fn opt_text(o: Option<String>) -> Option<Seq<char>> {
    match o {
        Some(s) => Some(s@),
        None => None,
    }
}

impl View for DeviceInfo {
    type V = DeviceView;

    open spec fn view(&self) -> DeviceView {
        DeviceView {
            key: self.key@,
            node_name: self.node_name@,
            description: self.description@,
            channels: self.channels,
            connected: self.connected,
            assigned_profile: opt_text(self.assigned_profile),
            bypassed: self.bypassed,
        }
    }
}

/// What is remembered of an output while it is disconnected.
#[derive(Debug, Clone)]
pub struct RememberedDevice {
    pub key: DeviceKey,
    pub node_name: String,
    pub description: String,
    pub channels: u32,
}

pub struct RememberedView {
    pub key: DeviceKeyView,
    pub node_name: Seq<char>,
    pub description: Seq<char>,
    pub channels: u32,
}

impl View for RememberedDevice {
    type V = RememberedView;

    open spec fn view(&self) -> RememberedView {
        RememberedView {
            key: self.key@,
            node_name: self.node_name@,
            description: self.description@,
            channels: self.channels,
        }
    }
}

impl RememberedDevice {
    /// What is remembered of a device.
    pub fn from_device(device: &DeviceInfo) -> (r: Self)
        ensures
            r@ == (RememberedView {
                key: device.key@,
                node_name: device.node_name@,
                description: device.description@,
                channels: device.channels,
            }),
    {
        RememberedDevice {
            key: device.key.duplicate(),
            node_name: device.node_name.clone(),
            description: device.description.clone(),
            channels: device.channels,
        }
    }
}

/// A bank of profiles that an output switches between to compare them.
#[derive(Debug, Clone, PartialEq, Eq)]
pub struct ComparisonSet {
    pub profile_ids: Vec<String>,
    pub active_profile_id: String,
    pub enabled: bool,
}

pub struct ComparisonView {
    pub profile_ids: Seq<Seq<char>>,
    pub active_profile_id: Seq<char>,
    pub enabled: bool,
}

/// The text of each string of a list.
pub open spec fn texts_of(v: Seq<String>) -> Seq<Seq<char>> {
    Seq::new(v.len(), |i: int| v[i]@)
}

impl View for ComparisonSet {
    type V = ComparisonView;

    open spec fn view(&self) -> ComparisonView {
        ComparisonView {
            profile_ids: texts_of(self.profile_ids@),
            active_profile_id: self.active_profile_id@,
            enabled: self.enabled,
        }
    }
}

/// A copy of a list of strings.
pub fn copy_strings(v: &Vec<String>) -> (r: Vec<String>)
    ensures
        texts_of(r@) == texts_of(v@),
{
    let mut r: Vec<String> = Vec::new();
    let mut i: usize = 0;
    while i < v.len()
        invariant
            i <= v.len(),
            r.len() == i,
            texts_of(r@) == texts_of(v@.take(i as int)),
        decreases v.len() - i,
    {
        let ghost before = r@;
        let item = v[i].clone();
        r.push(item);
        proof {
            assert(before.len() == i);
            assert(r@[i as int] == v@[i as int]);
            assert forall|j: int| 0 <= j < i + 1 implies #[trigger] texts_of(r@)[j] == texts_of(
                v@.take(i + 1),
            )[j] by {
                if j < i {
                    assert(r@[j] == before[j]);
                    assert(texts_of(before)[j] == texts_of(v@.take(i as int))[j]);
                }
            }
            assert(texts_of(r@) =~= texts_of(v@.take(i + 1)));
        }
        i += 1;
    }
    proof {
        assert(v@.take(v.len() as int) =~= v@);
    }
    r
}

impl ComparisonSet {
    /// A copy of the bank.
    pub fn duplicate(&self) -> (r: Self)
        ensures
            r@ == self@,
    {
        ComparisonSet {
            profile_ids: copy_strings(&self.profile_ids),
            active_profile_id: self.active_profile_id.clone(),
            enabled: self.enabled,
        }
    }
}

} // verus!
