use vstd::prelude::*;
use crate::decimal::{decimal_text, number_text};
use crate::model::{ChannelSelection, DocumentView, ProfileDocument};
use crate::parser::{path_join, path_joined};
use crate::text::chars_of;

verus! {

// ---------------------------------------------------------------------------
// What stops a profile from being compiled for an output.

/// Why an impulse response cannot be used.
#[derive(Debug, Clone, PartialEq, Eq)]
pub enum IrError {
    Open { path: String, message: String },
    Decode { path: String, message: String },
    Empty,
    TooLong,
    NonFinite,
    InvalidRate(u32),
    Resample(String),
}

/// Why a profile cannot be compiled. Errors in the design of a filter or a
/// GraphicEQ carry the text that describes them.
#[derive(Debug, Clone, PartialEq, Eq)]
pub enum CompileError {
    ParserErrors,
    MixedProcessingModes,
    PerEarOnMono,
    UnsupportedChannels(u32),
    InvalidSampleRate(u32),
    InvalidQuantum(u32),
    Filter(String),
    Graphic(String),
    Convolution(IrError),
    MissingAsset(String),
    AssetOutsideProfile(String),
    NonFiniteResponse,
}

/// The text that describes an impulse response error.
pub open spec fn ir_error_message(e: IrError) -> Seq<char> {
    match e {
        IrError::Open { path, message } => "could not open impulse response "@ + path@ + ": "@
            + message@,
        IrError::Decode { path, message } => "could not decode impulse response "@ + path@
            + ": "@ + message@,
        IrError::Empty => "impulse response is empty"@,
        IrError::TooLong => "impulse response is longer than 10 seconds"@,
        IrError::NonFinite => "impulse response contains a non-finite sample"@,
        IrError::InvalidRate(rate) => "invalid target sample rate "@ + decimal_text(rate as nat),
        IrError::Resample(message) => "impulse response resampling failed: "@ + message@,
    }
}

/// The text that describes a compile error.
pub open spec fn compile_error_message(e: CompileError) -> Seq<char> {
    match e {
        CompileError::ParserErrors => "profile contains parser errors"@,
        CompileError::MixedProcessingModes =>
            "parametric/GraphicEQ processing and convolution cannot be active in the same profile"@,
        CompileError::PerEarOnMono => "per-ear profiles cannot be assigned to a mono output"@,
        CompileError::UnsupportedChannels(n) => "unsupported output channel count "@
            + decimal_text(n as nat) + "; MassiveEQ supports mono and stereo"@,
        CompileError::InvalidSampleRate(rate) => "invalid sample rate "@ + decimal_text(rate as nat),
        CompileError::InvalidQuantum(q) => "invalid PipeWire quantum "@ + decimal_text(q as nat),
        CompileError::Filter(message) => message@,
        CompileError::Graphic(message) => message@,
        CompileError::Convolution(e) => ir_error_message(e),
        CompileError::MissingAsset(path) => "convolution asset "@ + path@ + " does not exist"@,
        CompileError::AssetOutsideProfile(path) => "convolution asset escapes the profile directory: "@
            + path@,
        CompileError::NonFiniteResponse => "compiled response contains a non-finite value"@,
    }
}

fn text3(a: &str, b: &str, c: &str) -> (r: String)
    ensures
        r@ == a@ + b@ + c@,
{
    let mut r = String::from_str(a);
    r.append(b);
    r.append(c);
    r
}

fn with_number(a: &str, n: u32) -> (r: String)
    ensures
        r@ == a@ + decimal_text(n as nat),
{
    let mut r = String::from_str(a);
    let t = number_text(n as u64);
    r.append(t.as_str());
    r
}

impl IrError {
    /// The text that describes the error.
    pub fn message(&self) -> (r: String)
        ensures
            r@ == ir_error_message(*self),
    {
        match self {
            IrError::Open { path, message } => {
                let mut r = text3("could not open impulse response ", path.as_str(), ": ");
                r.append(message.as_str());
                r
            },
            IrError::Decode { path, message } => {
                let mut r = text3("could not decode impulse response ", path.as_str(), ": ");
                r.append(message.as_str());
                r
            },
            IrError::Empty => String::from_str("impulse response is empty"),
            IrError::TooLong => String::from_str("impulse response is longer than 10 seconds"),
            IrError::NonFinite => String::from_str("impulse response contains a non-finite sample"),
            IrError::InvalidRate(rate) => with_number("invalid target sample rate ", *rate),
            IrError::Resample(message) => {
                let mut r = String::from_str("impulse response resampling failed: ");
                r.append(message.as_str());
                r
            },
        }
    }
}

impl CompileError {
    /// The text that describes the error.
    pub fn message(&self) -> (r: String)
        ensures
            r@ == compile_error_message(*self),
    {
        match self {
            CompileError::ParserErrors => String::from_str("profile contains parser errors"),
            CompileError::MixedProcessingModes => String::from_str(
                "parametric/GraphicEQ processing and convolution cannot be active in the same profile",
            ),
            CompileError::PerEarOnMono => String::from_str(
                "per-ear profiles cannot be assigned to a mono output",
            ),
            CompileError::UnsupportedChannels(n) => {
                let mut r = with_number("unsupported output channel count ", *n);
                r.append("; MassiveEQ supports mono and stereo");
                r
            },
            CompileError::InvalidSampleRate(rate) => with_number("invalid sample rate ", *rate),
            CompileError::InvalidQuantum(q) => with_number("invalid PipeWire quantum ", *q),
            CompileError::Filter(message) => message.clone(),
            CompileError::Graphic(message) => message.clone(),
            CompileError::Convolution(e) => e.message(),
            CompileError::MissingAsset(path) => text3(
                "convolution asset ",
                path.as_str(),
                " does not exist",
            ),
            CompileError::AssetOutsideProfile(path) => {
                let mut r = String::from_str("convolution asset escapes the profile directory: ");
                r.append(path.as_str());
                r
            },
            CompileError::NonFiniteResponse => String::from_str(
                "compiled response contains a non-finite value",
            ),
        }
    }
}

/// Whether any part of a profile targets one channel only.
pub open spec fn per_ear(doc: DocumentView) -> bool {
    ||| exists|i: int| 0 <= i < doc.preamps.len() && (#[trigger] doc.preamps[i]).channels != ChannelSelection::All
    ||| exists|i: int| 0 <= i < doc.filters.len() && (#[trigger] doc.filters[i]).channels != ChannelSelection::All
    ||| exists|i: int| 0 <= i < doc.graphic_eqs.len() && (#[trigger] doc.graphic_eqs[i]).0 != ChannelSelection::All
    ||| exists|i: int| 0 <= i < doc.convolutions.len() && (#[trigger] doc.convolutions[i]).0 != ChannelSelection::All
}

/// Whether any part of a profile targets one channel only (see [`per_ear`]).
pub fn has_per_ear_content(doc: &ProfileDocument) -> (r: bool)
    ensures
        r == per_ear(doc@),
{
    let mut i: usize = 0;
    while i < doc.preamps.len()
        invariant
            i <= doc.preamps.len(),
            forall|j: int| 0 <= j < i ==> (#[trigger] doc@.preamps[j]).channels == ChannelSelection::All,
        decreases doc.preamps.len() - i,
    {
        if doc.preamps[i].channels != ChannelSelection::All {
            proof {
                assert(doc@.preamps[i as int].channels != ChannelSelection::All);
            }
            return true;
        }
        i += 1;
    }
    let mut i: usize = 0;
    while i < doc.filters.len()
        invariant
            i <= doc.filters.len(),
            forall|j: int| 0 <= j < i ==> (#[trigger] doc@.filters[j]).channels == ChannelSelection::All,
        decreases doc.filters.len() - i,
    {
        if doc.filters[i].channels != ChannelSelection::All {
            proof {
                assert(doc@.filters[i as int].channels != ChannelSelection::All);
            }
            return true;
        }
        i += 1;
    }
    let mut i: usize = 0;
    while i < doc.graphic_eqs.len()
        invariant
            i <= doc.graphic_eqs.len(),
            forall|j: int| 0 <= j < i ==> (#[trigger] doc@.graphic_eqs[j]).0 == ChannelSelection::All,
        decreases doc.graphic_eqs.len() - i,
    {
        if doc.graphic_eqs[i].channels != ChannelSelection::All {
            proof {
                assert(doc@.graphic_eqs[i as int].0 != ChannelSelection::All);
            }
            return true;
        }
        i += 1;
    }
    let mut i: usize = 0;
    while i < doc.convolutions.len()
        invariant
            i <= doc.convolutions.len(),
            forall|j: int| 0 <= j < i ==> (#[trigger] doc@.convolutions[j]).0 == ChannelSelection::All,
        decreases doc.convolutions.len() - i,
    {
        if doc.convolutions[i].channels != ChannelSelection::All {
            proof {
                assert(doc@.convolutions[i as int].0 != ChannelSelection::All);
            }
            return true;
        }
        i += 1;
    }
    false
}

/// The checks made before a profile is compiled, in order: equalization and
/// convolution are not mixed, the profile has no errors, the sample rate is
/// 8 to 384 kHz, the quantum is 1 to 65536 frames, the output has one or two
/// channels, and a mono output gets no per-ear content.
pub open spec fn compile_refusal(
    doc: DocumentView,
    sample_rate: u32,
    quantum: u32,
    output_channels: u32,
) -> Option<CompileError> {
    let has_eq = doc.filters.len() > 0 || doc.graphic_eqs.len() > 0;
    if has_eq && doc.convolutions.len() > 0 {
        Some(CompileError::MixedProcessingModes)
    } else if !crate::model::no_errors(doc.diagnostics) {
        Some(CompileError::ParserErrors)
    } else if !(8000 <= sample_rate <= 384000) {
        Some(CompileError::InvalidSampleRate(sample_rate))
    } else if quantum == 0 || quantum > 65536 {
        Some(CompileError::InvalidQuantum(quantum))
    } else if !(output_channels == 1 || output_channels == 2) {
        Some(CompileError::UnsupportedChannels(output_channels))
    } else if output_channels == 1 && per_ear(doc) {
        Some(CompileError::PerEarOnMono)
    } else {
        None
    }
}

/// The first reason a profile cannot be compiled for an output, if any (see
/// [`compile_refusal`]).
pub fn check_compile(doc: &ProfileDocument, sample_rate: u32, quantum: u32, output_channels: u32) -> (r:
    Result<(), CompileError>)
    ensures
        match compile_refusal(doc@, sample_rate, quantum, output_channels) {
            Some(e) => r == Err::<(), CompileError>(e),
            None => r is Ok,
        },
{
    let has_eq = doc.filters.len() > 0 || doc.graphic_eqs.len() > 0;
    if has_eq && doc.convolutions.len() > 0 {
        return Err(CompileError::MixedProcessingModes);
    }
    if !doc.is_activatable() {
        return Err(CompileError::ParserErrors);
    }
    if !(8000 <= sample_rate && sample_rate <= 384000) {
        return Err(CompileError::InvalidSampleRate(sample_rate));
    }
    if quantum == 0 || quantum > 65536 {
        return Err(CompileError::InvalidQuantum(quantum));
    }
    if !(output_channels == 1 || output_channels == 2) {
        return Err(CompileError::UnsupportedChannels(output_channels));
    }
    if output_channels == 1 && has_per_ear_content(doc) {
        return Err(CompileError::PerEarOnMono);
    }
    Ok(())
}

// ---------------------------------------------------------------------------
// Where a convolution's audio file is.

/// `Path::is_absolute` of a path, as text, on Unix: it starts with the root `/`.
pub open spec fn path_is_absolute(path: Seq<char>) -> bool {
    path.len() > 0 && path[0] == '/'
}

/// `Path::starts_with` of two paths, as text.
pub uninterp spec fn path_starts_with(path: Seq<char>, base: Seq<char>) -> bool;

/// Whether a path is absolute (see [`path_is_absolute`]).
pub(crate) fn asset_path_is_absolute(path: &str) -> (r: bool)
    ensures
        r == path_is_absolute(path@),
{
    let v = chars_of(path);
    v.len() > 0 && v[0] == '/'
}

/// `std::path::Path::starts_with`, component by component; the contract
/// names the result.
#[verifier::external_body]
pub(crate) fn asset_has_prefix(path: &str, base: &str) -> (r: bool)
    ensures
        r == path_starts_with(path@, base@),
{
    std::path::Path::new(path).starts_with(base)
}

/// The path of a convolution's file: the path itself when it is absolute,
/// else the path within the profile's directory.
pub open spec fn asset_location(root: Seq<char>, requested: Seq<char>) -> Seq<char> {
    if path_is_absolute(requested) {
        requested
    } else {
        path_joined(root, requested)
    }
}

/// The path of a convolution's file (see [`asset_location`]).
pub fn asset_path(root: &str, requested: &str) -> (r: String)
    ensures
        r@ == asset_location(root@, requested@),
{
    if asset_path_is_absolute(requested) {
        String::from_str(requested)
    } else {
        path_join(root, requested)
    }
}

/// The file a convolution reads, given its path and that path's canonical
/// form (`None` when it does not exist or cannot be resolved): refused when
/// missing or outside the profile's directory `root`.
pub fn resolve_asset(root: &str, joined: &str, canonical: Option<String>) -> (r: Result<
    String,
    CompileError,
>)
    ensures
        match canonical {
            None => r matches Err(CompileError::MissingAsset(p)) && p@ == joined@,
            Some(c) => if path_starts_with(c@, root@) {
                r matches Ok(x) && x@ == c@
            } else {
                r matches Err(CompileError::AssetOutsideProfile(p)) && p@ == c@
            },
        },
{
    match canonical {
        None => Err(CompileError::MissingAsset(String::from_str(joined))),
        Some(c) => if asset_has_prefix(c.as_str(), root) {
            Ok(c)
        } else {
            Err(CompileError::AssetOutsideProfile(c))
        },
    }
}

} // verus!
