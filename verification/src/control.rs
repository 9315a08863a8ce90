use vstd::prelude::*;
use crate::decimal::{
    dec_within, parse_number_exec, parse_unsigned, parse_unsigned_exec, reads_at_least_20,
    reads_at_least_20_exec, reads_at_least_hundredth, reads_at_least_hundredth_exec,
    reads_at_least_minus_60, reads_at_least_minus_60_exec, reads_at_most_1000,
    reads_at_most_1000_exec, reads_at_most_20000, reads_at_most_20000_exec, reads_at_most_60,
    reads_at_most_60_exec, within, Decimal, Number,
};
use crate::model::{copy_strings, storage_key, texts_of, ComparisonSet, DeviceInfo, ProfileDocument};
use crate::session::total_points;
use crate::text::{chars_of, eq_vec, trim, trim_vec};

verus! {

// ---------------------------------------------------------------------------
// The command line of the control tool.

/// A request made on the command line.
#[derive(Debug, Clone, PartialEq)]
pub enum Command {
    Status { watch: bool },
    Engine { enabled: bool },
    Filters { device_key: String, enabled: bool },
    Assign { device_key: String, profile_id: String },
    Unassign { device_key: String },
    Compare { device_key: String, profile_id: String },
    SetFilter {
        profile_id: String,
        filter_index: usize,
        frequency_hz: Decimal,
        gain_db: Decimal,
        q: Decimal,
    },
}

pub enum CommandView {
    Status { watch: bool },
    Engine { enabled: bool },
    Filters { device_key: Seq<char>, enabled: bool },
    Assign { device_key: Seq<char>, profile_id: Seq<char> },
    Unassign { device_key: Seq<char> },
    Compare { device_key: Seq<char>, profile_id: Seq<char> },
    SetFilter {
        profile_id: Seq<char>,
        filter_index: nat,
        frequency_hz: Decimal,
        gain_db: Decimal,
        q: Decimal,
    },
}

impl View for Command {
    type V = CommandView;

    open spec fn view(&self) -> CommandView {
        match self {
            Command::Status { watch } => CommandView::Status { watch: *watch },
            Command::Engine { enabled } => CommandView::Engine { enabled: *enabled },
            Command::Filters { device_key, enabled } => CommandView::Filters {
                device_key: device_key@,
                enabled: *enabled,
            },
            Command::Assign { device_key, profile_id } => CommandView::Assign {
                device_key: device_key@,
                profile_id: profile_id@,
            },
            Command::Unassign { device_key } => CommandView::Unassign { device_key: device_key@ },
            Command::Compare { device_key, profile_id } => CommandView::Compare {
                device_key: device_key@,
                profile_id: profile_id@,
            },
            Command::SetFilter { profile_id, filter_index, frequency_hz, gain_db, q } =>
                CommandView::SetFilter {
                profile_id: profile_id@,
                filter_index: *filter_index as nat,
                frequency_hz: *frequency_hz,
                gain_db: *gain_db,
                q: *q,
            },
        }
    }
}

/// `on` or `off`.
pub open spec fn on_off(value: Seq<char>) -> Result<bool, Seq<char>> {
    if value == "on"@ {
        Ok(true)
    } else if value == "off"@ {
        Ok(false)
    } else {
        Err("expected 'on' or 'off', got '"@ + value + "'"@)
    }
}

/// A value that is not blank.
pub open spec fn required(label: Seq<char>, value: Seq<char>) -> Result<Seq<char>, Seq<char>> {
    if trim(value).len() == 0 {
        Err(label + " must not be empty"@)
    } else {
        Ok(value)
    }
}

/// A non-negative integer that fits a `usize`.
pub open spec fn index_arg(label: Seq<char>, value: Seq<char>) -> Result<nat, Seq<char>> {
    match parse_unsigned(value, usize::MAX as nat) {
        Some(n) => Ok(n),
        None => Err(label + " must be a non-negative integer"@),
    }
}

/// A number within an acceptance range, both ends included; an infinity or a
/// NaN lies outside any range. The error names the bounds as `lo_text` and
/// `hi_text`.
pub open spec fn number_arg(
    label: Seq<char>,
    value: Seq<char>,
    lo: Decimal,
    hi: Decimal,
    lo_text: Seq<char>,
    hi_text: Seq<char>,
) -> Result<Decimal, Seq<char>> {
    let out_of_range = label + " must be between "@ + lo_text + " and "@ + hi_text;
    match crate::decimal::parse_number(value) {
        Some(Number::Finite(d)) => if dec_within(d, lo, hi) {
            Ok(d)
        } else {
            Err(out_of_range)
        },
        Some(_) => Err(out_of_range),
        None => Err(label + " must be a number"@),
    }
}

/// The acceptance range of each `set-filter` number: its bounds as a double
/// reads them (see [`reads_at_least_20`] and the functions beside it).
pub open spec fn min_frequency() -> Decimal {
    reads_at_least_20()
}

pub open spec fn max_frequency() -> Decimal {
    reads_at_most_20000()
}

pub open spec fn min_gain() -> Decimal {
    reads_at_least_minus_60()
}

pub open spec fn max_gain() -> Decimal {
    reads_at_most_60()
}

pub open spec fn min_q() -> Decimal {
    reads_at_least_hundredth()
}

pub open spec fn max_q() -> Decimal {
    reads_at_most_1000()
}

/// `set-filter <profile-id> <filter-index> <frequency-hz> <gain-db> <q>`: its
/// arguments are checked in that order, the profile id last.
pub open spec fn set_filter_command(a: Seq<Seq<char>>) -> Result<CommandView, Seq<char>> {
    match index_arg("filter index"@, a[2]) {
        Err(e) => Err(e),
        Ok(filter_index) => match number_arg(
            "frequency"@,
            a[3],
            min_frequency(),
            max_frequency(),
            "20"@,
            "20000"@,
        ) {
            Err(e) => Err(e),
            Ok(frequency_hz) => match number_arg(
                "gain"@,
                a[4],
                min_gain(),
                max_gain(),
                "-60"@,
                "60"@,
            ) {
                Err(e) => Err(e),
                Ok(gain_db) => match number_arg("Q"@, a[5], min_q(), max_q(), "0.01"@, "1000"@) {
                    Err(e) => Err(e),
                    Ok(q) => match required("profile id"@, a[1]) {
                        Err(e) => Err(e),
                        Ok(profile_id) => Ok(
                            CommandView::SetFilter {
                                profile_id,
                                filter_index,
                                frequency_hz,
                                gain_db,
                                q,
                            },
                        ),
                    },
                },
            },
        },
    }
}

/// What a command line asks for, or the message that refuses it.
pub open spec fn parse_command(a: Seq<Seq<char>>) -> Result<CommandView, Seq<char>> {
    let n = a.len();
    if n == 1 && a[0] == "status"@ {
        Ok(CommandView::Status { watch: false })
    } else if n == 2 && a[0] == "status"@ && a[1] == "--watch"@ {
        Ok(CommandView::Status { watch: true })
    } else if n == 2 && a[0] == "engine"@ {
        match on_off(a[1]) {
            Ok(enabled) => Ok(CommandView::Engine { enabled }),
            Err(e) => Err(e),
        }
    } else if n == 3 && a[0] == "filters"@ {
        match required("device key"@, a[1]) {
            Err(e) => Err(e),
            Ok(device_key) => match on_off(a[2]) {
                Ok(enabled) => Ok(CommandView::Filters { device_key, enabled }),
                Err(e) => Err(e),
            },
        }
    } else if n == 3 && (a[0] == "assign"@ || a[0] == "compare"@) {
        match required("device key"@, a[1]) {
            Err(e) => Err(e),
            Ok(device_key) => match required("profile id"@, a[2]) {
                Err(e) => Err(e),
                Ok(profile_id) => if a[0] == "assign"@ {
                    Ok(CommandView::Assign { device_key, profile_id })
                } else {
                    Ok(CommandView::Compare { device_key, profile_id })
                },
            },
        }
    } else if n == 2 && a[0] == "unassign"@ {
        match required("device key"@, a[1]) {
            Err(e) => Err(e),
            Ok(device_key) => Ok(CommandView::Unassign { device_key }),
        }
    } else if n == 6 && a[0] == "set-filter"@ {
        set_filter_command(a)
    } else {
        Err(usage_text())
    }
}

pub open spec fn usage_text() -> Seq<char> {
    "Usage:\n  massiveeqctl status [--watch]\n  massiveeqctl engine <on|off>\n  massiveeqctl filters <device-key> <on|off>\n  massiveeqctl assign <device-key> <profile-id>\n  massiveeqctl unassign <device-key>\n  massiveeqctl compare <device-key> <profile-id>\n  massiveeqctl set-filter <profile-id> <filter-index> <frequency-hz> <gain-db> <q>"@
}

/// The summary of the command line.
pub fn usage() -> (r: &'static str)
    ensures
        r@ == usage_text(),
{
    "Usage:\n  massiveeqctl status [--watch]\n  massiveeqctl engine <on|off>\n  massiveeqctl filters <device-key> <on|off>\n  massiveeqctl assign <device-key> <profile-id>\n  massiveeqctl unassign <device-key>\n  massiveeqctl compare <device-key> <profile-id>\n  massiveeqctl set-filter <profile-id> <filter-index> <frequency-hz> <gain-db> <q>"
}


/// `a` followed by `b`.
fn joined(a: &str, b: &str) -> (r: String)
    ensures
        r@ == a@ + b@,
{
    let mut r = String::from_str(a);
    r.append(b);
    r
}

fn is_text(value: &str, text: &str) -> (r: bool)
    ensures
        r == (value@ == text@),
{
    eq_vec(&chars_of(value), &chars_of(text))
}

/// `on` or `off` (see [`on_off`]).
pub fn parse_on_off(value: &str) -> (r: Result<bool, String>)
    ensures
        match r {
            Ok(b) => on_off(value@) == Ok::<bool, Seq<char>>(b),
            Err(e) => on_off(value@) == Err::<bool, Seq<char>>(e@),
        },
{
    if is_text(value, "on") {
        Ok(true)
    } else if is_text(value, "off") {
        Ok(false)
    } else {
        let mut e = joined("expected 'on' or 'off', got '", value);
        e.append("'");
        Err(e)
    }
}

/// The value itself, unless it is blank (see [`required`]).
pub fn require_value(label: &str, value: &str) -> (r: Result<String, String>)
    ensures
        match r {
            Ok(v) => required(label@, value@) == Ok::<Seq<char>, Seq<char>>(v@),
            Err(e) => required(label@, value@) == Err::<Seq<char>, Seq<char>>(e@),
        },
{
    let trimmed = trim_vec(&chars_of(value));
    if trimmed.len() == 0 {
        Err(joined(label, " must not be empty"))
    } else {
        Ok(String::from_str(value))
    }
}

/// A non-negative integer (see [`index_arg`]).
pub fn parse_usize(label: &str, value: &str) -> (r: Result<usize, String>)
    ensures
        match r {
            Ok(n) => index_arg(label@, value@) == Ok::<nat, Seq<char>>(n as nat),
            Err(e) => index_arg(label@, value@) == Err::<nat, Seq<char>>(e@),
        },
{
    match parse_unsigned_exec(&chars_of(value), usize::MAX as u64) {
        Some(n) => Ok(n as usize),
        None => Err(joined(label, " must be a non-negative integer")),
    }
}

/// A number between two bounds (see [`number_arg`]).
pub fn parse_number(
    label: &str,
    value: &str,
    lo: Decimal,
    hi: Decimal,
    lo_text: &str,
    hi_text: &str,
) -> (r: Result<Decimal, String>)
    requires
        lo.wf(),
        hi.wf(),
    ensures
        match r {
            Ok(d) => number_arg(label@, value@, lo, hi, lo_text@, hi_text@) == Ok::<
                Decimal,
                Seq<char>,
            >(d),
            Err(e) => number_arg(label@, value@, lo, hi, lo_text@, hi_text@) == Err::<
                Decimal,
                Seq<char>,
            >(e@),
        },
{
    let v = chars_of(value);
    let mut out_of_range = joined(label, " must be between ");
    out_of_range.append(lo_text);
    out_of_range.append(" and ");
    out_of_range.append(hi_text);
    match parse_number_exec(&v) {
        Some(Number::Finite(d)) => if within(d, lo, hi) {
            Ok(d)
        } else {
            Err(out_of_range)
        },
        Some(_) => Err(out_of_range),
        None => Err(joined(label, " must be a number")),
    }
}

/// The text of each argument.
pub open spec fn arg_views(a: Seq<&str>) -> Seq<Seq<char>> {
    a.map_values(|s: &str| s@)
}

impl Command {
    fn set_filter(args: &[&str]) -> (r: Result<Command, String>)
        requires
            args.len() == 6,
        ensures
            match r {
                Ok(c) => set_filter_command(arg_views(args@)) == Ok::<CommandView, Seq<char>>(c@),
                Err(e) => set_filter_command(arg_views(args@)) == Err::<CommandView, Seq<char>>(
                    e@,
                ),
            },
    {
        let ghost a = arg_views(args@);
        let filter_index = match parse_usize("filter index", args[2]) {
            Ok(n) => n,
            Err(e) => {
                return Err(e);
            },
        };
        let frequency_hz = match parse_number(
            "frequency",
            args[3],
            reads_at_least_20_exec(),
            reads_at_most_20000_exec(),
            "20",
            "20000",
        ) {
            Ok(d) => d,
            Err(e) => {
                return Err(e);
            },
        };
        let gain_db = match parse_number(
            "gain",
            args[4],
            reads_at_least_minus_60_exec(),
            reads_at_most_60_exec(),
            "-60",
            "60",
        ) {
            Ok(d) => d,
            Err(e) => {
                return Err(e);
            },
        };
        let q = match parse_number(
            "Q",
            args[5],
            reads_at_least_hundredth_exec(),
            reads_at_most_1000_exec(),
            "0.01",
            "1000",
        ) {
            Ok(d) => d,
            Err(e) => {
                return Err(e);
            },
        };
        let profile_id = match require_value("profile id", args[1]) {
            Ok(v) => v,
            Err(e) => {
                return Err(e);
            },
        };
        Ok(Command::SetFilter { profile_id, filter_index, frequency_hz, gain_db, q })
    }

    /// The request that a command line (without the program name) makes.
    pub fn parse(args: &[&str]) -> (r: Result<Command, String>)
        ensures
            match r {
                Ok(c) => parse_command(arg_views(args@)) == Ok::<CommandView, Seq<char>>(c@),
                Err(e) => parse_command(arg_views(args@)) == Err::<CommandView, Seq<char>>(e@),
            },
    {
        let ghost a = arg_views(args@);
        let n = args.len();
        proof {
            assert(a.len() == n);
            assert forall|i: int| 0 <= i < n implies a[i] == (#[trigger] args@[i])@ by {}
        }
        if n == 1 && is_text(args[0], "status") {
            Ok(Command::Status { watch: false })
        } else if n == 2 && is_text(args[0], "status") && is_text(args[1], "--watch") {
            Ok(Command::Status { watch: true })
        } else if n == 2 && is_text(args[0], "engine") {
            match parse_on_off(args[1]) {
                Ok(enabled) => Ok(Command::Engine { enabled }),
                Err(e) => Err(e),
            }
        } else if n == 3 && is_text(args[0], "filters") {
            match require_value("device key", args[1]) {
                Err(e) => Err(e),
                Ok(device_key) => match parse_on_off(args[2]) {
                    Ok(enabled) => Ok(Command::Filters { device_key, enabled }),
                    Err(e) => Err(e),
                },
            }
        } else if n == 3 && (is_text(args[0], "assign") || is_text(args[0], "compare")) {
            match require_value("device key", args[1]) {
                Err(e) => Err(e),
                Ok(device_key) => match require_value("profile id", args[2]) {
                    Err(e) => Err(e),
                    Ok(profile_id) => if is_text(args[0], "assign") {
                        Ok(Command::Assign { device_key, profile_id })
                    } else {
                        Ok(Command::Compare { device_key, profile_id })
                    },
                },
            }
        } else if n == 2 && is_text(args[0], "unassign") {
            match require_value("device key", args[1]) {
                Err(e) => Err(e),
                Ok(device_key) => Ok(Command::Unassign { device_key }),
            }
        } else if n == 6 && is_text(args[0], "set-filter") {
            Command::set_filter(args)
        } else {
            Err(String::from_str(usage()))
        }
    }

    /// The bypass flag that a `filters` request sets on its output: the
    /// opposite of `enabled`. Other requests set none.
    pub fn bypassed_value(&self) -> (r: Option<bool>)
        ensures
            r == (match self {
                Command::Filters { enabled, .. } => Some(!*enabled),
                _ => None,
            }),
    {
        match self {
            Command::Filters { enabled, .. } => Some(!*enabled),
            _ => None,
        }
    }
}

// ---------------------------------------------------------------------------
// The snapshot that the control tool prints.

/// What the equalizer engine is doing, as far as the control tool can tell.
#[derive(Debug, Clone, Copy, PartialEq, Eq, Structural)]
pub enum EngineState {
    Unavailable,
    EngineOff,
    Active,
    Idle,
}

/// An output's comparison bank, as the snapshot shows it.
#[derive(Debug, Clone, PartialEq, Eq)]
pub struct QuickComparison {
    pub enabled: bool,
    pub active_profile_id: String,
    pub profile_ids: Vec<String>,
}

/// An output, as the snapshot shows it.
#[derive(Debug, Clone, PartialEq, Eq)]
pub struct QuickOutput {
    pub key: String,
    pub node_name: String,
    pub description: String,
    pub connected: bool,
    pub bypassed: bool,
    pub assigned_profile_id: Option<String>,
    pub comparison: Option<QuickComparison>,
}

/// Whether an output is being filtered: it is connected, not bypassed, and
/// has a profile assigned or an enabled comparison bank.
pub open spec fn output_filtering(o: QuickOutput) -> bool {
    &&& o.connected
    &&& !o.bypassed
    &&& (o.assigned_profile_id is Some || (o.comparison matches Some(c) && c.enabled))
}

/// The engine is off under the global bypass, active when some output is
/// filtered, and idle otherwise.
pub open spec fn engine_state(global_bypass: bool, outputs: Seq<QuickOutput>) -> EngineState {
    if global_bypass {
        EngineState::EngineOff
    } else if exists|i: int| 0 <= i < outputs.len() && output_filtering(#[trigger] outputs[i]) {
        EngineState::Active
    } else {
        EngineState::Idle
    }
}

/// The state of the engine (see [`engine_state`]).
pub fn derive_state(global_bypass: bool, outputs: &[QuickOutput]) -> (r: EngineState)
    ensures
        r == engine_state(global_bypass, outputs@),
{
    if global_bypass {
        return EngineState::EngineOff;
    }
    let mut i: usize = 0;
    while i < outputs.len()
        invariant
            i <= outputs.len(),
            !global_bypass,
            forall|j: int| 0 <= j < i ==> !output_filtering(#[trigger] outputs@[j]),
        decreases outputs.len() - i,
    {
        let o = &outputs[i];
        let by_comparison = match &o.comparison {
            Some(c) => c.enabled,
            None => false,
        };
        if o.connected && !o.bypassed && (o.assigned_profile_id.is_some() || by_comparison) {
            proof {
                assert(output_filtering(outputs@[i as int]));
            }
            return EngineState::Active;
        }
        i += 1;
    }
    EngineState::Idle
}

impl QuickOutput {
    /// An output of the service, with its comparison bank if it has one.
    pub fn from_device(device: DeviceInfo, comparison: Option<&ComparisonSet>) -> (r: Self)
        ensures
            r.key@ == storage_key(device.key@),
            r.node_name@ == device.node_name@,
            r.description@ == device.description@,
            r.connected == device.connected,
            r.bypassed == device.bypassed,
            r.assigned_profile_id == device.assigned_profile,
            match comparison {
                None => r.comparison is None,
                Some(c) => r.comparison matches Some(q) && q.enabled == c.enabled
                    && q.active_profile_id@ == c.active_profile_id@ && texts_of(q.profile_ids@)
                    == texts_of(c.profile_ids@),
            },
    {
        let key = device.key.as_storage_key();
        let comparison = match comparison {
            Some(c) => Some(
                QuickComparison {
                    enabled: c.enabled,
                    active_profile_id: c.active_profile_id.clone(),
                    profile_ids: copy_strings(&c.profile_ids),
                },
            ),
            None => None,
        };
        QuickOutput {
            key,
            node_name: device.node_name,
            description: device.description,
            connected: device.connected,
            bypassed: device.bypassed,
            assigned_profile_id: device.assigned_profile,
            comparison,
        }
    }
}

/// The number of bands a profile shows: its filters and its GraphicEQ points.
pub open spec fn bands(doc: crate::model::DocumentView) -> nat {
    doc.filters.len() + total_points(doc.graphic_eqs)
}

/// The number of bands of a profile (see [`bands`]).
pub fn band_count(doc: &ProfileDocument) -> (r: usize)
    requires
        bands(doc@) <= usize::MAX,
    ensures
        r == bands(doc@),
{
    let mut total: usize = doc.filters.len();
    let mut i: usize = 0;
    while i < doc.graphic_eqs.len()
        invariant
            i <= doc.graphic_eqs.len(),
            bands(doc@) <= usize::MAX,
            total == doc.filters.len() + total_points(doc@.graphic_eqs.take(i as int)),
        decreases doc.graphic_eqs.len() - i,
    {
        proof {
            assert(doc@.graphic_eqs.take(i + 1).drop_last() =~= doc@.graphic_eqs.take(i as int));
            crate::session::lemma_total_points_prefix(doc@.graphic_eqs, i + 1);
        }
        total = total + doc.graphic_eqs[i].points.len();
        i += 1;
    }
    proof {
        assert(doc@.graphic_eqs.take(i as int) =~= doc@.graphic_eqs);
    }
    total
}

} // verus!
