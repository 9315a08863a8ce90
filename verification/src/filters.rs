use vstd::prelude::*;
use vstd::string::StringSliceAdditionalSpecFns;
use crate::decimal::{parse_unsigned, parse_unsigned_exec};
use crate::keyed::find_text;
use crate::library::Library;
use crate::model::{storage_key, texts_of, DeviceInfo, DeviceView};
use crate::text::{
    chars_of, contains_sub, find_sub_vec, lines, lines_vec, slice_chars, split_ws,
    split_ws_vec, string_of, views,
};

verus! {

// ---------------------------------------------------------------------------
// Names of the filter processes.

/// The 64-bit FNV-1a hash of some bytes.
pub open spec fn fnv1a(bytes: Seq<u8>) -> u64
    decreases bytes.len(),
{
    if bytes.len() == 0 {
        0xcbf29ce484222325u64
    } else {
        let h = fnv1a(bytes.drop_last()) ^ (bytes.last() as u64);
        ((h as nat * 0x100000001b3nat) % 0x1_0000_0000_0000_0000nat) as u64
    }
}

/// A hash of a text that is the same in every process: FNV-1a over its
/// UTF-8 bytes.
pub fn stable_hash(value: &str) -> (r: u64)
    ensures
        r == fnv1a(value.spec_bytes()),
{
    let bytes = value.as_bytes();
    let mut hash: u64 = 0xcbf29ce484222325u64;
    let mut i: usize = 0;
    while i < bytes.len()
        invariant
            i <= bytes@.len(),
            bytes@ == value.spec_bytes(),
            hash == fnv1a(bytes@.take(i as int)),
        decreases bytes.len() - i,
    {
        proof {
            assert(bytes@.take(i + 1).drop_last() =~= bytes@.take(i as int));
            assert(bytes@.take(i + 1).last() == bytes@[i as int]);
        }
        hash = (hash ^ (bytes[i] as u64)).wrapping_mul(0x100000001b3u64);
        i += 1;
    }
    proof {
        assert(bytes@.take(i as int) =~= bytes@);
    }
    hash
}

/// The lowercase hexadecimal digit for `d < 16`.
pub open spec fn hex_digit(d: nat) -> char {
    if d < 10 {
        ((48 + d) as u8) as char
    } else {
        ((87 + d) as u8) as char
    }
}

/// The lowercase hexadecimal digits of `n`, without leading zeros.
pub open spec fn hex_text(n: nat) -> Seq<char>
    decreases n,
{
    if n < 16 {
        seq![hex_digit(n)]
    } else {
        hex_text(n / 16).push(hex_digit(n % 16))
    }
}

/// The text of `n` in lowercase hexadecimal (see [`hex_text`]).
pub fn hex_string(n: u64) -> (r: String)
    ensures
        r@ == hex_text(n as nat),
{
    let mut m = n;
    let mut tail: Vec<char> = Vec::new();
    while m >= 16
        invariant
            hex_text(n as nat) == hex_text(m as nat) + tail@,
        decreases m,
    {
        let d = (m % 16) as u8;
        let c = if d < 10 {
            (48u8 + d) as char
        } else {
            (87u8 + d) as char
        };
        proof {
            assert(c == hex_digit((m % 16) as nat));
            assert(hex_text(m as nat) == hex_text((m / 16) as nat).push(c));
            assert(hex_text((m / 16) as nat) + tail@.insert(0, c) =~= hex_text((m / 16) as nat).push(c) + tail@);
        }
        tail.insert(0, c);
        m = m / 16;
    }
    let d = m as u8;
    let first = if d < 10 {
        (48u8 + d) as char
    } else {
        (87u8 + d) as char
    };
    tail.insert(0, first);
    proof {
        assert(first == hex_digit(m as nat));
        assert(hex_text(m as nat) =~= seq![first]);
        assert(tail@ =~= hex_text(n as nat));
    }
    string_of(&tail)
}

/// The name of the filter node of the output with storage key `key`.
pub open spec fn filter_node_name(key: &str) -> Seq<char> {
    "massiveeq."@ + hex_text(fnv1a(key.spec_bytes()) as nat)
}

/// The node name of the filter for an output (see [`filter_node_name`]).
pub fn filter_name(key: &str) -> (r: String)
    ensures
        r@ == filter_node_name(key),
{
    let mut r = String::from_str("massiveeq.");
    let h = hex_string(stable_hash(key));
    r.append(h.as_str());
    r
}

/// The name of the configuration file of the filter for an output.
pub fn filter_config_name(key: &str) -> (r: String)
    ensures
        r@ == hex_text(fnv1a(key.spec_bytes()) as nat) + ".conf"@,
{
    let mut r = hex_string(stable_hash(key));
    r.append(".conf");
    r
}

// ---------------------------------------------------------------------------
// Reading `wpctl status`.

/// The node id a status token gives: digits followed by a full stop.
pub open spec fn token_id(t: Seq<char>) -> Option<nat> {
    if t.len() > 0 && t.last() == '.' {
        parse_unsigned(t.drop_last(), u32::MAX as nat)
    } else {
        None
    }
}

/// The id of the first token of a list that gives one.
pub open spec fn first_token_id(tokens: Seq<Seq<char>>) -> Option<nat>
    decreases tokens.len(),
{
    if tokens.len() == 0 {
        None
    } else {
        match token_id(tokens[0]) {
            Some(id) => Some(id),
            None => first_token_id(tokens.drop_first()),
        }
    }
}

/// The node id on a status line that names the node.
pub open spec fn status_line_id(line: Seq<char>, node_name: Seq<char>) -> Option<nat> {
    if contains_sub(line, node_name) {
        first_token_id(split_ws(line))
    } else {
        None
    }
}

fn token_id_exec(t: &Vec<char>) -> (r: Option<u32>)
    ensures
        match r {
            Some(id) => token_id(t@) == Some(id as nat),
            None => token_id(t@) is None,
        },
{
    let n = t.len();
    if n > 0 && t[n - 1] == '.' {
        let digits = slice_chars(t, 0, n - 1);
        proof {
            assert(digits@ =~= t@.drop_last());
        }
        match parse_unsigned_exec(&digits, u32::MAX as u64) {
            Some(v) => Some(v as u32),
            None => None,
        }
    } else {
        None
    }
}

/// The node id on a status line that names the node (see [`status_line_id`]).
pub fn node_id_from_status_line(line: &str, node_name: &str) -> (r: Option<u32>)
    ensures
        match r {
            Some(id) => status_line_id(line@, node_name@) == Some(id as nat),
            None => status_line_id(line@, node_name@) is None,
        },
{
    let chars = chars_of(line);
    if find_sub_vec(&chars, &chars_of(node_name)).is_none() {
        return None;
    }
    let tokens = split_ws_vec(&chars);
    let ghost ts = views(tokens@);
    let mut i: usize = 0;
    proof {
        assert(ts.skip(0) =~= ts);
    }
    while i < tokens.len()
        invariant
            i <= tokens.len(),
            ts == views(tokens@),
            ts == split_ws(line@),
            contains_sub(line@, node_name@),
            first_token_id(ts) == first_token_id(ts.skip(i as int)),
        decreases tokens.len() - i,
    {
        proof {
            assert(ts.skip(i as int)[0] == tokens@[i as int]@);
            assert(ts.skip(i as int).drop_first() =~= ts.skip(i + 1));
        }
        match token_id_exec(&tokens[i]) {
            Some(id) => {
                return Some(id);
            },
            None => {},
        }
        i += 1;
    }
    proof {
        assert(ts.skip(i as int).len() == 0);
    }
    None
}

/// Whether a line of status marks the filter node as the default: it names
/// the node and has a `*` token.
pub open spec fn marks_default(line: Seq<char>, filter: Seq<char>) -> bool {
    contains_sub(line, filter) && split_ws(line).contains("*"@)
}

/// The id of the first line that gives one for the node.
pub open spec fn first_line_id(ls: Seq<Seq<char>>, node_name: Seq<char>) -> Option<nat>
    decreases ls.len(),
{
    if ls.len() == 0 {
        None
    } else {
        match status_line_id(ls[0], node_name) {
            Some(id) => Some(id),
            None => first_line_id(ls.drop_first(), node_name),
        }
    }
}

/// The output that becomes the default again when the filter of an output
/// has become the default one: the id of the output's own node, when the
/// status shows it.
pub open spec fn default_to_restore(status: Seq<char>, filter: Seq<char>, target: Seq<char>) -> Option<
    nat,
> {
    if exists|i: int| 0 <= i < lines(status).len() && marks_default(#[trigger] lines(status)[i], filter) {
        first_line_id(lines(status), target)
    } else {
        None
    }
}

/// The node that should become the default output again (see
/// [`default_to_restore`]), read from the text of `wpctl status --name`.
pub fn default_restore_target(status: &str, filter: &str, target: &str) -> (r: Option<u32>)
    ensures
        match r {
            Some(id) => default_to_restore(status@, filter@, target@) == Some(id as nat),
            None => default_to_restore(status@, filter@, target@) is None,
        },
{
    let all = lines_vec(&chars_of(status));
    let ghost ls = views(all@);
    let star = chars_of("*");
    let filter_chars = chars_of(filter);
    let mut marked = false;
    let mut i: usize = 0;
    while i < all.len()
        invariant
            i <= all.len(),
            ls == views(all@),
            ls == lines(status@),
            star@ == "*"@,
            filter_chars@ == filter@,
            marked == exists|j: int| 0 <= j < i && marks_default(#[trigger] ls[j], filter@),
        decreases all.len() - i,
    {
        let has_name = find_sub_vec(&all[i], &filter_chars).is_some();
        let tokens = split_ws_vec(&all[i]);
        let mut has_star = false;
        let mut t: usize = 0;
        while t < tokens.len()
            invariant
                t <= tokens.len(),
                star@ == "*"@,
                has_star == exists|q: int| 0 <= q < t && (#[trigger] tokens@[q])@ == "*"@,
            decreases tokens.len() - t,
        {
            if crate::text::eq_vec(&tokens[t], &star) {
                has_star = true;
            }
            t += 1;
        }
        proof {
            assert(ls[i as int] == all@[i as int]@);
            let ws = split_ws(ls[i as int]);
            assert(ws == views(tokens@));
            if has_star {
                let q = choose|q: int| 0 <= q < t && (#[trigger] tokens@[q])@ == "*"@;
                assert(ws[q] == "*"@);
            }
            if ws.contains("*"@) {
                let q = choose|q: int| 0 <= q < ws.len() && ws[q] == "*"@;
                assert(tokens@[q]@ == "*"@);
            }
        }
        if has_name && has_star {
            marked = true;
        }
        i += 1;
    }
    if !marked {
        return None;
    }
    let mut k: usize = 0;
    proof {
        assert(ls.skip(0) =~= ls);
    }
    while k < all.len()
        invariant
            k <= all.len(),
            ls == views(all@),
            ls == lines(status@),
            exists|j: int| 0 <= j < ls.len() && marks_default(#[trigger] ls[j], filter@),
            first_line_id(ls, target@) == first_line_id(ls.skip(k as int), target@),
        decreases all.len() - k,
    {
        proof {
            assert(ls.skip(k as int)[0] == all@[k as int]@);
            assert(ls.skip(k as int).drop_first() =~= ls.skip(k + 1));
        }
        let line = string_of(&all[k]);
        match node_id_from_status_line(line.as_str(), target) {
            Some(id) => {
                return Some(id);
            },
            None => {},
        }
        k += 1;
    }
    proof {
        assert(ls.skip(k as int).len() == 0);
    }
    None
}

// ---------------------------------------------------------------------------
// Which outputs get a filter.

/// Whether an output gets a filter: it is connected, has at most two
/// channels, is not bypassed, and has a profile of the library assigned.
pub open spec fn wants_filter(d: DeviceView, profiles: Map<Seq<char>, Seq<char>>) -> bool {
    &&& d.connected
    &&& d.channels <= 2
    &&& !d.bypassed
    &&& d.assigned_profile matches Some(id) && profiles.contains_key(id)
}

/// The storage keys of the outputs of a list that get a filter, in order.
pub open spec fn desired_keys(devices: Seq<DeviceView>, profiles: Map<Seq<char>, Seq<char>>) -> Seq<
    Seq<char>,
>
    decreases devices.len(),
{
    if devices.len() == 0 {
        Seq::empty()
    } else {
        let rest = desired_keys(devices.drop_last(), profiles);
        if wants_filter(devices.last(), profiles) {
            rest.push(storage_key(devices.last().key))
        } else {
            rest
        }
    }
}

/// The storage keys of the outputs that get a filter (see [`desired_keys`]).
pub fn desired_filters(devices: &Vec<DeviceInfo>, library: &Library) -> (r: Vec<String>)
    requires
        library.wf(),
    ensures
        texts_of(r@) =~= desired_keys(crate::discovery::device_views(devices@), library@.profiles),
{
    let ghost dv = crate::discovery::device_views(devices@);
    let mut r: Vec<String> = Vec::new();
    let mut i: usize = 0;
    while i < devices.len()
        invariant
            i <= devices.len(),
            dv == crate::discovery::device_views(devices@),
            library.wf(),
            texts_of(r@) == desired_keys(dv.take(i as int), library@.profiles),
        decreases devices.len() - i,
    {
        let d = &devices[i];
        proof {
            assert(dv.take(i + 1).drop_last() =~= dv.take(i as int));
            assert(dv.take(i + 1).last() == d@);
        }
        let assigned = match &d.assigned_profile {
            Some(id) => library.has_profile(id.as_str()),
            None => false,
        };
        if d.connected && d.channels <= 2 && !d.bypassed && assigned {
            let ghost before = r@;
            r.push(d.key.as_storage_key());
            proof {
                assert(texts_of(r@) =~= texts_of(before).push(storage_key(d.key@)));
            }
        }
        i += 1;
    }
    proof {
        assert(dv.take(i as int) =~= dv);
    }
    r
}

/// The running filters that are no longer wanted, in the order they run.
pub open spec fn stale_keys(running: Seq<Seq<char>>, desired: Seq<Seq<char>>) -> Seq<Seq<char>> {
    running.filter(|k: Seq<char>| !desired.contains(k))
}

/// The running filters that are no longer wanted (see [`stale_keys`]).
pub fn stale_filters(running: &Vec<String>, desired: &Vec<String>) -> (r: Vec<String>)
    ensures
        texts_of(r@) == stale_keys(texts_of(running@), texts_of(desired@)),
{
    let ghost rv = texts_of(running@);
    let ghost dv = texts_of(desired@);
    let mut r: Vec<String> = Vec::new();
    let mut i: usize = 0;
    while i < running.len()
        invariant
            i <= running.len(),
            rv == texts_of(running@),
            dv == texts_of(desired@),
            texts_of(r@) == stale_keys(rv.take(i as int), dv),
        decreases running.len() - i,
    {
        proof {
            assert(rv.take(i + 1).drop_last() =~= rv.take(i as int));
            assert(rv.take(i + 1).last() == running@[i as int]@);
            reveal(Seq::filter);
        }
        let wanted = find_text(desired, running[i].as_str()).is_some();
        proof {
            if wanted {
                let j = choose|j: int| 0 <= j < desired@.len() && (#[trigger] desired@[j])@ == running@[i as int]@;
                assert(dv[j] == running@[i as int]@);
            }
            if dv.contains(running@[i as int]@) {
                let j = choose|j: int| 0 <= j < dv.len() && dv[j] == running@[i as int]@;
                assert(desired@[j]@ == running@[i as int]@);
            }
        }
        if !wanted {
            let ghost before = r@;
            r.push(running[i].clone());
            proof {
                assert(texts_of(r@) =~= texts_of(before).push(running@[i as int]@));
            }
        }
        i += 1;
    }
    proof {
        assert(rv.take(i as int) =~= rv);
    }
    r
}

/// What reconciling does with the filter of an output that wants one and
/// whose profile can be activated.
#[derive(Debug, Clone, Copy, PartialEq, Eq, Structural)]
pub enum FilterStep {
    /// Leave the running filter as it is.
    Keep,
    /// Send the new controls to the running filter; restart it if that fails.
    TryLiveUpdate,
    /// Stop the running filter, if any, and start one from a new configuration.
    Start,
}

/// The step for an output's filter: a missing filter is started; a running
/// one is kept unless a restart is forced, and then updated in place when its
/// graph is unchanged and started anew otherwise.
pub fn filter_step(running: bool, force_restart: bool, same_topology: bool) -> (r: FilterStep)
    ensures
        r == (if !running {
            FilterStep::Start
        } else if !force_restart {
            FilterStep::Keep
        } else if same_topology {
            FilterStep::TryLiveUpdate
        } else {
            FilterStep::Start
        }),
{
    if !running {
        FilterStep::Start
    } else if !force_restart {
        FilterStep::Keep
    } else if same_topology {
        FilterStep::TryLiveUpdate
    } else {
        FilterStep::Start
    }
}

} // verus!
