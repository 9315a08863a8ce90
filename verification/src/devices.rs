use vstd::prelude::*;
use crate::decimal::{parse_unsigned, parse_unsigned_exec};
use crate::model::{DeviceKey, DeviceKeyView, RememberedDevice, RememberedView};
use crate::text::{
    chars_of, find_char, find_char_vec, find_sub, find_sub_vec, lines, lines_vec, slice_chars,
    split_ws, split_ws_vec, string_of, trim, trim_vec, views,
};

verus! {

// ---------------------------------------------------------------------------
// Outputs remembered from their storage key alone.

/// The output that a storage key `backend|stable_id|route` names, when all
/// three parts are non-empty (the route may itself hold `|`).
pub open spec fn remembered_from_key(k: Seq<char>) -> Option<RememberedView> {
    let i = find_char(k, '|');
    let rest = k.skip((i + 1) as int);
    let j = find_char(rest, '|');
    if i >= k.len() || j >= rest.len() {
        None
    } else {
        let backend = k.take(i as int);
        let stable_id = rest.take(j as int);
        let route = rest.skip((j + 1) as int);
        if backend.len() == 0 || stable_id.len() == 0 || route.len() == 0 {
            None
        } else {
            Some(
                RememberedView {
                    key: DeviceKeyView { backend, stable_id, route },
                    node_name: Seq::empty(),
                    description: (if backend == "bluez5"@ {
                        "Previously used Bluetooth output · "@
                    } else {
                        "Previously used audio output · "@
                    }) + stable_id,
                    channels: 2,
                },
            )
        }
    }
}

/// The output that a storage key names (see [`remembered_from_key`]).
pub fn remembered_from_storage_key(storage_key: &str) -> (r: Option<RememberedDevice>)
    ensures
        match r {
            Some(d) => remembered_from_key(storage_key@) == Some(d@),
            None => remembered_from_key(storage_key@) is None,
        },
{
    let k = chars_of(storage_key);
    let i = find_char_vec(&k, '|');
    if i >= k.len() {
        return None;
    }
    let rest = slice_chars(&k, i + 1, k.len());
    proof {
        assert(rest@ =~= k@.skip(i + 1));
    }
    let j = find_char_vec(&rest, '|');
    if j >= rest.len() {
        return None;
    }
    let backend = slice_chars(&k, 0, i);
    let stable_id = slice_chars(&rest, 0, j);
    let route = slice_chars(&rest, j + 1, rest.len());
    proof {
        assert(backend@ =~= k@.take(i as int));
        assert(stable_id@ =~= rest@.take(j as int));
        assert(route@ =~= rest@.skip(j + 1));
    }
    if backend.len() == 0 || stable_id.len() == 0 || route.len() == 0 {
        return None;
    }
    let backend_text = string_of(&backend);
    let bluetooth = crate::text::eq_vec(&backend, &chars_of("bluez5"));
    let mut description = if bluetooth {
        String::from_str("Previously used Bluetooth output · ")
    } else {
        String::from_str("Previously used audio output · ")
    };
    let stable_text = string_of(&stable_id);
    description.append(stable_text.as_str());
    Some(
        RememberedDevice {
            key: DeviceKey {
                backend: backend_text,
                stable_id: stable_text,
                route: string_of(&route),
            },
            node_name: String::new(),
            description,
            channels: 2,
        },
    )
}

// ---------------------------------------------------------------------------
// PipeWire graph settings from `pw-metadata` output.

/// The number in one `pw-metadata` line that sets `key`: the text between
/// `value:'` and the next quote, trimmed, as a `u32`.
pub open spec fn metadata_line_value(line: Seq<char>, key: Seq<char>) -> Option<nat> {
    if find_sub(line, "key:'"@ + key + "'"@) is None {
        None
    } else {
        match find_sub(line, "value:'"@) {
            None => None,
            Some(i) => {
                let rest = line.skip((i + "value:'"@.len()) as int);
                let piece = match find_sub(rest, "value:'"@) {
                    Some(j) => rest.take(j as int),
                    None => rest,
                };
                let value = piece.take(find_char(piece, '\'') as int);
                parse_unsigned(trim(value), u32::MAX as nat)
            },
        }
    }
}

/// The value of the first line that sets `key` to a number.
pub open spec fn first_metadata_value(lines: Seq<Seq<char>>, key: Seq<char>) -> Option<nat>
    decreases lines.len(),
{
    if lines.len() == 0 {
        None
    } else {
        match metadata_line_value(lines[0], key) {
            Some(v) => Some(v),
            None => first_metadata_value(lines.drop_first(), key),
        }
    }
}

/// The number that `pw-metadata` text sets `key` to.
pub open spec fn metadata_value(text: Seq<char>, key: Seq<char>) -> Option<nat> {
    first_metadata_value(lines(text), key)
}

fn metadata_line_value_exec(line: &Vec<char>, key: &str) -> (r: Option<u32>)
    ensures
        match r {
            Some(v) => metadata_line_value(line@, key@) == Some(v as nat),
            None => metadata_line_value(line@, key@) is None,
        },
{
    let mut wanted = String::from_str("key:'");
    wanted.append(key);
    wanted.append("'");
    let wanted = chars_of(wanted.as_str());
    if find_sub_vec(line, &wanted).is_none() {
        return None;
    }
    let marker = chars_of("value:'");
    let i = match find_sub_vec(line, &marker) {
        Some(i) => i,
        None => {
            return None;
        },
    };
    if marker.len() > line.len() - i {
        proof {
            crate::text::lemma_find_sub_fits(line@, marker@);
        }
        return None;
    }
    let rest = slice_chars(line, i + marker.len(), line.len());
    proof {
        assert(rest@ =~= line@.skip(i + marker@.len()));
    }
    let piece = match find_sub_vec(&rest, &marker) {
        Some(j) => {
            proof {
                crate::text::lemma_find_sub_fits(rest@, marker@);
            }
            slice_chars(&rest, 0, j)
        },
        None => slice_chars(&rest, 0, rest.len()),
    };
    proof {
        assert(rest@.take(rest@.len() as int) =~= rest@);
    }
    let q = find_char_vec(&piece, '\'');
    let value = slice_chars(&piece, 0, q);
    let trimmed = trim_vec(&value);
    match parse_unsigned_exec(&trimmed, 0xffff_ffff) {
        Some(v) => Some(v as u32),
        None => None,
    }
}

proof fn lemma_first_metadata(lines: Seq<Seq<char>>, key: Seq<char>, i: int)
    requires
        0 <= i <= lines.len(),
        forall|j: int| 0 <= j < i ==> metadata_line_value(#[trigger] lines[j], key) is None,
    ensures
        first_metadata_value(lines, key) == first_metadata_value(lines.skip(i), key),
    decreases i,
{
    if i > 0 {
        assert(metadata_line_value(lines[0], key) is None);
        assert forall|j: int| 0 <= j < i - 1 implies metadata_line_value(
            #[trigger] lines.drop_first()[j],
            key,
        ) is None by {
            assert(lines.drop_first()[j] == lines[j + 1]);
        }
        lemma_first_metadata(lines.drop_first(), key, i - 1);
        assert(lines.drop_first().skip(i - 1) =~= lines.skip(i));
    } else {
        assert(lines.skip(0) =~= lines);
    }
}

/// The number that `pw-metadata` text sets `key` to (see [`metadata_value`]).
pub fn metadata_number(text: &str, key: &str) -> (r: Option<u32>)
    ensures
        match r {
            Some(v) => metadata_value(text@, key@) == Some(v as nat),
            None => metadata_value(text@, key@) is None,
        },
{
    let chars = chars_of(text);
    let all = lines_vec(&chars);
    let ghost ls = lines(text@);
    let mut i: usize = 0;
    while i < all.len()
        invariant
            i <= all@.len(),
            views(all@) == ls,
            ls == lines(text@),
            forall|j: int| 0 <= j < i ==> metadata_line_value(#[trigger] ls[j], key@) is None,
        decreases all.len() - i,
    {
        proof {
            assert(ls[i as int] == all@[i as int]@);
        }
        match metadata_line_value_exec(&all[i], key) {
            Some(v) => {
                proof {
                    lemma_first_metadata(ls, key@, i as int);
                    assert(ls.skip(i as int)[0] == ls[i as int]);
                }
                return Some(v);
            },
            None => {},
        }
        i += 1;
    }
    proof {
        lemma_first_metadata(ls, key@, i as int);
    }
    None
}

/// The sample rate and the largest quantum of the PipeWire graph.
#[derive(Debug, Clone, Copy, PartialEq, Eq, Structural)]
pub struct GraphSettings {
    pub sample_rate: u32,
    pub quantum: u32,
}

/// Graph settings read from `pw-metadata -n settings 0` output: `clock.rate`
/// or 48000, and `clock.max-quantum`, else `clock.quantum`, else 2048.
pub open spec fn settings_from_metadata(text: Seq<char>) -> GraphSettings {
    GraphSettings {
        sample_rate: match metadata_value(text, "clock.rate"@) {
            Some(v) => v as u32,
            None => 48000,
        },
        quantum: match metadata_value(text, "clock.max-quantum"@) {
            Some(v) => v as u32,
            None => match metadata_value(text, "clock.quantum"@) {
                Some(v) => v as u32,
                None => 2048,
            },
        },
    }
}

pub fn graph_settings_from_metadata(text: &str) -> (r: GraphSettings)
    ensures
        r == settings_from_metadata(text@),
{
    let sample_rate = match metadata_number(text, "clock.rate") {
        Some(v) => v,
        None => 48000,
    };
    let quantum = match metadata_number(text, "clock.max-quantum") {
        Some(v) => v,
        None => match metadata_number(text, "clock.quantum") {
            Some(v) => v,
            None => 2048,
        },
    };
    GraphSettings { sample_rate, quantum }
}

// ---------------------------------------------------------------------------
// Channel counts from `audio.position`.

pub open spec fn is_bracket(c: char) -> bool {
    c == '[' || c == ']'
}

pub open spec fn bracket_prefix(s: Seq<char>) -> nat
    decreases s.len(),
{
    if s.len() > 0 && is_bracket(s[0]) {
        1 + bracket_prefix(s.drop_first())
    } else {
        0
    }
}

pub open spec fn bracket_trimmed_end(s: Seq<char>) -> nat
    decreases s.len(),
{
    if s.len() > 0 && is_bracket(s.last()) {
        bracket_trimmed_end(s.drop_last())
    } else {
        s.len()
    }
}

/// `str::trim_matches` of `[` and `]`.
pub open spec fn strip_brackets(s: Seq<char>) -> Seq<char> {
    let t = s.skip(bracket_prefix(s) as int);
    t.take(bracket_trimmed_end(t) as int)
}

/// The number of channels an `audio.position` value lists, 2 when it lists none.
pub open spec fn position_channels(position: Option<Seq<char>>) -> nat {
    match position {
        None => 2,
        Some(p) => {
            let n = split_ws(strip_brackets(p)).len();
            if n > 0 {
                n
            } else {
                2
            }
        },
    }
}

proof fn lemma_bracket_prefix_unique(s: Seq<char>, i: int)
    requires
        0 <= i <= s.len(),
        forall|j: int| 0 <= j < i ==> is_bracket(#[trigger] s[j]),
        i < s.len() ==> !is_bracket(s[i]),
    ensures
        bracket_prefix(s) == i,
    decreases s.len(),
{
    if i > 0 {
        assert(is_bracket(s[0]));
        assert forall|j: int| 0 <= j < i - 1 implies is_bracket(#[trigger] s.drop_first()[j]) by {
            assert(s.drop_first()[j] == s[j + 1]);
        }
        lemma_bracket_prefix_unique(s.drop_first(), i - 1);
    }
}

proof fn lemma_bracket_end_unique(s: Seq<char>, i: int)
    requires
        0 <= i <= s.len(),
        forall|j: int| i <= j < s.len() ==> is_bracket(#[trigger] s[j]),
        i > 0 ==> !is_bracket(s[i - 1]),
    ensures
        bracket_trimmed_end(s) == i,
    decreases s.len(),
{
    if i < s.len() {
        assert(is_bracket(s[s.len() - 1]));
        assert forall|j: int| i <= j < s.drop_last().len() implies is_bracket(
            #[trigger] s.drop_last()[j],
        ) by {
            assert(s.drop_last()[j] == s[j]);
        }
        lemma_bracket_end_unique(s.drop_last(), i);
    }
}

fn strip_brackets_exec(v: &Vec<char>) -> (r: Vec<char>)
    ensures
        r@ == strip_brackets(v@),
{
    let mut a: usize = 0;
    while a < v.len() && (v[a] == '[' || v[a] == ']')
        invariant
            a <= v.len(),
            forall|j: int| 0 <= j < a ==> is_bracket(#[trigger] v@[j]),
        decreases v.len() - a,
    {
        a += 1;
    }
    proof {
        lemma_bracket_prefix_unique(v@, a as int);
    }
    let ghost t = v@.skip(a as int);
    let mut b: usize = v.len();
    while b > a && (v[b - 1] == '[' || v[b - 1] == ']')
        invariant
            a <= b <= v.len(),
            t == v@.skip(a as int),
            forall|j: int| b <= j < v.len() ==> is_bracket(#[trigger] v@[j]),
        decreases b,
    {
        b -= 1;
    }
    proof {
        assert forall|j: int| (b - a) <= j < t.len() implies is_bracket(#[trigger] t[j]) by {
            assert(t[j] == v@[j + a]);
        }
        if b > a {
            assert(t[b - a - 1] == v@[b - 1]);
        }
        lemma_bracket_end_unique(t, (b - a) as int);
        assert(strip_brackets(v@) =~= v@.subrange(a as int, b as int));
    }
    slice_chars(v, a, b)
}

/// The number of channels an `audio.position` value lists (see [`position_channels`]).
pub fn channel_count(position: Option<&str>) -> (r: u64)
    ensures
        r == position_channels(
            match position {
                Some(p) => Some(p@),
                None => None,
            },
        ),
{
    match position {
        None => 2,
        Some(p) => {
            let chars = chars_of(p);
            let tokens = split_ws_vec(&strip_brackets_exec(&chars));
            let n = tokens.len();
            if n > 0 {
                n as u64
            } else {
                2
            }
        },
    }
}

} // verus!
