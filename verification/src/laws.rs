use vstd::prelude::*;
use crate::compile::{compile_refusal, CompileError};
use crate::control::{engine_state, parse_command, CommandView, EngineState, QuickOutput};
use crate::decimal::{
    all_digits, at_scale, common_scale, dec_le, digits_value, leading_zeros, lemma_compare_at,
    lemma_digits_bound, lemma_leading_zeros_are_zeros, lemma_pow10_monotone,
    lemma_pow10_positive, lemma_skip_zeros_value, lemma_trailing_zeros_are_zeros,
    lemma_trailing_zeros_value, lemma_trailing_zero_count_ends, num_le, number_from_parts,
    overflow_threshold, pow10, trailing_zeros, underflow_threshold, Decimal, Number, MAX_DIGITS,
};
use crate::devices::remembered_from_key;
use crate::discovery::{
    node_device, nodes_devices, PwObject, insert_device, listed_before, merged_library, remember_all, remembered_of, sort_devices,
    text_le,
};
use crate::filters::{desired_keys, stale_keys, wants_filter};
use crate::pipewire::{
    channel_chain, conv_part, eq_node, filter_part, gain_node, graphic_part, mix_node, text_at,
    triple_at, ChainPart, LevelsView,
};
use crate::decimal::decimal_text;
use crate::library::{
    assignment_result, dedup, is_unique_name, name_taken, planned_comparison, without_profile,
    LibraryView, MAX_COMPARISON_PROFILES,
};
use crate::model::{
    no_errors, storage_key, Channel, ChannelSelection, Filter, DeviceInfo, DeviceKeyView, DeviceView,
    DiagnosticLevel, DocumentView, FilterKind, GraphicPoint, RememberedView,
};
use crate::parser::{
    channel_selection, filter_kind, insert_point, parse_filter, parse_line, sort_points, LineEffect,
};
use crate::session::{apply_effect, limit_errors, with_limits, ParseFrame, ParseRequest, ParseSession};
use crate::text::{lemma_find_char_unique, replace_char, split_ws, to_lower, views};

verus! {

// ---------------------------------------------------------------------------
// Outputs and their storage keys.

/// An output's storage key names the output again: when the backend and the
/// stable identifier hold no `|` and no part is empty, the output remembered
/// from the key has the same backend, stable identifier and route.
pub proof fn law_storage_key_round_trip(k: DeviceKeyView)
    requires
        k.backend.len() > 0,
        k.stable_id.len() > 0,
        k.route.len() > 0,
        !k.backend.contains('|'),
        !k.stable_id.contains('|'),
    ensures
        remembered_from_key(storage_key(k)) matches Some(r) && r.key == k,
{
    reveal_strlit("|");
    let s = storage_key(k);
    let b = k.backend.len() as int;
    assert forall|j: int| 0 <= j < b implies #[trigger] s[j] != '|' by {
        assert(s[j] == k.backend[j]);
    }
    assert(s[b] == '|');
    lemma_find_char_unique(s, '|', b);
    let rest = s.skip(b + 1);
    assert(rest =~= k.stable_id + "|"@ + k.route);
    let t = k.stable_id.len() as int;
    assert forall|j: int| 0 <= j < t implies #[trigger] rest[j] != '|' by {
        assert(rest[j] == k.stable_id[j]);
    }
    assert(rest[t] == '|');
    lemma_find_char_unique(rest, '|', t);
    assert(s.take(b) =~= k.backend);
    assert(rest.take(t) =~= k.stable_id);
    assert(rest.skip(t + 1) =~= k.route);
}

// ---------------------------------------------------------------------------
// The library.

/// What an assignment writes is what is read back: after a successful
/// assignment of a non-empty profile id the output maps to it, after clearing
/// it the output maps to nothing; either way the output is no longer bypassed,
/// and the assignments of other outputs are unchanged.
pub proof fn law_assignment_read_back(
    old: LibraryView,
    devices: Seq<DeviceInfo>,
    key: Seq<char>,
    id: Seq<char>,
    stored: Result<bool, Seq<char>>,
    other: Seq<char>,
)
    requires
        assignment_result(old, devices, key, id, stored) is Ok,
    ensures
        ({
            let new = assignment_result(old, devices, key, id, stored)->Ok_0;
            &&& id.len() > 0 ==> new.assignments.contains_key(key) && new.assignments[key] == id
            &&& id.len() == 0 ==> !new.assignments.contains_key(key)
            &&& !new.bypassed.contains(key)
            &&& other != key ==> new.assignments.contains_key(other) == old.assignments.contains_key(other)
                && new.assignments[other] == old.assignments[other]
            &&& new.profiles == old.profiles
            &&& new.global_bypass == old.global_bypass
        }),
{
}

/// A profile that is assigned is one the library holds: assigning a
/// non-empty id succeeds only for a profile of the library.
pub proof fn law_assigned_profiles_exist(
    old: LibraryView,
    devices: Seq<DeviceInfo>,
    key: Seq<char>,
    id: Seq<char>,
    stored: Result<bool, Seq<char>>,
)
    requires
        assignment_result(old, devices, key, id, stored) is Ok,
        id.len() > 0,
    ensures
        old.profiles.contains_key(id),
        stored == Ok::<bool, Seq<char>>(true),
{
}

/// After a profile is deleted no assignment names it, and every other
/// assignment is kept.
pub proof fn law_deleted_profile_is_unassigned(m: Map<Seq<char>, Seq<char>>, id: Seq<char>, k: Seq<char>)
    ensures
        without_profile(m, id).contains_key(k) ==> without_profile(m, id)[k] != id,
        m.contains_key(k) && m[k] != id ==> without_profile(m, id).contains_key(k)
            && without_profile(m, id)[k] == m[k],
{
}

/// A new profile's name is not the name of any profile.
pub proof fn law_unique_name_is_free(profiles: Map<Seq<char>, Seq<char>>, requested: Seq<char>, r: Seq<char>)
    requires
        is_unique_name(profiles, requested, r),
    ensures
        !name_taken(profiles, r),
{
}

/// Every text of a list without repeats occurs in the list, and none occurs
/// twice.
pub proof fn law_dedup(s: Seq<Seq<char>>)
    ensures
        forall|i: int, j: int| 0 <= i < j < dedup(s).len() ==> dedup(s)[i] != dedup(s)[j],
        forall|i: int| 0 <= i < dedup(s).len() ==> s.contains(#[trigger] dedup(s)[i]),
        forall|i: int| 0 <= i < s.len() ==> dedup(s).contains(#[trigger] s[i]),
    decreases s.len(),
{
    if s.len() > 0 {
        let t = s.drop_last();
        law_dedup(t);
        let d = dedup(t);
        assert forall|i: int| 0 <= i < d.len() implies s.contains(#[trigger] d[i]) by {
            let j = choose|j: int| 0 <= j < t.len() && t[j] == d[i];
            assert(s[j] == t[j]);
        }
        assert forall|i: int| 0 <= i < s.len() implies dedup(s).contains(#[trigger] s[i]) by {
            if i < s.len() - 1 {
                assert(s[i] == t[i]);
                assert(d.contains(t[i]));
                let j = choose|j: int| 0 <= j < d.len() && d[j] == t[i];
                if !d.contains(s.last()) {
                    assert(d.push(s.last())[j] == d[j]);
                }
            } else {
                if !d.contains(s.last()) {
                    assert(d.push(s.last())[d.len() as int] == s.last());
                }
            }
        }
        if !d.contains(s.last()) {
            let e = d.push(s.last());
            assert forall|i: int| 0 <= i < e.len() implies s.contains(#[trigger] e[i]) by {
                if i < d.len() {
                    assert(e[i] == d[i]);
                } else {
                    assert(s[s.len() - 1] == e[i]);
                }
            }
        }
    }
}

/// A planned comparison bank holds 2 to 9 distinct candidates, each a
/// profile of the library or the dry candidate, and is active on one of them.
pub proof fn law_planned_comparison(
    lib: LibraryView,
    devices: Seq<DeviceInfo>,
    key: Seq<char>,
    requested: Seq<Seq<char>>,
)
    requires
        planned_comparison(lib, devices, key, requested) is Ok,
    ensures
        ({
            let c = planned_comparison(lib, devices, key, requested)->Ok_0;
            &&& 2 <= c.profile_ids.len() <= MAX_COMPARISON_PROFILES
            &&& forall|i: int, j: int|
                0 <= i < j < c.profile_ids.len() ==> c.profile_ids[i] != c.profile_ids[j]
            &&& c.profile_ids.contains(c.active_profile_id)
            &&& c.enabled
            &&& forall|i: int|
                0 <= i < c.profile_ids.len() ==> requested.contains(#[trigger] c.profile_ids[i])
        }),
{
    law_dedup(requested);
    let ids = dedup(requested);
    assert(ids.contains(ids[0]));
}

// ---------------------------------------------------------------------------
// The engine.

/// The global bypass turns the engine off whatever the outputs are.
pub proof fn law_global_bypass_turns_engine_off(outputs: Seq<QuickOutput>)
    ensures
        engine_state(true, outputs) == EngineState::EngineOff,
{
}

// ---------------------------------------------------------------------------
// The order in which outputs are listed.

/// Any two texts are ordered one way or the other.
pub proof fn law_text_le_total(a: Seq<char>, b: Seq<char>)
    ensures
        text_le(a, b) || text_le(b, a),
    decreases a.len(),
{
    if a.len() > 0 && b.len() > 0 {
        if a[0] == b[0] {
            law_text_le_total(a.drop_first(), b.drop_first());
        }
    }
}

/// The order of texts is transitive.
pub proof fn law_text_le_transitive(a: Seq<char>, b: Seq<char>, c: Seq<char>)
    requires
        text_le(a, b),
        text_le(b, c),
    ensures
        text_le(a, c),
    decreases a.len(),
{
    if a.len() > 0 && b.len() > 0 && c.len() > 0 && a[0] == b[0] && b[0] == c[0] {
        law_text_le_transitive(a.drop_first(), b.drop_first(), c.drop_first());
    }
}

/// Any two outputs may be listed one before the other.
pub proof fn law_listed_before_total(a: DeviceView, b: DeviceView)
    ensures
        listed_before(a, b) || listed_before(b, a),
{
    law_text_le_total(a.description, b.description);
}

/// The listing order is transitive.
pub proof fn law_listed_before_transitive(a: DeviceView, b: DeviceView, c: DeviceView)
    requires
        listed_before(a, b),
        listed_before(b, c),
    ensures
        listed_before(a, c),
{
    if a.connected == b.connected && b.connected == c.connected {
        law_text_le_transitive(a.description, b.description, c.description);
    }
}

/// Whether each output of a list may be listed before every later one.
pub open spec fn in_listing_order(s: Seq<DeviceView>) -> bool {
    forall|i: int, j: int| 0 <= i < j < s.len() ==> listed_before(#[trigger] s[i], #[trigger] s[j])
}

proof fn lemma_insert_device(s: Seq<DeviceView>, d: DeviceView)
    requires
        in_listing_order(s),
    ensures
        in_listing_order(insert_device(s, d)),
        insert_device(s, d).to_multiset() == s.to_multiset().insert(d),
        forall|x: DeviceView| #[trigger] insert_device(s, d).contains(x) ==> x == d || s.contains(x),
    decreases s.len(),
{
    broadcast use vstd::seq_lib::to_multiset_build;

    let r = insert_device(s, d);
    if s.len() == 0 {
        assert(r =~= seq![d]);
        assert(s.push(d) =~= seq![d]);
    } else if listed_before(s.last(), d) {
        assert(r == s.push(d));
        assert forall|i: int, j: int| 0 <= i < j < r.len() implies listed_before(
            #[trigger] r[i],
            #[trigger] r[j],
        ) by {
            if j == s.len() {
                if i < s.len() - 1 {
                    law_listed_before_transitive(s[i], s.last(), d);
                }
            }
        }
        assert forall|x: DeviceView| #[trigger] r.contains(x) implies x == d || s.contains(x) by {
            let k = choose|k: int| 0 <= k < r.len() && r[k] == x;
            if k < s.len() {
                assert(s[k] == x);
            }
        }
    } else {
        let t = s.drop_last();
        let last = s.last();
        assert(in_listing_order(t)) by {
            assert forall|i: int, j: int| 0 <= i < j < t.len() implies listed_before(
                #[trigger] t[i],
                #[trigger] t[j],
            ) by {
                assert(t[i] == s[i] && t[j] == s[j]);
            }
        }
        lemma_insert_device(t, d);
        let u = insert_device(t, d);
        assert(r == u.push(last));
        law_listed_before_total(last, d);
        assert forall|k: int| 0 <= k < u.len() implies listed_before(#[trigger] u[k], last) by {
            assert(u.contains(u[k]));
            if u[k] != d {
                let m = choose|m: int| 0 <= m < t.len() && t[m] == u[k];
                assert(s[m] == t[m]);
            }
        }
        assert forall|i: int, j: int| 0 <= i < j < r.len() implies listed_before(
            #[trigger] r[i],
            #[trigger] r[j],
        ) by {
            if j == u.len() {
                assert(r[i] == u[i]);
            } else {
                assert(r[i] == u[i] && r[j] == u[j]);
            }
        }
        assert(t.push(last) =~= s);
        assert(s.to_multiset() =~= t.to_multiset().insert(last));
        assert forall|x: DeviceView| #[trigger] r.contains(x) implies x == d || s.contains(x) by {
            let k = choose|k: int| 0 <= k < r.len() && r[k] == x;
            if k < u.len() {
                assert(u[k] == x);
                assert(u.contains(x));
                if x != d {
                    let m = choose|m: int| 0 <= m < t.len() && t[m] == x;
                    assert(s[m] == x);
                }
            } else {
                assert(s[s.len() - 1] == x);
            }
        }
    }
}

/// Outputs are listed connected ones first, each group ordered by
/// description, and the listing holds each output as often as it came.
pub proof fn law_sorted_outputs(devices: Seq<DeviceView>)
    ensures
        in_listing_order(sort_devices(devices)),
        sort_devices(devices).to_multiset() == devices.to_multiset(),
    decreases devices.len(),
{
    broadcast use vstd::seq_lib::to_multiset_build;

    if devices.len() == 0 {
        assert(sort_devices(devices) =~= devices);
    } else {
        let t = devices.drop_last();
        law_sorted_outputs(t);
        lemma_insert_device(sort_devices(t), devices.last());
        assert(t.push(devices.last()) =~= devices);
    }
}

// ---------------------------------------------------------------------------
// Numbers and GraphicEQ points.

/// Any two numbers are ordered one way or the other.
pub proof fn law_dec_le_total(a: Decimal, b: Decimal)
    ensures
        dec_le(a, b) || dec_le(b, a),
{
    assert(common_scale(a, b) == common_scale(b, a));
}

/// The order of numbers is transitive.
pub proof fn law_dec_le_transitive(a: Decimal, b: Decimal, c: Decimal)
    requires
        dec_le(a, b),
        dec_le(b, c),
    ensures
        dec_le(a, c),
{
    let k = if a.scale >= b.scale && a.scale >= c.scale {
        a.scale as int
    } else if b.scale >= c.scale {
        b.scale as int
    } else {
        c.scale as int
    };
    lemma_compare_at(a, b, k);
    lemma_compare_at(b, c, k);
    lemma_compare_at(a, c, k);
}

/// A number written with at most 19 significant digits, whose exponent keeps
/// it well within the range of a double, is read exactly: its value times `10^(frac_len - exponent)` is
/// the integer that its digits spell, with its sign.
pub proof fn law_short_numbers_are_exact(
    negative: bool,
    digits: Seq<char>,
    frac_len: nat,
    exponent: int,
)
    requires
        all_digits(digits),
        ({
            let t = digits.skip(leading_zeros(digits) as int);
            t.len() - trailing_zeros(t) <= MAX_DIGITS
        }),
        -300 <= exponent - frac_len,
        exponent - frac_len + digits.len() <= 290,
    ensures
        number_from_parts(negative, digits, frac_len, exponent) matches Number::Finite(d) && (
        d.mantissa > 0 ==> d.scale <= frac_len - exponent) && at_scale(d, frac_len - exponent) == (
        if negative {
            -(digits_value(digits) as int)
        } else {
            digits_value(digits) as int
        }),
{
    let lz = leading_zeros(digits);
    lemma_leading_zeros_are_zeros(digits);
    lemma_skip_zeros_value(digits, lz as int);
    let t = digits.skip(lz as int);
    let tz = trailing_zeros(t);
    lemma_trailing_zeros_are_zeros(t);
    lemma_trailing_zeros_value(t, tz as int);
    let core = t.take(t.len() - tz);
    let k = frac_len - exponent;
    if core.len() == 0 {
        assert(digits_value(core) == 0);
        let d = Decimal { negative, mantissa: 0, scale: 0 };
        assert(d.num() == 0);
        assert(at_scale(d, k) == 0);
        assert(number_from_parts(negative, digits, frac_len, exponent) == Number::Finite(d));
        assert(digits_value(t) == 0 * pow10(tz));
        assert(digits_value(digits) == 0);
    } else {
        assert(all_digits(core)) by {
            assert forall|i: int| 0 <= i < core.len() implies crate::decimal::is_digit(
                #[trigger] core[i],
            ) by {
                assert(core[i] == digits[lz + i]);
            }
        }
        lemma_digits_bound(core);
        lemma_pow10_monotone(core.len(), 19);
        assert(pow10(19) == 10_000_000_000_000_000_000) by {
            reveal_with_fuel(pow10, 20);
        }
        lemma_trailing_zero_count_ends(t);
        assert(core.last() == t[t.len() - 1 - tz]);
        let m = digits_value(core);
        let e = exponent - frac_len + tz;
        let d = Decimal { negative, mantissa: m as u64, scale: (-e) as i64 };
        let magnitude = Decimal { negative: false, mantissa: m as u64, scale: (-e) as i64 };
        lemma_in_double_range(core, e);
        assert(number_from_parts(negative, digits, frac_len, exponent) == Number::Finite(d));
        assert(k - d.scale == tz);
        assert(at_scale(d, k) == d.num() * pow10(tz));
        assert(d.num() * pow10(tz) == (if negative {
            -((m * pow10(tz)) as int)
        } else {
            (m * pow10(tz)) as int
        })) by (nonlinear_arith)
            requires
                d.num() == (if negative { -(m as int) } else { m as int }),
        ;
        assert(digits_value(t) == m * pow10(tz));
        assert(digits_value(digits) == digits_value(t));
        assert(d.mantissa as int == m);
    }
}

/// A nonzero number of at most 19 significant digits whose decimal exponent
/// `e` keeps it between `10^-300` and `10^290` is neither too large nor too
/// small for a double.
proof fn lemma_in_double_range(core: Seq<char>, e: int)
    requires
        all_digits(core),
        1 <= core.len() <= MAX_DIGITS,
        core.last() != '0',
        -300 <= e,
        e + core.len() <= 290,
    ensures
        ({
            let magnitude = Decimal {
                negative: false,
                mantissa: digits_value(core) as u64,
                scale: (-e) as i64,
            };
            !dec_le(overflow_threshold(), magnitude) && !dec_le(magnitude, underflow_threshold())
        }),
{
    let m = digits_value(core);
    lemma_digits_bound(core);
    lemma_pow10_monotone(core.len(), 19);
    assert(pow10(19) == 10_000_000_000_000_000_000) by {
        reveal_with_fuel(pow10, 20);
    }
    assert(m >= 1) by {
        assert(m == digits_value(core.drop_last()) * 10 + crate::decimal::digit_value(core.last()));
        assert(crate::decimal::is_digit(core[core.len() - 1]));
    }
    let magnitude = Decimal { negative: false, mantissa: m as u64, scale: (-e) as i64 };
    let s = -e;
    assert(m < 10_000_000_000_000_000_000);
    assert(magnitude.mantissa as int == m);
    assert(magnitude.scale == s);
    assert(magnitude.num() == m);
    // Above: at the scale of the magnitude, the threshold is at least 10^(s + 290).
    let over = overflow_threshold();
    lemma_compare_at(over, magnitude, s);
    lemma_pow10_monotone(core.len(), (s + 290) as nat);
    lemma_pow10_positive((s + 290) as nat);
    assert(at_scale(over, s) == 1797693134862315808 * pow10((s + 290) as nat));
    assert(at_scale(magnitude, s) == m * pow10(0));
    assert(pow10(0) == 1);
    assert(1797693134862315808 * pow10((s + 290) as nat) >= pow10((s + 290) as nat))
        by (nonlinear_arith);
    assert(pow10(core.len()) <= pow10((s + 290) as nat));
    assert(pow10(0) == 1);
    assert((s - magnitude.scale) as nat == 0);
    assert(at_scale(magnitude, s) == magnitude.num() * 1);
    assert(at_scale(magnitude, s) == m);
    assert(m < pow10(core.len()));
    assert(m < pow10((s + 290) as nat));
    assert(at_scale(over, s) >= pow10((s + 290) as nat));
    assert(at_scale(magnitude, s) < at_scale(over, s));
    assert(!dec_le(over, magnitude));
    // Below: at scale 342, the magnitude is at least 10^42.
    let under = underflow_threshold();
    lemma_compare_at(magnitude, under, 342);
    lemma_pow10_monotone(19, (342 - s) as nat);
    assert(at_scale(magnitude, 342) == m * pow10((342 - s) as nat));
    assert(at_scale(under, 342) == 2470328229206232721 * pow10(0));
    assert(m * pow10((342 - s) as nat) >= pow10((342 - s) as nat)) by (nonlinear_arith)
        requires
            m >= 1,
    ;
    assert(at_scale(magnitude, 342) > at_scale(under, 342));
    assert(!dec_le(magnitude, under));
}

/// Any two numbers read from text are ordered one way or the other, as
/// `f64::total_cmp` orders them.
pub proof fn law_num_le_total(a: Number, b: Number)
    ensures
        num_le(a, b) || num_le(b, a),
{
    if let (Number::Finite(x), Number::Finite(y)) = (a, b) {
        law_dec_le_total(x, y);
    }
}

/// That order is transitive.
pub proof fn law_num_le_transitive(a: Number, b: Number, c: Number)
    requires
        num_le(a, b),
        num_le(b, c),
    ensures
        num_le(a, c),
{
    if let (Number::Finite(x), Number::Finite(y), Number::Finite(z)) = (a, b, c) {
        law_dec_le_transitive(x, y, z);
    }
}

/// Whether the points of a list have non-decreasing frequencies.
pub open spec fn by_frequency(s: Seq<GraphicPoint>) -> bool {
    forall|i: int, j: int|
        0 <= i < j < s.len() ==> num_le((#[trigger] s[i]).frequency, (#[trigger] s[j]).frequency)
}

proof fn lemma_insert_point(s: Seq<GraphicPoint>, p: GraphicPoint)
    requires
        by_frequency(s),
    ensures
        by_frequency(insert_point(s, p)),
        insert_point(s, p).to_multiset() == s.to_multiset().insert(p),
        forall|x: GraphicPoint| #[trigger] insert_point(s, p).contains(x) ==> x == p || s.contains(x),
    decreases s.len(),
{
    broadcast use vstd::seq_lib::to_multiset_build;

    let r = insert_point(s, p);
    if s.len() == 0 {
        assert(r =~= seq![p]);
        assert(s.push(p) =~= seq![p]);
    } else if num_le(s.last().frequency, p.frequency) {
        assert(r == s.push(p));
        assert forall|i: int, j: int| 0 <= i < j < r.len() implies num_le(
            (#[trigger] r[i]).frequency,
            (#[trigger] r[j]).frequency,
        ) by {
            if j == s.len() && i < s.len() - 1 {
                law_num_le_transitive(s[i].frequency, s.last().frequency, p.frequency);
            }
        }
        assert forall|x: GraphicPoint| #[trigger] r.contains(x) implies x == p || s.contains(x) by {
            let k = choose|k: int| 0 <= k < r.len() && r[k] == x;
            if k < s.len() {
                assert(s[k] == x);
            }
        }
    } else {
        let t = s.drop_last();
        let last = s.last();
        assert(by_frequency(t)) by {
            assert forall|i: int, j: int| 0 <= i < j < t.len() implies num_le(
                (#[trigger] t[i]).frequency,
                (#[trigger] t[j]).frequency,
            ) by {
                assert(t[i] == s[i] && t[j] == s[j]);
            }
        }
        lemma_insert_point(t, p);
        let u = insert_point(t, p);
        assert(r == u.push(last));
        law_num_le_total(last.frequency, p.frequency);
        assert forall|k: int| 0 <= k < u.len() implies num_le((#[trigger] u[k]).frequency, last.frequency) by {
            assert(u.contains(u[k]));
            if u[k] != p {
                let m = choose|m: int| 0 <= m < t.len() && t[m] == u[k];
                assert(s[m] == t[m]);
            }
        }
        assert forall|i: int, j: int| 0 <= i < j < r.len() implies num_le(
            (#[trigger] r[i]).frequency,
            (#[trigger] r[j]).frequency,
        ) by {
            if j == u.len() {
                assert(r[i] == u[i]);
            } else {
                assert(r[i] == u[i] && r[j] == u[j]);
            }
        }
        assert(t.push(last) =~= s);
        assert forall|x: GraphicPoint| #[trigger] r.contains(x) implies x == p || s.contains(x) by {
            let k = choose|k: int| 0 <= k < r.len() && r[k] == x;
            if k < u.len() {
                assert(u[k] == x);
                assert(u.contains(x));
                if x != p {
                    let m = choose|m: int| 0 <= m < t.len() && t[m] == x;
                    assert(s[m] == x);
                }
            } else {
                assert(s[s.len() - 1] == x);
            }
        }
    }
}

/// GraphicEQ points are kept in order of frequency, each point as often as it
/// was written.
pub proof fn law_sorted_points(points: Seq<GraphicPoint>)
    ensures
        by_frequency(sort_points(points)),
        sort_points(points).to_multiset() == points.to_multiset(),
    decreases points.len(),
{
    broadcast use vstd::seq_lib::to_multiset_build;

    if points.len() == 0 {
        assert(sort_points(points) =~= points);
    } else {
        let t = points.drop_last();
        law_sorted_points(t);
        lemma_insert_point(sort_points(t), points.last());
        assert(t.push(points.last()) =~= points);
    }
}

// ---------------------------------------------------------------------------
// Discovery.

/// Every connected output is remembered after discovery, with what its last
/// occurrence in the list says of it; what was remembered before stays
/// remembered.
pub proof fn law_connected_outputs_are_remembered(old: LibraryView, connected: Seq<DeviceView>, i: int, k: Seq<char>)
    requires
        0 <= i < connected.len(),
        forall|j: int| i < j < connected.len() ==> storage_key((#[trigger] connected[j]).key) != storage_key(connected[i].key),
    ensures
        merged_library(old, connected).remembered.contains_key(storage_key(connected[i].key)),
        merged_library(old, connected).remembered[storage_key(connected[i].key)] == remembered_of(connected[i]),
        old.remembered.contains_key(k) ==> merged_library(old, connected).remembered.contains_key(k),
{
    lemma_remember_all(old.remembered, connected, i);
    lemma_remember_all_keeps(old.remembered, connected, k);
}

proof fn lemma_remember_all_keeps(m: Map<Seq<char>, RememberedView>, connected: Seq<DeviceView>, k: Seq<char>)
    ensures
        m.contains_key(k) ==> remember_all(m, connected).contains_key(k),
    decreases connected.len(),
{
    if connected.len() > 0 {
        lemma_remember_all_keeps(m, connected.drop_last(), k);
    }
}

proof fn lemma_remember_all(m: Map<Seq<char>, RememberedView>, connected: Seq<DeviceView>, i: int)
    requires
        0 <= i < connected.len(),
        forall|j: int| i < j < connected.len() ==> storage_key((#[trigger] connected[j]).key) != storage_key(connected[i].key),
    ensures
        remember_all(m, connected).contains_key(storage_key(connected[i].key)),
        remember_all(m, connected)[storage_key(connected[i].key)] == remembered_of(connected[i]),
    decreases connected.len(),
{
    let t = connected.drop_last();
    if i < connected.len() - 1 {
        assert forall|j: int| i < j < t.len() implies storage_key((#[trigger] t[j]).key) != storage_key(t[i].key) by {
            assert(t[j] == connected[j]);
            assert(t[i] == connected[i]);
        }
        lemma_remember_all(m, t, i);
        assert(t[i] == connected[i]);
        assert(storage_key(connected.last().key) != storage_key(connected[i].key));
    }
}

// ---------------------------------------------------------------------------
// Profile limits.

/// Enforcing the limits of a profile changes nothing but its diagnostics,
/// and only adds errors to them; a profile within its limits is unchanged.
pub proof fn law_limits_only_add_errors(doc: DocumentView)
    ensures
        with_limits(doc).name == doc.name,
        with_limits(doc).preamps == doc.preamps,
        with_limits(doc).filters == doc.filters,
        with_limits(doc).graphic_eqs == doc.graphic_eqs,
        with_limits(doc).convolutions == doc.convolutions,
        with_limits(doc).diagnostics.take(doc.diagnostics.len() as int) == doc.diagnostics,
        forall|i: int|
            doc.diagnostics.len() <= i < with_limits(doc).diagnostics.len() ==> (#[trigger] with_limits(doc).diagnostics[i]).level
                == DiagnosticLevel::Error,
        limit_errors(doc).len() == 0 ==> with_limits(doc) == doc,
        !no_errors(doc.diagnostics) ==> !no_errors(with_limits(doc).diagnostics),
{
    let e = limit_errors(doc);
    let d = with_limits(doc).diagnostics;
    assert(d.take(doc.diagnostics.len() as int) =~= doc.diagnostics);
    assert forall|i: int| doc.diagnostics.len() <= i < d.len() implies (#[trigger] d[i]).level == DiagnosticLevel::Error by {
        assert(d[i] == e[i - doc.diagnostics.len()]);
    }
    if e.len() == 0 {
        assert(d =~= doc.diagnostics);
    }
    if !no_errors(doc.diagnostics) {
        let i = choose|i: int| 0 <= i < doc.diagnostics.len() && doc.diagnostics[i].level == DiagnosticLevel::Error;
        assert(d[i] == doc.diagnostics[i]);
    }
}

// ---------------------------------------------------------------------------
// Profile text.

/// A line that is reported as an error leaves an error on the profile, with
/// the line's number and file: such a profile cannot be activated.
pub proof fn law_error_lines_block_activation(
    doc: DocumentView,
    channels: ChannelSelection,
    line: nat,
    source: Seq<char>,
    raw: Seq<char>,
)
    requires
        parse_line(raw, source, channels) matches LineEffect::Report(level, _) && level == DiagnosticLevel::Error,
    ensures
        ({
            let after = apply_effect(doc, channels, line, source, parse_line(raw, source, channels)).0;
            &&& !no_errors(after.diagnostics)
            &&& after.diagnostics.last().line == line
            &&& after.diagnostics.last().source == source
        }),
{
    let after = apply_effect(doc, channels, line, source, parse_line(raw, source, channels)).0;
    assert(after.diagnostics[after.diagnostics.len() - 1].level == DiagnosticLevel::Error);
}

/// A line never removes or changes a diagnostic already made.
pub proof fn law_diagnostics_are_kept(
    doc: DocumentView,
    channels: ChannelSelection,
    line: nat,
    source: Seq<char>,
    effect: LineEffect,
)
    ensures
        apply_effect(doc, channels, line, source, effect).0.diagnostics.take(
            doc.diagnostics.len() as int,
        ) == doc.diagnostics,
{
    let after = apply_effect(doc, channels, line, source, effect).0;
    assert(after.diagnostics.take(doc.diagnostics.len() as int) =~= doc.diagnostics);
}

/// A profile that mixes equalization with convolution is never compiled.
pub proof fn law_mixed_profiles_are_refused(doc: DocumentView, sample_rate: u32, quantum: u32, output_channels: u32)
    requires
        doc.filters.len() > 0 || doc.graphic_eqs.len() > 0,
        doc.convolutions.len() > 0,
    ensures
        compile_refusal(doc, sample_rate, quantum, output_channels) == Some(CompileError::MixedProcessingModes),
{
}

/// Unassigned outputs, outputs with more than two channels, bypassed and
/// disconnected outputs never get a filter: every key that gets one is the key
/// of an output that wants one.
pub proof fn law_only_wanted_outputs_are_filtered(devices: Seq<DeviceView>, profiles: Map<Seq<char>, Seq<char>>, i: int)
    requires
        0 <= i < desired_keys(devices, profiles).len(),
    ensures
        exists|j: int|
            0 <= j < devices.len() && wants_filter(#[trigger] devices[j], profiles) && storage_key(devices[j].key)
                == desired_keys(devices, profiles)[i],
    decreases devices.len(),
{
    let t = devices.drop_last();
    let rest = desired_keys(t, profiles);
    if i < rest.len() {
        law_only_wanted_outputs_are_filtered(t, profiles, i);
        let j = choose|j: int|
            0 <= j < t.len() && wants_filter(#[trigger] t[j], profiles) && storage_key(t[j].key) == rest[i];
        assert(devices[j] == t[j]);
    } else {
        assert(devices[devices.len() - 1] == devices.last());
    }
}

/// Reconciling keeps a running filter only when it is not stale and starts
/// one only for a desired key: every filter that runs afterwards belongs to a
/// connected output of at most two channels, not bypassed, whose assigned
/// profile exists.
pub proof fn law_reconciled_filters_are_wanted(
    running: Seq<Seq<char>>,
    devices: Seq<DeviceView>,
    profiles: Map<Seq<char>, Seq<char>>,
    k: Seq<char>,
)
    requires
        (running.contains(k) && !stale_keys(running, desired_keys(devices, profiles)).contains(k))
            || desired_keys(devices, profiles).contains(k),
    ensures
        exists|j: int|
            0 <= j < devices.len() && wants_filter(#[trigger] devices[j], profiles) && storage_key(
                devices[j].key,
            ) == k,
{
    let desired = desired_keys(devices, profiles);
    let stale_pred = |x: Seq<char>| !desired.contains(x);
    if !desired.contains(k) {
        let i = choose|i: int| 0 <= i < running.len() && running[i] == k;
        running.lemma_filter_contains(stale_pred, i);
        assert(false);
    }
    let i = choose|i: int| 0 <= i < desired.len() && desired[i] == k;
    law_only_wanted_outputs_are_filtered(devices, profiles, i);
}

// ---------------------------------------------------------------------------
// Filter families.

/// Every filter family's Equalizer APO spelling names that family again.
pub proof fn law_apo_name_names_its_kind(k: FilterKind)
    ensures
        filter_kind(k.spec_apo_name()) == Some(k),
{
    let t = to_lower(k.spec_apo_name());
    match k {
        FilterKind::Peaking => assert(t =~= seq!['p', 'k']),
        FilterKind::LowShelf => assert(t =~= seq!['l', 's', 'c']),
        FilterKind::HighShelf => assert(t =~= seq!['h', 's', 'c']),
        FilterKind::LowPass => assert(t =~= seq!['l', 'p', 'q']),
        FilterKind::HighPass => assert(t =~= seq!['h', 'p', 'q']),
        FilterKind::BandPass => assert(t =~= seq!['b', 'p']),
        FilterKind::Notch => assert(t =~= seq!['n', 'o']),
        FilterKind::AllPass => assert(t =~= seq!['a', 'p']),
    }
}

/// A `Filter:` line whose type is a family's APO spelling describes that
/// family whenever it is accepted.
pub proof fn law_apo_name_parses_back(args: Seq<char>, channels: ChannelSelection, k: FilterKind)
    requires
        split_ws(replace_char(args, ',', '.')).len() >= 2,
        split_ws(replace_char(args, ',', '.'))[1] == k.spec_apo_name(),
    ensures
        parse_filter(args, channels) matches Ok(f) ==> f.kind == k,
{
    law_apo_name_names_its_kind(k);
}

/// A profile line whose filter type is a family's APO spelling adds, when it
/// adds a filter at all, a filter of that family.
pub proof fn law_apo_name_line_adds_its_kind(
    raw: Seq<char>,
    source: Seq<char>,
    channels: ChannelSelection,
    k: FilterKind,
)
    requires
        ({
            let line = crate::text::trim(raw);
            let c = crate::text::find_char(line, ':');
            let args = crate::text::trim(line.skip((c + 1) as int));
            &&& split_ws(replace_char(args, ',', '.')).len() >= 2
            &&& split_ws(replace_char(args, ',', '.'))[1] == k.spec_apo_name()
        }),
    ensures
        parse_line(raw, source, channels) matches LineEffect::AddFilter(f) ==> f.kind == k,
{
    let line = crate::text::trim(raw);
    let c = crate::text::find_char(line, ':');
    let args = crate::text::trim(line.skip((c + 1) as int));
    law_apo_name_parses_back(args, channels, k);
}

// ---------------------------------------------------------------------------
// A whole text, line after line.

/// The document and the channel selection after the first `n` lines of a
/// file, each line applied in turn to what the lines before it gave.
pub open spec fn fold_lines(
    doc: DocumentView,
    channels: ChannelSelection,
    lines: Seq<Seq<char>>,
    source: Seq<char>,
    n: nat,
) -> (DocumentView, ChannelSelection)
    decreases n,
{
    if n == 0 {
        (doc, channels)
    } else {
        let (d, c) = fold_lines(doc, channels, lines, source, (n - 1) as nat);
        apply_effect(d, c, n, source, parse_line(lines[n - 1], source, c))
    }
}

/// A parse reads a file's lines in order: while none of them includes
/// another file, each step leaves the document and the channel selection
/// that applying the lines read so far, one after the other, gives, and the
/// step after the last line leaves them as they are.
#[verifier::rlimit(50)]
pub proof fn law_steps_fold_the_lines(
    old: ParseSession,
    new: ParseSession,
    r: ParseRequest,
    start: DocumentView,
    start_channels: ChannelSelection,
)
    requires
        old.frames@.len() == 1,
        old.frames@[0].next <= old.frames@[0].lines@.len(),
        (old.document@, old.channels) == fold_lines(
            start,
            start_channels,
            views(old.frames@[0].lines@),
            old.frames@[0].source@,
            old.frames@[0].next as nat,
        ),
        old.frames@[0].next < old.frames@[0].lines@.len() ==> !(parse_line(
            old.frames@[0].lines@[old.frames@[0].next as int]@,
            old.frames@[0].source@,
            old.channels,
        ) is Include),
        ParseSession::advanced(old, new, r),
    ensures
        ({
            let top = old.frames@[0];
            if top.next < top.lines@.len() {
                &&& new.frames@.len() == 1
                &&& new.frames@[0].lines == top.lines
                &&& new.frames@[0].source == top.source
                &&& new.frames@[0].next == top.next + 1
                &&& (new.document@, new.channels) == fold_lines(
                    start,
                    start_channels,
                    views(top.lines@),
                    top.source@,
                    (top.next + 1) as nat,
                )
            } else {
                &&& new.frames@.len() == 0
                &&& (new.document@, new.channels) == fold_lines(
                    start,
                    start_channels,
                    views(top.lines@),
                    top.source@,
                    top.next as nat,
                )
            }
        }),
{
    let top = old.frames@[0];
    assert(old.frames@.last() == top);
    if top.next < top.lines@.len() {
        let ls = views(top.lines@);
        assert(ls[top.next as int] == top.lines@[top.next as int]@);
        let effect = parse_line(top.lines@[top.next as int]@, top.source@, old.channels);
        assert((new.document@, new.channels) == apply_effect(
            old.document@,
            old.channels,
            (top.next + 1) as nat,
            top.source@,
            effect,
        ));
        assert(old.frames@.drop_last().push(ParseFrame { next: (top.next + 1) as usize, ..top })[0]
            == ParseFrame { next: (top.next + 1) as usize, ..top });
        assert(top.lines@.len() == top.lines.len());
        assert(top.next + 1 <= usize::MAX);
        let n = (top.next + 1) as nat;
        assert((n - 1) as nat == top.next as nat);
        let prev = fold_lines(start, start_channels, ls, top.source@, top.next as nat);
        assert(prev.0 == old.document@ && prev.1 == old.channels);
        assert(fold_lines(start, start_channels, ls, top.source@, n) == apply_effect(
            prev.0,
            prev.1,
            n,
            top.source@,
            parse_line(ls[top.next as int], top.source@, prev.1),
        ));
    }
}

// ---------------------------------------------------------------------------
// The control tool's engine switch and state.

/// `engine on` and `engine off` are the only engine commands: `on` enables
/// the engine and `off` disables it, and any other word is refused.
pub proof fn law_engine_command(v: Seq<char>)
    ensures
        parse_command(seq!["engine"@, v]) is Ok <==> (v == "on"@ || v == "off"@),
        v == "on"@ ==> parse_command(seq!["engine"@, v]) == Ok::<CommandView, Seq<char>>(
            CommandView::Engine { enabled: true },
        ),
        v == "off"@ ==> parse_command(seq!["engine"@, v]) == Ok::<CommandView, Seq<char>>(
            CommandView::Engine { enabled: false },
        ),
{
    reveal_strlit("engine");
    reveal_strlit("status");
    reveal_strlit("on");
    reveal_strlit("off");
    assert(seq!["engine"@, v][0] == "engine"@);
    assert("engine"@[0] != "status"@[0]);
    assert("engine"@ != "status"@);
    assert("on"@.len() == 2 && "off"@.len() == 3);
    assert("on"@ != "off"@);
}

/// Whether an output is filtered, read from its fields.
pub open spec fn filtered(o: QuickOutput) -> bool {
    o.connected && !o.bypassed && (o.assigned_profile_id is Some || (o.comparison is Some
        && o.comparison->0.enabled))
}

/// Under the global bypass the engine is off; otherwise it is active exactly
/// when some output of the list, at any position, is connected, not bypassed
/// and has a profile or an enabled comparison bank, and idle when none has.
pub proof fn law_engine_state_looks_at_every_output(global_bypass: bool, outputs: Seq<QuickOutput>)
    ensures
        global_bypass ==> engine_state(global_bypass, outputs) == EngineState::EngineOff,
        !global_bypass ==> (engine_state(global_bypass, outputs) == EngineState::Active <==> exists|
            i: int,
        | 0 <= i < outputs.len() && filtered(#[trigger] outputs[i])),
        !global_bypass ==> (engine_state(global_bypass, outputs) == EngineState::Idle <==> forall|
            i: int,
        | 0 <= i < outputs.len() ==> !filtered(#[trigger] outputs[i])),
{
    assert forall|i: int| 0 <= i < outputs.len() implies filtered(#[trigger] outputs[i])
        == crate::control::output_filtering(outputs[i]) by {
        match outputs[i].comparison {
            Some(c) => {},
            None => {},
        }
    }
}

/// The engine state does not depend on the order of the outputs.
pub proof fn law_engine_state_ignores_order(
    global_bypass: bool,
    outputs: Seq<QuickOutput>,
    reordered: Seq<QuickOutput>,
)
    requires
        outputs.to_multiset() == reordered.to_multiset(),
    ensures
        engine_state(global_bypass, outputs) == engine_state(global_bypass, reordered),
{
    law_engine_state_looks_at_every_output(global_bypass, outputs);
    law_engine_state_looks_at_every_output(global_bypass, reordered);
    if !global_bypass {
        if exists|i: int| 0 <= i < outputs.len() && filtered(#[trigger] outputs[i]) {
            let i = choose|i: int| 0 <= i < outputs.len() && filtered(#[trigger] outputs[i]);
            vstd::seq_lib::to_multiset_contains(outputs, outputs[i]);
            vstd::seq_lib::to_multiset_contains(reordered, outputs[i]);
            assert(outputs.contains(outputs[i]));
            let j = choose|j: int| 0 <= j < reordered.len() && reordered[j] == outputs[i];
            assert(filtered(reordered[j]));
        }
        if exists|i: int| 0 <= i < reordered.len() && filtered(#[trigger] reordered[i]) {
            let i = choose|i: int| 0 <= i < reordered.len() && filtered(#[trigger] reordered[i]);
            vstd::seq_lib::to_multiset_contains(reordered, reordered[i]);
            vstd::seq_lib::to_multiset_contains(outputs, reordered[i]);
            assert(reordered.contains(reordered[i]));
            let j = choose|j: int| 0 <= j < outputs.len() && outputs[j] == reordered[i];
            assert(filtered(outputs[j]));
        }
    }
}

// ---------------------------------------------------------------------------
// Channel selections.

/// A `Channel:` argument of one token selects both channels for `ALL`, the
/// left one for `L` or `1` and the right one for `R` or `2`, letter case
/// ignored.
pub proof fn law_single_channel_token(args: Seq<char>)
    requires
        split_ws(args).len() == 1,
    ensures
        to_lower(split_ws(args)[0]) == seq!['a', 'l', 'l'] ==> channel_selection(args) == Some(
            ChannelSelection::All,
        ),
        (to_lower(split_ws(args)[0]) == seq!['l'] || split_ws(args)[0] == seq!['1'])
            ==> channel_selection(args) == Some(ChannelSelection::Left),
        (to_lower(split_ws(args)[0]) == seq!['r'] || split_ws(args)[0] == seq!['2'])
            ==> channel_selection(args) == Some(ChannelSelection::Right),
{
    let t = split_ws(args)[0];
    if t == seq!['1'] {
        assert(to_lower(t) =~= seq!['1']);
    }
    if t == seq!['2'] {
        assert(to_lower(t) =~= seq!['2']);
        assert(to_lower(t)[0] != 'l');
    }
    if t == seq!['1'] {
        assert(to_lower(t)[0] == '1');
        assert(to_lower(t) != seq!['r']);
    }
    if to_lower(t) == seq!['r'] {
        assert(to_lower(t)[0] != 'l');
        assert(to_lower(t) != seq!['l']);
    }
}

// ---------------------------------------------------------------------------
// Outputs found in the graph.

/// An output found in the graph is connected, carries the library's
/// assignment for its storage key (none when the library has none), and is
/// bypassed exactly when the library bypasses that key.
pub proof fn law_discovered_output_keeps_its_assignment(obj: PwObject, lib: LibraryView)
    ensures
        node_device(obj, lib) matches Some(d) ==> {
            let k = storage_key(d.key);
            &&& d.connected
            &&& lib.assignments.contains_key(k) ==> d.assigned_profile == Some(lib.assignments[k])
            &&& !lib.assignments.contains_key(k) ==> d.assigned_profile is None
            &&& d.bypassed == lib.bypassed.contains(k)
        },
{
}

/// Every output found in a list of graph objects carries the library's
/// assignment and bypass for its storage key.
pub proof fn law_discovered_outputs_keep_their_assignments(objects: Seq<PwObject>, lib: LibraryView, i: int)
    requires
        0 <= i < nodes_devices(objects, lib).len(),
    ensures
        ({
            let d = nodes_devices(objects, lib)[i];
            let k = storage_key(d.key);
            &&& d.connected
            &&& lib.assignments.contains_key(k) ==> d.assigned_profile == Some(lib.assignments[k])
            &&& !lib.assignments.contains_key(k) ==> d.assigned_profile is None
            &&& d.bypassed == lib.bypassed.contains(k)
        }),
    decreases objects.len(),
{
    let rest = nodes_devices(objects.drop_last(), lib);
    if i < rest.len() {
        law_discovered_outputs_keep_their_assignments(objects.drop_last(), lib, i);
    } else {
        law_discovered_output_keeps_its_assignment(objects.last(), lib);
    }
}

// ---------------------------------------------------------------------------
// The filter chain.

/// Where the biquad of a channel's `k`-th filter stands among the chain's
/// nodes: after the gain node and the biquad and mixer of each filter before it.
pub open spec fn slot(k: nat) -> int {
    (1 + 2 * k) as int
}

/// How many of the first `j` filters of a profile act on a channel.
pub open spec fn filters_before(filters: Seq<Filter>, channel: Channel, j: nat) -> nat
    decreases j,
{
    if j == 0 {
        0
    } else {
        filters_before(filters, channel, (j - 1) as nat) + if filters[j - 1].channels.spec_contains(
            channel,
        ) {
            1nat
        } else {
            0nat
        }
    }
}

#[verifier::rlimit(60)]
proof fn lemma_filter_part_nodes(
    filters: Seq<Filter>,
    levels: LevelsView,
    channel: Channel,
    index: nat,
    suffix: Seq<char>,
    i: nat,
)
    requires
        i <= filters.len(),
    ensures
        ({
            let p = filter_part(filters, levels, channel, index, suffix, i);
            &&& p.count == filters_before(filters, channel, i)
            &&& p.nodes.len() == 1 + 2 * p.count
            &&& p.nodes[0] == gain_node("gain_"@ + suffix, text_at(levels.gain, index as int))
            &&& forall|j: int|
                0 <= j < i && (#[trigger] filters[j]).channels.spec_contains(channel) ==> p.nodes[slot(
                    filters_before(filters, channel, j as nat),
                ) + 1] == mix_node(
                    "mix_"@ + suffix + "_"@ + decimal_text(filters_before(filters, channel, j as nat)),
                    filters[j].enabled,
                )
            &&& forall|j: int|
                0 <= j < i && (#[trigger] filters[j]).channels.spec_contains(channel) ==> p.nodes[slot(filters_before(filters, channel, j as nat))] == eq_node(
                    "eq_"@ + suffix + "_"@ + decimal_text(filters_before(filters, channel, j as nat)),
                    filters[j].kind.spec_pipewire_label(),
                    triple_at(levels.filters, j),
                )
        }),
    decreases i,
{
    if i > 0 {
        lemma_filter_part_nodes(filters, levels, channel, index, suffix, (i - 1) as nat);
        let p = filter_part(filters, levels, channel, index, suffix, (i - 1) as nat);
        let q = filter_part(filters, levels, channel, index, suffix, i);
        let f = filters[i - 1];
        if f.channels.spec_contains(channel) {
            let name = "eq_"@ + suffix + "_"@ + decimal_text(p.count);
            let mix = "mix_"@ + suffix + "_"@ + decimal_text(p.count);
            assert(q.nodes == p.nodes + seq![
                eq_node(name, f.kind.spec_pipewire_label(), triple_at(levels.filters, i - 1)),
                mix_node(mix, f.enabled),
            ]);
            assert(q.count == p.count + 1);
        } else {
            assert(q == p);
        }
        assert forall|j: int|
            0 <= j < i && (#[trigger] filters[j]).channels.spec_contains(channel) implies q.nodes[slot(filters_before(filters, channel, j as nat))] == eq_node(
                "eq_"@ + suffix + "_"@ + decimal_text(filters_before(filters, channel, j as nat)),
                filters[j].kind.spec_pipewire_label(),
                triple_at(levels.filters, j),
            ) by {
            if j < i - 1 {
                lemma_filters_before_monotone(filters, channel, (j + 1) as nat, (i - 1) as nat);
                assert(q.nodes[slot(filters_before(filters, channel, j as nat))] == p.nodes[slot(filters_before(filters, channel, j as nat))]);
            } else {
                assert(j == i - 1);
            }
        }
        assert forall|j: int|
            0 <= j < i && (#[trigger] filters[j]).channels.spec_contains(channel) implies q.nodes[slot(
                filters_before(filters, channel, j as nat),
            ) + 1] == mix_node(
                "mix_"@ + suffix + "_"@ + decimal_text(filters_before(filters, channel, j as nat)),
                filters[j].enabled,
            ) by {
            if j < i - 1 {
                lemma_filters_before_monotone(filters, channel, (j + 1) as nat, (i - 1) as nat);
                assert(q.nodes[slot(filters_before(filters, channel, j as nat)) + 1] == p.nodes[slot(
                    filters_before(filters, channel, j as nat),
                ) + 1]);
            } else {
                assert(j == i - 1);
            }
        }
        assert(q.nodes[0] == p.nodes[0]);
    }
}

proof fn lemma_filters_before_monotone(filters: Seq<Filter>, channel: Channel, a: nat, b: nat)
    requires
        a <= b,
    ensures
        filters_before(filters, channel, a) <= filters_before(filters, channel, b),
    decreases b,
{
    if a < b {
        lemma_filters_before_monotone(filters, channel, a, (b - 1) as nat);
    }
}

proof fn lemma_conv_part_keeps_nodes(
    convs: Seq<(ChannelSelection, Seq<char>)>,
    ir_channels: Seq<Option<usize>>,
    channel: Channel,
    index: nat,
    suffix: Seq<char>,
    profile_dir: Seq<char>,
    base: ChainPart,
    j: nat,
)
    ensures
        ({
            let p = conv_part(convs, ir_channels, channel, index, suffix, profile_dir, base, j);
            &&& p.nodes.len() >= base.nodes.len()
            &&& forall|m: int| 0 <= m < base.nodes.len() ==> #[trigger] p.nodes[m] == base.nodes[m]
        }),
    decreases j,
{
    if j > 0 {
        lemma_conv_part_keeps_nodes(convs, ir_channels, channel, index, suffix, profile_dir, base, (j - 1) as nat);
    }
}

/// In a channel's chain the biquad that stands for filter `j` of the profile
/// (the `k`-th filter acting on that channel) is the node after the gain and
/// the `k` filters before it, is named after `k`, has that filter's family,
/// and carries that same filter's numbers, `levels.filters[j]`.
pub proof fn law_each_biquad_carries_its_own_filter(
    doc: DocumentView,
    levels: LevelsView,
    ir_channels: Seq<Option<usize>>,
    profile_dir: Seq<char>,
    sample_rate: u32,
    channel: Channel,
    index: nat,
    suffix: Seq<char>,
    j: int,
)
    requires
        0 <= j < doc.filters.len(),
        doc.filters[j].channels.spec_contains(channel),
    ensures
        ({
            let k = filters_before(doc.filters, channel, j as nat);
            let chain = channel_chain(doc, levels, ir_channels, profile_dir, sample_rate, channel, index, suffix);
            &&& slot(k) < chain.nodes.len()
            &&& chain.nodes[slot(k)] == eq_node(
                "eq_"@ + suffix + "_"@ + decimal_text(k),
                doc.filters[j].kind.spec_pipewire_label(),
                triple_at(levels.filters, j),
            )
        }),
{
    let n = doc.filters.len();
    lemma_filter_part_nodes(doc.filters, levels, channel, index, suffix, n);
    lemma_filters_before_monotone(doc.filters, channel, (j + 1) as nat, n);
    let f = filter_part(doc.filters, levels, channel, index, suffix, n);
    let g = graphic_part(doc, levels, channel, index, suffix, sample_rate);
    assert(g.nodes.len() >= f.nodes.len());
    assert(forall|m: int| 0 <= m < f.nodes.len() ==> #[trigger] g.nodes[m] == f.nodes[m]);
    lemma_conv_part_keeps_nodes(
        doc.convolutions,
        ir_channels,
        channel,
        index,
        suffix,
        profile_dir,
        g,
        doc.convolutions.len(),
    );
}

/// A channel's chain starts with its gain node, which carries that
/// channel's own multiplier, and the mixer after the biquad of filter `j`
/// passes the filtered signal exactly when that filter is on.
pub proof fn law_chain_gain_and_mixers(
    doc: DocumentView,
    levels: LevelsView,
    ir_channels: Seq<Option<usize>>,
    profile_dir: Seq<char>,
    sample_rate: u32,
    channel: Channel,
    index: nat,
    suffix: Seq<char>,
    j: int,
)
    requires
        0 <= j < doc.filters.len(),
        doc.filters[j].channels.spec_contains(channel),
    ensures
        ({
            let k = filters_before(doc.filters, channel, j as nat);
            let chain = channel_chain(doc, levels, ir_channels, profile_dir, sample_rate, channel, index, suffix);
            &&& chain.nodes[0] == gain_node("gain_"@ + suffix, text_at(levels.gain, index as int))
            &&& slot(k) + 1 < chain.nodes.len()
            &&& chain.nodes[slot(k) + 1] == mix_node(
                "mix_"@ + suffix + "_"@ + decimal_text(k),
                doc.filters[j].enabled,
            )
        }),
{
    let n = doc.filters.len();
    lemma_filter_part_nodes(doc.filters, levels, channel, index, suffix, n);
    lemma_filters_before_monotone(doc.filters, channel, (j + 1) as nat, n);
    let f = filter_part(doc.filters, levels, channel, index, suffix, n);
    let g = graphic_part(doc, levels, channel, index, suffix, sample_rate);
    assert(g.nodes.len() >= f.nodes.len());
    assert(forall|m: int| 0 <= m < f.nodes.len() ==> #[trigger] g.nodes[m] == f.nodes[m]);
    lemma_conv_part_keeps_nodes(
        doc.convolutions,
        ir_channels,
        channel,
        index,
        suffix,
        profile_dir,
        g,
        doc.convolutions.len(),
    );
}

/// `filters <key> on` and `filters <key> off`, for a key that is not blank,
/// turn that output's filter on or off; any other word is refused.
pub proof fn law_filters_command(key: Seq<char>, v: Seq<char>)
    requires
        crate::text::trim(key).len() > 0,
    ensures
        parse_command(seq!["filters"@, key, v]) is Ok <==> (v == "on"@ || v == "off"@),
        v == "on"@ ==> parse_command(seq!["filters"@, key, v]) == Ok::<CommandView, Seq<char>>(
            CommandView::Filters { device_key: key, enabled: true },
        ),
        v == "off"@ ==> parse_command(seq!["filters"@, key, v]) == Ok::<CommandView, Seq<char>>(
            CommandView::Filters { device_key: key, enabled: false },
        ),
{
    reveal_strlit("filters");
    reveal_strlit("on");
    reveal_strlit("off");
    assert("on"@.len() == 2 && "off"@.len() == 3);
    assert("on"@ != "off"@);
}

/// `assign <key> <id>` and `compare <key> <id>`, with neither argument
/// blank, ask for that output and that profile; `unassign <key>` clears it.
pub proof fn law_assign_and_compare_commands(key: Seq<char>, id: Seq<char>)
    requires
        crate::text::trim(key).len() > 0,
        crate::text::trim(id).len() > 0,
    ensures
        parse_command(seq!["assign"@, key, id]) == Ok::<CommandView, Seq<char>>(
            CommandView::Assign { device_key: key, profile_id: id },
        ),
        parse_command(seq!["compare"@, key, id]) == Ok::<CommandView, Seq<char>>(
            CommandView::Compare { device_key: key, profile_id: id },
        ),
        parse_command(seq!["unassign"@, key]) == Ok::<CommandView, Seq<char>>(
            CommandView::Unassign { device_key: key },
        ),
{
    reveal_strlit("assign");
    reveal_strlit("compare");
    reveal_strlit("filters");
    reveal_strlit("unassign");
    reveal_strlit("status");
    reveal_strlit("engine");
    assert("assign"@.len() == 6 && "filters"@.len() == 7);
    assert("compare"@[0] != "filters"@[0]);
    assert("compare"@.len() != "assign"@.len());
    assert("unassign"@.len() == 8 && "status"@.len() == 6 && "engine"@.len() == 6);
    assert(seq!["assign"@, key, id][0] == "assign"@);
    assert(seq!["compare"@, key, id][0] == "compare"@);
    assert(seq!["unassign"@, key][0] == "unassign"@);
    assert("assign"@ != "filters"@);
    assert("compare"@ != "filters"@);
    assert("compare"@ != "assign"@);
    assert("unassign"@ != "status"@);
    assert("unassign"@ != "engine"@);
}

/// A `Channel:` argument of several tokens, each `L`, `1`, `R` or `2`, selects
/// both channels when it names each side at least once.
pub proof fn law_channel_tokens_of_both_sides(args: Seq<char>, a: int, b: int)
    requires
        split_ws(args).len() >= 2,
        forall|i: int|
            0 <= i < split_ws(args).len() ==> crate::parser::is_left_token(#[trigger] split_ws(args)[i])
                || crate::parser::is_right_token(split_ws(args)[i]),
        0 <= a < split_ws(args).len(),
        0 <= b < split_ws(args).len(),
        crate::parser::is_left_token(split_ws(args)[a]),
        crate::parser::is_right_token(split_ws(args)[b]),
    ensures
        channel_selection(args) == Some(ChannelSelection::All),
{
}

/// `set-filter <id> <index> <frequency> <gain> <q>` succeeds exactly when
/// the index is a `usize`, the three numbers are finite and read, as doubles,
/// within 20–20000 Hz, -60–60 dB and 0.01–1000, and the id is not blank; it
/// then asks for exactly those values, each in its own place.
pub proof fn law_set_filter_command(
    id: Seq<char>,
    i: Seq<char>,
    f: Seq<char>,
    g: Seq<char>,
    q: Seq<char>,
)
    ensures
        ({
            let r = parse_command(seq!["set-filter"@, id, i, f, g, q]);
            &&& r is Ok <==> {
                &&& crate::decimal::parse_unsigned(i, usize::MAX as nat) is Some
                &&& crate::decimal::parse_number(f) matches Some(Number::Finite(x))
                    && crate::decimal::dec_within(
                    x,
                    crate::decimal::reads_at_least_20(),
                    crate::decimal::reads_at_most_20000(),
                )
                &&& crate::decimal::parse_number(g) matches Some(Number::Finite(y))
                    && crate::decimal::dec_within(
                    y,
                    crate::decimal::reads_at_least_minus_60(),
                    crate::decimal::reads_at_most_60(),
                )
                &&& crate::decimal::parse_number(q) matches Some(Number::Finite(z))
                    && crate::decimal::dec_within(
                    z,
                    crate::decimal::reads_at_least_hundredth(),
                    crate::decimal::reads_at_most_1000(),
                )
                &&& crate::text::trim(id).len() > 0
            }
            &&& r matches Ok(CommandView::SetFilter { profile_id, filter_index, frequency_hz, gain_db, q: qv })
                ==> {
                &&& profile_id == id
                &&& crate::decimal::parse_unsigned(i, usize::MAX as nat) == Some(filter_index)
                &&& crate::decimal::parse_number(f) == Some(Number::Finite(frequency_hz))
                &&& crate::decimal::parse_number(g) == Some(Number::Finite(gain_db))
                &&& crate::decimal::parse_number(q) == Some(Number::Finite(qv))
            }
        }),
{
    let a = seq!["set-filter"@, id, i, f, g, q];
    assert(a.len() == 6);
    assert(a[0] == "set-filter"@ && a[1] == id && a[2] == i && a[3] == f && a[4] == g && a[5] == q);
}

/// An accepted `Filter:` argument holds the numbers written after its `Fc`,
/// `Gain` and `Q` keys, each in its own place: no gain reads as zero, and a
/// Q given directly is the Q held.
pub proof fn law_filter_holds_its_own_numbers(args: Seq<char>, channels: ChannelSelection)
    ensures
        parse_filter(args, channels) matches Ok(flt) ==> {
            let tokens = split_ws(replace_char(args, ',', '.'));
            &&& crate::parser::number_after(tokens, seq!['f', 'c']) == Some(Number::Finite(flt.frequency))
            &&& match crate::parser::number_after(tokens, seq!['g', 'a', 'i', 'n']) {
                Some(gn) => gn == Number::Finite(flt.gain_db),
                None => flt.gain_db == (Decimal { negative: false, mantissa: 0, scale: 0 }),
            }
            &&& match crate::parser::number_after(tokens, seq!['q']) {
                Some(qn) => qn == Number::Finite(flt.q->Value_0),
                None => true,
            }
            &&& flt.channels == channels
        },
{
}

} // verus!
