use vstd::prelude::*;
use crate::decimal::{
    Decimal, Number, finite_value, num_le, num_lt, num_nonpositive, num_within,
    reads_at_least_hundredth, reads_at_least_hundredth_exec, reads_at_least_minus_60,
    reads_at_least_minus_60_exec, reads_at_least_one, reads_at_least_one_exec,
    reads_at_most_1000, reads_at_most_1000_exec, reads_at_most_384000, reads_at_most_384000_exec,
    reads_at_most_60, reads_at_most_60_exec,
    number_after_other, number_nonpositive, number_within, parse_number, parse_number_exec,
};
use crate::model::{ChannelSelection, DiagnosticLevel, Filter, FilterKind, GraphicPoint, QFactor};
use crate::text::{
    chars_of, eq_ignore_case, eq_ignore_case_vec, replace_char, replace_char_vec,
    split_char, split_char_vec, split_ws, split_ws_vec, string_of, text_with, to_lower, trim,
    trim_vec, views,
};

verus! {

// ---------------------------------------------------------------------------
// Calls into `regex` and `std::path`.

/// The regular expression that finds the first number in a `Preamp` argument.
pub const NUMBER_PATTERN: &'static str = r"[-+]?(?:\d+(?:[\.,]\d*)?|[\.,]\d+)";

/// The text of the leftmost-first match of [`NUMBER_PATTERN`] in `text`
/// (`\d` is the Unicode decimal-digit class).
pub uninterp spec fn number_pattern_match(text: Seq<char>) -> Option<Seq<char>>;

/// `regex::Regex::find` with [`NUMBER_PATTERN`]: the contract names the matched
/// text and says nothing more of it; `Regex::new` cannot fail on this fixed pattern.
#[verifier::external_body]
fn find_number_text(text: &str) -> (r: Option<String>)
    ensures
        match r {
            Some(m) => number_pattern_match(text@) == Some(m@),
            None => number_pattern_match(text@) == None::<Seq<char>>,
        },
{
    let pattern = regex::Regex::new(NUMBER_PATTERN).expect("valid regex");
    pattern.find(text).map(|found| found.as_str().to_string())
}

/// `Path::parent` of a path, as text.
pub uninterp spec fn path_parent_of(path: Seq<char>) -> Option<Seq<char>>;

/// `std::path::Path::parent`; its result is named, not described.
#[verifier::external_body]
fn path_parent(path: &str) -> (r: Option<String>)
    ensures
        match r {
            Some(p) => path_parent_of(path@) == Some(p@),
            None => path_parent_of(path@) == None::<Seq<char>>,
        },
{
    std::path::Path::new(path).parent().map(|parent| parent.to_string_lossy().into_owned())
}

/// `Path::join` of two paths, as text, on Unix: an absolute `rest` replaces
/// the base; otherwise the base, a `/` when the base is not empty and does not
/// end in one, and then `rest`.
pub open spec fn path_joined(base: Seq<char>, rest: Seq<char>) -> Seq<char> {
    if rest.len() > 0 && rest[0] == '/' {
        rest
    } else if base.len() > 0 && base.last() != '/' {
        base + seq!['/'] + rest
    } else {
        base + rest
    }
}

/// Two paths joined (see [`path_joined`]).
pub(crate) fn path_join(base: &str, rest: &str) -> (r: String)
    ensures
        r@ == path_joined(base@, rest@),
{
    let b = chars_of(base);
    let t = chars_of(rest);
    if t.len() > 0 && t[0] == '/' {
        return String::from_str(rest);
    }
    let mut out = String::from_str(base);
    if b.len() > 0 && b[b.len() - 1] != '/' {
        out.append("/");
        proof {
            reveal_strlit("/");
            assert(b@.last() == b@[b.len() - 1]);
        }
    }
    out.append(rest);
    out
}

// ---------------------------------------------------------------------------
// Small argument readers.

/// A value without one pair of surrounding double quotes.
pub open spec fn unquoted(s: Seq<char>) -> Seq<char> {
    if s.len() >= 2 && s[0] == '"' && s.last() == '"' {
        s.subrange(1, s.len() - 1)
    } else {
        s
    }
}

/// A value without one pair of surrounding double quotes (see [`unquoted`]).
pub fn unquote(v: &Vec<char>) -> (r: Vec<char>)
    ensures
        r@ == unquoted(v@),
{
    let n = v.len();
    if n >= 2 && v[0] == '"' && v[n - 1] == '"' {
        crate::text::slice_chars(v, 1, n - 1)
    } else {
        crate::text::slice_chars(v, 0, n)
    }
}

/// The path that a `Convolution:` or `Include:` argument names, relative to the
/// directory of the file it is written in.
pub open spec fn resolve_path(source: Seq<char>, argument: Seq<char>) -> Seq<char> {
    let base = match path_parent_of(source) {
        Some(p) => p,
        None => "."@,
    };
    path_joined(base, unquoted(argument))
}

pub fn resolve_path_exec(source: &str, argument: &Vec<char>) -> (r: String)
    ensures
        r@ == resolve_path(source@, argument@),
{
    let base = match path_parent(source) {
        Some(p) => p,
        None => String::from_str("."),
    };
    let rest = string_of(&unquote(argument));
    path_join(base.as_str(), rest.as_str())
}

/// The first number written in a `Preamp` argument, a decimal comma allowed.
pub open spec fn first_number(text: Seq<char>) -> Option<Number> {
    match number_pattern_match(text) {
        Some(m) => parse_number(replace_char(m, ',', '.')),
        None => None,
    }
}

pub fn first_number_exec(text: &Vec<char>) -> (r: Option<Number>)
    ensures
        r == first_number(text@),
        r matches Some(d) ==> d.wf(),
{
    let s = string_of(text);
    match find_number_text(s.as_str()) {
        Some(m) => {
            let chars = chars_of(m.as_str());
            parse_number_exec(&replace_char_vec(&chars, ',', '.'))
        },
        None => None,
    }
}

// ---------------------------------------------------------------------------
// `Channel:` arguments.

pub open spec fn is_left_token(t: Seq<char>) -> bool {
    to_lower(t) == seq!['l'] || t == seq!['1']
}

pub open spec fn is_right_token(t: Seq<char>) -> bool {
    to_lower(t) == seq!['r'] || t == seq!['2']
}

/// The channels that a `Channel:` argument selects: `ALL`, or any mix of
/// `L`/`1` and `R`/`2`, case ignored.
pub open spec fn channel_selection(args: Seq<char>) -> Option<ChannelSelection> {
    let tokens = split_ws(args);
    if tokens.len() == 1 {
        if to_lower(tokens[0]) == seq!['a', 'l', 'l'] {
            Some(ChannelSelection::All)
        } else if is_left_token(tokens[0]) {
            Some(ChannelSelection::Left)
        } else if is_right_token(tokens[0]) {
            Some(ChannelSelection::Right)
        } else {
            None
        }
    } else if forall|i: int|
        0 <= i < tokens.len() ==> is_left_token(#[trigger] tokens[i]) || is_right_token(tokens[i]) {
        let left = exists|i: int| 0 <= i < tokens.len() && is_left_token(#[trigger] tokens[i]);
        let right = exists|i: int| 0 <= i < tokens.len() && is_right_token(#[trigger] tokens[i]);
        if left && right {
            Some(ChannelSelection::All)
        } else if left {
            Some(ChannelSelection::Left)
        } else if right {
            Some(ChannelSelection::Right)
        } else {
            None
        }
    } else {
        None
    }
}

fn is_left_token_exec(t: &Vec<char>) -> (r: bool)
    ensures
        r == is_left_token(t@),
{
    let l = vec!['l'];
    let one = vec!['1'];
    proof {
        assert(l@ =~= seq!['l']);
        assert(one@ =~= seq!['1']);
        assert(to_lower(l@) =~= seq!['l']);
    }
    eq_ignore_case_vec(t, &l) || crate::text::eq_vec(t, &one)
}

fn is_right_token_exec(t: &Vec<char>) -> (r: bool)
    ensures
        r == is_right_token(t@),
{
    let r = vec!['r'];
    let two = vec!['2'];
    proof {
        assert(r@ =~= seq!['r']);
        assert(two@ =~= seq!['2']);
        assert(to_lower(r@) =~= seq!['r']);
    }
    eq_ignore_case_vec(t, &r) || crate::text::eq_vec(t, &two)
}

/// The channels that a `Channel:` argument selects (see [`channel_selection`]).
pub fn parse_channels(args: &Vec<char>) -> (r: Option<ChannelSelection>)
    ensures
        r == channel_selection(args@),
{
    let tokens = split_ws_vec(args);
    let ghost ts = split_ws(args@);
    proof {
        assert(ts.len() == tokens@.len());
        assert(to_lower(seq!['l']) =~= seq!['l']);
        assert(to_lower(seq!['r']) =~= seq!['r']);
        assert(to_lower(seq!['a', 'l', 'l']) =~= seq!['a', 'l', 'l']);
    }
    if tokens.len() == 1 {
        let t = &tokens[0];
        proof {
            assert(t@ == ts[0]);
        }
        let all = vec!['a', 'l', 'l'];
        proof {
            assert(all@ =~= seq!['a', 'l', 'l']);
            assert(to_lower(all@) =~= seq!['a', 'l', 'l']);
        }
        if eq_ignore_case_vec(t, &all) {
            return Some(ChannelSelection::All);
        } else if is_left_token_exec(t) {
            return Some(ChannelSelection::Left);
        } else if is_right_token_exec(t) {
            return Some(ChannelSelection::Right);
        } else {
            return None;
        }
    }
    let mut left = false;
    let mut right = false;
    let mut i: usize = 0;
    while i < tokens.len()
        invariant
            i <= tokens@.len() == ts.len(),
            ts.len() != 1,
            ts == split_ws(args@),
            views(tokens@) == ts,
            forall|j: int| 0 <= j < i ==> is_left_token(#[trigger] ts[j]) || is_right_token(ts[j]),
            left == (exists|j: int| 0 <= j < i && is_left_token(#[trigger] ts[j])),
            right == (exists|j: int| 0 <= j < i && is_right_token(#[trigger] ts[j])),
        decreases tokens.len() - i,
    {
        proof {
            assert(tokens@[i as int]@ == ts[i as int]);
        }
        let l = is_left_token_exec(&tokens[i]);
        let r = is_right_token_exec(&tokens[i]);
        if !l && !r {
            proof {
                assert(!(is_left_token(ts[i as int]) || is_right_token(ts[i as int])));
            }
            return None;
        }
        left = left || l;
        right = right || r;
        i += 1;
    }
    if left && right {
        Some(ChannelSelection::All)
    } else if left {
        Some(ChannelSelection::Left)
    } else if right {
        Some(ChannelSelection::Right)
    } else {
        None
    }
}

// ---------------------------------------------------------------------------
// `Filter:` arguments.

/// Index of the first token equal to `key` with ASCII case ignored, or the
/// number of tokens when there is none.
pub open spec fn find_token(tokens: Seq<Seq<char>>, key: Seq<char>) -> nat
    decreases tokens.len(),
{
    if tokens.len() == 0 {
        0
    } else if eq_ignore_case(tokens[0], key) {
        0
    } else {
        1 + find_token(tokens.drop_first(), key)
    }
}

proof fn lemma_find_token_unique(tokens: Seq<Seq<char>>, key: Seq<char>, i: int)
    requires
        0 <= i <= tokens.len(),
        forall|j: int| 0 <= j < i ==> !eq_ignore_case(#[trigger] tokens[j], key),
        i < tokens.len() ==> eq_ignore_case(tokens[i], key),
    ensures
        find_token(tokens, key) == i,
    decreases tokens.len(),
{
    if i > 0 {
        assert(!eq_ignore_case(tokens[0], key));
        assert forall|j: int| 0 <= j < i - 1 implies !eq_ignore_case(
            #[trigger] tokens.drop_first()[j],
            key,
        ) by {
            assert(tokens.drop_first()[j] == tokens[j + 1]);
        }
        lemma_find_token_unique(tokens.drop_first(), key, i - 1);
    }
}

fn find_token_exec(tokens: &Vec<Vec<char>>, key: &Vec<char>) -> (r: usize)
    ensures
        r == find_token(views(tokens@), key@),
        r <= tokens.len(),
{
    let ghost ts = views(tokens@);
    let mut i: usize = 0;
    while i < tokens.len()
        invariant
            i <= tokens.len(),
            ts == views(tokens@),
            forall|j: int| 0 <= j < i ==> !eq_ignore_case(#[trigger] ts[j], key@),
        decreases tokens.len() - i,
    {
        proof {
            assert(ts[i as int] == tokens@[i as int]@);
        }
        if eq_ignore_case_vec(&tokens[i], key) {
            proof {
                lemma_find_token_unique(ts, key@, i as int);
            }
            return i;
        }
        i += 1;
    }
    proof {
        lemma_find_token_unique(ts, key@, i as int);
    }
    i
}

/// The number in the token after the first `key`, if that token is a number.
pub open spec fn number_after(tokens: Seq<Seq<char>>, key: Seq<char>) -> Option<Number> {
    let i = find_token(tokens, key) as int;
    if i < tokens.len() && i + 1 < tokens.len() {
        parse_number(tokens[(i + 1) as int])
    } else {
        None
    }
}

fn number_after_exec(tokens: &Vec<Vec<char>>, key: &Vec<char>) -> (r: Option<Number>)
    ensures
        r == number_after(views(tokens@), key@),
        r matches Some(d) ==> d.wf(),
{
    let i = find_token_exec(tokens, key);
    if i < tokens.len() && i + 1 < tokens.len() {
        proof {
            assert(views(tokens@)[i + 1] == tokens@[i + 1]@);
        }
        parse_number_exec(&tokens[i + 1])
    } else {
        None
    }
}

/// The bandwidth after the first `BW`, in octaves, an `Oct` unit allowed.
pub open spec fn bandwidth_after(tokens: Seq<Seq<char>>) -> Option<Number> {
    let i = find_token(tokens, seq!['b', 'w']) as int;
    if i < tokens.len() && i + 1 < tokens.len() {
        if eq_ignore_case(tokens[(i + 1) as int], seq!['o', 'c', 't']) {
            if i + 2 < tokens.len() {
                parse_number(tokens[(i + 2) as int])
            } else {
                None
            }
        } else {
            parse_number(tokens[(i + 1) as int])
        }
    } else {
        None
    }
}

fn bandwidth_after_exec(tokens: &Vec<Vec<char>>) -> (r: Option<Number>)
    ensures
        r == bandwidth_after(views(tokens@)),
        r matches Some(d) ==> d.wf(),
{
    let bw = vec!['b', 'w'];
    let oct = vec!['o', 'c', 't'];
    proof {
        assert(bw@ =~= seq!['b', 'w']);
        assert(oct@ =~= seq!['o', 'c', 't']);
    }
    let i = find_token_exec(tokens, &bw);
    if i < tokens.len() && i + 1 < tokens.len() {
        proof {
            assert(views(tokens@)[i + 1] == tokens@[i + 1]@);
        }
        if eq_ignore_case_vec(&tokens[i + 1], &oct) {
            if i + 2 < tokens.len() {
                proof {
                    assert(views(tokens@)[i + 2] == tokens@[i + 2]@);
                }
                parse_number_exec(&tokens[i + 2])
            } else {
                None
            }
        } else {
            parse_number_exec(&tokens[i + 1])
        }
    } else {
        None
    }
}

/// The filter family that a type token names, case ignored.
pub open spec fn filter_kind(token: Seq<char>) -> Option<FilterKind> {
    let t = to_lower(token);
    if t == seq!['p', 'k'] || t == seq!['p', 'e', 'q'] {
        Some(FilterKind::Peaking)
    } else if t == seq!['l', 's'] || t == seq!['l', 's', 'c'] {
        Some(FilterKind::LowShelf)
    } else if t == seq!['h', 's'] || t == seq!['h', 's', 'c'] {
        Some(FilterKind::HighShelf)
    } else if t == seq!['l', 'p'] || t == seq!['l', 'p', 'q'] {
        Some(FilterKind::LowPass)
    } else if t == seq!['h', 'p'] || t == seq!['h', 'p', 'q'] {
        Some(FilterKind::HighPass)
    } else if t == seq!['b', 'p'] {
        Some(FilterKind::BandPass)
    } else if t == seq!['n', 'o'] {
        Some(FilterKind::Notch)
    } else if t == seq!['a', 'p'] {
        Some(FilterKind::AllPass)
    } else {
        None
    }
}

fn filter_kind_exec(token: &Vec<char>) -> (r: Option<FilterKind>)
    ensures
        r == filter_kind(token@),
{
    let t = crate::text::lower_vec(token);
    let pk = vec!['p', 'k'];
    let peq = vec!['p', 'e', 'q'];
    let ls = vec!['l', 's'];
    let lsc = vec!['l', 's', 'c'];
    let hs = vec!['h', 's'];
    let hsc = vec!['h', 's', 'c'];
    let lp = vec!['l', 'p'];
    let lpq = vec!['l', 'p', 'q'];
    let hp = vec!['h', 'p'];
    let hpq = vec!['h', 'p', 'q'];
    let bp = vec!['b', 'p'];
    let no = vec!['n', 'o'];
    let ap = vec!['a', 'p'];
    proof {
        assert(pk@ =~= seq!['p', 'k']);
        assert(peq@ =~= seq!['p', 'e', 'q']);
        assert(ls@ =~= seq!['l', 's']);
        assert(lsc@ =~= seq!['l', 's', 'c']);
        assert(hs@ =~= seq!['h', 's']);
        assert(hsc@ =~= seq!['h', 's', 'c']);
        assert(lp@ =~= seq!['l', 'p']);
        assert(lpq@ =~= seq!['l', 'p', 'q']);
        assert(hp@ =~= seq!['h', 'p']);
        assert(hpq@ =~= seq!['h', 'p', 'q']);
        assert(bp@ =~= seq!['b', 'p']);
        assert(no@ =~= seq!['n', 'o']);
        assert(ap@ =~= seq!['a', 'p']);
    }
    let eq = |a: &Vec<char>| -> (r: bool)
        ensures
            r == (t@ == a@),
        { crate::text::eq_vec(&t, a) };
    if eq(&pk) || eq(&peq) {
        Some(FilterKind::Peaking)
    } else if eq(&ls) || eq(&lsc) {
        Some(FilterKind::LowShelf)
    } else if eq(&hs) || eq(&hsc) {
        Some(FilterKind::HighShelf)
    } else if eq(&lp) || eq(&lpq) {
        Some(FilterKind::LowPass)
    } else if eq(&hp) || eq(&hpq) {
        Some(FilterKind::HighPass)
    } else if eq(&bp) {
        Some(FilterKind::BandPass)
    } else if eq(&no) {
        Some(FilterKind::Notch)
    } else if eq(&ap) {
        Some(FilterKind::AllPass)
    } else {
        None
    }
}

pub open spec fn dec(negative: bool, mantissa: u64, scale: i64) -> Decimal {
    Decimal { negative, mantissa, scale }
}

/// Smallest bandwidth, in octaves, whose Q (`sqrt(2^bw) / (2^bw - 1)`) is at
/// most 1000: that boundary rounded up to 19 decimal places.
pub open spec fn bandwidth_min() -> Decimal {
    dec(false, 14426949807766768, 19)
}

/// Largest bandwidth, in octaves, whose Q is at least 0.01: that boundary
/// rounded down to 17 decimal places (no number in range has more digits there).
pub open spec fn bandwidth_max() -> Decimal {
    dec(false, 1328800087528639140, 17)
}

/// A filter's Q from the numbers after `Q` and after `BW`, a `Q` taking
/// precedence, or `None` when the Q given does not read, as a double, within
/// 0.01 and 1000.
pub open spec fn q_factor(q: Option<Number>, bw: Option<Number>) -> Option<QFactor> {
    match q {
        Some(n) => if num_within(n, reads_at_least_hundredth(), reads_at_most_1000()) {
            Some(QFactor::Value(finite_value(n)))
        } else {
            None
        },
        None => match bw {
            Some(b) => if num_within(b, bandwidth_min(), bandwidth_max()) {
                Some(QFactor::BandwidthOctaves(finite_value(b)))
            } else {
                None
            },
            None => Some(QFactor::Butterworth),
        },
    }
}

/// The filter that a `Filter:` argument describes, or the reason it is rejected.
/// Its frequency, gain and Q are held exactly; each is checked against its
/// bounds as a double would read it.
pub open spec fn parse_filter(args: Seq<char>, channels: ChannelSelection) -> Result<
    Filter,
    Seq<char>,
> {
    let tokens = split_ws(replace_char(args, ',', '.'));
    if tokens.len() < 2 {
        Err("Incomplete Filter command"@)
    } else if !(to_lower(tokens[0]) == seq!['o', 'n'] || to_lower(tokens[0]) == seq![
        'o',
        'f',
        'f',
    ]) {
        Err("Filter must begin with ON or OFF"@)
    } else if exists|j: int|
        0 <= j < tokens.len() && eq_ignore_case(#[trigger] tokens[j], seq!['i', 'i', 'r']) {
        Err("Custom IIR coefficient filters are not supported"@)
    } else {
        match filter_kind(tokens[1]) {
            None => Err("Unsupported filter type: "@ + tokens[1]),
            Some(kind) => match number_after(tokens, seq!['f', 'c']) {
                None => Err("Filter is missing Fc"@),
                Some(frequency) => {
                    let gain_db = match number_after(tokens, seq!['g', 'a', 'i', 'n']) {
                        Some(g) => g,
                        None => Number::Finite(dec(false, 0, 0)),
                    };
                    let q = q_factor(number_after(tokens, seq!['q']), bandwidth_after(tokens));
                    if !num_within(frequency, reads_at_least_one(), reads_at_most_384000()) {
                        Err("Filter frequency is outside 1–384000 Hz"@)
                    } else if !num_within(gain_db, reads_at_least_minus_60(), reads_at_most_60()) {
                        Err("Filter gain is outside -60–60 dB"@)
                    } else if q is None {
                        Err("Filter Q is outside 0.01–1000"@)
                    } else {
                        Ok(
                            Filter {
                                enabled: to_lower(tokens[0]) == seq!['o', 'n'],
                                kind,
                                frequency: finite_value(frequency),
                                gain_db: finite_value(gain_db),
                                q: q->0,
                                channels,
                            },
                        )
                    }
                },
            },
        }
    }
}

/// Whether an executable result and a specified one agree.
pub open spec fn same_result<T>(r: Result<T, String>, s: Result<T, Seq<char>>) -> bool {
    match (r, s) {
        (Ok(a), Ok(b)) => a == b,
        (Err(m), Err(n)) => m@ == n,
        _ => false,
    }
}

fn finite_of(x: Number) -> (r: Decimal)
    ensures
        r == finite_value(x),
{
    match x {
        Number::Finite(d) => d,
        _ => Decimal { negative: false, mantissa: 0, scale: 0 },
    }
}

fn q_factor_exec(q: Option<Number>, bw: Option<Number>) -> (r: Option<QFactor>)
    requires
        q matches Some(n) ==> n.wf(),
        bw matches Some(b) ==> b.wf(),
    ensures
        r == q_factor(q, bw),
{
    match q {
        Some(n) => if number_within(
            n,
            reads_at_least_hundredth_exec(),
            reads_at_most_1000_exec(),
        ) {
            Some(QFactor::Value(finite_of(n)))
        } else {
            None
        },
        None => match bw {
            Some(b) => if number_within(
                b,
                Decimal { negative: false, mantissa: 14426949807766768, scale: 19 },
                Decimal { negative: false, mantissa: 1328800087528639140, scale: 17 },
            ) {
                Some(QFactor::BandwidthOctaves(finite_of(b)))
            } else {
                None
            },
            None => Some(QFactor::Butterworth),
        },
    }
}

pub fn parse_filter_exec(args: &Vec<char>, channels: ChannelSelection) -> (r: Result<
    Filter,
    String,
>)
    ensures
        same_result(r, parse_filter(args@, channels)),
{
    let normalized = replace_char_vec(args, ',', '.');
    let tokens = split_ws_vec(&normalized);
    let ghost ts = split_ws(replace_char(args@, ',', '.'));
    proof {
        assert(views(tokens@) == ts);
    }
    if tokens.len() < 2 {
        return Err(String::from_str("Incomplete Filter command"));
    }
    proof {
        assert(ts[0] == tokens@[0]@);
        assert(ts[1] == tokens@[1]@);
    }
    let on = vec!['o', 'n'];
    let off = vec!['o', 'f', 'f'];
    let iir = vec!['i', 'i', 'r'];
    proof {
        assert(on@ =~= seq!['o', 'n']);
        assert(off@ =~= seq!['o', 'f', 'f']);
        assert(iir@ =~= seq!['i', 'i', 'r']);
        assert(to_lower(on@) =~= on@);
        assert(to_lower(off@) =~= off@);
        assert(to_lower(iir@) =~= iir@);
    }
    let enabled = eq_ignore_case_vec(&tokens[0], &on);
    let disabled = eq_ignore_case_vec(&tokens[0], &off);
    if !enabled && !disabled {
        return Err(String::from_str("Filter must begin with ON or OFF"));
    }
    let k = find_token_exec(&tokens, &iir);
    proof {
        crate::parser::lemma_find_token(ts, iir@);
    }
    if k < tokens.len() {
        return Err(String::from_str("Custom IIR coefficient filters are not supported"));
    }
    let kind = match filter_kind_exec(&tokens[1]) {
        Some(kind) => kind,
        None => {
            return Err(text_with("Unsupported filter type: ", &tokens[1]));
        },
    };
    let fc = vec!['f', 'c'];
    let gain = vec!['g', 'a', 'i', 'n'];
    let q_key = vec!['q'];
    proof {
        assert(fc@ =~= seq!['f', 'c']);
        assert(gain@ =~= seq!['g', 'a', 'i', 'n']);
        assert(q_key@ =~= seq!['q']);
    }
    let frequency = match number_after_exec(&tokens, &fc) {
        Some(f) => f,
        None => {
            return Err(String::from_str("Filter is missing Fc"));
        },
    };
    let gain_db = match number_after_exec(&tokens, &gain) {
        Some(g) => g,
        None => Number::Finite(Decimal { negative: false, mantissa: 0, scale: 0 }),
    };
    let q_given = number_after_exec(&tokens, &q_key);
    let bw_given = bandwidth_after_exec(&tokens);
    let q = q_factor_exec(q_given, bw_given);
    if !number_within(
        frequency,
        reads_at_least_one_exec(),
        reads_at_most_384000_exec(),
    ) {
        return Err(String::from_str("Filter frequency is outside 1–384000 Hz"));
    }
    if !number_within(
        gain_db,
        reads_at_least_minus_60_exec(),
        reads_at_most_60_exec(),
    ) {
        return Err(String::from_str("Filter gain is outside -60–60 dB"));
    }
    let q = match q {
        Some(q) => q,
        None => {
            return Err(String::from_str("Filter Q is outside 0.01–1000"));
        },
    };
    Ok(Filter {
        enabled,
        kind,
        frequency: finite_of(frequency),
        gain_db: finite_of(gain_db),
        q,
        channels,
    })
}

proof fn lemma_find_token(tokens: Seq<Seq<char>>, key: Seq<char>)
    ensures
        find_token(tokens, key) <= tokens.len(),
        forall|j: int| 0 <= j < find_token(tokens, key) ==> !eq_ignore_case(#[trigger] tokens[j], key),
        find_token(tokens, key) < tokens.len() ==> eq_ignore_case(tokens[find_token(tokens, key) as int], key),
    decreases tokens.len(),
{
    if tokens.len() > 0 && !eq_ignore_case(tokens[0], key) {
        lemma_find_token(tokens.drop_first(), key);
        assert forall|j: int| 0 <= j < find_token(tokens, key) implies !eq_ignore_case(#[trigger] tokens[j], key) by {
            if j > 0 {
                assert(tokens[j] == tokens.drop_first()[j - 1]);
            }
        }
    }
}

// ---------------------------------------------------------------------------
// `GraphicEQ:` arguments.

/// One `frequency gain` point of a GraphicEQ argument: `Ok(None)` for an empty
/// item, or the reason the item is rejected.
pub open spec fn parse_point(item: Seq<char>) -> Result<Option<GraphicPoint>, Seq<char>> {
    let normalized = replace_char(trim(item), ',', '.');
    if normalized.len() == 0 {
        Ok(None)
    } else {
        let values = split_ws(normalized);
        if values.len() != 2 {
            Err("Invalid GraphicEQ point: "@ + item)
        } else {
            match parse_number(values[0]) {
                None => Err("Invalid GraphicEQ frequency: "@ + values[0]),
                Some(frequency) => match parse_number(values[1]) {
                    None => Err("Invalid GraphicEQ gain: "@ + values[1]),
                    Some(gain_db) => if num_nonpositive(frequency) {
                        Err("GraphicEQ frequencies must be positive"@)
                    } else {
                        Ok(Some(GraphicPoint { frequency, gain_db }))
                    },
                },
            }
        }
    }
}

/// The points of a list of items in order, or the first item's rejection.
pub open spec fn collect_points(items: Seq<Seq<char>>) -> Result<Seq<GraphicPoint>, Seq<char>>
    decreases items.len(),
{
    if items.len() == 0 {
        Ok(Seq::empty())
    } else {
        match collect_points(items.drop_last()) {
            Err(e) => Err(e),
            Ok(points) => match parse_point(items.last()) {
                Err(e) => Err(e),
                Ok(None) => Ok(points),
                Ok(Some(p)) => Ok(points.push(p)),
            },
        }
    }
}

/// Inserts a point after every point of no greater frequency.
pub open spec fn insert_point(sorted: Seq<GraphicPoint>, p: GraphicPoint) -> Seq<GraphicPoint>
    decreases sorted.len(),
{
    if sorted.len() == 0 {
        seq![p]
    } else if num_le(sorted.last().frequency, p.frequency) {
        sorted.push(p)
    } else {
        insert_point(sorted.drop_last(), p).push(sorted.last())
    }
}

/// The stable sort of points by frequency: points of equal frequency keep
/// their order.
pub open spec fn sort_points(points: Seq<GraphicPoint>) -> Seq<GraphicPoint>
    decreases points.len(),
{
    if points.len() == 0 {
        Seq::empty()
    } else {
        insert_point(sort_points(points.drop_last()), points.last())
    }
}

/// The points of a `GraphicEQ:` argument, sorted by frequency, or the reason
/// it is rejected.
pub open spec fn parse_graphic_eq(args: Seq<char>) -> Result<Seq<GraphicPoint>, Seq<char>> {
    match collect_points(split_char(args, ';')) {
        Err(e) => Err(e),
        Ok(points) => if points.len() == 0 {
            Err("GraphicEQ needs at least one point"@)
        } else {
            Ok(sort_points(points))
        },
    }
}

fn parse_point_exec(item: &Vec<char>) -> (r: Result<Option<GraphicPoint>, String>)
    ensures
        same_result(r, parse_point(item@)),
        r matches Ok(Some(p)) ==> p.frequency.wf() && p.gain_db.wf(),
{
    let trimmed = trim_vec(item);
    let normalized = replace_char_vec(&trimmed, ',', '.');
    if normalized.len() == 0 {
        return Ok(None);
    }
    let values = split_ws_vec(&normalized);
    proof {
        assert(views(values@) == split_ws(normalized@));
    }
    if values.len() != 2 {
        return Err(text_with("Invalid GraphicEQ point: ", item));
    }
    proof {
        assert(views(values@)[0] == values@[0]@);
        assert(views(values@)[1] == values@[1]@);
    }
    let frequency = match parse_number_exec(&values[0]) {
        Some(f) => f,
        None => {
            return Err(text_with("Invalid GraphicEQ frequency: ", &values[0]));
        },
    };
    let gain_db = match parse_number_exec(&values[1]) {
        Some(g) => g,
        None => {
            return Err(text_with("Invalid GraphicEQ gain: ", &values[1]));
        },
    };
    if number_nonpositive(frequency) {
        return Err(String::from_str("GraphicEQ frequencies must be positive"));
    }
    Ok(Some(GraphicPoint { frequency, gain_db }))
}

proof fn lemma_insert_at(sorted: Seq<GraphicPoint>, p: GraphicPoint, j: int)
    requires
        0 <= j <= sorted.len(),
        j > 0 ==> num_le(sorted[j - 1].frequency, p.frequency),
        forall|k: int| j <= k < sorted.len() ==> num_lt(p.frequency, #[trigger] sorted[k].frequency),
    ensures
        insert_point(sorted, p) == sorted.take(j) + seq![p] + sorted.skip(j),
    decreases sorted.len(),
{
    if sorted.len() == 0 {
        assert(sorted.take(j) + seq![p] + sorted.skip(j) =~= seq![p]);
    } else if j == sorted.len() {
        assert(sorted.take(j) + seq![p] + sorted.skip(j) =~= sorted.push(p));
    } else {
        let last = sorted.last();
        assert(num_lt(p.frequency, sorted[sorted.len() - 1].frequency));
        assert(!num_le(last.frequency, p.frequency));
        let d = sorted.drop_last();
        assert forall|k: int| j <= k < d.len() implies num_lt(p.frequency, #[trigger] d[k].frequency) by {
            assert(d[k] == sorted[k]);
        }
        if j > 0 {
            assert(d[j - 1] == sorted[j - 1]);
        }
        lemma_insert_at(d, p, j);
        assert(d.take(j) + seq![p] + d.skip(j) + seq![last] =~= sorted.take(j) + seq![p]
            + sorted.skip(j));
    }
}

fn insert_point_exec(sorted: &mut Vec<GraphicPoint>, p: GraphicPoint)
    requires
        p.frequency.wf(),
        forall|k: int| 0 <= k < old(sorted)@.len() ==> (#[trigger] old(sorted)@[k]).frequency.wf(),
    ensures
        final(sorted)@ == insert_point(old(sorted)@, p),
        forall|k: int| 0 <= k < final(sorted)@.len() ==> (#[trigger] final(sorted)@[k]).frequency.wf(),
{
    let ghost before = sorted@;
    let mut j = sorted.len();
    while j > 0 && number_after_other(sorted[j - 1].frequency, p.frequency)
        invariant
            j <= sorted@.len(),
            sorted@ == before,
            p.frequency.wf(),
            forall|k: int| 0 <= k < sorted@.len() ==> (#[trigger] sorted@[k]).frequency.wf(),
            forall|k: int| j <= k < sorted@.len() ==> num_lt(p.frequency, #[trigger] sorted@[k].frequency),
        decreases j,
    {
        j -= 1;
    }
    proof {
        lemma_insert_at(before, p, j as int);
    }
    sorted.insert(j, p);
    proof {
        assert(sorted@ =~= before.take(j as int) + seq![p] + before.skip(j as int));
        assert forall|k: int| 0 <= k < sorted@.len() implies (#[trigger] sorted@[k]).frequency.wf() by {
            if k < j {
                assert(sorted@[k] == before[k]);
            } else if k > j {
                assert(sorted@[k] == before[k - 1]);
            }
        }
    }
}

proof fn lemma_collect_err(items: Seq<Seq<char>>, i: int, e: Seq<char>)
    requires
        0 <= i <= items.len(),
        collect_points(items.take(i)) == Err::<Seq<GraphicPoint>, Seq<char>>(e),
    ensures
        collect_points(items) == Err::<Seq<GraphicPoint>, Seq<char>>(e),
    decreases items.len(),
{
    if items.len() == i {
        assert(items.take(i) =~= items);
    } else {
        assert(items.drop_last().take(i) =~= items.take(i));
        lemma_collect_err(items.drop_last(), i, e);
    }
}

/// The points of a `GraphicEQ:` argument (see [`parse_graphic_eq`]).
pub fn parse_graphic_eq_exec(args: &Vec<char>) -> (r: Result<Vec<GraphicPoint>, String>)
    ensures
        match (r, parse_graphic_eq(args@)) {
            (Ok(a), Ok(b)) => a@ == b,
            (Err(m), Err(n)) => m@ == n,
            _ => false,
        },
        r matches Ok(points) ==> forall|k: int|
            0 <= k < points@.len() ==> (#[trigger] points@[k]).frequency.wf(),
{
    let items = split_char_vec(args, ';');
    let ghost all = split_char(args@, ';');
    let mut points: Vec<GraphicPoint> = Vec::new();
    let mut i: usize = 0;
    proof {
        assert(all.take(0) =~= Seq::<Seq<char>>::empty());
    }
    while i < items.len()
        invariant
            i <= items@.len() == all.len(),
            all == split_char(args@, ';'),
            forall|k: int| 0 <= k < items@.len() ==> #[trigger] items@[k]@ == all[k],
            collect_points(all.take(i as int)) == Ok::<Seq<GraphicPoint>, Seq<char>>(points@),
            forall|k: int| 0 <= k < points@.len() ==> (#[trigger] points@[k]).frequency.wf(),
        decreases items.len() - i,
    {
        proof {
            assert(all.take(i + 1).drop_last() =~= all.take(i as int));
            assert(all.take(i + 1).last() == items@[i as int]@);
        }
        match parse_point_exec(&items[i]) {
            Err(e) => {
                proof {
                    lemma_collect_err(all, i + 1, e@);
                }
                return Err(e);
            },
            Ok(None) => {},
            Ok(Some(p)) => {
                points.push(p);
            },
        }
        i += 1;
    }
    proof {
        assert(all.take(items@.len() as int) =~= all);
    }
    if points.len() == 0 {
        return Err(String::from_str("GraphicEQ needs at least one point"));
    }
    let mut sorted: Vec<GraphicPoint> = Vec::new();
    let mut k: usize = 0;
    while k < points.len()
        invariant
            k <= points@.len(),
            sorted@ == sort_points(points@.take(k as int)),
            forall|m: int| 0 <= m < points@.len() ==> (#[trigger] points@[m]).frequency.wf(),
            forall|m: int| 0 <= m < sorted@.len() ==> (#[trigger] sorted@[m]).frequency.wf(),
        decreases points.len() - k,
    {
        proof {
            assert(points@.take(k + 1).drop_last() =~= points@.take(k as int));
        }
        insert_point_exec(&mut sorted, points[k]);
        k += 1;
    }
    proof {
        assert(points@.take(points@.len() as int) =~= points@);
    }
    Ok(sorted)
}

// ---------------------------------------------------------------------------
// One line of profile text.

/// What one line of Equalizer APO text does to a profile.
pub enum LineEffect {
    /// Blank lines and `#` comments.
    Skip,
    /// `Channel:` selects the channels of the commands that follow.
    SetChannels(ChannelSelection),
    /// `Preamp:` adds a gain for the selected channels.
    AddPreamp(Number),
    AddFilter(Filter),
    AddGraphicEq(Seq<GraphicPoint>),
    /// `Convolution:` names an impulse response file.
    AddConvolution(Seq<char>),
    /// `Include:` names a file whose lines are read in place of this one.
    Include(Seq<char>),
    /// A warning or error about this line.
    Report(DiagnosticLevel, Seq<char>),
}

/// [`LineEffect`] with executable contents.
pub enum LineOutcome {
    Skip,
    SetChannels(ChannelSelection),
    AddPreamp(Number),
    AddFilter(Filter),
    AddGraphicEq(Vec<GraphicPoint>),
    AddConvolution(String),
    Include(String),
    Report(DiagnosticLevel, String),
}

impl View for LineOutcome {
    type V = LineEffect;

    open spec fn view(&self) -> LineEffect {
        match self {
            LineOutcome::Skip => LineEffect::Skip,
            LineOutcome::SetChannels(c) => LineEffect::SetChannels(*c),
            LineOutcome::AddPreamp(d) => LineEffect::AddPreamp(*d),
            LineOutcome::AddFilter(f) => LineEffect::AddFilter(*f),
            LineOutcome::AddGraphicEq(p) => LineEffect::AddGraphicEq(p@),
            LineOutcome::AddConvolution(p) => LineEffect::AddConvolution(p@),
            LineOutcome::Include(p) => LineEffect::Include(p@),
            LineOutcome::Report(l, m) => LineEffect::Report(*l, m@),
        }
    }
}

/// Commands that change audio in ways this profile model does not support.
pub open spec fn is_unsupported_audio_command(name: Seq<char>) -> bool {
    name == "copy"@ || name == "delay"@ || name == "stage"@ || name == "device"@ || name == "if"@
        || name == "elseif"@ || name == "else"@ || name == "endif"@
}

/// What a line of text does, given the path of the file it comes from and
/// the channel selection in force.
pub open spec fn parse_line(raw: Seq<char>, source: Seq<char>, channels: ChannelSelection) -> LineEffect {
    let line = trim(raw);
    if line.len() == 0 || line[0] == '#' {
        LineEffect::Skip
    } else {
        let c = crate::text::find_char(line, ':');
        if c >= line.len() {
            LineEffect::Report(
                DiagnosticLevel::Warning,
                "Ignored text without an APO command separator"@,
            )
        } else {
            let command = line.take(c as int);
            let args = trim(line.skip((c + 1) as int));
            let name = to_lower(trim(command));
            if name == "channel"@ {
                match channel_selection(args) {
                    Some(selection) => LineEffect::SetChannels(selection),
                    None => LineEffect::Report(
                        DiagnosticLevel::Error,
                        "Only ALL, L, R, 1, and 2 channels are supported in version 1"@,
                    ),
                }
            } else if name == "preamp"@ {
                match first_number(args) {
                    Some(v) => LineEffect::AddPreamp(v),
                    None => LineEffect::Report(DiagnosticLevel::Error, "Invalid Preamp value"@),
                }
            } else if name == "filter"@ || crate::text::starts_with(name, "filter "@) {
                match parse_filter(args, channels) {
                    Ok(f) => LineEffect::AddFilter(f),
                    Err(m) => LineEffect::Report(DiagnosticLevel::Error, m),
                }
            } else if name == "graphiceq"@ {
                match parse_graphic_eq(args) {
                    Ok(points) => LineEffect::AddGraphicEq(points),
                    Err(m) => LineEffect::Report(DiagnosticLevel::Error, m),
                }
            } else if name == "convolution"@ {
                LineEffect::AddConvolution(resolve_path(source, args))
            } else if name == "include"@ {
                LineEffect::Include(resolve_path(source, args))
            } else if is_unsupported_audio_command(name) {
                LineEffect::Report(
                    DiagnosticLevel::Error,
                    "Unsupported audio-affecting command: "@ + command,
                )
            } else {
                LineEffect::Report(DiagnosticLevel::Error, "Unsupported command: "@ + command)
            }
        }
    }
}

fn is_unsupported_audio_command_exec(name: &Vec<char>) -> (r: bool)
    ensures
        r == is_unsupported_audio_command(name@),
{
    let copy = chars_of("copy");
    let delay = chars_of("delay");
    let stage = chars_of("stage");
    let device = chars_of("device");
    let if_ = chars_of("if");
    let elseif = chars_of("elseif");
    let else_ = chars_of("else");
    let endif = chars_of("endif");
    crate::text::eq_vec(name, &copy) || crate::text::eq_vec(name, &delay) || crate::text::eq_vec(
        name,
        &stage,
    ) || crate::text::eq_vec(name, &device) || crate::text::eq_vec(name, &if_)
        || crate::text::eq_vec(name, &elseif) || crate::text::eq_vec(name, &else_)
        || crate::text::eq_vec(name, &endif)
}

/// What a line of text does (see [`parse_line`]).
pub fn parse_line_exec(raw: &Vec<char>, source: &str, channels: ChannelSelection) -> (r:
    LineOutcome)
    ensures
        r@ == parse_line(raw@, source@, channels),
        r matches LineOutcome::AddPreamp(d) ==> d.wf(),
{
    let line = trim_vec(raw);
    if line.len() == 0 || line[0] == '#' {
        return LineOutcome::Skip;
    }
    let c = crate::text::find_char_vec(&line, ':');
    if c >= line.len() {
        return LineOutcome::Report(
            DiagnosticLevel::Warning,
            String::from_str("Ignored text without an APO command separator"),
        );
    }
    let command = crate::text::slice_chars(&line, 0, c);
    let rest = crate::text::slice_chars(&line, c + 1, line.len());
    proof {
        assert(command@ =~= line@.take(c as int));
        assert(rest@ =~= line@.skip(c + 1));
    }
    let args = trim_vec(&rest);
    let name = crate::text::lower_vec(&trim_vec(&command));
    if crate::text::eq_vec(&name, &chars_of("channel")) {
        match parse_channels(&args) {
            Some(selection) => LineOutcome::SetChannels(selection),
            None => LineOutcome::Report(
                DiagnosticLevel::Error,
                String::from_str("Only ALL, L, R, 1, and 2 channels are supported in version 1"),
            ),
        }
    } else if crate::text::eq_vec(&name, &chars_of("preamp")) {
        match first_number_exec(&args) {
            Some(v) => LineOutcome::AddPreamp(v),
            None => LineOutcome::Report(
                DiagnosticLevel::Error,
                String::from_str("Invalid Preamp value"),
            ),
        }
    } else if crate::text::eq_vec(&name, &chars_of("filter")) || crate::text::starts_with_vec(
        &name,
        &chars_of("filter "),
    ) {
        match parse_filter_exec(&args, channels) {
            Ok(f) => LineOutcome::AddFilter(f),
            Err(m) => LineOutcome::Report(DiagnosticLevel::Error, m),
        }
    } else if crate::text::eq_vec(&name, &chars_of("graphiceq")) {
        match parse_graphic_eq_exec(&args) {
            Ok(points) => LineOutcome::AddGraphicEq(points),
            Err(m) => LineOutcome::Report(DiagnosticLevel::Error, m),
        }
    } else if crate::text::eq_vec(&name, &chars_of("convolution")) {
        LineOutcome::AddConvolution(resolve_path_exec(source, &args))
    } else if crate::text::eq_vec(&name, &chars_of("include")) {
        LineOutcome::Include(resolve_path_exec(source, &args))
    } else if is_unsupported_audio_command_exec(&name) {
        LineOutcome::Report(
            DiagnosticLevel::Error,
            text_with("Unsupported audio-affecting command: ", &command),
        )
    } else {
        LineOutcome::Report(DiagnosticLevel::Error, text_with("Unsupported command: ", &command))
    }
}

} // verus!
