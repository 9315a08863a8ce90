use vstd::prelude::*;
use crate::decimal::{decimal_text, number_text, is_digit, lemma_decimal_text, lemma_decimal_text_injective};
use crate::keyed::find_text;
use crate::parser::{path_join, path_joined};
use crate::model::texts_of;

verus! {

// ---------------------------------------------------------------------------
// Where profiles and the library are kept.

/// The directories of a profile store: profiles live under `data_dir`, the
/// library in `state.json` of the configuration directory.
#[derive(Debug, Clone)]
pub struct Storage {
    data_dir: String,
    state_path: String,
}

impl Storage {
    pub closed spec fn data_dir_text(&self) -> Seq<char> {
        self.data_dir@
    }

    pub closed spec fn state_path_text(&self) -> Seq<char> {
        self.state_path@
    }

    /// The store with its data under `data_dir` and its library in
    /// `config_dir`.
    pub fn new(data_dir: String, config_dir: &str) -> (r: Self)
        ensures
            r.data_dir_text() == data_dir@,
            r.state_path_text() == path_joined(config_dir@, "state.json"@),
    {
        Storage { data_dir, state_path: path_join(config_dir, "state.json") }
    }

    pub fn data_dir(&self) -> (r: &str)
        ensures
            r@ == self.data_dir_text(),
    {
        self.data_dir.as_str()
    }

    /// The file that holds the library.
    pub fn state_path(&self) -> (r: &str)
        ensures
            r@ == self.state_path_text(),
    {
        self.state_path.as_str()
    }

    /// The directory of all profiles.
    pub fn profiles_dir(&self) -> (r: String)
        ensures
            r@ == path_joined(self.data_dir_text(), "profiles"@),
    {
        path_join(self.data_dir.as_str(), "profiles")
    }

    /// The directory of profile `id`.
    pub fn profile_dir(&self, id: &str) -> (r: String)
        ensures
            r@ == path_joined(path_joined(self.data_dir_text(), "profiles"@), id@),
    {
        path_join(self.profiles_dir().as_str(), id)
    }

    /// The text file of profile `id`.
    pub fn profile_path(&self, id: &str) -> (r: String)
        ensures
            r@ == path_joined(
                path_joined(path_joined(self.data_dir_text(), "profiles"@), id@),
                "profile.txt"@,
            ),
    {
        path_join(self.profile_dir(id).as_str(), "profile.txt")
    }

    /// The directory of the audio files of profile `id`.
    pub fn asset_dir(&self, id: &str) -> (r: String)
        ensures
            r@ == path_joined(
                path_joined(path_joined(self.data_dir_text(), "profiles"@), id@),
                "assets"@,
            ),
    {
        path_join(self.profile_dir(id).as_str(), "assets")
    }
}

// ---------------------------------------------------------------------------
// Names for audio files copied into a profile.

/// `Path::file_stem` of a file name, as text.
pub uninterp spec fn file_stem_of(name: Seq<char>) -> Option<Seq<char>>;

/// `Path::extension` of a file name, as text.
pub uninterp spec fn extension_of(name: Seq<char>) -> Option<Seq<char>>;

/// `std::path::Path::file_stem` of a file name; the contract names the result.
#[verifier::external_body]
fn file_stem(name: &str) -> (r: Option<String>)
    ensures
        crate::model::opt_text(r) == file_stem_of(name@),
{
    std::path::Path::new(name).file_stem().and_then(|v| v.to_str()).map(|v| v.to_owned())
}

/// `std::path::Path::extension` of a file name; the contract names the result.
#[verifier::external_body]
fn file_extension(name: &str) -> (r: Option<String>)
    ensures
        crate::model::opt_text(r) == extension_of(name@),
{
    std::path::Path::new(name).extension().and_then(|v| v.to_str()).map(|v| v.to_owned())
}

/// The stem of a file name, `impulse` when it has none.
pub open spec fn asset_stem(name: Seq<char>) -> Seq<char> {
    match file_stem_of(name) {
        Some(s) => s,
        None => "impulse"@,
    }
}

/// The extension of a file name, `wav` when it has none.
pub open spec fn asset_extension(name: Seq<char>) -> Seq<char> {
    match extension_of(name) {
        Some(e) => e,
        None => "wav"@,
    }
}

/// `stem-k.extension`.
pub open spec fn numbered_asset(stem: Seq<char>, extension: Seq<char>, k: nat) -> Seq<char> {
    stem + "-"@ + decimal_text(k) + "."@ + extension
}

/// The name an audio file gets in a directory whose entries are `taken`: its
/// own name when that is free, else `stem-k.extension` for the least `k` from
/// 2 on that is free.
pub open spec fn is_unique_asset(taken: Seq<Seq<char>>, name: Seq<char>, r: Seq<char>) -> bool {
    if !taken.contains(name) {
        r == name
    } else {
        exists|k: nat|
            k >= 2 && r == numbered_asset(asset_stem(name), asset_extension(name), k)
                && !taken.contains(r) && forall|j: nat|
                2 <= j < k ==> taken.contains(
                    #[trigger] numbered_asset(asset_stem(name), asset_extension(name), j),
                )
    }
}

/// Different numbers give different names.
proof fn lemma_numbered_asset_injective(stem: Seq<char>, extension: Seq<char>, a: nat, b: nat)
    requires
        numbered_asset(stem, extension, a) == numbered_asset(stem, extension, b),
    ensures
        a == b,
{
    reveal_strlit("-");
    reveal_strlit(".");
    lemma_decimal_text(a);
    lemma_decimal_text(b);
    let x = numbered_asset(stem, extension, a);
    let y = numbered_asset(stem, extension, b);
    let p: int = stem.len() as int + 1;
    let da = decimal_text(a);
    let db = decimal_text(b);
    assert(forall|i: int| 0 <= i < da.len() ==> x[p + i] == da[i]);
    assert(forall|i: int| 0 <= i < db.len() ==> y[p + i] == db[i]);
    assert(x[p + da.len() as int] == '.');
    assert(y[p + db.len() as int] == '.');
    if da.len() < db.len() {
        assert(is_digit(db[da.len() as int]));
        assert(false);
    } else if db.len() < da.len() {
        assert(is_digit(da[db.len() as int]));
        assert(false);
    } else {
        assert(da =~= db);
        lemma_decimal_text_injective(a, b);
    }
}

/// At most as many numbered names as there are entries can be taken.
proof fn lemma_assets_bound(taken: Seq<Seq<char>>, stem: Seq<char>, extension: Seq<char>, k: nat)
    requires
        k >= 2,
        forall|j: nat| 2 <= j < k ==> taken.contains(#[trigger] numbered_asset(stem, extension, j)),
    ensures
        k - 2 <= taken.len(),
{
    let x = vstd::set_lib::set_int_range(2, k as int);
    let f = |j: int| choose|i: int| 0 <= i < taken.len() && taken[i] == numbered_asset(stem, extension, j as nat);
    let y = x.map(f);
    vstd::set_lib::lemma_int_range(2, k as int);
    vstd::set_lib::lemma_int_range(0, taken.len() as int);
    assert forall|a: int| x.contains(a) implies 0 <= #[trigger] f(a) < taken.len() && taken[f(a)] == numbered_asset(stem, extension, a as nat) by {
        assert(taken.contains(numbered_asset(stem, extension, a as nat)));
    }
    assert(vstd::relations::injective_on(f, x)) by {
        assert forall|a: int, b: int| x.contains(a) && x.contains(b) && #[trigger] f(a) == #[trigger] f(b) implies a == b by {
            lemma_numbered_asset_injective(stem, extension, a as nat, b as nat);
        }
    }
    vstd::set_lib::lemma_map_size(x, y, f);
    assert(y.subset_of(vstd::set_lib::set_int_range(0, taken.len() as int)));
    vstd::set_lib::lemma_len_subset(y, vstd::set_lib::set_int_range(0, taken.len() as int));
}

fn holds_name(taken: &Vec<String>, name: &str) -> (r: bool)
    ensures
        r == texts_of(taken@).contains(name@),
{
    let r = find_text(taken, name).is_some();
    proof {
        if r {
            let i = choose|i: int| 0 <= i < taken@.len() && (#[trigger] taken@[i])@ == name@;
            assert(texts_of(taken@)[i] == name@);
        }
        if texts_of(taken@).contains(name@) {
            let i = choose|i: int| 0 <= i < texts_of(taken@).len() && texts_of(taken@)[i] == name@;
            assert(taken@[i]@ == name@);
        }
    }
    r
}

/// The name an audio file gets among the entries `taken` of a directory (see
/// [`is_unique_asset`]).
pub fn unique_asset_name(taken: &Vec<String>, file_name: &str) -> (r: String)
    requires
        taken@.len() + 2 <= u64::MAX,
    ensures
        is_unique_asset(texts_of(taken@), file_name@, r@),
{
    let ghost t = texts_of(taken@);
    if !holds_name(taken, file_name) {
        return String::from_str(file_name);
    }
    let stem = match file_stem(file_name) {
        Some(s) => s,
        None => String::from_str("impulse"),
    };
    let extension = match file_extension(file_name) {
        Some(e) => e,
        None => String::from_str("wav"),
    };
    let mut k: u64 = 2;
    loop
        invariant
            2 <= k <= t.len() + 2,
            t == texts_of(taken@),
            t.len() + 2 <= u64::MAX,
            t.contains(file_name@),
            stem@ == asset_stem(file_name@),
            extension@ == asset_extension(file_name@),
            forall|j: nat| 2 <= j < k ==> t.contains(#[trigger] numbered_asset(stem@, extension@, j)),
        decreases t.len() + 2 - k,
    {
        let mut candidate = stem.clone();
        candidate.append("-");
        let digits = number_text(k);
        candidate.append(digits.as_str());
        candidate.append(".");
        candidate.append(extension.as_str());
        proof {
            assert(candidate@ == numbered_asset(stem@, extension@, k as nat));
        }
        if !holds_name(taken, candidate.as_str()) {
            return candidate;
        }
        proof {
            lemma_assets_bound(t, stem@, extension@, (k + 1) as nat);
        }
        k = k + 1;
    }
}

/// Where an audio file is copied in a directory whose entries are `taken`
/// (see [`unique_asset_name`]).
pub fn unique_asset_path(dir: &str, file_name: &str, taken: &Vec<String>) -> (r: String)
    requires
        taken@.len() + 2 <= u64::MAX,
    ensures
        exists|name: Seq<char>| is_unique_asset(texts_of(taken@), file_name@, name) && r@ == path_joined(dir@, name),
{
    let name = unique_asset_name(taken, file_name);
    path_join(dir, name.as_str())
}

// ---------------------------------------------------------------------------
// Audio files referenced by stored profile text.

/// Why a convolution's audio file cannot be used by a stored profile, given
/// what the file system says of it: its canonical path (`None` when it cannot
/// be resolved), the canonical directory of the profile, and its header
/// (`None` when it cannot be decoded). `path` is the path the text gives.
pub open spec fn stored_asset_problem(
    path: Seq<char>,
    canonical: Option<Seq<char>>,
    root: Seq<char>,
    info: Option<(i64, i32, usize)>,
) -> Option<Seq<char>> {
    if crate::compile::path_is_absolute(path) {
        Some("Convolution asset must use a portable path inside the profile: "@ + path)
    } else {
        match canonical {
            None => Some("Convolution asset does not exist: "@ + path),
            Some(c) => if !crate::compile::path_starts_with(c, root) {
                Some("Convolution asset escapes the profile directory: "@ + path)
            } else {
                match info {
                    None => Some("Could not decode convolution asset "@ + path),
                    Some((frames, sample_rate, channels)) => if frames <= 0 || sample_rate <= 0
                        || channels == 0 {
                        Some("Convolution asset is empty: "@ + path)
                    } else if frames > 10 * sample_rate {
                        Some("Convolution asset is longer than 10 seconds: "@ + path)
                    } else {
                        None
                    },
                }
            },
        }
    }
}

fn message_with(text: &str, path: &str) -> (r: String)
    ensures
        r@ == text@ + path@,
{
    let mut r = String::from_str(text);
    r.append(path);
    r
}

/// Why a convolution's audio file cannot be used (see [`stored_asset_problem`]).
pub fn check_stored_asset(
    path: &str,
    canonical: Option<String>,
    root: &str,
    info: Option<(i64, i32, usize)>,
) -> (r: Option<String>)
    ensures
        crate::model::opt_text(r) == stored_asset_problem(
            path@,
            crate::model::opt_text(canonical),
            root@,
            info,
        ),
{
    if crate::compile::asset_path_is_absolute(path) {
        return Some(message_with("Convolution asset must use a portable path inside the profile: ", path));
    }
    let c = match canonical {
        None => {
            return Some(message_with("Convolution asset does not exist: ", path));
        },
        Some(c) => c,
    };
    if !crate::compile::asset_has_prefix(c.as_str(), root) {
        return Some(message_with("Convolution asset escapes the profile directory: ", path));
    }
    match info {
        None => Some(message_with("Could not decode convolution asset ", path)),
        Some((frames, sample_rate, channels)) => if frames <= 0 || sample_rate <= 0 || channels == 0 {
            Some(message_with("Convolution asset is empty: ", path))
        } else if crate::pipewire::longer_than_ten_seconds(frames, sample_rate) {
            Some(message_with("Convolution asset is longer than 10 seconds: ", path))
        } else {
            None
        },
    }
}

} // verus!
