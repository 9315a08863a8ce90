use vstd::prelude::*;
use crate::compile::{asset_path_is_absolute, path_is_absolute};
use crate::decimal::{decimal_text, number_text};
use crate::filters::{fnv1a, hex_string, hex_text, stable_hash};
use crate::model::{
    texts_of, storage_key, Channel, ChannelSelection, DeviceInfo, DeviceView, DocumentView, Filter,
    GraphicPoint, ProfileDocument,
};
use crate::parser::{path_join, path_joined};
use crate::text::{chars_of, string_of};
use vstd::utf8::encode_utf8;

verus! {

// ---------------------------------------------------------------------------
// Pieces of the filter-chain configuration that PipeWire reads.

/// A text with each backslash and each double quote escaped by a backslash.
pub open spec fn spa_escaped(s: Seq<char>) -> Seq<char>
    decreases s.len(),
{
    if s.len() == 0 {
        Seq::empty()
    } else {
        let c = s.last();
        spa_escaped(s.drop_last()) + if c == '\\' || c == '"' {
            seq!['\\', c]
        } else {
            seq![c]
        }
    }
}

/// A text as a quoted SPA JSON string.
pub fn spa_quote(value: &str) -> (r: String)
    ensures
        r@ == seq!['"'] + spa_escaped(value@) + seq!['"'],
{
    let v = chars_of(value);
    let mut out: Vec<char> = Vec::new();
    out.push('"');
    let mut i: usize = 0;
    while i < v.len()
        invariant
            i <= v.len(),
            v@ == value@,
            out@ == seq!['"'] + spa_escaped(v@.take(i as int)),
        decreases v.len() - i,
    {
        let c = v[i];
        proof {
            assert(v@.take(i + 1).drop_last() =~= v@.take(i as int));
            assert(v@.take(i + 1).last() == c);
        }
        let ghost before = out@;
        if c == '\\' || c == '"' {
            out.push('\\');
        }
        out.push(c);
        proof {
            if c == '\\' || c == '"' {
                assert(out@ =~= before + seq!['\\', c]);
            } else {
                assert(out@ =~= before + seq![c]);
            }
        }
        i += 1;
    }
    out.push('"');
    proof {
        assert(v@.take(i as int) =~= v@);
    }
    string_of(&out)
}

/// What the header of an audio file tells of it: its frames, sample rate and
/// channels, when it has at least one channel and a positive sample rate.
pub fn audio_file_info(frames: i64, sample_rate: i32, channels: i32) -> (r: Option<(i64, i32, usize)>)
    ensures
        r == (if channels > 0 && sample_rate > 0 {
            Some((frames, sample_rate, channels as usize))
        } else {
            None
        }),
{
    if channels > 0 && sample_rate > 0 {
        Some((frames, sample_rate, channels as usize))
    } else {
        None
    }
}

/// Whether an impulse response is longer than ten seconds: more frames than
/// ten times its sample rate.
pub fn longer_than_ten_seconds(frames: i64, sample_rate: i32) -> (r: bool)
    requires
        sample_rate > 0,
    ensures
        r == (frames > 10 * sample_rate),
{
    frames > 10 * (sample_rate as i64)
}

/// The channel of an impulse response file that filters output channel
/// `channel_index`: for a convolution on both channels the channels of the
/// file are used in turn, a file of unknown channels counting as one; a
/// convolution on one channel uses the file's first channel.
pub fn ir_channel(channels: ChannelSelection, channel_index: usize, ir_channels: Option<usize>) -> (r:
    usize)
    ensures
        r == (match channels {
            ChannelSelection::All => {
                let n = match ir_channels {
                    Some(c) => if c >= 1 {
                        c
                    } else {
                        1
                    },
                    None => 1,
                };
                channel_index % n
            },
            _ => 0,
        }),
{
    match channels {
        ChannelSelection::All => {
            let n: usize = match ir_channels {
                Some(c) => if c >= 1 {
                    c
                } else {
                    1
                },
                None => 1,
            };
            channel_index % n
        },
        _ => 0,
    }
}


// ---------------------------------------------------------------------------
// The filter-chain configuration of an output's filter.

/// The numbers of a filter chain as text, written from doubles by the caller:
/// the gain multiplier of each channel (left, then right), the `Freq`, `Q` and
/// `Gain` of each filter of the profile, in the profile's order, and the
/// GraphicEQ impulse of each channel, its values joined by commas.
pub struct ChainLevels {
    pub gain: Vec<String>,
    pub filters: Vec<(String, String, String)>,
    pub impulse: Vec<String>,
}

pub struct LevelsView {
    pub gain: Seq<Seq<char>>,
    pub filters: Seq<(Seq<char>, Seq<char>, Seq<char>)>,
    pub impulse: Seq<Seq<char>>,
}

impl View for ChainLevels {
    type V = LevelsView;

    open spec fn view(&self) -> LevelsView {
        LevelsView {
            gain: texts_of(self.gain@),
            filters: Seq::new(
                self.filters@.len(),
                |i: int| (self.filters@[i].0@, self.filters@[i].1@, self.filters@[i].2@),
            ),
            impulse: texts_of(self.impulse@),
        }
    }
}

/// The `i`-th text of a list, or the empty text past its end.
pub open spec fn text_at(s: Seq<Seq<char>>, i: int) -> Seq<char> {
    if 0 <= i < s.len() {
        s[i]
    } else {
        Seq::empty()
    }
}

/// The `i`-th triple of texts of a list, or empty texts past its end.
pub open spec fn triple_at(s: Seq<(Seq<char>, Seq<char>, Seq<char>)>, i: int) -> (
    Seq<char>,
    Seq<char>,
    Seq<char>,
) {
    if 0 <= i < s.len() {
        s[i]
    } else {
        (Seq::empty(), Seq::empty(), Seq::empty())
    }
}

/// The `i`-th entry of a list of optional channel counts, or `None` past its end.
pub open spec fn count_at(s: Seq<Option<usize>>, i: int) -> Option<usize> {
    if 0 <= i < s.len() {
        s[i]
    } else {
        None
    }
}

/// Texts joined by a separator.
pub open spec fn joined(parts: Seq<Seq<char>>, sep: Seq<char>) -> Seq<char>
    decreases parts.len(),
{
    if parts.len() == 0 {
        Seq::empty()
    } else if parts.len() == 1 {
        parts[0]
    } else {
        joined(parts.drop_last(), sep) + sep + parts.last()
    }
}

/// A link from one port to another.
pub open spec fn link_text(output: Seq<char>, input: Seq<char>) -> Seq<char> {
    "{ output = \""@ + output + "\" input = \""@ + input + "\" }"@
}

/// The gain node of a channel.
pub open spec fn gain_node(name: Seq<char>, mult: Seq<char>) -> Seq<char> {
    "{ type = builtin name = "@ + name + " label = linear control = { \"Mult\" = "@ + mult
        + " \"Add\" = 0.0 } }"@
}

/// The biquad node of a filter.
pub open spec fn eq_node(name: Seq<char>, label: Seq<char>, levels: (Seq<char>, Seq<char>, Seq<char>)) -> Seq<char> {
    "{ type = builtin name = "@ + name + " label = "@ + label + " control = { \"Freq\" = "@
        + levels.0 + " \"Q\" = "@ + levels.1 + " \"Gain\" = "@ + levels.2 + " } }"@
}

/// The mixer after a filter: all of the filtered signal when the filter is
/// on, all of the unfiltered one when it is off.
pub open spec fn mix_node(name: Seq<char>, enabled: bool) -> Seq<char> {
    "{ type = builtin name = "@ + name + " label = mixer control = { \"Gain 1\" = "@ + (if enabled {
        "1.0"@
    } else {
        "0.0"@
    }) + " \"Gain 2\" = "@ + (if enabled {
        "0.0"@
    } else {
        "1.0"@
    }) + " } }"@
}

/// A text as a quoted SPA JSON string.
pub open spec fn spa_quoted(s: Seq<char>) -> Seq<char> {
    seq!['"'] + spa_escaped(s) + seq!['"']
}

/// The convolver of a channel's GraphicEQ curves, with its impulse inline.
pub open spec fn graphic_node(name: Seq<char>, sample_rate: u32, impulse: Seq<char>) -> Seq<char> {
    "{ type = builtin name = "@ + name + " label = convolver config = { filename = "@ + spa_quoted(
        "/ir:"@ + decimal_text(sample_rate as nat) + ","@ + impulse,
    ) + " blocksize = 128 resample_quality = 6 } }"@
}

/// The convolver of an impulse response file.
pub open spec fn conv_node(name: Seq<char>, path: Seq<char>, channel: nat) -> Seq<char> {
    "{ type = builtin name = "@ + name + " label = convolver config = { filename = "@ + spa_quoted(
        path,
    ) + " channel = "@ + decimal_text(channel) + " blocksize = 128 resample_quality = 6 } }"@
}

/// The nodes and links of a channel's chain so far, the node its signal
/// leaves last, and how many stages of the current kind it has.
pub struct ChainPart {
    pub nodes: Seq<Seq<char>>,
    pub links: Seq<Seq<char>>,
    pub last: Seq<char>,
    pub count: nat,
}

/// A channel's chain after its gain node and the first `i` filters of the
/// profile: each filter of the channel adds a biquad and a mixer that takes
/// the filtered and the unfiltered signal.
pub open spec fn filter_part(
    filters: Seq<Filter>,
    levels: LevelsView,
    channel: Channel,
    index: nat,
    suffix: Seq<char>,
    i: nat,
) -> ChainPart
    decreases i,
{
    if i == 0 {
        ChainPart {
            nodes: seq![gain_node("gain_"@ + suffix, text_at(levels.gain, index as int))],
            links: Seq::empty(),
            last: "gain_"@ + suffix,
            count: 0,
        }
    } else {
        let p = filter_part(filters, levels, channel, index, suffix, (i - 1) as nat);
        let f = filters[i - 1];
        if f.channels.spec_contains(channel) {
            let name = "eq_"@ + suffix + "_"@ + decimal_text(p.count);
            let mix = "mix_"@ + suffix + "_"@ + decimal_text(p.count);
            ChainPart {
                nodes: p.nodes + seq![
                    eq_node(name, f.kind.spec_pipewire_label(), triple_at(levels.filters, i - 1)),
                    mix_node(mix, f.enabled),
                ],
                links: p.links + seq![
                    link_text(p.last + ":Out"@, name + ":In"@),
                    link_text(name + ":Out"@, mix + ":In 1"@),
                    link_text(p.last + ":Out"@, mix + ":In 2"@),
                ],
                last: mix,
                count: p.count + 1,
            }
        } else {
            p
        }
    }
}

/// Whether some GraphicEQ curve of the profile applies to a channel.
pub open spec fn has_graphic(eqs: Seq<(ChannelSelection, Seq<GraphicPoint>)>, channel: Channel) -> bool {
    exists|j: int| 0 <= j < eqs.len() && (#[trigger] eqs[j]).0.spec_contains(channel)
}

/// A channel's chain after its filters and its GraphicEQ convolver, if any.
pub open spec fn graphic_part(
    doc: DocumentView,
    levels: LevelsView,
    channel: Channel,
    index: nat,
    suffix: Seq<char>,
    sample_rate: u32,
) -> ChainPart {
    let f = filter_part(doc.filters, levels, channel, index, suffix, doc.filters.len());
    if has_graphic(doc.graphic_eqs, channel) {
        let name = "graphic_"@ + suffix;
        ChainPart {
            nodes: f.nodes.push(
                graphic_node(name, sample_rate, text_at(levels.impulse, index as int)),
            ),
            links: f.links.push(link_text(f.last + ":Out"@, name + ":In"@)),
            last: name,
            count: 0,
        }
    } else {
        ChainPart { count: 0, ..f }
    }
}

/// The channel of an impulse response file a convolver reads (see
/// [`ir_channel`]).
pub open spec fn chosen_ir_channel(
    channels: ChannelSelection,
    channel_index: nat,
    ir_channels: Option<usize>,
) -> nat {
    match channels {
        ChannelSelection::All => {
            let n: nat = match ir_channels {
                Some(c) => if c >= 1 {
                    c as nat
                } else {
                    1
                },
                None => 1,
            };
            channel_index % n
        },
        _ => 0,
    }
}

/// A channel's chain after the first `j` convolutions of the profile: each
/// convolution of the channel adds a convolver of its file, a relative path
/// taken within the profile's directory.
pub open spec fn conv_part(
    convs: Seq<(ChannelSelection, Seq<char>)>,
    ir_channels: Seq<Option<usize>>,
    channel: Channel,
    index: nat,
    suffix: Seq<char>,
    profile_dir: Seq<char>,
    base: ChainPart,
    j: nat,
) -> ChainPart
    decreases j,
{
    if j == 0 {
        base
    } else {
        let p = conv_part(convs, ir_channels, channel, index, suffix, profile_dir, base, (j - 1) as nat);
        let (selection, path) = convs[j - 1];
        if selection.spec_contains(channel) {
            let name = "conv_"@ + suffix + "_"@ + decimal_text(p.count);
            let full = if path_is_absolute(path) {
                path
            } else {
                path_joined(profile_dir, path)
            };
            ChainPart {
                nodes: p.nodes.push(
                    conv_node(
                        name,
                        full,
                        chosen_ir_channel(selection, index, count_at(ir_channels, j - 1)),
                    ),
                ),
                links: p.links.push(link_text(p.last + ":Out"@, name + ":In"@)),
                last: name,
                count: p.count + 1,
            }
        } else {
            p
        }
    }
}

/// A channel's whole chain: its gain, its filters, its GraphicEQ curves and
/// its convolutions, in that order.
pub open spec fn channel_chain(
    doc: DocumentView,
    levels: LevelsView,
    ir_channels: Seq<Option<usize>>,
    profile_dir: Seq<char>,
    sample_rate: u32,
    channel: Channel,
    index: nat,
    suffix: Seq<char>,
) -> ChainPart {
    conv_part(
        doc.convolutions,
        ir_channels,
        channel,
        index,
        suffix,
        profile_dir,
        graphic_part(doc, levels, channel, index, suffix, sample_rate),
        doc.convolutions.len(),
    )
}

/// Text 0 of the configuration template.
pub open spec fn template_0() -> Seq<char> {
    "\ncontext.properties = { log.level = 0 }\ncontext.spa-libs = {\n  audio.convert.* = audioconvert/libspa-audioconvert\n  support.* = support/libspa-support\n}\ncontext.modules = [\n  { name = libpipewire-module-rt flags = [ ifexists nofail ] }\n  { name = libpipewire-module-protocol-native }\n  { name = libpipewire-module-client-node }\n  { name = libpipewire-module-adapter }\n  { name = libpipewire-module-filter-chain\n     args = {\n       node.description = "@
}

/// Text 1 of the configuration template.
pub open spec fn template_1() -> Seq<char> {
    "\n       filter.graph = {\n         nodes = [ "@
}

/// Text 2 of the configuration template.
pub open spec fn template_2() -> Seq<char> {
    " ]\n         links = [ "@
}

/// Text 3 of the configuration template.
pub open spec fn template_3() -> Seq<char> {
    " ]\n         inputs = [ "@
}

/// Text 4 of the configuration template.
pub open spec fn template_4() -> Seq<char> {
    " ]\n         outputs = [ "@
}

/// Text 5 of the configuration template.
pub open spec fn template_5() -> Seq<char> {
    " ]\n       }\n       capture.props = {\n         node.name = \"massiveeq."@
}

/// Text 6 of the configuration template.
pub open spec fn template_6() -> Seq<char> {
    "\"\n         media.class = Audio/Sink\n         audio.channels = 2\n         audio.position = [ FL FR ]\n         filter.smart = true\n         filter.smart.name = \"massiveeq-"@
}

/// Text 7 of the configuration template.
pub open spec fn template_7() -> Seq<char> {
    "\"\n         filter.smart.target = { node.name = "@
}

/// Text 8 of the configuration template.
pub open spec fn template_8() -> Seq<char> {
    " }\n       }\n       playback.props = {\n         node.name = \"massiveeq.output."@
}

/// Text 9 of the configuration template.
pub open spec fn template_9() -> Seq<char> {
    "\"\n         node.passive = true\n         stream.dont-remix = true\n         audio.channels = 2\n         audio.position = [ FL FR ]\n       }\n     }\n  }\n]\n"@
}


/// The PipeWire client configuration that places an output's filter: a
/// filter-chain module whose graph runs the left and the right chain, whose
/// capture side is a smart filter in front of the output's node and whose
/// nodes are named after the hash of the output's storage key.
pub open spec fn filter_chain_text(
    doc: DocumentView,
    levels: LevelsView,
    ir_channels: Seq<Option<usize>>,
    device: DeviceView,
    profile_dir: Seq<char>,
    sample_rate: u32,
) -> Seq<char> {
    let l = channel_chain(doc, levels, ir_channels, profile_dir, sample_rate, Channel::Left, 0, "l"@);
    let r = channel_chain(doc, levels, ir_channels, profile_dir, sample_rate, Channel::Right, 1, "r"@);
    let hash = hex_text(fnv1a(encode_utf8(storage_key(device.key))) as nat);
    template_0() + spa_quoted("MassiveEQ — "@ + device.description) + template_1() + joined(
        l.nodes + r.nodes,
        "\n"@,
    ) + template_2() + joined(l.links + r.links, "\n"@) + template_3() + "\"gain_l:In\" \"gain_r:In\""@
        + template_4() + "\""@ + l.last + ":Out\" \""@ + r.last + ":Out\""@ + template_5() + hash
        + template_6() + hash + template_7() + spa_quoted(device.node_name) + template_8() + hash
        + template_9()
}

/// Two texts, one after the other.
fn cat(a: &str, b: &str) -> (r: String)
    ensures
        r@ == a@ + b@,
{
    let mut r = String::from_str(a);
    r.append(b);
    r
}

/// A prefix, a suffix, an underscore and a number.
fn numbered(prefix: &str, suffix: &str, n: u64) -> (r: String)
    ensures
        r@ == prefix@ + suffix@ + "_"@ + decimal_text(n as nat),
{
    let mut r = cat(prefix, suffix);
    r.append("_");
    let k = number_text(n);
    r.append(k.as_str());
    r
}

fn link_of(output: &str, input: &str) -> (r: String)
    ensures
        r@ == link_text(output@, input@),
{
    let mut r = String::from_str("{ output = \"");
    r.append(output);
    r.append("\" input = \"");
    r.append(input);
    r.append("\" }");
    r
}

fn gain_node_of(name: &str, mult: &str) -> (r: String)
    ensures
        r@ == gain_node(name@, mult@),
{
    let mut r = String::from_str("{ type = builtin name = ");
    r.append(name);
    r.append(" label = linear control = { \"Mult\" = ");
    r.append(mult);
    r.append(" \"Add\" = 0.0 } }");
    r
}

fn eq_node_of(name: &str, label: &str, freq: &str, q: &str, gain: &str) -> (r: String)
    ensures
        r@ == eq_node(name@, label@, (freq@, q@, gain@)),
{
    let mut r = String::from_str("{ type = builtin name = ");
    r.append(name);
    r.append(" label = ");
    r.append(label);
    r.append(" control = { \"Freq\" = ");
    r.append(freq);
    r.append(" \"Q\" = ");
    r.append(q);
    r.append(" \"Gain\" = ");
    r.append(gain);
    r.append(" } }");
    r
}

fn mix_node_of(name: &str, enabled: bool) -> (r: String)
    ensures
        r@ == mix_node(name@, enabled),
{
    let mut r = String::from_str("{ type = builtin name = ");
    r.append(name);
    r.append(" label = mixer control = { \"Gain 1\" = ");
    r.append(if enabled {
        "1.0"
    } else {
        "0.0"
    });
    r.append(" \"Gain 2\" = ");
    r.append(if enabled {
        "0.0"
    } else {
        "1.0"
    });
    r.append(" } }");
    r
}

fn graphic_node_of(name: &str, sample_rate: u32, impulse: &str) -> (r: String)
    ensures
        r@ == graphic_node(name@, sample_rate, impulse@),
{
    let mut inline = String::from_str("/ir:");
    let rate = number_text(sample_rate as u64);
    inline.append(rate.as_str());
    inline.append(",");
    inline.append(impulse);
    let quoted = spa_quote(inline.as_str());
    let mut r = String::from_str("{ type = builtin name = ");
    r.append(name);
    r.append(" label = convolver config = { filename = ");
    r.append(quoted.as_str());
    r.append(" blocksize = 128 resample_quality = 6 } }");
    r
}

fn conv_node_of(name: &str, path: &str, channel: usize) -> (r: String)
    ensures
        r@ == conv_node(name@, path@, channel as nat),
{
    let quoted = spa_quote(path);
    let k = number_text(channel as u64);
    let mut r = String::from_str("{ type = builtin name = ");
    r.append(name);
    r.append(" label = convolver config = { filename = ");
    r.append(quoted.as_str());
    r.append(" channel = ");
    r.append(k.as_str());
    r.append(" blocksize = 128 resample_quality = 6 } }");
    r
}

/// Texts joined by a separator (see [`joined`]).
fn join_texts(parts: &Vec<String>, sep: &str) -> (r: String)
    ensures
        r@ == joined(texts_of(parts@), sep@),
{
    let ghost all = texts_of(parts@);
    let mut r = String::new();
    let mut i: usize = 0;
    while i < parts.len()
        invariant
            i <= parts.len(),
            all == texts_of(parts@),
            r@ == joined(all.take(i as int), sep@),
        decreases parts.len() - i,
    {
        proof {
            assert(all.take(i + 1).drop_last() =~= all.take(i as int));
            assert(all.take(i + 1).last() == parts@[i as int]@);
            if i == 0 {
                assert(all.take(1)[0] == parts@[0]@);
            }
        }
        if i > 0 {
            r.append(sep);
        }
        r.append(parts[i].as_str());
        i += 1;
    }
    proof {
        assert(all.take(i as int) =~= all);
    }
    r
}

/// A channel's chain as it is built.
struct ChainBuild {
    nodes: Vec<String>,
    links: Vec<String>,
    last: String,
    count: u64,
}

spec fn built(b: ChainBuild, p: ChainPart) -> bool {
    &&& texts_of(b.nodes@) == p.nodes
    &&& texts_of(b.links@) == p.links
    &&& b.last@ == p.last
    &&& b.count == p.count
}

proof fn lemma_texts_push(v: Seq<String>, s: String)
    ensures
        texts_of(v.push(s)) == texts_of(v).push(s@),
{
    assert(texts_of(v.push(s)) =~= texts_of(v).push(s@));
}

fn text_or_empty(v: &Vec<String>, i: usize) -> (r: String)
    ensures
        r@ == text_at(texts_of(v@), i as int),
{
    if i < v.len() {
        v[i].clone()
    } else {
        String::new()
    }
}

fn filter_stage(doc: &ProfileDocument, levels: &ChainLevels, channel: Channel, index: usize, suffix: &str) -> (r:
    ChainBuild)
    ensures
        built(r, filter_part(doc@.filters, levels@, channel, index as nat, suffix@, doc@.filters.len())),
{
    let gain_name = cat("gain_", suffix);
    let mult = text_or_empty(&levels.gain, index);
    let mut nodes: Vec<String> = Vec::new();
    nodes.push(gain_node_of(gain_name.as_str(), mult.as_str()));
    let mut b = ChainBuild { nodes, links: Vec::new(), last: gain_name, count: 0 };
    proof {
        assert(texts_of(b.nodes@) =~= filter_part(doc@.filters, levels@, channel, index as nat, suffix@, 0).nodes);
        assert(texts_of(b.links@) =~= Seq::<Seq<char>>::empty());
    }
    let mut i: usize = 0;
    while i < doc.filters.len()
        invariant
            i <= doc.filters.len(),
            built(b, filter_part(doc@.filters, levels@, channel, index as nat, suffix@, i as nat)),
            b.count <= i,
        decreases doc.filters.len() - i,
    {
        let f = doc.filters[i];
        let ghost p = filter_part(doc@.filters, levels@, channel, index as nat, suffix@, i as nat);
        if f.channels.contains(channel) {
            let name = numbered("eq_", suffix, b.count);
            let mix = numbered("mix_", suffix, b.count);
            let (freq, q, gain) = if i < levels.filters.len() {
                (levels.filters[i].0.clone(), levels.filters[i].1.clone(), levels.filters[i].2.clone())
            } else {
                (String::new(), String::new(), String::new())
            };
            let ghost nodes0 = b.nodes@;
            let ghost links0 = b.links@;
            b.nodes.push(eq_node_of(name.as_str(), f.kind.pipewire_label(), freq.as_str(), q.as_str(), gain.as_str()));
            b.nodes.push(mix_node_of(mix.as_str(), f.enabled));
            let out = cat(b.last.as_str(), ":Out");
            let name_in = cat(name.as_str(), ":In");
            let name_out = cat(name.as_str(), ":Out");
            let mix_in1 = cat(mix.as_str(), ":In 1");
            let mix_in2 = cat(mix.as_str(), ":In 2");
            b.links.push(link_of(out.as_str(), name_in.as_str()));
            b.links.push(link_of(name_out.as_str(), mix_in1.as_str()));
            b.links.push(link_of(out.as_str(), mix_in2.as_str()));
            b.last = mix;
            b.count = b.count + 1;
            proof {
                if i < levels.filters.len() {
                    assert(levels@.filters[i as int] == (
                        levels.filters@[i as int].0@,
                        levels.filters@[i as int].1@,
                        levels.filters@[i as int].2@,
                    ));
                }
                let q_next = filter_part(doc@.filters, levels@, channel, index as nat, suffix@, (i + 1) as nat);
                assert(texts_of(b.nodes@) =~= q_next.nodes);
                assert(texts_of(b.links@) =~= q_next.links);
            }
        }
        i += 1;
    }
    b
}

fn has_graphic_exec(doc: &ProfileDocument, channel: Channel) -> (r: bool)
    ensures
        r == has_graphic(doc@.graphic_eqs, channel),
{
    let mut j: usize = 0;
    while j < doc.graphic_eqs.len()
        invariant
            j <= doc.graphic_eqs.len(),
            forall|k: int| 0 <= k < j ==> !(#[trigger] doc@.graphic_eqs[k]).0.spec_contains(channel),
        decreases doc.graphic_eqs.len() - j,
    {
        if doc.graphic_eqs[j].channels.contains(channel) {
            proof {
                assert(doc@.graphic_eqs[j as int].0 == doc.graphic_eqs@[j as int].channels);
            }
            return true;
        }
        proof {
            assert(doc@.graphic_eqs[j as int].0 == doc.graphic_eqs@[j as int].channels);
        }
        j += 1;
    }
    false
}

fn channel_chain_exec(
    doc: &ProfileDocument,
    levels: &ChainLevels,
    ir_channels: &Vec<Option<usize>>,
    profile_dir: &str,
    sample_rate: u32,
    channel: Channel,
    index: usize,
    suffix: &str,
) -> (r: ChainBuild)
    ensures
        built(
            r,
            channel_chain(doc@, levels@, ir_channels@, profile_dir@, sample_rate, channel, index as nat, suffix@),
        ),
{
    let mut b = filter_stage(doc, levels, channel, index, suffix);
    if has_graphic_exec(doc, channel) {
        let name = cat("graphic_", suffix);
        let impulse = text_or_empty(&levels.impulse, index);
        b.nodes.push(graphic_node_of(name.as_str(), sample_rate, impulse.as_str()));
        let out = cat(b.last.as_str(), ":Out");
        let name_in = cat(name.as_str(), ":In");
        b.links.push(link_of(out.as_str(), name_in.as_str()));
        b.last = name;
    }
    b.count = 0;
    let ghost base = graphic_part(doc@, levels@, channel, index as nat, suffix@, sample_rate);
    proof {
        assert(texts_of(b.nodes@) =~= base.nodes);
        assert(texts_of(b.links@) =~= base.links);
    }
    let ghost convs = doc@.convolutions;
    let mut j: usize = 0;
    while j < doc.convolutions.len()
        invariant
            j <= doc.convolutions.len(),
            convs == doc@.convolutions,
            built(b, conv_part(convs, ir_channels@, channel, index as nat, suffix@, profile_dir@, base, j as nat)),
            b.count <= j,
        decreases doc.convolutions.len() - j,
    {
        let selection = doc.convolutions[j].channels;
        proof {
            assert(convs[j as int] == (doc.convolutions@[j as int].channels, doc.convolutions@[j as int].path@));
        }
        if selection.contains(channel) {
            let path = doc.convolutions[j].path.as_str();
            let full = if asset_path_is_absolute(path) {
                String::from_str(path)
            } else {
                path_join(profile_dir, path)
            };
            let counts = if j < ir_channels.len() {
                ir_channels[j]
            } else {
                None
            };
            let ch = ir_channel(selection, index, counts);
            let name = numbered("conv_", suffix, b.count);
            b.nodes.push(conv_node_of(name.as_str(), full.as_str(), ch));
            let out = cat(b.last.as_str(), ":Out");
            let name_in = cat(name.as_str(), ":In");
            b.links.push(link_of(out.as_str(), name_in.as_str()));
            b.last = name;
            b.count = b.count + 1;
            proof {
                assert(ch as nat == chosen_ir_channel(selection, index as nat, count_at(ir_channels@, j as int)));
                let q_next = conv_part(convs, ir_channels@, channel, index as nat, suffix@, profile_dir@, base, (j + 1) as nat);
                assert(texts_of(b.nodes@) =~= q_next.nodes);
                assert(texts_of(b.links@) =~= q_next.links);
            }
        }
        j += 1;
    }
    b
}

/// The PipeWire client configuration of an output's filter (see
/// [`filter_chain_text`]): the numbers come as text in `levels`, and
/// `ir_channels` holds the channel count of each convolution's file, where
/// it could be read.
pub fn build_filter_config(
    profile: &ProfileDocument,
    levels: &ChainLevels,
    ir_channels: &Vec<Option<usize>>,
    device: &DeviceInfo,
    profile_dir: &str,
    sample_rate: u32,
) -> (r: String)
    ensures
        r@ == filter_chain_text(profile@, levels@, ir_channels@, device@, profile_dir@, sample_rate),
{
    let left = channel_chain_exec(profile, levels, ir_channels, profile_dir, sample_rate, Channel::Left, 0, "l");
    let right = channel_chain_exec(profile, levels, ir_channels, profile_dir, sample_rate, Channel::Right, 1, "r");
    let ghost l = channel_chain(profile@, levels@, ir_channels@, profile_dir@, sample_rate, Channel::Left, 0, "l"@);
    let ghost rr = channel_chain(profile@, levels@, ir_channels@, profile_dir@, sample_rate, Channel::Right, 1, "r"@);
    let mut nodes = left.nodes;
    let mut right_nodes = right.nodes;
    nodes.append(&mut right_nodes);
    let mut links = left.links;
    let mut right_links = right.links;
    links.append(&mut right_links);
    proof {
        assert(texts_of(nodes@) =~= l.nodes + rr.nodes);
        assert(texts_of(links@) =~= l.links + rr.links);
    }
    let node_text = join_texts(&nodes, "\n");
    let link_text = join_texts(&links, "\n");
    let key = device.key.as_storage_key();
    let hash = hex_string(stable_hash(key.as_str()));
    let description = cat("MassiveEQ — ", device.description.as_str());
    let quoted_description = spa_quote(description.as_str());
    let target = spa_quote(device.node_name.as_str());
    let mut r = String::from_str("\ncontext.properties = { log.level = 0 }\ncontext.spa-libs = {\n  audio.convert.* = audioconvert/libspa-audioconvert\n  support.* = support/libspa-support\n}\ncontext.modules = [\n  { name = libpipewire-module-rt flags = [ ifexists nofail ] }\n  { name = libpipewire-module-protocol-native }\n  { name = libpipewire-module-client-node }\n  { name = libpipewire-module-adapter }\n  { name = libpipewire-module-filter-chain\n     args = {\n       node.description = ");
    r.append(quoted_description.as_str());
    r.append("\n       filter.graph = {\n         nodes = [ ");
    r.append(node_text.as_str());
    r.append(" ]\n         links = [ ");
    r.append(link_text.as_str());
    r.append(" ]\n         inputs = [ ");
    r.append("\"gain_l:In\" \"gain_r:In\"");
    r.append(" ]\n         outputs = [ ");
    r.append("\"");
    r.append(left.last.as_str());
    r.append(":Out\" \"");
    r.append(right.last.as_str());
    r.append(":Out\"");
    r.append(" ]\n       }\n       capture.props = {\n         node.name = \"massiveeq.");
    r.append(hash.as_str());
    r.append("\"\n         media.class = Audio/Sink\n         audio.channels = 2\n         audio.position = [ FL FR ]\n         filter.smart = true\n         filter.smart.name = \"massiveeq-");
    r.append(hash.as_str());
    r.append("\"\n         filter.smart.target = { node.name = ");
    r.append(target.as_str());
    r.append(" }\n       }\n       playback.props = {\n         node.name = \"massiveeq.output.");
    r.append(hash.as_str());
    r.append("\"\n         node.passive = true\n         stream.dont-remix = true\n         audio.channels = 2\n         audio.position = [ FL FR ]\n       }\n     }\n  }\n]\n");
    r
}

} // verus!
