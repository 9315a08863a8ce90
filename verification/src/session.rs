use vstd::prelude::*;
use crate::model::{
    Channel, ChannelGain, ChannelSelection, Convolution, Diagnostic, DiagnosticLevel,
    DiagnosticView, DocumentView, GraphicEq, GraphicPoint, ProfileDocument, filters_for_channel,
    MAX_FILTERS_PER_CHANNEL, MAX_GRAPHIC_POINTS, MAX_INCLUDE_DEPTH,
};
use crate::parser::{parse_line, parse_line_exec, LineEffect, LineOutcome};
use crate::text::{chars_of, lines, lines_vec, views};

verus! {

/// Why a profile file could not be read.
#[derive(Debug, Clone)]
pub enum ParseError {
    /// A file could not be read; `message` describes the I/O error.
    Io { path: String, message: String },
    /// `Include:` lines nest more deeply than [`MAX_INCLUDE_DEPTH`].
    IncludeDepth,
    /// A file includes itself, directly or through others.
    IncludeCycle(String),
}

/// The text that describes a parse error.
pub open spec fn parse_error_message(e: ParseError) -> Seq<char> {
    match e {
        ParseError::Io { path, message } => "could not read "@ + path@ + ": "@ + message@,
        ParseError::IncludeDepth => "include nesting exceeds 16 levels"@,
        ParseError::IncludeCycle(path) => "include cycle detected at "@ + path@,
    }
}

impl ParseError {
    /// The text that describes the error.
    pub fn message(&self) -> (r: String)
        ensures
            r@ == parse_error_message(*self),
    {
        match self {
            ParseError::Io { path, message } => {
                let mut r = String::from_str("could not read ");
                r.append(path.as_str());
                r.append(": ");
                r.append(message.as_str());
                r
            },
            ParseError::IncludeDepth => String::from_str("include nesting exceeds 16 levels"),
            ParseError::IncludeCycle(path) => {
                let mut r = String::from_str("include cycle detected at ");
                r.append(path.as_str());
                r
            },
        }
    }
}

/// The effect of one non-include line on a document and on the channel
/// selection in force.
pub open spec fn apply_effect(
    doc: DocumentView,
    channels: ChannelSelection,
    line: nat,
    source: Seq<char>,
    effect: LineEffect,
) -> (DocumentView, ChannelSelection) {
    match effect {
        LineEffect::Skip => (doc, channels),
        LineEffect::Include(_) => (doc, channels),
        LineEffect::SetChannels(selection) => (doc, selection),
        LineEffect::AddPreamp(v) => (
            DocumentView {
                preamps: doc.preamps.push(ChannelGain { channels, gain_db: v }),
                ..doc
            },
            channels,
        ),
        LineEffect::AddFilter(f) => (DocumentView { filters: doc.filters.push(f), ..doc }, channels),
        LineEffect::AddGraphicEq(points) => (
            DocumentView { graphic_eqs: doc.graphic_eqs.push((channels, points)), ..doc },
            channels,
        ),
        LineEffect::AddConvolution(path) => (
            DocumentView { convolutions: doc.convolutions.push((channels, path)), ..doc },
            channels,
        ),
        LineEffect::Report(level, message) => (
            DocumentView {
                diagnostics: doc.diagnostics.push(
                    DiagnosticView { level, line, source, message },
                ),
                ..doc
            },
            channels,
        ),
    }
}

/// A document with one more error diagnostic.
pub open spec fn with_error(doc: DocumentView, line: nat, source: Seq<char>, message: Seq<char>) -> DocumentView {
    DocumentView {
        diagnostics: doc.diagnostics.push(
            DiagnosticView { level: DiagnosticLevel::Error, line, source, message },
        ),
        ..doc
    }
}

fn push_diagnostic(
    doc: &mut ProfileDocument,
    level: DiagnosticLevel,
    line: usize,
    source: String,
    message: String,
)
    ensures
        final(doc)@ == (DocumentView {
            diagnostics: old(doc)@.diagnostics.push(
                DiagnosticView { level, line: line as nat, source: source@, message: message@ },
            ),
            ..old(doc)@
        }),
{
    let ghost before = doc@;
    doc.diagnostics.push(Diagnostic { level, line, source, message });
    proof {
        assert(doc@.diagnostics =~= before.diagnostics.push(
            DiagnosticView { level, line: line as nat, source: source@, message: message@ },
        ));
        assert(doc@.graphic_eqs =~= before.graphic_eqs);
        assert(doc@.convolutions =~= before.convolutions);
    }
}

/// Applies the outcome of one line to a document.
pub fn apply_outcome(
    doc: &mut ProfileDocument,
    channels: &mut ChannelSelection,
    line: usize,
    source: &String,
    outcome: LineOutcome,
)
    ensures
        (final(doc)@, *final(channels)) == apply_effect(
            old(doc)@,
            *old(channels),
            line as nat,
            source@,
            outcome@,
        ),
{
    let ghost before = doc@;
    match outcome {
        LineOutcome::Skip => {},
        LineOutcome::Include(_) => {},
        LineOutcome::SetChannels(selection) => {
            *channels = selection;
        },
        LineOutcome::AddPreamp(v) => {
            doc.preamps.push(ChannelGain { channels: *channels, gain_db: v });
            proof {
                assert(doc@.graphic_eqs =~= before.graphic_eqs);
                assert(doc@.convolutions =~= before.convolutions);
                assert(doc@.diagnostics =~= before.diagnostics);
            }
        },
        LineOutcome::AddFilter(f) => {
            doc.filters.push(f);
            proof {
                assert(doc@.graphic_eqs =~= before.graphic_eqs);
                assert(doc@.convolutions =~= before.convolutions);
                assert(doc@.diagnostics =~= before.diagnostics);
            }
        },
        LineOutcome::AddGraphicEq(points) => {
            let ghost p = points@;
            doc.graphic_eqs.push(GraphicEq { channels: *channels, points });
            proof {
                assert(doc@.graphic_eqs =~= before.graphic_eqs.push((*channels, p)));
                assert(doc@.convolutions =~= before.convolutions);
                assert(doc@.diagnostics =~= before.diagnostics);
            }
        },
        LineOutcome::AddConvolution(path) => {
            let ghost p = path@;
            doc.convolutions.push(Convolution { channels: *channels, path });
            proof {
                assert(doc@.graphic_eqs =~= before.graphic_eqs);
                assert(doc@.convolutions =~= before.convolutions.push((*channels, p)));
                assert(doc@.diagnostics =~= before.diagnostics);
            }
        },
        LineOutcome::Report(level, message) => {
            push_diagnostic(doc, level, line, source.clone(), message);
        },
    }
}

// ---------------------------------------------------------------------------
// Profile-wide limits.

/// The number of points over all GraphicEQ curves.
pub open spec fn total_points(eqs: Seq<(ChannelSelection, Seq<GraphicPoint>)>) -> nat
    decreases eqs.len(),
{
    if eqs.len() == 0 {
        0
    } else {
        total_points(eqs.drop_last()) + eqs.last().1.len()
    }
}

pub open spec fn limit_error(doc: DocumentView, message: Seq<char>) -> DiagnosticView {
    DiagnosticView { level: DiagnosticLevel::Error, line: 0, source: doc.name, message }
}

/// The errors for a profile over its limits: more than 64 filters on the left
/// or the right channel, more than 4096 GraphicEQ points in all.
pub open spec fn limit_errors(doc: DocumentView) -> Seq<DiagnosticView> {
    let left = if filters_for_channel(doc.filters, Channel::Left).len() > MAX_FILTERS_PER_CHANNEL {
        seq![limit_error(doc, "More than 64 filters target Left"@)]
    } else {
        Seq::empty()
    };
    let right = if filters_for_channel(doc.filters, Channel::Right).len()
        > MAX_FILTERS_PER_CHANNEL {
        seq![limit_error(doc, "More than 64 filters target Right"@)]
    } else {
        Seq::empty()
    };
    let points = if total_points(doc.graphic_eqs) > MAX_GRAPHIC_POINTS {
        seq![limit_error(doc, "More than 4096 GraphicEQ points"@)]
    } else {
        Seq::empty()
    };
    left + right + points
}

/// A document with its limit errors appended.
pub open spec fn with_limits(doc: DocumentView) -> DocumentView {
    DocumentView { diagnostics: doc.diagnostics + limit_errors(doc), ..doc }
}

/// Appends an error for each limit that a document exceeds.
pub fn enforce_limits(doc: &mut ProfileDocument)
    ensures
        final(doc)@ == with_limits(old(doc)@),
{
    let ghost d0 = doc@;
    let left = doc.filters_for(Channel::Left).len();
    let right = doc.filters_for(Channel::Right).len();
    // count the points, stopping once the limit is passed.
    let mut total: usize = 0;
    let mut i: usize = 0;
    while i < doc.graphic_eqs.len() && total <= MAX_GRAPHIC_POINTS
        invariant
            i <= doc.graphic_eqs.len(),
            doc@ == d0,
            total <= MAX_GRAPHIC_POINTS ==> total == total_points(d0.graphic_eqs.take(i as int)),
            total > MAX_GRAPHIC_POINTS ==> total_points(d0.graphic_eqs.take(i as int)) > MAX_GRAPHIC_POINTS,
            total <= MAX_GRAPHIC_POINTS + 0x1_0000_0000,
        decreases doc.graphic_eqs.len() - i,
    {
        proof {
            assert(d0.graphic_eqs.take(i + 1).drop_last() =~= d0.graphic_eqs.take(i as int));
            assert(d0.graphic_eqs.take(i + 1).last() == d0.graphic_eqs[i as int]);
        }
        let n = doc.graphic_eqs[i].points.len();
        total = if n > MAX_GRAPHIC_POINTS {
            MAX_GRAPHIC_POINTS + 1
        } else {
            total + n
        };
        i += 1;
    }
    proof {
        if total <= MAX_GRAPHIC_POINTS {
            assert(d0.graphic_eqs.take(i as int) =~= d0.graphic_eqs);
        } else {
            lemma_total_points_prefix(d0.graphic_eqs, i as int);
        }
    }
    let ghost mut extra = Seq::<DiagnosticView>::empty();
    if left > MAX_FILTERS_PER_CHANNEL {
        push_diagnostic(
            doc,
            DiagnosticLevel::Error,
            0,
            doc.name.clone(),
            String::from_str("More than 64 filters target Left"),
        );
        proof {
            extra = extra.push(limit_error(d0, "More than 64 filters target Left"@));
        }
    }
    if right > MAX_FILTERS_PER_CHANNEL {
        push_diagnostic(
            doc,
            DiagnosticLevel::Error,
            0,
            doc.name.clone(),
            String::from_str("More than 64 filters target Right"),
        );
        proof {
            extra = extra.push(limit_error(d0, "More than 64 filters target Right"@));
        }
    }
    if total > MAX_GRAPHIC_POINTS {
        push_diagnostic(
            doc,
            DiagnosticLevel::Error,
            0,
            doc.name.clone(),
            String::from_str("More than 4096 GraphicEQ points"),
        );
        proof {
            extra = extra.push(limit_error(d0, "More than 4096 GraphicEQ points"@));
        }
    }
    proof {
        assert(extra =~= limit_errors(d0));
        assert(doc@.diagnostics =~= d0.diagnostics + extra);
    }
}

pub proof fn lemma_total_points_prefix(eqs: Seq<(ChannelSelection, Seq<GraphicPoint>)>, i: int)
    requires
        0 <= i <= eqs.len(),
    ensures
        total_points(eqs.take(i)) <= total_points(eqs),
    decreases eqs.len(),
{
    if i < eqs.len() {
        assert(eqs.drop_last().take(i) =~= eqs.take(i));
        lemma_total_points_prefix(eqs.drop_last(), i);
    } else {
        assert(eqs.take(i) =~= eqs);
    }
}

// ---------------------------------------------------------------------------
// Parsing across `Include:` files, one step at a time.

/// A file being read: its lines, the next line to read, its path, how deeply
/// it is included, and its canonical path when it was opened from disk.
pub struct ParseFrame {
    pub lines: Vec<Vec<char>>,
    pub next: usize,
    pub source: String,
    pub depth: usize,
    pub canonical: Option<String>,
}

/// What a parse session waits for before it can go on.
pub enum Awaiting {
    Nothing,
    /// The canonical form of a path; `origin` is the line and file that
    /// include it, `None` for the file the parse starts from.
    Canonical { path: String, depth: usize, origin: Option<(usize, String)> },
    /// The contents of a file.
    Contents { path: String, canonical: String, depth: usize, origin: Option<(usize, String)> },
}

/// What a parse session asks of its caller after a step.
pub enum ParseRequest {
    /// Nothing: step again.
    Continue,
    /// `Path::canonicalize` of a path (the path itself when that fails),
    /// handed back through [`ParseSession::supply_canonical`].
    Canonicalize(String),
    /// The contents of a file, handed back through [`ParseSession::supply_contents`].
    Read(String),
    /// The parse is over; [`ParseSession::finish`] gives its result.
    Done,
}

/// An Equalizer APO profile parse that reads `Include:` files through its caller.
pub struct ParseSession {
    pub document: ProfileDocument,
    pub channels: ChannelSelection,
    /// Canonical paths of the files being read, to detect include cycles.
    pub visited: Vec<String>,
    pub frames: Vec<ParseFrame>,
    pub awaiting: Awaiting,
    /// The error that ends a parse of a file that cannot be read.
    pub failure: Option<ParseError>,
}

/// The set of texts in a list of strings.
pub open spec fn texts(s: Seq<String>) -> Set<Seq<char>> {
    Set::new(|x: Seq<char>| exists|i: int| 0 <= i < s.len() && s[i]@ == x)
}

pub open spec fn distinct_texts(s: Seq<String>) -> bool {
    forall|i: int, j: int| 0 <= i < j < s.len() ==> s[i]@ != s[j]@
}

/// Records an include error: as a diagnostic on the including line, or as the
/// failure of the whole parse when the file the parse starts from is at fault.
pub open spec fn record_failure(
    doc: DocumentView,
    failure: Option<ParseError>,
    origin: Option<(usize, String)>,
    e: ParseError,
) -> (DocumentView, Option<ParseError>) {
    match origin {
        Some((line, source)) => (
            with_error(doc, line as nat, source@, parse_error_message(e)),
            failure,
        ),
        None => (doc, Some(e)),
    }
}

impl ParseSession {
    pub open spec fn wf(&self) -> bool {
        &&& distinct_texts(self.visited@)
        &&& forall|i: int|
            0 <= i < self.frames@.len() ==> (#[trigger] self.frames@[i]).next
                <= self.frames@[i].lines@.len() && self.frames@[i].depth <= MAX_INCLUDE_DEPTH
        &&& match self.awaiting {
            Awaiting::Nothing => true,
            Awaiting::Canonical { depth, .. } => depth <= MAX_INCLUDE_DEPTH,
            Awaiting::Contents { depth, .. } => depth <= MAX_INCLUDE_DEPTH,
        }
    }

    /// The next state of a session that reads its next line or closes its
    /// innermost file.
    pub open spec fn advanced(old: ParseSession, new: ParseSession, r: ParseRequest) -> bool {
        let top = old.frames@.last();
        if top.next >= top.lines@.len() {
            &&& r is Continue
            &&& new.frames@ == old.frames@.drop_last()
            &&& new.document@ == old.document@
            &&& new.channels == old.channels
            &&& new.awaiting is Nothing
            &&& new.failure == old.failure
            &&& texts(new.visited@) == match top.canonical {
                Some(c) => texts(old.visited@).remove(c@),
                None => texts(old.visited@),
            }
        } else {
            let line = (top.next + 1) as nat;
            let effect = parse_line(top.lines@[top.next as int]@, top.source@, old.channels);
            &&& new.frames@ == old.frames@.drop_last().push(
                ParseFrame { next: (top.next + 1) as usize, ..top },
            )
            &&& new.visited == old.visited
            &&& new.failure == old.failure
            &&& match effect {
                LineEffect::Include(path) => if top.depth + 1 > MAX_INCLUDE_DEPTH {
                    &&& r is Continue
                    &&& new.awaiting is Nothing
                    &&& new.channels == old.channels
                    &&& new.document@ == with_error(
                        old.document@,
                        line,
                        top.source@,
                        parse_error_message(ParseError::IncludeDepth),
                    )
                } else {
                    &&& r matches ParseRequest::Canonicalize(p) && p@ == path
                    &&& new.awaiting matches Awaiting::Canonical { path: p, depth, origin }
                    &&& match new.awaiting {
                        Awaiting::Canonical { path: p, depth, origin } => {
                            &&& p@ == path
                            &&& depth == top.depth + 1
                            &&& match origin {
                                Some((l, src)) => l == line && src@ == top.source@,
                                None => false,
                            }
                        },
                        _ => false,
                    }
                    &&& new.channels == old.channels
                    &&& new.document@ == old.document@
                },
                _ => {
                    &&& r is Continue
                    &&& new.awaiting is Nothing
                    &&& (new.document@, new.channels) == apply_effect(
                        old.document@,
                        old.channels,
                        line,
                        top.source@,
                        effect,
                    )
                },
            }
        }
    }

    /// A parse of text that is not read from a file; its lines report
    /// `profile.txt` as their source.
    pub fn for_text(name: String, text: &str) -> (r: Self)
        ensures
            r.wf(),
            r.document@.name == name@,
            r.document@.preamps.len() == 0,
            r.document@.filters.len() == 0,
            r.document@.graphic_eqs.len() == 0,
            r.document@.convolutions.len() == 0,
            r.document@.diagnostics.len() == 0,
            r.channels == ChannelSelection::All,
            r.visited@.len() == 0,
            r.frames@.len() == 1,
            views(r.frames@[0].lines@) == lines(text@),
            r.frames@[0].next == 0,
            r.frames@[0].source@ == "profile.txt"@,
            r.frames@[0].depth == 0,
            r.frames@[0].canonical is None,
            r.awaiting is Nothing,
            r.failure is None,
    {
        let chars = chars_of(text);
        let mut frames: Vec<ParseFrame> = Vec::new();
        frames.push(
            ParseFrame {
                lines: lines_vec(&chars),
                next: 0,
                source: String::from_str("profile.txt"),
                depth: 0,
                canonical: None,
            },
        );
        ParseSession {
            document: ProfileDocument::empty(name),
            channels: ChannelSelection::All,
            visited: Vec::new(),
            frames,
            awaiting: Awaiting::Nothing,
            failure: None,
        }
    }

    /// A parse of the file at `path`.
    pub fn for_file(name: String, path: String) -> (r: Self)
        ensures
            r.wf(),
            r.document@.name == name@,
            r.document@.preamps.len() == 0,
            r.document@.filters.len() == 0,
            r.document@.graphic_eqs.len() == 0,
            r.document@.convolutions.len() == 0,
            r.document@.diagnostics.len() == 0,
            r.channels == ChannelSelection::All,
            r.visited@.len() == 0,
            r.frames@.len() == 0,
            r.awaiting == (Awaiting::Canonical { path, depth: 0, origin: None }),
            r.failure is None,
    {
        ParseSession {
            document: ProfileDocument::empty(name),
            channels: ChannelSelection::All,
            visited: Vec::new(),
            frames: Vec::new(),
            awaiting: Awaiting::Canonical { path, depth: 0, origin: None },
            failure: None,
        }
    }

    fn record(&mut self, origin: Option<(usize, String)>, e: ParseError)
        ensures
            (final(self).document@, final(self).failure) == record_failure(
                old(self).document@,
                old(self).failure,
                origin,
                e,
            ),
            final(self).channels == old(self).channels,
            final(self).visited == old(self).visited,
            final(self).frames == old(self).frames,
            final(self).awaiting == old(self).awaiting,
    {
        match origin {
            Some((line, source)) => {
                let message = e.message();
                push_diagnostic(&mut self.document, DiagnosticLevel::Error, line, source, message);
            },
            None => {
                self.failure = Some(e);
            },
        }
    }

    /// Takes one step: asks again for what the session awaits, reads the next
    /// line of the innermost file, or closes that file.
    pub fn step(&mut self) -> (r: ParseRequest)
        requires
            old(self).wf(),
        ensures
            final(self).wf(),
            match old(self).awaiting {
                Awaiting::Canonical { path, .. } => {
                    &&& r == ParseRequest::Canonicalize(path)
                    &&& *final(self) == *old(self)
                },
                Awaiting::Contents { path, .. } => {
                    &&& r == ParseRequest::Read(path)
                    &&& *final(self) == *old(self)
                },
                Awaiting::Nothing => if old(self).failure is Some || old(self).frames@.len() == 0 {
                    r is Done && *final(self) == *old(self)
                } else {
                    Self::advanced(*old(self), *final(self), r)
                },
            },
    {
        match &self.awaiting {
            Awaiting::Canonical { path, .. } => {
                return ParseRequest::Canonicalize(path.clone());
            },
            Awaiting::Contents { path, .. } => {
                return ParseRequest::Read(path.clone());
            },
            Awaiting::Nothing => {},
        }
        if self.failure.is_some() || self.frames.len() == 0 {
            return ParseRequest::Done;
        }
        let ghost old_frames = self.frames@;
        let mut top = self.frames.pop().unwrap();
        proof {
            assert(old_frames.last() == top);
            assert(self.frames@ == old_frames.drop_last());
        }
        if top.next >= top.lines.len() {
            if let Some(c) = &top.canonical {
                self.forget_visited(c);
            }
            return ParseRequest::Continue;
        }
        let line = top.next + 1;
        let outcome = parse_line_exec(&top.lines[top.next], top.source.as_str(), self.channels);
        top.next = top.next + 1;
        let source = top.source.clone();
        let depth = top.depth;
        self.frames.push(top);
        match outcome {
            LineOutcome::Include(path) => {
                if depth + 1 > MAX_INCLUDE_DEPTH {
                    let e = ParseError::IncludeDepth;
                    let message = e.message();
                    push_diagnostic(&mut self.document, DiagnosticLevel::Error, line, source, message);
                    ParseRequest::Continue
                } else {
                    self.awaiting = Awaiting::Canonical {
                        path: path.clone(),
                        depth: depth + 1,
                        origin: Some((line, source)),
                    };
                    ParseRequest::Canonicalize(path)
                }
            },
            other => {
                apply_outcome(&mut self.document, &mut self.channels, line, &source, other);
                ParseRequest::Continue
            },
        }
    }

    fn forget_visited(&mut self, c: &String)
        requires
            distinct_texts(old(self).visited@),
        ensures
            distinct_texts(final(self).visited@),
            texts(final(self).visited@) == texts(old(self).visited@).remove(c@),
            final(self).document == old(self).document,
            final(self).channels == old(self).channels,
            final(self).frames == old(self).frames,
            final(self).awaiting == old(self).awaiting,
            final(self).failure == old(self).failure,
    {
        let ghost before = self.visited@;
        match position_of(&self.visited, c) {
            None => {
                proof {
                    assert(texts(before) =~= texts(before).remove(c@));
                }
            },
            Some(i) => {
                self.visited.remove(i);
                proof {
                    assert forall|x: Seq<char>| texts(self.visited@).contains(x) <==> texts(
                        before,
                    ).remove(c@).contains(x) by {
                        if texts(self.visited@).contains(x) {
                            let k = choose|k: int|
                                0 <= k < self.visited@.len() && self.visited@[k]@ == x;
                            if k < i {
                                assert(before[k] == self.visited@[k]);
                            } else {
                                assert(before[k + 1] == self.visited@[k]);
                                assert(before[k + 1]@ != before[i as int]@);
                            }
                        }
                        if texts(before).remove(c@).contains(x) {
                            let k = choose|k: int| 0 <= k < before.len() && before[k]@ == x;
                            assert(k != i);
                            if k < i {
                                assert(self.visited@[k] == before[k]);
                            } else {
                                assert(self.visited@[k - 1] == before[k]);
                            }
                        }
                    }
                    assert(texts(self.visited@) =~= texts(before).remove(c@));
                    assert forall|a: int, b: int|
                        0 <= a < b < self.visited@.len() implies self.visited@[a]@
                        != self.visited@[b]@ by {
                        let a0 = if a < i {
                            a
                        } else {
                            a + 1
                        };
                        let b0 = if b < i {
                            b
                        } else {
                            b + 1
                        };
                        assert(self.visited@[a] == before[a0]);
                        assert(self.visited@[b] == before[b0]);
                    }
                }
            },
        }
    }

    /// Hands back the canonical path that the session asked for.
    pub fn supply_canonical(&mut self, canonical: String)
        requires
            old(self).wf(),
            old(self).awaiting is Canonical,
        ensures
            final(self).wf(),
            final(self).frames == old(self).frames,
            final(self).channels == old(self).channels,
            match old(self).awaiting {
                Awaiting::Canonical { path, depth, origin } => if texts(old(self).visited@).contains(
                    canonical@,
                ) {
                    &&& (final(self).document@, final(self).failure) == record_failure(
                        old(self).document@,
                        old(self).failure,
                        origin,
                        ParseError::IncludeCycle(canonical),
                    )
                    &&& final(self).visited == old(self).visited
                    &&& final(self).awaiting is Nothing
                } else {
                    &&& final(self).document == old(self).document
                    &&& final(self).failure == old(self).failure
                    &&& texts(final(self).visited@) == texts(old(self).visited@).insert(canonical@)
                    &&& final(self).awaiting == (Awaiting::Contents {
                        path,
                        canonical,
                        depth,
                        origin,
                    })
                },
                _ => false,
            },
    {
        let mut awaiting = Awaiting::Nothing;
        std::mem::swap(&mut awaiting, &mut self.awaiting);
        let (path, depth, origin) = match awaiting {
            Awaiting::Canonical { path, depth, origin } => (path, depth, origin),
            _ => {
                return;
            },
        };
        if let Some(_) = position_of(&self.visited, &canonical) {
            self.record(origin, ParseError::IncludeCycle(canonical));
            return;
        }
        let ghost before = self.visited@;
        self.visited.push(canonical.clone());
        proof {
            assert(texts(self.visited@) =~= texts(before).insert(canonical@)) by {
                assert forall|x: Seq<char>| texts(self.visited@).contains(x) implies texts(
                    before,
                ).insert(canonical@).contains(x) by {
                    let k = choose|k: int| 0 <= k < self.visited@.len() && self.visited@[k]@ == x;
                    if k < before.len() {
                        assert(self.visited@[k] == before[k]);
                    }
                }
                assert forall|x: Seq<char>| texts(before).insert(canonical@).contains(x) implies texts(
                    self.visited@,
                ).contains(x) by {
                    if x == canonical@ {
                        assert(self.visited@[before.len() as int]@ == x);
                    } else {
                        let k = choose|k: int| 0 <= k < before.len() && before[k]@ == x;
                        assert(self.visited@[k] == before[k]);
                    }
                }
            }
            assert(!texts(before).contains(canonical@));
            assert forall|a: int, b: int| 0 <= a < b < self.visited@.len() implies self.visited@[a]@
                != self.visited@[b]@ by {
                if b == before.len() {
                    assert(self.visited@[a] == before[a]);
                } else {
                    assert(self.visited@[a] == before[a]);
                    assert(self.visited@[b] == before[b]);
                }
            }
        }
        self.awaiting = Awaiting::Contents { path, canonical, depth, origin };
    }

    /// Hands back the contents of the file that the session asked for, or the
    /// message of the error that reading it gave.
    pub fn supply_contents(&mut self, contents: Result<String, String>)
        requires
            old(self).wf(),
            old(self).awaiting is Contents,
        ensures
            final(self).wf(),
            final(self).visited == old(self).visited,
            final(self).channels == old(self).channels,
            final(self).awaiting is Nothing,
            match (old(self).awaiting, contents) {
                (Awaiting::Contents { path, canonical, depth, origin }, Ok(text)) => {
                    &&& final(self).document == old(self).document
                    &&& final(self).failure == old(self).failure
                    &&& final(self).frames@.len() == old(self).frames@.len() + 1
                    &&& final(self).frames@.drop_last() == old(self).frames@
                    &&& views(final(self).frames@.last().lines@) == lines(text@)
                    &&& final(self).frames@.last().next == 0
                    &&& final(self).frames@.last().source == path
                    &&& final(self).frames@.last().depth == depth
                    &&& final(self).frames@.last().canonical == Some(canonical)
                },
                (Awaiting::Contents { path, origin, .. }, Err(message)) => {
                    &&& (final(self).document@, final(self).failure) == record_failure(
                        old(self).document@,
                        old(self).failure,
                        origin,
                        ParseError::Io { path, message },
                    )
                    &&& final(self).frames == old(self).frames
                },
                _ => false,
            },
    {
        let mut awaiting = Awaiting::Nothing;
        std::mem::swap(&mut awaiting, &mut self.awaiting);
        match awaiting {
            Awaiting::Contents { path, canonical, depth, origin } => match contents {
                Ok(text) => {
                    let chars = chars_of(text.as_str());
                    let ghost before = self.frames@;
                    self.frames.push(
                        ParseFrame {
                            lines: lines_vec(&chars),
                            next: 0,
                            source: path,
                            depth,
                            canonical: Some(canonical),
                        },
                    );
                    proof {
                        assert(self.frames@.drop_last() =~= before);
                        assert forall|i: int| 0 <= i < self.frames@.len() implies (
                        #[trigger] self.frames@[i]).next <= self.frames@[i].lines@.len()
                            && self.frames@[i].depth <= MAX_INCLUDE_DEPTH by {
                            if i < before.len() {
                                assert(self.frames@[i] == before[i]);
                            }
                        }
                    }
                },
                Err(message) => {
                    self.record(origin, ParseError::Io { path, message });
                },
            },
            _ => {},
        }
    }

    /// The parsed document, with its limit errors, unless the file the parse
    /// started from could not be read.
    pub fn finish(self) -> (r: Result<ProfileDocument, ParseError>)
        ensures
            match self.failure {
                Some(e) => r == Err::<ProfileDocument, ParseError>(e),
                None => r matches Ok(d) && d@ == with_limits(self.document@),
            },
    {
        match self.failure {
            Some(e) => Err(e),
            None => {
                let mut document = self.document;
                enforce_limits(&mut document);
                Ok(document)
            },
        }
    }
}

/// Index of the first string with the text of `x`.
fn position_of(v: &Vec<String>, x: &String) -> (r: Option<usize>)
    ensures
        match r {
            Some(i) => i < v@.len() && v@[i as int]@ == x@,
            None => !texts(v@).contains(x@),
        },
{
    let mut i: usize = 0;
    while i < v.len()
        invariant
            i <= v@.len(),
            forall|j: int| 0 <= j < i ==> (#[trigger] v@[j])@ != x@,
        decreases v.len() - i,
    {
        if v[i] == *x {
            return Some(i);
        }
        i += 1;
    }
    None
}

} // verus!
