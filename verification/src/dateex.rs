//! Splitting by time: lines are gathered into buckets of a fixed width by
//! the timestamp that each starts with.

use crate::output::{bucket_name, files_view, make_bucket_name, OutputFile};
use crate::source::{lemma_line_end_bounds, line_end, lineloop, ByteSource};
use crate::text::same_text;
use crate::timestamp::{
    extracted, instant_of_text, parse_bound, ts_extract, Timestamp, NANOS_PER_SEC,
};
use vstd::prelude::*;

verus! {

/// A time bucket: the instants from `lower` up to, not including, `upper`.
#[derive(Clone, Copy, Debug, PartialEq, Eq, Structural)]
pub struct Boundary {
    pub lower: Timestamp,
    pub upper: Timestamp,
}

impl Boundary {
    /// Both ends can be represented, and the upper end lies outside a leap
    /// second, so that it can be written into a file name.
    pub open spec fn wf(self) -> bool {
        self.lower.wf() && self.upper.wf() && self.upper.nanos < NANOS_PER_SEC
    }

    /// `t` lies in the bucket.
    pub open spec fn holds(self, t: Timestamp) -> bool {
        !t.before(self.lower) && t.before(self.upper)
    }

    /// The bucket of `width` seconds that follows this one, where its upper
    /// end can be represented.
    pub open spec fn following(self, width: int) -> Option<Boundary> {
        match self.upper.plus(width) {
            Some(next) => Some(Boundary { lower: self.upper, upper: next }),
            None => None,
        }
    }

    /// The bucket of `width` seconds that starts at `lower`.
    pub open spec fn starting_at(lower: Timestamp, width: int) -> Option<Boundary> {
        match lower.plus(width) {
            Some(upper) => Some(Boundary { lower, upper }),
            None => None,
        }
    }

    /// Computes the bucket that follows this one.
    pub fn next(&self, width: u32) -> (b: Option<Boundary>)
        requires
            self.wf(),
        ensures
            b == self.following(width as int),
            b matches Some(n) ==> n.wf(),
    {
        match self.upper.checked_plus(width) {
            Some(next) => Some(Boundary { lower: self.upper, upper: next }),
            None => None,
        }
    }

    /// Computes the bucket that starts at `lower`.
    pub fn first(lower: Timestamp, width: u32) -> (b: Option<Boundary>)
        requires
            lower.wf(),
        ensures
            b == Boundary::starting_at(lower, width as int),
            b matches Some(n) ==> n.wf(),
    {
        match lower.checked_plus(width) {
            Some(upper) => Some(Boundary { lower, upper }),
            None => None,
        }
    }
}

/// Buckets follow each other without a gap, and each one ends after it
/// starts: the next bucket starts where this one ends, is as wide, and its
/// end lies later than this one's.
pub proof fn lemma_buckets_are_contiguous(b: Boundary, width: int)
    requires
        width > 0,
        b.following(width).is_some(),
    ensures
        b.following(width).unwrap().lower == b.upper,
        b.following(width).unwrap().upper == b.upper.plus(width).unwrap(),
        b.upper.before(b.following(width).unwrap().upper),
        b.following(width).unwrap().lower.before(b.following(width).unwrap().upper),
{
}

/// What the segmenter does after a line.
#[derive(Clone, Copy, Debug, PartialEq, Eq, Structural)]
pub enum Flow {
    /// Go on with the next line.
    Continue,
    /// A line lay behind the end of the time range: nothing more is read.
    Stop,
    /// The next bucket's end cannot be represented: nothing more is read.
    Overflow,
}

/// The open bucket and the lines gathered for it so far.
#[derive(Debug)]
pub struct Segmenter {
    pub boundary: Boundary,
    pub content: Vec<u8>,
}

/// A segmenter's state as mathematical values.
pub struct SegmenterView {
    pub boundary: Boundary,
    pub content: Seq<u8>,
}

impl View for Segmenter {
    type V = SegmenterView;

    open spec fn view(&self) -> SegmenterView {
        SegmenterView { boundary: self.boundary, content: self.content@ }
    }
}

/// What one line does: the state after it, the content to be written out
/// under the name of the bucket that was open before the line, if any, and
/// how to go on.
pub struct StepView {
    pub state: SegmenterView,
    pub flushed: Option<Seq<u8>>,
    pub flow: Flow,
}

/// The effect of one line with the timestamp `ts` read from it.
///
/// A line without a timestamp, or with one inside the open bucket, joins the
/// content. One at or after the bucket's end and before `max_ts` has the
/// content written out, starts the new content, and opens the bucket that
/// follows, whatever the distance. One after `max_ts` has the content written
/// out, if there is any, and ends the run. One before the bucket's start
/// discards the content, and the line with it. Any other line is dropped.
pub open spec fn step(
    st: SegmenterView,
    line: Seq<u8>,
    ts: Option<Timestamp>,
    max_ts: Timestamp,
    width: int,
) -> StepView {
    match ts {
        None => StepView {
            state: SegmenterView { boundary: st.boundary, content: st.content + line },
            flushed: None,
            flow: Flow::Continue,
        },
        Some(t) => if st.boundary.holds(t) {
            StepView {
                state: SegmenterView { boundary: st.boundary, content: st.content + line },
                flushed: None,
                flow: Flow::Continue,
            }
        } else if !t.before(st.boundary.upper) && t.before(max_ts) {
            match st.boundary.following(width) {
                Some(next) => StepView {
                    state: SegmenterView { boundary: next, content: line },
                    flushed: Some(st.content),
                    flow: Flow::Continue,
                },
                None => StepView {
                    state: SegmenterView { boundary: st.boundary, content: line },
                    flushed: Some(st.content),
                    flow: Flow::Overflow,
                },
            }
        } else if max_ts.before(t) {
            StepView {
                state: SegmenterView { boundary: st.boundary, content: Seq::empty() },
                flushed: if st.content.len() > 0 {
                    Some(st.content)
                } else {
                    None
                },
                flow: Flow::Stop,
            }
        } else if t.before(st.boundary.lower) {
            StepView {
                state: SegmenterView { boundary: st.boundary, content: Seq::empty() },
                flushed: None,
                flow: Flow::Continue,
            }
        } else {
            StepView { state: st, flushed: None, flow: Flow::Continue }
        },
    }
}

/// A line without a timestamp joins the content of the bucket that is open,
/// whichever it is: the bucket stays, nothing is written out, and the run
/// goes on.
pub proof fn lemma_untimed_line_joins_open_bucket(
    st: SegmenterView,
    line: Seq<u8>,
    max_ts: Timestamp,
    width: int,
)
    ensures
        step(st, line, None, max_ts, width).state.boundary == st.boundary,
        step(st, line, None, max_ts, width).state.content == st.content + line,
        step(st, line, None, max_ts, width).flushed.is_none(),
        step(st, line, None, max_ts, width).flow == Flow::Continue,
{
}

/// A line stamped before the start of the open bucket has the content that
/// was gathered discarded, not written out, and is itself dropped.
pub proof fn lemma_early_line_discards_content(
    st: SegmenterView,
    line: Seq<u8>,
    t: Timestamp,
    max_ts: Timestamp,
    width: int,
)
    requires
        t.before(st.boundary.lower),
        st.boundary.lower.before(st.boundary.upper),
        !max_ts.before(t),
    ensures
        step(st, line, Some(t), max_ts, width).state.content == Seq::<u8>::empty(),
        step(st, line, Some(t), max_ts, width).flushed.is_none(),
        step(st, line, Some(t), max_ts, width).flow == Flow::Continue,
{
}

/// Whatever a line does, the bucket that is open afterwards is the one
/// before or the one that follows it: its end never moves back.
pub proof fn lemma_step_keeps_or_advances(
    st: SegmenterView,
    line: Seq<u8>,
    ts: Option<Timestamp>,
    max_ts: Timestamp,
    width: int,
)
    requires
        width > 0,
    ensures
        step(st, line, ts, max_ts, width).state.boundary == st.boundary || (
        st.boundary.following(width) == Some(step(st, line, ts, max_ts, width).state.boundary)
            && st.boundary.upper.before(step(st, line, ts, max_ts, width).state.boundary.upper)),
{
}

impl Segmenter {
    /// The open bucket is well-formed.
    pub open spec fn wf(&self) -> bool {
        self.boundary.wf()
    }

    /// A segmenter with an open bucket and no content.
    pub fn new(boundary: Boundary) -> (seg: Segmenter)
        ensures
            seg@ == (SegmenterView { boundary, content: Seq::empty() }),
    {
        Segmenter { boundary, content: Vec::new() }
    }

    /// Takes in one line and the timestamp that was read from it.
    pub fn feed(self, line: Vec<u8>, ts: Option<Timestamp>, max_ts: &Timestamp, width: u32) -> (out:
        (Segmenter, Option<Vec<u8>>, Flow))
        requires
            self.wf(),
        ensures
            out.0.wf(),
            out.0@ == step(self@, line@, ts, *max_ts, width as int).state,
            out.2 == step(self@, line@, ts, *max_ts, width as int).flow,
            match out.1 {
                Some(c) => step(self@, line@, ts, *max_ts, width as int).flushed == Some(c@),
                None => step(self@, line@, ts, *max_ts, width as int).flushed.is_none(),
            },
    {
        let Segmenter { boundary, content } = self;
        let mut content = content;
        let ghost before = content@;
        match ts {
            None => {
                content.extend_from_slice(line.as_slice());
                assert(content@ =~= before + line@);
                (Segmenter { boundary, content }, None, Flow::Continue)
            },
            Some(t) => {
                if !t.is_before(&boundary.lower) && t.is_before(&boundary.upper) {
                    content.extend_from_slice(line.as_slice());
                    assert(content@ =~= before + line@);
                    (Segmenter { boundary, content }, None, Flow::Continue)
                } else if !t.is_before(&boundary.upper) && t.is_before(max_ts) {
                    match boundary.next(width) {
                        Some(next) => (
                            Segmenter { boundary: next, content: line },
                            Some(content),
                            Flow::Continue,
                        ),
                        None => (Segmenter { boundary, content: line }, Some(content), Flow::Overflow),
                    }
                } else if max_ts.is_before(&t) {
                    let flushed = if content.len() > 0 {
                        Some(content)
                    } else {
                        None
                    };
                    (Segmenter { boundary, content: Vec::new() }, flushed, Flow::Stop)
                } else if t.is_before(&boundary.lower) {
                    (Segmenter { boundary, content: Vec::new() }, None, Flow::Continue)
                } else {
                    (Segmenter { boundary, content }, None, Flow::Continue)
                }
            },
        }
    }
}

/// The files of a run by time, and whether it ended because a bucket's end
/// could not be represented.
pub struct Segmentation {
    pub files: Seq<(Seq<char>, Seq<u8>)>,
    pub overflow: bool,
}

/// The outcome of reading the lines of `input` from `pos` on, in the state
/// `st`. At the end of the input, content that is left is written out under
/// the open bucket's name.
pub open spec fn segment_from(
    input: Seq<u8>,
    pos: int,
    st: SegmenterView,
    max_ts: Timestamp,
    width: int,
    base: Seq<char>,
) -> Segmentation
    decreases input.len() - pos,
    via segment_from_decreases
{
    if pos < 0 || pos >= input.len() {
        Segmentation {
            files: if st.content.len() > 0 {
                seq![(bucket_name(base, st.boundary.upper), st.content)]
            } else {
                Seq::empty()
            },
            overflow: false,
        }
    } else {
        let end = line_end(input, pos);
        let line = input.subrange(pos, end);
        let r = step(st, line, extracted(line), max_ts, width);
        let head = match r.flushed {
            Some(c) => seq![(bucket_name(base, st.boundary.upper), c)],
            None => Seq::empty(),
        };
        match r.flow {
            Flow::Continue => {
                let rest = segment_from(input, end, r.state, max_ts, width, base);
                Segmentation { files: head + rest.files, overflow: rest.overflow }
            },
            Flow::Stop => Segmentation { files: head, overflow: false },
            Flow::Overflow => Segmentation { files: head, overflow: true },
        }
    }
}

#[via_fn]
proof fn segment_from_decreases(
    input: Seq<u8>,
    pos: int,
    st: SegmenterView,
    max_ts: Timestamp,
    width: int,
    base: Seq<char>,
) {
    if 0 <= pos < input.len() {
        lemma_line_end_bounds(input, pos);
    }
}

/// The timestamp of the first line from `pos` on that has one.
pub open spec fn first_timestamp(input: Seq<u8>, pos: int) -> Option<Timestamp>
    decreases input.len() - pos,
    via first_timestamp_decreases
{
    if pos < 0 || pos >= input.len() {
        None
    } else {
        let end = line_end(input, pos);
        match extracted(input.subrange(pos, end)) {
            Some(t) => Some(t),
            None => first_timestamp(input, end),
        }
    }
}

#[via_fn]
proof fn first_timestamp_decreases(input: Seq<u8>, pos: int) {
    if 0 <= pos < input.len() {
        lemma_line_end_bounds(input, pos);
    }
}

/// The text that stands for "no lower end of the time range".
pub open spec fn begin_unset() -> Seq<char> {
    "1990-01-01T00:00:00+00:00"@
}

/// The text that stands for "no upper end of the time range".
pub open spec fn end_unset() -> Seq<char> {
    "2100-01-01T00:00:00+00:00"@
}

/// The lower end of the time range: none where the text stands for "unset"
/// or denotes no instant.
pub open spec fn begin_bound(begin: Seq<char>) -> Option<Timestamp> {
    if begin == begin_unset() {
        None
    } else {
        instant_of_text(begin)
    }
}

/// The upper end of the time range: the last instant that can be
/// represented where the text stands for "unset" or denotes no instant.
pub open spec fn end_bound(end: Seq<char>) -> Timestamp {
    if end == end_unset() {
        Timestamp::latest()
    } else {
        match instant_of_text(end) {
            Some(t) => t,
            None => Timestamp::latest(),
        }
    }
}

/// Whether a bound that was given denotes no instant, so that the run goes
/// on without it.
pub open spec fn bound_is_malformed(text: Seq<char>, unset: Seq<char>) -> bool {
    text != unset && instant_of_text(text).is_none()
}

/// The width of a bucket in seconds: a minute, an hour, a day, or thirty
/// days for a month; an hour for any other word.
pub open spec fn granularity_seconds(gran: Seq<char>) -> int {
    if gran == "minute"@ {
        60
    } else if gran == "hour"@ {
        3600
    } else if gran == "day"@ {
        86400
    } else if gran == "month"@ {
        2592000
    } else {
        3600
    }
}

/// The start of the first bucket: the lower end of the time range, else the
/// first timestamp in the input, else the first instant that can be
/// represented.
pub open spec fn first_lower(input: Seq<u8>, begin: Option<Timestamp>) -> Timestamp {
    match begin {
        Some(t) => t,
        None => match first_timestamp(input, 0) {
            Some(t) => t,
            None => Timestamp::earliest(),
        },
    }
}

/// The files of a run by time over the whole input.
pub open spec fn date_plan(
    input: Seq<u8>,
    base: Seq<char>,
    begin: Seq<char>,
    end: Seq<char>,
    gran: Seq<char>,
) -> Segmentation {
    let width = granularity_seconds(gran);
    match Boundary::starting_at(first_lower(input, begin_bound(begin)), width) {
        Some(boundary) => segment_from(
            input,
            0,
            SegmenterView { boundary, content: Seq::empty() },
            end_bound(end),
            width,
            base,
        ),
        None => Segmentation { files: Seq::empty(), overflow: true },
    }
}

/// The width of a bucket in seconds for a granularity's name.
pub fn bucket_width(gran: &str) -> (width: u32)
    ensures
        width == granularity_seconds(gran@),
        width > 0,
{
    if same_text(gran, "minute") {
        60
    } else if same_text(gran, "hour") {
        3600
    } else if same_text(gran, "day") {
        86400
    } else if same_text(gran, "month") {
        2592000
    } else {
        3600
    }
}

/// Reads the lower end of the time range.
pub fn resolve_begin(begin: &str) -> (bound: Option<Timestamp>)
    ensures
        bound == begin_bound(begin@),
        bound matches Some(t) ==> t.wf(),
{
    if same_text(begin, "1990-01-01T00:00:00+00:00") {
        None
    } else {
        parse_bound(begin)
    }
}

/// Reads the upper end of the time range.
pub fn resolve_end(end: &str) -> (bound: Timestamp)
    ensures
        bound == end_bound(end@),
        bound.wf(),
{
    if same_text(end, "2100-01-01T00:00:00+00:00") {
        Timestamp::max()
    } else {
        match parse_bound(end) {
            Some(t) => t,
            None => Timestamp::max(),
        }
    }
}

/// Whether a bound of the time range was given and denotes no instant: the
/// run then goes on as if it were unset, and the caller may say so.
pub fn bound_malformed(text: &str, unset: &str) -> (bad: bool)
    ensures
        bad == bound_is_malformed(text@, unset@),
{
    !same_text(text, unset) && parse_bound(text).is_none()
}

/// Finds the timestamp of the first line of `input` that has one. The
/// search keeps a position of its own, so that a pass over the input that
/// follows starts at the first byte.
pub fn find_first_timestamp(input: &[u8]) -> (found: Option<Timestamp>)
    ensures
        found == first_timestamp(input@, 0),
        found matches Some(t) ==> t.wf(),
{
    let mut lines = ByteSource::new(input);
    let mut found: Option<Timestamp> = None;
    while !lines.is_exhausted()
        invariant_except_break
            found.is_none(),
        invariant
            lines.wf(),
            lines.data@ == input@,
            first_timestamp(input@, 0) == (if found.is_some() {
                found
            } else {
                first_timestamp(input@, lines.pos as int)
            }),
            found matches Some(t) ==> t.wf(),
        ensures
            found == first_timestamp(input@, 0),
            found matches Some(t) ==> t.wf(),
        decreases input@.len() - lines.pos,
    {
        proof {
            lemma_line_end_bounds(input@, lines.pos as int);
        }
        let line = lineloop(&mut lines);
        let ts = ts_extract(line.as_slice());
        if ts.is_some() {
            found = ts;
            break ;
        }
    }
    found
}

/// The files of a run by time, and whether it ended early because a
/// bucket's end could not be represented.
#[derive(Debug)]
pub struct DatePlan {
    /// The files to create, in the order in which their buckets were closed.
    pub files: Vec<OutputFile>,
    /// The run ended where the next bucket's end could not be represented.
    pub overflow: bool,
    /// The lower end of the time range was given and denotes no instant.
    pub begin_malformed: bool,
    /// The upper end of the time range was given and denotes no instant.
    pub end_malformed: bool,
}

/// Splits `input` by time.
///
/// The first bucket starts at `begin`, or, where that is unset or malformed,
/// at the first timestamp found in the input, or else at the first instant
/// that can be represented. Each bucket is as wide as `gran` says. The lines
/// are then taken one by one as `step` describes, and each content that is
/// written out becomes a file named after `filebase` and the end of the
/// bucket that was open. A bound that is given and denotes no instant counts
/// as unset, and the plan says so.
pub fn dateparser(input: &[u8], filebase: &str, begin: &str, end: &str, gran: &str) -> (plan:
    DatePlan)
    ensures
        files_view(plan.files@) == date_plan(input@, filebase@, begin@, end@, gran@).files,
        plan.overflow == date_plan(input@, filebase@, begin@, end@, gran@).overflow,
        plan.begin_malformed == bound_is_malformed(begin@, begin_unset()),
        plan.end_malformed == bound_is_malformed(end@, end_unset()),
{
    let begin_malformed = bound_malformed(begin, "1990-01-01T00:00:00+00:00");
    let end_malformed = bound_malformed(end, "2100-01-01T00:00:00+00:00");
    let width = bucket_width(gran);
    let max_ts = resolve_end(end);
    let min_ts = match resolve_begin(begin) {
        Some(t) => t,
        None => match find_first_timestamp(input) {
            Some(t) => t,
            None => Timestamp::min(),
        },
    };
    let mut lines = ByteSource::new(input);
    let mut files: Vec<OutputFile> = Vec::new();
    let boundary = match Boundary::first(min_ts, width) {
        Some(b) => b,
        None => {
            assert(files_view(files@) =~= Seq::empty());
            return DatePlan { files, overflow: true, begin_malformed, end_malformed };
        },
    };
    let mut seg = Segmenter::new(boundary);
    let mut overflow = false;
    let mut done = false;
    let ghost whole = date_plan(input@, filebase@, begin@, end@, gran@);
    assert(files_view(files@) =~= Seq::empty());
    assert(whole.files =~= files_view(files@) + whole.files);
    while !done && !lines.is_exhausted()
        invariant
            lines.wf(),
            lines.data@ == input@,
            seg.wf(),
            max_ts.wf(),
            done ==> whole.files == files_view(files@) && whole.overflow == overflow,
            !done ==> !overflow && whole.files == files_view(files@) + segment_from(
                input@,
                lines.pos as int,
                seg@,
                max_ts,
                width as int,
                filebase@,
            ).files && whole.overflow == segment_from(
                input@,
                lines.pos as int,
                seg@,
                max_ts,
                width as int,
                filebase@,
            ).overflow,
        decreases input@.len() - lines.pos + (if done { 0int } else { 1int }),
    {
        let ghost shown = files_view(files@);
        let ghost state = seg@;
        let ghost pos = lines.pos as int;
        let ghost current = segment_from(input@, pos, state, max_ts, width as int, filebase@);
        proof {
            lemma_line_end_bounds(input@, pos);
        }
        let line = lineloop(&mut lines);
        let ts = ts_extract(line.as_slice());
        let upper = seg.boundary.upper;
        let ghost r = step(state, line@, ts, max_ts, width as int);
        let (next, flushed, flow) = seg.feed(line, ts, &max_ts, width);
        seg = next;
        let ghost head = match r.flushed {
            Some(c) => seq![(bucket_name(filebase@, state.boundary.upper), c)],
            None => Seq::empty(),
        };
        match flushed {
            Some(content) => {
                let name = make_bucket_name(filebase, &upper);
                files.push(OutputFile { name, content });
            },
            None => {},
        }
        assert(files_view(files@) =~= shown + head);
        match flow {
            Flow::Continue => {
                let ghost rest = segment_from(
                    input@,
                    lines.pos as int,
                    seg@,
                    max_ts,
                    width as int,
                    filebase@,
                );
                assert(current.files == head + rest.files);
                assert(shown + (head + rest.files) =~= (shown + head) + rest.files);
            },
            Flow::Stop => {
                assert(current.files == head);
                done = true;
            },
            Flow::Overflow => {
                assert(current.files == head);
                overflow = true;
                done = true;
            },
        }
    }
    if !done && seg.content.len() > 0 {
        let ghost shown = files_view(files@);
        let name = make_bucket_name(filebase, &seg.boundary.upper);
        let ghost last = (bucket_name(filebase@, seg.boundary.upper), seg.content@);
        files.push(OutputFile { name, content: seg.content });
        assert(files_view(files@) =~= shown + seq![last]);
    } else if !done {
        assert(files_view(files@) + Seq::<(Seq<char>, Seq<u8>)>::empty() =~= files_view(files@));
    }
    DatePlan { files, overflow, begin_malformed, end_malformed }
}

} // verus!
