//! The diff engine: the lines of two texts are aligned, and the lines
//! that differ are reported in groups, each with a bounded number of
//! unchanged lines around it.

use vstd::prelude::*;
use std::collections::VecDeque;
use crate::text::{split_lines, to_chars};
use crate::types::views_of;

verus! {

/// One step of an alignment of the lines of two texts.
#[derive(Debug, Clone, PartialEq, Eq)]
pub enum AlignedLine {
    /// A line that only the left text has.
    Left(String),
    /// A line that both texts have.
    Both(String),
    /// A line that only the right text has.
    Right(String),
}

/// One line of a mismatch.
#[derive(Debug, Clone, PartialEq, Eq)]
pub enum DiffLine {
    /// A line that the two texts share.
    Context(String),
    /// A line that only the canonical text has.
    Expected(String),
    /// A line that only the source text has.
    Resulting(String),
}

/// A group of lines that differ, with the unchanged lines around them.
#[derive(Debug, Clone, PartialEq, Eq)]
pub struct Mismatch {
    /// The number of the group's first line in the canonical text.
    pub line_number: u32,
    /// The number of the group's first line in the source text.
    pub line_number_orig: u32,
    /// The lines of the group, in order.
    pub lines: Vec<DiffLine>,
}

/// A step of an alignment as the contracts speak of it.
#[verifier::ext_equal]
pub enum AlignedView {
    Left(Seq<char>),
    Both(Seq<char>),
    Right(Seq<char>),
}

/// A line of a mismatch as the contracts speak of it.
#[verifier::ext_equal]
pub enum DiffLineView {
    Context(Seq<char>),
    Expected(Seq<char>),
    Resulting(Seq<char>),
}

/// A mismatch as the contracts speak of it.
#[verifier::ext_equal]
pub struct MismatchView {
    pub line_number: nat,
    pub line_number_orig: nat,
    pub lines: Seq<DiffLineView>,
}

impl View for AlignedLine {
    type V = AlignedView;

    open spec fn view(&self) -> AlignedView {
        match self {
            AlignedLine::Left(s) => AlignedView::Left(s@),
            AlignedLine::Both(s) => AlignedView::Both(s@),
            AlignedLine::Right(s) => AlignedView::Right(s@),
        }
    }
}

impl View for DiffLine {
    type V = DiffLineView;

    open spec fn view(&self) -> DiffLineView {
        match self {
            DiffLine::Context(s) => DiffLineView::Context(s@),
            DiffLine::Expected(s) => DiffLineView::Expected(s@),
            DiffLine::Resulting(s) => DiffLineView::Resulting(s@),
        }
    }
}

/// The views of a list of lines of a mismatch.
pub open spec fn diff_line_views(v: Seq<DiffLine>) -> Seq<DiffLineView> {
    Seq::new(v.len(), |i: int| v[i]@)
}

impl View for Mismatch {
    type V = MismatchView;

    open spec fn view(&self) -> MismatchView {
        MismatchView {
            line_number: self.line_number as nat,
            line_number_orig: self.line_number_orig as nat,
            lines: diff_line_views(self.lines@),
        }
    }
}

/// The views of a list of mismatches.
pub open spec fn mismatch_views(v: Seq<Mismatch>) -> Seq<MismatchView> {
    Seq::new(v.len(), |i: int| v[i]@)
}

/// The views of the steps of an alignment.
pub open spec fn aligned_views(v: Seq<AlignedLine>) -> Seq<AlignedView> {
    Seq::new(v.len(), |i: int| v[i]@)
}

impl Mismatch {
    /// A mismatch that begins at the given lines and holds no line yet.
    pub fn new(line_number: u32, line_number_orig: u32) -> (m: Mismatch)
        ensures
            m@ == (MismatchView {
                line_number: line_number as nat,
                line_number_orig: line_number_orig as nat,
                lines: Seq::empty(),
            }),
    {
        let m = Mismatch { line_number, line_number_orig, lines: Vec::new() };
        assert(m@.lines =~= Seq::<DiffLineView>::empty());
        m
    }
}

// ---------------------------------------------------------------------
// The alignment
// ---------------------------------------------------------------------
/// The lines that an alignment goes over: the lines of the text, and one
/// empty line more if the text ends with a line feed.
pub open spec fn diff_lines_of(s: Seq<char>) -> Seq<Seq<char>> {
    if s.len() > 0 && s.last() == '\n' {
        split_lines(s).push(Seq::empty())
    } else {
        split_lines(s)
    }
}

/// The lines of the left text that an alignment goes over, in order.
pub open spec fn left_side(script: Seq<AlignedView>) -> Seq<Seq<char>>
    decreases script.len(),
{
    if script.len() == 0 {
        Seq::empty()
    } else {
        match script.last() {
            AlignedView::Left(s) => left_side(script.drop_last()).push(s),
            AlignedView::Both(s) => left_side(script.drop_last()).push(s),
            AlignedView::Right(_) => left_side(script.drop_last()),
        }
    }
}

/// The lines of the right text that an alignment goes over, in order.
pub open spec fn right_side(script: Seq<AlignedView>) -> Seq<Seq<char>>
    decreases script.len(),
{
    if script.len() == 0 {
        Seq::empty()
    } else {
        match script.last() {
            AlignedView::Left(_) => right_side(script.drop_last()),
            AlignedView::Both(s) => right_side(script.drop_last()).push(s),
            AlignedView::Right(s) => right_side(script.drop_last()).push(s),
        }
    }
}

/// An alignment that finds no difference.
pub open spec fn all_both(script: Seq<AlignedView>) -> bool {
    forall|i: int| 0 <= i < script.len() ==> (#[trigger] script[i]) is Both
}

/// The alignment that `diff::lines` computes for two texts.
pub uninterp spec fn line_alignment(left: Seq<char>, right: Seq<char>) -> Seq<AlignedView>;

/// The sizes that the alignment of two texts can be computed for: its
/// table of 32-bit counters, one row per line of the left text and one
/// column per line of the right text and one more of each, can be
/// allocated, and the lines can be numbered with 32 bits.
pub open spec fn within_limits(left: Seq<char>, right: Seq<char>) -> bool {
    let l = split_lines(left).len();
    let r = split_lines(right).len();
    l + r + 2 < u32::MAX && (l + 1) * (r + 1) * 4 <= isize::MAX
}

/// Calls `diff::lines` on the two texts.
///
/// `diff::lines` cuts both texts with `str::lines`, aligns the two lists
/// of lines, and adds one last step for the empty line behind a final
/// line feed: `Both` if both texts end with a line feed, `Left` or `Right`
/// if only one of them does. It aligns the lists by taking the lines that
/// they share at their beginning and at their end as `Both`, and walking a
/// table of longest common subsequences for what lies between.
///
/// The contract names the result and states three things of it, none of
/// which is proved here:
///
/// - The steps that are `Left` or `Both` go over the lines of the left
///   text, each once and in order, the empty line behind a final line feed
///   included.
/// - The steps that are `Right` or `Both` go over the lines of the right
///   text in the same way. A step is `Both` only for two lines that are
///   equal, so the one of them that is kept here stands for both.
/// - Where the two lists of lines are equal, the empty last lines
///   included, every step is `Both`. The texts then have the same lines,
///   all of which are shared at the beginning, and both end with a line
///   feed or neither does: a text that does not end with a line feed has
///   no empty last line.
///
/// The table that `diff::lines` allocates holds a 32-bit counter for every
/// pair of a line of the left text and a line of the right text that are
/// not shared at the beginning or the end, and one row and one column
/// more. `within_limits` keeps it within what can be allocated, and the
/// counters within 32 bits.
#[verifier::external_body]
fn diff_lines(left: &str, right: &str) -> (script: Vec<AlignedLine>)
    requires
        within_limits(left@, right@),
    ensures
        aligned_views(script@) == line_alignment(left@, right@),
        left_side(aligned_views(script@)) == diff_lines_of(left@),
        right_side(aligned_views(script@)) == diff_lines_of(right@),
        diff_lines_of(left@) == diff_lines_of(right@) ==> all_both(aligned_views(script@)),
{
    ::diff::lines(left, right).into_iter().map(
        |step| match step {
            ::diff::Result::Left(l) => AlignedLine::Left(l.to_owned()),
            ::diff::Result::Both(l, _) => AlignedLine::Both(l.to_owned()),
            ::diff::Result::Right(r) => AlignedLine::Right(r.to_owned()),
        },
    ).collect()
}

// ---------------------------------------------------------------------
// Grouping
// ---------------------------------------------------------------------
/// The state of the grouping after some steps of an alignment.
#[verifier::ext_equal]
pub struct GroupState {
    /// The mismatches that are closed, behind an empty one that stands for
    /// the time before the first difference.
    pub closed: Seq<MismatchView>,
    /// The mismatch that is in progress.
    pub current: MismatchView,
    /// The unchanged lines that are kept for the next mismatch to begin
    /// with: `context_size` at most.
    pub queue: Seq<Seq<char>>,
    /// The number of unchanged lines since the last difference.
    pub since: nat,
    /// The number of the next line of the canonical text.
    pub line: nat,
    /// The number of the next line of the source text.
    pub line_orig: nat,
}

/// The queued lines as lines of context.
pub open spec fn context_lines(queue: Seq<Seq<char>>) -> Seq<DiffLineView> {
    Seq::new(queue.len(), |i: int| DiffLineView::Context(queue[i]))
}

/// The state before the first step: an empty mismatch in progress, and
/// more than `context_size` unchanged lines behind.
pub open spec fn initial_state(context_size: nat) -> GroupState {
    GroupState {
        closed: Seq::empty(),
        current: MismatchView { line_number: 0, line_number_orig: 0, lines: Seq::empty() },
        queue: Seq::empty(),
        since: context_size + 1,
        line: 1,
        line_orig: 1,
    }
}

/// The state after a line that only one text has; `entry` is that line as
/// it is reported.
///
/// Where `context_size` unchanged lines or more lie behind, the mismatch
/// in progress is closed and a new one begins at the first queued line.
/// The queued lines go into the mismatch as context, then the line itself.
pub open spec fn after_change(st: GroupState, entry: DiffLineView, context_size: nat) -> GroupState {
    let fresh = st.since >= context_size;
    let base = if fresh {
        MismatchView {
            line_number: (st.line - st.queue.len()) as nat,
            line_number_orig: (st.line_orig - st.queue.len()) as nat,
            lines: Seq::empty(),
        }
    } else {
        st.current
    };
    GroupState {
        closed: if fresh {
            st.closed.push(st.current)
        } else {
            st.closed
        },
        current: MismatchView {
            line_number: base.line_number,
            line_number_orig: base.line_number_orig,
            lines: (base.lines + context_lines(st.queue)).push(entry),
        },
        queue: Seq::empty(),
        since: 0,
        line: if entry is Expected {
            st.line + 1
        } else {
            st.line
        },
        line_orig: if entry is Resulting {
            st.line_orig + 1
        } else {
            st.line_orig
        },
    }
}

/// The state after a line that both texts have.
///
/// Within `context_size` lines of the last difference the line goes into
/// the mismatch in progress as context. Later it is queued for the next
/// mismatch, and the oldest queued line is dropped once `context_size`
/// are queued.
pub open spec fn after_match(st: GroupState, text: Seq<char>, context_size: nat) -> GroupState {
    let kept = if st.queue.len() >= context_size && st.queue.len() > 0 {
        st.queue.drop_first()
    } else {
        st.queue
    };
    let trailing = st.since < context_size;
    GroupState {
        closed: st.closed,
        current: if trailing {
            MismatchView {
                line_number: st.current.line_number,
                line_number_orig: st.current.line_number_orig,
                lines: st.current.lines.push(DiffLineView::Context(text)),
            }
        } else {
            st.current
        },
        queue: if !trailing && context_size > 0 {
            kept.push(text)
        } else {
            kept
        },
        since: st.since + 1,
        line: st.line + 1,
        line_orig: st.line_orig + 1,
    }
}

/// The state after one step of an alignment.
pub open spec fn after_step(st: GroupState, step: AlignedView, context_size: nat) -> GroupState {
    match step {
        AlignedView::Left(s) => after_change(st, DiffLineView::Resulting(s), context_size),
        AlignedView::Right(s) => after_change(st, DiffLineView::Expected(s), context_size),
        AlignedView::Both(s) => after_match(st, s, context_size),
    }
}

/// The state of the grouping after all the steps of `script`.
pub open spec fn group_state(script: Seq<AlignedView>, context_size: nat) -> GroupState
    decreases script.len(),
{
    if script.len() == 0 {
        initial_state(context_size)
    } else {
        after_step(group_state(script.drop_last(), context_size), script.last(), context_size)
    }
}

/// The mismatches of an alignment: the closed ones and the one that is in
/// progress at the end, without the empty one at the front.
pub open spec fn grouped(script: Seq<AlignedView>, context_size: nat) -> Seq<MismatchView> {
    let st = group_state(script, context_size);
    st.closed.push(st.current).drop_first()
}

/// What holds of the state after any number of steps: the queue is within
/// its bound and shorter than the number of lines that lie behind in
/// either text, it is empty while the context of the last difference is
/// being written, and nothing is closed before the first difference.
pub open spec fn state_inv(st: GroupState, steps: nat, context_size: nat) -> bool {
    &&& st.queue.len() <= context_size
    &&& st.queue.len() < st.line <= steps + 1
    &&& st.queue.len() < st.line_orig <= steps + 1
    &&& st.since < context_size ==> st.queue.len() == 0
    &&& st.closed.len() == 0 ==> st.since > context_size
}

/// The invariant holds after any number of steps, and nothing is closed
/// exactly as long as no difference was met.
pub proof fn lemma_state_inv(script: Seq<AlignedView>, context_size: nat)
    ensures
        state_inv(group_state(script, context_size), script.len(), context_size),
        group_state(script, context_size).closed.len() == 0 <==> all_both(script),
    decreases script.len(),
{
    if script.len() > 0 {
        let prefix = script.drop_last();
        lemma_state_inv(prefix, context_size);
        if all_both(script) {
            assert forall|i: int| 0 <= i < prefix.len() implies (#[trigger] prefix[i]) is Both by {
                assert(prefix[i] == script[i]);
            }
        }
        if all_both(prefix) && script.last() is Both {
            assert forall|i: int| 0 <= i < script.len() implies (#[trigger] script[i]) is Both by {
                if i < prefix.len() {
                    assert(prefix[i] == script[i]);
                }
            }
        }
        if !(script.last() is Both) {
            assert(!(script[script.len() - 1] is Both));
        }
    }
}

/// No mismatch is reported exactly when the alignment finds no difference.
pub proof fn lemma_grouped_empty(script: Seq<AlignedView>, context_size: nat)
    ensures
        grouped(script, context_size).len() == 0 <==> all_both(script),
{
    lemma_state_inv(script, context_size);
}

/// An alignment has no more steps than the two texts have lines.
pub proof fn lemma_script_len(script: Seq<AlignedView>)
    ensures
        script.len() <= left_side(script).len() + right_side(script).len(),
        left_side(script).len() <= script.len(),
        right_side(script).len() <= script.len(),
    decreases script.len(),
{
    if script.len() > 0 {
        lemma_script_len(script.drop_last());
    }
}

/// An alignment without a difference goes over the same lines on both
/// sides.
pub proof fn lemma_all_both_sides(script: Seq<AlignedView>)
    requires
        all_both(script),
    ensures
        left_side(script) == right_side(script),
    decreases script.len(),
{
    if script.len() > 0 {
        let prefix = script.drop_last();
        assert forall|i: int| 0 <= i < prefix.len() implies (#[trigger] prefix[i]) is Both by {
            assert(prefix[i] == script[i]);
        }
        lemma_all_both_sides(prefix);
        assert(script[script.len() - 1] is Both);
    }
}

/// Moves the queued lines into `lines`, as context.
fn flush_queue(queue: &mut VecDeque<String>, lines: &mut Vec<DiffLine>)
    ensures
        final(queue)@.len() == 0,
        diff_line_views(final(lines)@) == diff_line_views(old(lines)@) + context_lines(
            views_of(old(queue)@),
        ),
{
    let ghost all = views_of(queue@);
    let ghost total = queue.len();
    assert(diff_line_views(lines@) =~= diff_line_views(old(lines)@) + context_lines(all.take(0)));
    while queue.len() > 0
        invariant
            all == views_of(old(queue)@),
            total == all.len(),
            queue@.len() <= total,
            views_of(queue@) == all.skip(total - queue@.len()),
            diff_line_views(lines@) == diff_line_views(old(lines)@) + context_lines(
                all.take(total - queue@.len()),
            ),
        decreases queue.len(),
    {
        let ghost k = total - queue@.len();
        let ghost before = lines@;
        let ghost q = queue@;
        match queue.pop_front() {
            Some(line) => {
                proof {
                    assert(line@ == views_of(q)[0]);
                    assert(line@ == all[k]);
                    assert(views_of(queue@) =~= all.skip(k + 1)) by {
                        assert forall|j: int| 0 <= j < queue@.len() implies views_of(queue@)[j]
                            == all.skip(k + 1)[j] by {
                            assert(queue@[j] == q[j + 1]);
                            assert(views_of(q)[j + 1] == all.skip(k)[j + 1]);
                        }
                    }
                }
                lines.push(DiffLine::Context(line));
                proof {
                    assert(diff_line_views(lines@) =~= diff_line_views(before).push(
                        DiffLineView::Context(all[k]),
                    ));
                    assert(context_lines(all.take(k + 1)) =~= context_lines(all.take(k)).push(
                        DiffLineView::Context(all[k]),
                    ));
                    assert(diff_line_views(lines@) =~= diff_line_views(old(lines)@)
                        + context_lines(all.take(k + 1)));
                }
            },
            None => {},
        }
    }
    proof {
        assert(all.take(total as int) =~= all);
    }
}

/// Groups the differences of an alignment into mismatches, each with
/// `context_size` unchanged lines before and behind it at most.
///
/// The steps are numbered with 32 bits, so there may not be more of them.
pub fn group_mismatches(script: &Vec<AlignedLine>, context_size: usize) -> (results: Vec<Mismatch>)
    requires
        script.len() < u32::MAX,
    ensures
        mismatch_views(results@) == grouped(aligned_views(script@), context_size as nat),
{
    let ghost steps = aligned_views(script@);
    let ghost ctx = context_size as nat;
    let mut line_number: u32 = 1;
    let mut line_number_orig: u32 = 1;
    let mut context_queue: VecDeque<String> = VecDeque::new();
    // the number of unchanged lines since the last difference, counted up
    // to `context_size` only
    let mut recent: usize = context_size;
    let mut results: Vec<Mismatch> = Vec::new();
    let mut mismatch = Mismatch::new(0, 0);
    let mut i: usize = 0;
    proof {
        assert(steps.take(0) =~= Seq::<AlignedView>::empty());
        assert(mismatch_views(results@) =~= Seq::<MismatchView>::empty());
        assert(views_of(context_queue@) =~= Seq::<Seq<char>>::empty());
        lemma_state_inv(steps.take(0), ctx);
    }
    while i < script.len()
        invariant
            i <= script.len() < u32::MAX,
            steps == aligned_views(script@),
            ctx == context_size as nat,
            ({
                let st = group_state(steps.take(i as int), ctx);
                &&& state_inv(st, i as nat, ctx)
                &&& mismatch_views(results@) == st.closed
                &&& mismatch@ == st.current
                &&& views_of(context_queue@) == st.queue
                &&& line_number as nat == st.line
                &&& line_number_orig as nat == st.line_orig
                &&& recent as nat == (if st.since >= ctx {
                    ctx
                } else {
                    st.since
                })
            }),
        decreases script.len() - i,
    {
        let ghost st = group_state(steps.take(i as int), ctx);
        let ghost next = group_state(steps.take(i + 1), ctx);
        proof {
            assert(steps.take(i + 1).drop_last() =~= steps.take(i as int));
            assert(steps.take(i + 1).last() == script@[i as int]@);
            assert(next == after_step(st, script@[i as int]@, ctx));
            lemma_state_inv(steps.take(i + 1), ctx);
        }
        match &script[i] {
            AlignedLine::Both(text) => {
                if context_queue.len() >= context_size && context_queue.len() > 0 {
                    let ghost q = context_queue@;
                    let _ = context_queue.pop_front();
                    assert(views_of(context_queue@) =~= st.queue.drop_first()) by {
                        assert forall|j: int| 0 <= j < context_queue@.len() implies views_of(
                            context_queue@,
                        )[j] == st.queue.drop_first()[j] by {
                            assert(context_queue@[j] == q[j + 1]);
                            assert(views_of(q)[j + 1] == st.queue[j + 1]);
                        }
                    }
                }
                if recent < context_size {
                    let ghost before = mismatch.lines@;
                    mismatch.lines.push(DiffLine::Context(text.clone()));
                    assert(diff_line_views(mismatch.lines@) =~= diff_line_views(before).push(
                        DiffLineView::Context(text@),
                    ));
                    recent = recent + 1;
                } else if context_size > 0 {
                    let ghost q = context_queue@;
                    context_queue.push_back(text.clone());
                    assert(views_of(context_queue@) =~= views_of(q).push(text@));
                }
                line_number = line_number + 1;
                line_number_orig = line_number_orig + 1;
            },
            AlignedLine::Left(text) => {
                if recent >= context_size {
                    let ghost before = results@;
                    let pending = context_queue.len() as u32;
                    let mut fresh = Mismatch::new(
                        line_number - pending,
                        line_number_orig - pending,
                    );
                    std::mem::swap(&mut mismatch, &mut fresh);
                    results.push(fresh);
                    assert(mismatch_views(results@) =~= mismatch_views(before).push(st.current));
                }
                let ghost base = mismatch.lines@;
                flush_queue(&mut context_queue, &mut mismatch.lines);
                mismatch.lines.push(DiffLine::Resulting(text.clone()));
                proof {
                    assert(diff_line_views(mismatch.lines@) =~= (diff_line_views(base)
                        + context_lines(st.queue)).push(DiffLineView::Resulting(text@)));
                    assert(views_of(context_queue@) =~= Seq::<Seq<char>>::empty());
                }
                line_number_orig = line_number_orig + 1;
                recent = 0;
            },
            AlignedLine::Right(text) => {
                if recent >= context_size {
                    let ghost before = results@;
                    let pending = context_queue.len() as u32;
                    let mut fresh = Mismatch::new(
                        line_number - pending,
                        line_number_orig - pending,
                    );
                    std::mem::swap(&mut mismatch, &mut fresh);
                    results.push(fresh);
                    assert(mismatch_views(results@) =~= mismatch_views(before).push(st.current));
                }
                let ghost base = mismatch.lines@;
                flush_queue(&mut context_queue, &mut mismatch.lines);
                mismatch.lines.push(DiffLine::Expected(text.clone()));
                proof {
                    assert(diff_line_views(mismatch.lines@) =~= (diff_line_views(base)
                        + context_lines(st.queue)).push(DiffLineView::Expected(text@)));
                    assert(views_of(context_queue@) =~= Seq::<Seq<char>>::empty());
                }
                line_number = line_number + 1;
                recent = 0;
            },
        }
        assert(mismatch@ =~= next.current);
        i += 1;
    }
    proof {
        assert(steps.take(script.len() as int) =~= steps);
    }
    let ghost st = group_state(steps, ctx);
    results.push(mismatch);
    assert(mismatch_views(results@) =~= st.closed.push(st.current));
    let _ = results.remove(0);
    assert(mismatch_views(results@) =~= st.closed.push(st.current).drop_first());
    results
}

// ---------------------------------------------------------------------
// Reporting
// ---------------------------------------------------------------------
/// How a line of a report is to be shown.
#[derive(Debug, Clone, Copy, PartialEq, Eq, Structural)]
pub enum Tone {
    /// An unchanged line.
    Plain,
    /// A line that the canonical text adds.
    Addition,
    /// A line that the canonical text removes.
    Removal,
}

/// One line of a report: its text, and how it is to be shown.
#[derive(Debug, Clone, PartialEq, Eq)]
pub struct ReportLine {
    pub text: String,
    pub tone: Tone,
}

/// A line of a report as the contracts speak of it.
pub struct ReportLineView {
    pub text: Seq<char>,
    pub tone: Tone,
}

impl View for ReportLine {
    type V = ReportLineView;

    open spec fn view(&self) -> ReportLineView {
        ReportLineView { text: self.text@, tone: self.tone }
    }
}

/// A line of a mismatch as it is reported: context behind a space, a line
/// of the canonical text behind `+`, a line of the source text behind
/// `-`.
pub open spec fn report_line(line: DiffLineView) -> ReportLineView {
    match line {
        DiffLineView::Context(s) => ReportLineView { text: seq![' '] + s, tone: Tone::Plain },
        DiffLineView::Expected(s) => ReportLineView { text: seq!['+'] + s, tone: Tone::Addition },
        DiffLineView::Resulting(s) => ReportLineView { text: seq!['-'] + s, tone: Tone::Removal },
    }
}

/// The lines of a mismatch as they are reported, in order.
pub fn report_lines(mismatch: &Mismatch) -> (report: Vec<ReportLine>)
    ensures
        report@.len() == mismatch.lines@.len(),
        forall|i: int|
            0 <= i < report@.len() ==> (#[trigger] report@[i])@ == report_line(mismatch.lines@[i]@),
{
    let mut report: Vec<ReportLine> = Vec::new();
    let mut i: usize = 0;
    while i < mismatch.lines.len()
        invariant
            i <= mismatch.lines.len(),
            report@.len() == i,
            forall|j: int|
                0 <= j < i ==> (#[trigger] report@[j])@ == report_line(mismatch.lines@[j]@),
        decreases mismatch.lines.len() - i,
    {
        let mut text = String::new();
        let tone = match &mismatch.lines[i] {
            DiffLine::Context(s) => {
                text.push(' ');
                text.append(s.as_str());
                Tone::Plain
            },
            DiffLine::Expected(s) => {
                text.push('+');
                text.append(s.as_str());
                Tone::Addition
            },
            DiffLine::Resulting(s) => {
                text.push('-');
                text.append(s.as_str());
                Tone::Removal
            },
        };
        let line = ReportLine { text, tone };
        assert(line@.text =~= report_line(mismatch.lines@[i as int]@).text);
        report.push(line);
        i += 1;
    }
    report
}

/// The number of lines of a text.
pub fn line_count(v: &Vec<char>) -> (n: usize)
    ensures
        n == split_lines(v@).len(),
{
    let len = v.len();
    let mut n: usize = 0;
    let mut start: usize = 0;
    proof {
        assert(v@.skip(0) =~= v@);
    }
    while start < len
        invariant
            start <= len == v.len(),
            n <= start,
            split_lines(v@).len() == n + split_lines(v@.skip(start as int)).len(),
        decreases len - start,
    {
        let mut e: usize = start;
        while e < len && v[e] != '\n'
            invariant
                start <= e <= len == v.len(),
                forall|i: int| start <= i < e ==> #[trigger] v@[i] != '\n',
            decreases len - e,
        {
            e += 1;
        }
        proof {
            let rest = v@.skip(start as int);
            assert forall|i: int| 0 <= i < e - start implies #[trigger] rest[i] != '\n' by {
                assert(rest[i] == v@[start + i]);
            }
            crate::text::lemma_line_end_is(rest, e - start);
            if e < len {
                assert(rest.skip(e - start + 1) =~= v@.skip(e + 1));
            } else {
                assert(split_lines(v@.skip(len as int)).len() == 0);
            }
        }
        n += 1;
        start = if e < len {
            e + 1
        } else {
            len
        };
    }
    n
}

/// Whether `make_diff` can take the two texts: whether they are within
/// the sizes that an alignment can be computed for.
pub fn fits_limits(expected: &str, actual: &str) -> (b: bool)
    ensures
        b == within_limits(expected@, actual@),
{
    let l = line_count(&to_chars(expected)) as u128;
    let r = line_count(&to_chars(actual)) as u128;
    if l + r + 2 >= u32::MAX as u128 {
        return false;
    }
    assert((l + 1) * (r + 1) <= 0x1_0000_0000 * 0x1_0000_0000) by (nonlinear_arith)
        requires
            l + 1 <= 0x1_0000_0000,
            r + 1 <= 0x1_0000_0000,
    ;
    (l + 1) * (r + 1) * 4 <= isize::MAX as u128
}

/// The differences between a source text and its canonical form, in
/// groups with `context_size` unchanged lines around each.
///
/// The result is the grouping of the alignment that the two texts have.
/// It is empty exactly when the two texts are the same line for line.
pub fn make_diff(expected: &str, actual: &str, context_size: usize) -> (results: Vec<Mismatch>)
    requires
        within_limits(expected@, actual@),
    ensures
        mismatch_views(results@) == grouped(
            line_alignment(expected@, actual@),
            context_size as nat,
        ),
        results@.len() == 0 <==> diff_lines_of(expected@) == diff_lines_of(actual@),
{
    let script = diff_lines(expected, actual);
    proof {
        let steps = aligned_views(script@);
        lemma_script_len(steps);
        lemma_grouped_empty(steps, context_size as nat);
        if all_both(steps) {
            lemma_all_both_sides(steps);
        }
    }
    group_mismatches(&script, context_size)
}

} // verus!
