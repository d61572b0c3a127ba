//! The canonical form of a journal is a fixed point of the formatter:
//! formatting it again changes nothing.

use vstd::prelude::*;
use crate::text::{
    is_ws,
    is_blank,
    trim_end,
    line_end,
    strip_cr,
    split_lines,
    lemma_line_end_is,
    lemma_line_end_bounds,
    lemma_trim_end_props,
    lemma_trim_end_fixed,
    lemma_trim_end_blank,
};
use crate::types::{LineView, ErrorView};
use crate::classify::{
    opens_block,
    closes_block,
    next_block,
    block_after,
    in_block,
    classify_text,
    classify_from,
    classify_spec,
    journal_lines,
    skip_blank,
    record_at,
    lemma_classify_from_ok,
    lemma_classify_from_build,
};
use crate::layout::{
    WidthsView,
    measure_line,
    measure_spec,
    render_line,
    render_all,
    layout_body,
    canonical,
    finish,
};
use crate::fields::free_of;
use crate::stable::{same_layout, line_stable, lemma_same_layout, lemma_line_stable};

verus! {

// ---------------------------------------------------------------------
// Lines and texts
// ---------------------------------------------------------------------
/// The text that is written for a list of lines: each line with a line
/// feed behind it.
pub open spec fn join_lines(rs: Seq<Seq<char>>) -> Seq<char>
    decreases rs.len(),
{
    if rs.len() == 0 {
        Seq::empty()
    } else {
        join_lines(rs.drop_last()) + rs.last() + seq!['\n']
    }
}

/// The number of lines up to the last one that is not empty.
pub open spec fn filled_len(rs: Seq<Seq<char>>) -> nat
    decreases rs.len(),
{
    if rs.len() == 0 {
        0
    } else if rs.last().len() > 0 {
        rs.len()
    } else {
        filled_len(rs.drop_last())
    }
}

/// A line as the layout writes it: without a line feed in it and without
/// whitespace at its end.
pub open spec fn is_written_line(r: Seq<char>) -> bool {
    free_of(r, '\n') && trim_end(r) == r
}

/// A joined text begins with its first line and a line feed.
pub proof fn lemma_join_first(rs: Seq<Seq<char>>)
    requires
        rs.len() > 0,
    ensures
        join_lines(rs) == rs[0] + seq!['\n'] + join_lines(rs.drop_first()),
    decreases rs.len(),
{
    if rs.len() == 1 {
        assert(rs.drop_last() =~= Seq::<Seq<char>>::empty());
        assert(rs.drop_first() =~= Seq::<Seq<char>>::empty());
        assert(join_lines(rs) =~= rs[0] + seq!['\n'] + join_lines(rs.drop_first()));
    } else {
        let init = rs.drop_last();
        lemma_join_first(init);
        assert(init.drop_first() =~= rs.drop_first().drop_last());
        assert(rs.drop_first().last() == rs.last());
        assert(init[0] == rs[0]);
        assert(join_lines(rs) =~= rs[0] + seq!['\n'] + join_lines(rs.drop_first()));
    }
}

/// The lines of a text that was written line by line are those lines.
pub proof fn lemma_split_join(rs: Seq<Seq<char>>)
    requires
        forall|i: int| 0 <= i < rs.len() ==> is_written_line(#[trigger] rs[i]),
    ensures
        split_lines(join_lines(rs)) == rs,
    decreases rs.len(),
{
    if rs.len() == 0 {
    } else {
        lemma_join_first(rs);
        let first = rs[0];
        let rest = rs.drop_first();
        let s = join_lines(rs);
        assert(is_written_line(first));
        assert forall|i: int| 0 <= i < first.len() implies #[trigger] s[i] != '\n' by {
            assert(s[i] == first[i]);
        }
        assert(s[first.len() as int] == '\n');
        lemma_line_end_is(s, first.len() as int);
        assert(s.take(first.len() as int) =~= first);
        assert(s.skip(first.len() as int + 1) =~= join_lines(rest));
        assert(strip_cr(first) == first) by {
            lemma_trim_end_props(first);
            if first.len() > 0 && first.last() == '\r' {
                assert(is_ws(first.last()));
            }
        }
        assert forall|i: int| 0 <= i < rest.len() implies is_written_line(#[trigger] rest[i]) by {
            assert(rest[i] == rs[i + 1]);
        }
        lemma_split_join(rest);
        assert(seq![first] + rest =~= rs);
    }
}

/// Finishing a text that was written line by line leaves the lines up to
/// the last one that is not empty; or a single line feed if all are empty.
pub proof fn lemma_finish_join(rs: Seq<Seq<char>>)
    requires
        forall|i: int| 0 <= i < rs.len() ==> is_written_line(#[trigger] rs[i]),
    ensures
        filled_len(rs) <= rs.len(),
        filled_len(rs) > 0 ==> rs[filled_len(rs) - 1].len() > 0,
        forall|i: int| filled_len(rs) <= i < rs.len() ==> (#[trigger] rs[i]).len() == 0,
        filled_len(rs) > 0 ==> finish(join_lines(rs)) == join_lines(rs.take(filled_len(rs) as int)),
        filled_len(rs) == 0 ==> finish(join_lines(rs)) == seq!['\n'],
    decreases rs.len(),
{
    if rs.len() == 0 {
        assert(trim_end(Seq::<char>::empty()) =~= Seq::<char>::empty());
        assert(Seq::<char>::empty().push('\n') =~= seq!['\n']);
    } else {
        let init = rs.drop_last();
        let last = rs.last();
        assert(is_written_line(last));
        assert(is_blank(seq!['\n']));
        if last.len() > 0 {
            let head = join_lines(init) + last;
            assert(join_lines(rs) =~= head + seq!['\n']);
            lemma_trim_end_blank(head, seq!['\n']);
            lemma_trim_end_props(last);
            assert(head.last() == last.last());
            lemma_trim_end_fixed(head);
            assert(rs.take(rs.len() as int) =~= rs);
            assert(head.push('\n') =~= join_lines(rs));
        } else {
            assert forall|i: int| 0 <= i < init.len() implies is_written_line(#[trigger] init[i]) by {
                assert(init[i] == rs[i]);
            }
            lemma_finish_join(init);
            assert(join_lines(rs) =~= join_lines(init) + seq!['\n']);
            lemma_trim_end_blank(join_lines(init), seq!['\n']);
            let m = filled_len(init);
            assert(init.take(m as int) =~= rs.take(m as int));
            assert forall|i: int| m <= i < rs.len() implies (#[trigger] rs[i]).len() == 0 by {
                if i < init.len() {
                    assert(init[i] == rs[i]);
                }
            }
            if m > 0 {
                assert(init[m - 1] == rs[m - 1]);
            }
        }
    }
}

/// No line of a text holds a line feed.
pub proof fn lemma_split_lines_free(s: Seq<char>)
    ensures
        forall|i: int| 0 <= i < split_lines(s).len() ==> free_of(#[trigger] split_lines(s)[i], '\n'),
    decreases s.len(),
{
    if s.len() > 0 {
        let e = line_end(s);
        lemma_line_end_bounds(s);
        if e == s.len() {
            assert forall|j: int| 0 <= j < s.len() implies #[trigger] s[j] != '\n' by {}
        } else {
            let head = s.take(e);
            let rest = s.skip(e + 1);
            lemma_split_lines_free(rest);
            let first = strip_cr(head);
            assert(free_of(first, '\n')) by {
                assert forall|j: int| 0 <= j < first.len() implies #[trigger] first[j] != '\n' by {
                    assert(first[j] == s[j]);
                }
            }
            let all = split_lines(s);
            assert forall|i: int| 0 <= i < all.len() implies free_of(#[trigger] all[i], '\n') by {
                if i > 0 {
                    assert(all[i] == split_lines(rest)[i - 1]);
                }
            }
        }
    }
}

/// Leading blank lines are all that is skipped: what is left is a tail of
/// the lines, and it does not begin with a blank line.
pub proof fn lemma_skip_blank_props(lines: Seq<Seq<char>>) -> (j: int)
    ensures
        0 <= j <= lines.len(),
        skip_blank(lines) == lines.skip(j),
        skip_blank(lines).len() > 0 ==> !is_blank(skip_blank(lines)[0]),
    decreases lines.len(),
{
    if lines.len() > 0 && is_blank(lines[0]) {
        let j = lemma_skip_blank_props(lines.drop_first());
        assert(lines.drop_first().skip(j) =~= lines.skip(j + 1));
        j + 1
    } else {
        assert(lines.skip(0) =~= lines);
        0
    }
}

// ---------------------------------------------------------------------
// The state of the comment block
// ---------------------------------------------------------------------
/// The state after `k + 1` lines is the state after `k` lines and one
/// step more.
pub proof fn lemma_block_after_step(
    lines: Seq<Seq<char>>,
    block: Option<nat>,
    number: nat,
    k: nat,
)
    requires
        k < lines.len(),
    ensures
        block_after(lines, block, number, k + 1) == next_block(
            block_after(lines, block, number, k),
            number + k,
            lines[k as int],
        ),
    decreases k,
{
    if k > 0 {
        let rest = lines.drop_first();
        lemma_block_after_step(
            rest,
            next_block(block, number, lines[0]),
            number + 1,
            (k - 1) as nat,
        );
        assert(rest[k - 1] == lines[k as int]);
    } else {
        assert(block_after(lines.drop_first(), next_block(block, number, lines[0]), number + 1, 0)
            == next_block(block, number, lines[0]));
    }
}

/// Two lists of lines that open and close comment blocks at the same
/// lines leave the same state.
pub proof fn lemma_block_after_same(
    a: Seq<Seq<char>>,
    b: Seq<Seq<char>>,
    block: Option<nat>,
    number: nat,
    k: nat,
)
    requires
        k <= a.len(),
        k <= b.len(),
        forall|i: int|
            0 <= i < k ==> opens_block(#[trigger] a[i]) == opens_block(b[i]) && closes_block(a[i])
                == closes_block(b[i]),
    ensures
        block_after(a, block, number, k) == block_after(b, block, number, k),
    decreases k,
{
    if k > 0 {
        let j = (k - 1) as nat;
        lemma_block_after_same(a, b, block, number, j);
        lemma_block_after_step(a, block, number, j);
        lemma_block_after_step(b, block, number, j);
        assert(opens_block(a[j as int]) == opens_block(b[j as int]));
    }
}

/// Lines that neither open nor close a comment block leave the state as
/// it is.
pub proof fn lemma_block_after_quiet(
    lines: Seq<Seq<char>>,
    block: Option<nat>,
    number: nat,
    j: nat,
    k: nat,
)
    requires
        j <= k <= lines.len(),
        forall|i: int| j <= i < k ==> !opens_block(#[trigger] lines[i]) && !closes_block(lines[i]),
    ensures
        block_after(lines, block, number, k) == block_after(lines, block, number, j),
    decreases k - j,
{
    if j < k {
        let m = (k - 1) as nat;
        lemma_block_after_quiet(lines, block, number, j, m);
        lemma_block_after_step(lines, block, number, m);
        assert(!opens_block(lines[m as int]));
    }
}

// ---------------------------------------------------------------------
// Measuring and writing
// ---------------------------------------------------------------------
/// The lines that are written for the records of a journal.
pub open spec fn written(ls: Seq<LineView>, w: WidthsView) -> Seq<Seq<char>> {
    Seq::new(ls.len(), |i: int| render_line(ls[i], w)->Ok_0)
}

/// Where the render pass succeeds every line is written, and the text is
/// the written lines, joined.
pub proof fn lemma_render_all_ok(ls: Seq<LineView>, w: WidthsView)
    requires
        render_all(ls, w) is Ok,
    ensures
        forall|i: int| 0 <= i < ls.len() ==> render_line(#[trigger] ls[i], w) is Ok,
        render_all(ls, w)->Ok_0 == join_lines(written(ls, w)),
    decreases ls.len(),
{
    if ls.len() > 0 {
        let init = ls.drop_last();
        lemma_render_all_ok(init, w);
        assert forall|i: int| 0 <= i < ls.len() implies render_line(#[trigger] ls[i], w) is Ok by {
            if i < init.len() {
                assert(init[i] == ls[i]);
            }
        }
        assert(written(ls, w).drop_last() =~= written(init, w));
        assert(written(ls, w).last() == render_line(ls.last(), w)->Ok_0);
    }
}

/// Where every line can be written the render pass succeeds.
pub proof fn lemma_render_all_build(ls: Seq<LineView>, w: WidthsView)
    requires
        forall|i: int| 0 <= i < ls.len() ==> render_line(#[trigger] ls[i], w) is Ok,
    ensures
        render_all(ls, w) == Ok::<Seq<char>, ErrorView>(join_lines(written(ls, w))),
    decreases ls.len(),
{
    if ls.len() > 0 {
        let init = ls.drop_last();
        assert forall|i: int| 0 <= i < init.len() implies render_line(#[trigger] init[i], w) is Ok by {
            assert(init[i] == ls[i]);
        }
        lemma_render_all_build(init, w);
        assert(render_line(ls[ls.len() - 1], w) is Ok);
        assert(written(ls, w).drop_last() =~= written(init, w));
        assert(written(ls, w).last() == render_line(ls.last(), w)->Ok_0);
    }
}

/// Records that the layout does not tell apart, line by line, are measured
/// alike.
pub proof fn lemma_measure_same(a: Seq<LineView>, b: Seq<LineView>)
    requires
        a.len() == b.len(),
        forall|i: int| 0 <= i < a.len() ==> same_layout(#[trigger] a[i], b[i]),
    ensures
        measure_spec(a) == measure_spec(b),
    decreases a.len(),
{
    if a.len() > 0 {
        let ia = a.drop_last();
        let ib = b.drop_last();
        assert forall|i: int| 0 <= i < ia.len() implies same_layout(#[trigger] ia[i], ib[i]) by {
            assert(ia[i] == a[i]);
            assert(ib[i] == b[i]);
            assert(same_layout(a[i], b[i]));
        }
        lemma_measure_same(ia, ib);
        assert(same_layout(a[a.len() - 1], b[a.len() - 1]));
        if measure_spec(ia) is Ok {
            lemma_same_layout(a.last(), b.last(), measure_spec(ia)->Ok_0);
        }
    }
}

/// Lines at the end that count for nothing can be left out of the measure
/// pass.
pub proof fn lemma_measure_take(ls: Seq<LineView>, m: int)
    requires
        0 <= m <= ls.len(),
        forall|i: int, v: WidthsView|
            m <= i < ls.len() ==> #[trigger] measure_line(ls[i], v) == Ok::<WidthsView, ErrorView>(
                v,
            ),
    ensures
        measure_spec(ls) == measure_spec(ls.take(m)),
    decreases ls.len() - m,
{
    if m == ls.len() {
        assert(ls.take(m) =~= ls);
    } else {
        let init = ls.drop_last();
        assert forall|i: int, v: WidthsView| m <= i < init.len() implies #[trigger] measure_line(
            init[i],
            v,
        ) == Ok::<WidthsView, ErrorView>(v) by {
            assert(init[i] == ls[i]);
            assert(measure_line(ls[i], v) == Ok::<WidthsView, ErrorView>(v));
        }
        lemma_measure_take(init, m);
        assert(init.take(m) =~= ls.take(m));
        if measure_spec(init) is Ok {
            let v = measure_spec(init)->Ok_0;
            assert(measure_line(ls[ls.len() - 1], v) == Ok::<WidthsView, ErrorView>(v));
        }
    }
}

// ---------------------------------------------------------------------
// The journal
// ---------------------------------------------------------------------
/// Every line of a journal that can be formatted is stable.
pub proof fn lemma_lines_stable(lines: Seq<Seq<char>>, w: WidthsView)
    requires
        classify_from(lines, None, 1) is Ok,
        render_all(classify_from(lines, None, 1)->Ok_0, w) is Ok,
    ensures
        classify_from(lines, None, 1)->Ok_0.len() == lines.len(),
        forall|k: int|
            0 <= k < lines.len() ==> {
                &&& (#[trigger] classify_from(lines, None, 1)->Ok_0[k]) == classify_text(
                    in_block(lines, k),
                    lines[k],
                )
                &&& render_line(classify_from(lines, None, 1)->Ok_0[k], w) is Ok
                &&& line_stable(in_block(lines, k), lines[k], w)
            },
{
    let ls = classify_from(lines, None, 1)->Ok_0;
    lemma_classify_from_ok(lines, None, 1);
    lemma_render_all_ok(ls, w);
    assert forall|k: int| 0 <= k < lines.len() implies {
        &&& (#[trigger] ls[k]) == classify_text(in_block(lines, k), lines[k])
        &&& render_line(ls[k], w) is Ok
        &&& line_stable(in_block(lines, k), lines[k], w)
    } by {
        assert(ls[k] == record_at(lines, None, 1, k));
        assert(render_line(ls[k], w) is Ok);
        assert(!(closes_block(lines[k]) && block_after(lines, None, 1, k as nat) is None));
        lemma_line_stable(in_block(lines, k), lines[k], w);
    }
}

/// A single line feed is its own canonical form.
pub proof fn lemma_line_feed_canonical()
    ensures
        canonical(seq!['\n']) == Ok::<Seq<char>, ErrorView>(seq!['\n']),
{
    let s = seq!['\n'];
    lemma_line_end_is(s, 0);
    assert(s.take(0) =~= Seq::<char>::empty());
    assert(s.skip(1) =~= Seq::<char>::empty());
    assert(split_lines(s.skip(1)) =~= Seq::<Seq<char>>::empty());
    let lines = split_lines(s);
    assert(lines =~= seq![Seq::<char>::empty()]);
    assert(is_blank(lines[0]));
    assert(lines.drop_first() =~= Seq::<Seq<char>>::empty());
    assert(skip_blank(lines.drop_first()) =~= Seq::<Seq<char>>::empty());
    assert(journal_lines(s) =~= Seq::<Seq<char>>::empty());
    let none = Seq::<LineView>::empty();
    assert(classify_spec(s) == Ok::<Seq<LineView>, ErrorView>(none));
    assert(measure_spec(none) is Ok);
    assert(render_all(none, measure_spec(none)->Ok_0) == Ok::<Seq<char>, ErrorView>(Seq::empty()));
    assert(trim_end(Seq::<char>::empty()) =~= Seq::<char>::empty());
    assert(finish(Seq::<char>::empty()) =~= s);
}

/// The lines of a journal that can be formatted, written out and finished,
/// are a journal that is formatted to itself.
pub proof fn lemma_reformat(lines: Seq<Seq<char>>)
    requires
        lines.len() > 0 ==> !is_blank(lines[0]),
        forall|i: int| 0 <= i < lines.len() ==> free_of(#[trigger] lines[i], '\n'),
        classify_from(lines, None, 1) is Ok,
        layout_body(classify_from(lines, None, 1)->Ok_0) is Ok,
    ensures
        canonical(finish(layout_body(classify_from(lines, None, 1)->Ok_0)->Ok_0)) == Ok::<
            Seq<char>,
            ErrorView,
        >(finish(layout_body(classify_from(lines, None, 1)->Ok_0)->Ok_0)),
{
    let ls = classify_from(lines, None, 1)->Ok_0;
    let w = measure_spec(ls)->Ok_0;
    let rs = written(ls, w);
    let y = finish(layout_body(ls)->Ok_0);
    lemma_classify_from_ok(lines, None, 1);
    lemma_lines_stable(lines, w);
    lemma_render_all_ok(ls, w);
    assert forall|k: int| 0 <= k < rs.len() implies is_written_line(#[trigger] rs[k]) by {
        assert(ls[k] == classify_text(in_block(lines, k), lines[k]));
        assert(line_stable(in_block(lines, k), lines[k], w));
    }
    lemma_finish_join(rs);
    let m = filled_len(rs);
    if lines.len() > 0 {
        assert(ls[0] == classify_text(in_block(lines, 0), lines[0]));
        assert(line_stable(in_block(lines, 0), lines[0], w));
        assert(rs[0].len() > 0);
        assert(m > 0);
    }
    if m == 0 {
        lemma_line_feed_canonical();
    } else {
        let rs2 = rs.take(m as int);
        assert(y == join_lines(rs2));
        lemma_rewritten(lines, rs2);
    }
}

/// The heart of the matter: the lines `rs2` that are written for the
/// lines of a journal, up to the last one that is not empty, are a journal
/// whose canonical form is those lines.
pub proof fn lemma_rewritten(lines: Seq<Seq<char>>, rs2: Seq<Seq<char>>)
    requires
        lines.len() > 0,
        !is_blank(lines[0]),
        classify_from(lines, None, 1) is Ok,
        layout_body(classify_from(lines, None, 1)->Ok_0) is Ok,
        ({
            let ls = classify_from(lines, None, 1)->Ok_0;
            let w = measure_spec(ls)->Ok_0;
            let rs = written(ls, w);
            &&& filled_len(rs) > 0
            &&& rs2 == rs.take(filled_len(rs) as int)
            &&& forall|k: int| 0 <= k < rs.len() ==> is_written_line(#[trigger] rs[k])
        }),
    ensures
        canonical(join_lines(rs2)) == Ok::<Seq<char>, ErrorView>(join_lines(rs2)),
{
    let ls = classify_from(lines, None, 1)->Ok_0;
    let w = measure_spec(ls)->Ok_0;
    let rs = written(ls, w);
    let m = filled_len(rs);
    let y = join_lines(rs2);
    lemma_classify_from_ok(lines, None, 1);
    lemma_lines_stable(lines, w);
    lemma_finish_join(rs);
    assert forall|k: int| 0 <= k < rs2.len() implies is_written_line(#[trigger] rs2[k]) by {
        assert(rs2[k] == rs[k]);
    }
    // the lines of the text are the written lines
    lemma_split_join(rs2);
    assert(ls[0] == classify_text(in_block(lines, 0), lines[0]));
    assert(line_stable(in_block(lines, 0), lines[0], w));
    assert(rs2[0] == rs[0]);
    assert(!is_blank(rs2[0])) by {
        lemma_trim_end_props(rs[0]);
        assert(!is_ws(rs[0][rs[0].len() - 1]));
    }
    assert(journal_lines(y) == rs2);
    // they open and close comment blocks where the lines of the journal do
    assert forall|k: int| 0 <= k < m implies opens_block(#[trigger] rs2[k]) == opens_block(
        lines[k],
    ) && closes_block(rs2[k]) == closes_block(lines[k]) by {
        assert(ls[k] == classify_text(in_block(lines, k), lines[k]));
        assert(line_stable(in_block(lines, k), lines[k], w));
        assert(rs2[k] == rs[k]);
    }
    assert forall|k: nat| k <= m implies #[trigger] block_after(rs2, None, 1, k) == block_after(
        lines,
        None,
        1,
        k,
    ) by {
        lemma_block_after_same(rs2, lines, None, 1, k);
    }
    assert forall|k: int| m <= k < lines.len() implies !opens_block(#[trigger] lines[k])
        && !closes_block(lines[k]) by {
        assert(ls[k] == classify_text(in_block(lines, k), lines[k]));
        assert(line_stable(in_block(lines, k), lines[k], w));
        assert(rs[k].len() == 0);
    }
    lemma_block_after_quiet(lines, None, 1, m, lines.len());
    assert forall|k: int| 0 <= k < rs2.len() implies !(closes_block(#[trigger] rs2[k])
        && block_after(rs2, None, 1, k as nat) is None) by {
        assert(!(closes_block(lines[k]) && block_after(lines, None, 1, k as nat) is None));
    }
    lemma_classify_from_build(rs2, None, 1);
    lemma_classify_from_ok(rs2, None, 1);
    let ls2 = classify_from(rs2, None, 1)->Ok_0;
    // their records are laid out as the records of the journal are
    let head = ls.take(m as int);
    assert forall|k: int| 0 <= k < m implies same_layout(#[trigger] head[k], ls2[k]) by {
        assert(head[k] == ls[k]);
        assert(ls[k] == classify_text(in_block(lines, k), lines[k]));
        assert(line_stable(in_block(lines, k), lines[k], w));
        assert(rs2[k] == rs[k]);
        assert(ls2[k] == record_at(rs2, None, 1, k));
        assert(in_block(rs2, k) == in_block(lines, k));
    }
    lemma_measure_same(head, ls2);
    assert forall|i: int, v: WidthsView| m <= i < ls.len() implies #[trigger] measure_line(
        ls[i],
        v,
    ) == Ok::<WidthsView, ErrorView>(v) by {
        assert(ls[i] == classify_text(in_block(lines, i), lines[i]));
        assert(line_stable(in_block(lines, i), lines[i], w));
        assert(rs[i].len() == 0);
    }
    lemma_measure_take(ls, m as int);
    assert(measure_spec(ls2) == Ok::<WidthsView, ErrorView>(w));
    assert forall|k: int| 0 <= k < ls2.len() implies render_line(#[trigger] ls2[k], w) == Ok::<
        Seq<char>,
        ErrorView,
    >(rs2[k]) by {
        assert(same_layout(head[k], ls2[k]));
        lemma_same_layout(head[k], ls2[k], w);
        assert(head[k] == ls[k]);
        assert(ls[k] == classify_text(in_block(lines, k), lines[k]));
        assert(rs2[k] == rs[k]);
    }
    lemma_render_all_build(ls2, w);
    assert(written(ls2, w) =~= rs2);
    assert(layout_body(ls2) == Ok::<Seq<char>, ErrorView>(y));
    // and finishing the text changes nothing
    lemma_finish_join(rs2);
    assert(rs2[m - 1] == rs[m - 1]);
    assert(filled_len(rs2) == m);
    assert(rs2.take(m as int) =~= rs2);
}

/// Idempotence: the canonical form of a journal is its own canonical
/// form. Formatting what the formatter has written changes nothing.
pub proof fn lemma_canonical_idempotent(input: Seq<char>)
    requires
        canonical(input) is Ok,
    ensures
        canonical(canonical(input)->Ok_0) == canonical(input),
{
    let lines = journal_lines(input);
    lemma_split_lines_free(input);
    let j = lemma_skip_blank_props(split_lines(input));
    assert forall|i: int| 0 <= i < lines.len() implies free_of(#[trigger] lines[i], '\n') by {
        assert(lines[i] == split_lines(input)[i + j]);
    }
    lemma_reformat(lines);
}

} // verus!
