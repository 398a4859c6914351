//! Focus: which bytes are bright and which are dim.
//!
//! Focus dims everything the writer is not in. There are two tiers: the
//! bright tier is the sentence, or the paragraph, the caret is in, and
//! everything else is dim. This module holds the values Focus is written
//! against and the two questions about them that need no Document: which
//! lines a change of tiers redraws, and which tier a stretch of bytes takes.

pub mod typewriter;

use vstd::prelude::*;
use std::ops::Range;
use crate::text::{
    ascii_lower, byte_len, chars_in, chars_of, is_ascii_digit, is_ascii_letter, is_white, lemma_chars_in_size,
    lemma_utf8_size_prefix, text_in, to_ascii_lower, utf8_size, white, width,
};
use crate::bytes::{back_over_breaks, back_over_line_ends, trim_front, trim_start_at};
use crate::document::{block_at_of, line_bytes_of, place_of, Document, Kind, Splice};
use crate::annotate::{by_start, sort_by_start};
use vstd::utf8::encode_utf8;

verus! {

/// How much of the text Focus lights: the sentence the caret is in, or the
/// whole paragraph.
#[derive(Clone, Copy, Debug, PartialEq, Eq, Structural)]
pub enum FocusScope {
    /// The sentence the caret is in.
    Sentence,
    /// The paragraph the caret is in.
    Paragraph,
}

/// How much Focus leaves lit: off, or on at a scope.
///
/// The two settings kept independent, Focus on or off and its scope, arrive
/// here as one value, because there is nothing for a scope to mean while
/// Focus is off.
#[derive(Clone, Copy, Debug, PartialEq, Eq, Structural)]
pub enum Focus {
    /// Focus is off: every byte is drawn as it would be without it.
    Off,
    /// Focus is on, at this scope.
    On(FocusScope),
}

impl Default for Focus {
    fn default() -> (focus: Self)
        ensures
            focus == Focus::Off,
    {
        Focus::Off
    }
}

impl Focus {
    /// The pair Focus is kept as, on or off and the scope, read as the one
    /// value Focus is: the scope is only a scope while Focus is on.
    pub fn at(on: bool, scope: FocusScope) -> (focus: Self)
        ensures
            focus == (if on { Focus::On(scope) } else { Focus::Off }),
    {
        if on {
            Focus::On(scope)
        } else {
            Focus::Off
        }
    }
}

/// Which of the two tiers a stretch of bytes is in.
#[derive(Clone, Copy, Debug, PartialEq, Eq, Hash, Structural)]
pub enum Tier {
    /// What Focus lights: drawn as it would be with Focus off.
    Bright,
    /// Everything else, drawn in the ground's dimmed grey.
    Dim,
}

impl Default for Tier {
    fn default() -> (tier: Self)
        ensures
            tier == Tier::Bright,
    {
        Tier::Bright
    }
}

/// The bytes Focus lights. Everything the list leaves out is dim.
#[derive(Clone, Debug, PartialEq, Eq)]
pub struct Tiers {
    /// The bright ranges. Absolute UTF-8 bytes from the start of the
    /// Document.
    pub bright: Vec<Range<usize>>,
}

impl Default for Tiers {
    fn default() -> (tiers: Self)
        ensures
            tiers.bright@ == Seq::<Range<usize>>::empty(),
    {
        Tiers { bright: Vec::new() }
    }
}

/// One line's share of the [`Tiers`].
#[derive(Clone, Debug, PartialEq, Eq)]
pub struct LineTiers {
    /// The line, counted from 0.
    pub line: usize,
    /// The bytes of that line Focus lights, clipped to it.
    pub tiers: Tiers,
}

/// The line the walk of [`changed`] takes next: the lower of the two lists'
/// next lines, or the one that is left.
pub open spec fn next_line(before: Seq<LineTiers>, after: Seq<LineTiers>, i: int, j: int) -> usize {
    if i < before.len() && j < after.len() {
        if before[i].line <= after[j].line {
            before[i].line
        } else {
            after[j].line
        }
    } else if i < before.len() {
        before[i].line
    } else {
        after[j].line
    }
}

/// `runs` with `line` added: to the last run where that run ends at it, or
/// as a run of its own.
pub open spec fn extended(runs: Seq<Range<usize>>, line: usize) -> Seq<Range<usize>> {
    if runs.len() > 0 && runs.last().end == line {
        runs.update(runs.len() - 1, Range { start: runs.last().start, end: (line + 1) as usize })
    } else {
        runs.push(Range { start: line, end: (line + 1) as usize })
    }
}

/// The walk of [`changed`] from the `i`th line of `before` and the `j`th of
/// `after`, with `runs` found so far: each line either list holds is taken
/// once, lowest first, and a line whose share differs between the two, or
/// that only one of them holds, joins the runs.
pub open spec fn runs_from(
    before: Seq<LineTiers>,
    after: Seq<LineTiers>,
    i: int,
    j: int,
    runs: Seq<Range<usize>>,
) -> Seq<Range<usize>>
    decreases before.len() - i + after.len() - j,
{
    if i < 0 || j < 0 || i > before.len() || j > after.len() || (i == before.len() && j == after.len()) {
        runs
    } else {
        let line = next_line(before, after, i, j);
        let was = i < before.len() && before[i].line == line;
        let now = j < after.len() && after[j].line == line;
        let ni = if was { i + 1 } else { i };
        let nj = if now { j + 1 } else { j };
        let same = if was && now {
            before[i].tiers.bright@ == after[j].tiers.bright@
        } else {
            !was && !now
        };
        proof {
            assert(was || now);
        }
        let grown = if same {
            runs
        } else {
            extended(runs, line)
        };
        runs_from(before, after, ni, nj, grown)
    }
}

/// Whether two lists of ranges are the same ranges in the same order.
fn same_ranges(one: &Vec<Range<usize>>, two: &Vec<Range<usize>>) -> (yes: bool)
    ensures
        yes == (one@ == two@),
{
    if one.len() != two.len() {
        return false;
    }
    let mut k: usize = 0;
    while k < one.len()
        invariant
            0 <= k <= one@.len(),
            one@.len() == two@.len(),
            forall|m: int| 0 <= m < k ==> one@[m] == two@[m],
        decreases one.len() - k,
    {
        if one[k].start != two[k].start || one[k].end != two[k].end {
            return false;
        }
        k = k + 1;
    }
    proof {
        assert(one@ =~= two@);
    }
    true
}

/// The lines drawn differently now that the tiers are `after` and not
/// `before`: the runs of consecutive lines whose share of the tiers is not
/// what it was, a line held by only one of the lists being one that changed.
/// Both lists are read lowest line first, as [`LineTiers`] are handed out.
pub fn changed(before: &[LineTiers], after: &[LineTiers]) -> (runs: Vec<Range<usize>>)
    requires
        forall|k: int| 0 <= k < before@.len() ==> (#[trigger] before@[k]).line < usize::MAX,
        forall|k: int| 0 <= k < after@.len() ==> (#[trigger] after@[k]).line < usize::MAX,
    ensures
        runs@ == runs_from(before@, after@, 0, 0, seq![]),
{
    let mut runs: Vec<Range<usize>> = Vec::new();
    let mut i: usize = 0;
    let mut j: usize = 0;
    while i < before.len() || j < after.len()
        invariant
            0 <= i <= before@.len(),
            0 <= j <= after@.len(),
            forall|k: int| 0 <= k < before@.len() ==> (#[trigger] before@[k]).line < usize::MAX,
            forall|k: int| 0 <= k < after@.len() ==> (#[trigger] after@[k]).line < usize::MAX,
            runs_from(before@, after@, 0, 0, seq![]) == runs_from(before@, after@, i as int, j as int, runs@),
        decreases before@.len() - i + after@.len() - j,
    {
        let line = if i < before.len() && j < after.len() {
            if before[i].line <= after[j].line {
                before[i].line
            } else {
                after[j].line
            }
        } else if i < before.len() {
            before[i].line
        } else {
            after[j].line
        };
        let was = i < before.len() && before[i].line == line;
        let now = j < after.len() && after[j].line == line;
        let same = if was && now {
            same_ranges(&before[i].tiers.bright, &after[j].tiers.bright)
        } else {
            !was && !now
        };
        if !same {
            let n = runs.len();
            if n > 0 && runs[n - 1].end == line {
                let start = runs[n - 1].start;
                runs.set(n - 1, Range { start, end: line + 1 });
            } else {
                runs.push(Range { start: line, end: line + 1 });
            }
        }
        if was {
            i = i + 1;
        }
        if now {
            j = j + 1;
        }
    }
    runs
}

/// Whether the lines of `list` rise strictly.
pub open spec fn lines_rise(list: Seq<LineTiers>) -> bool {
    forall|i: int, j: int| 0 <= i < j < list.len() ==> #[trigger] list[i].line < #[trigger] list[j].line
}

/// Whether each of `runs` holds a line and ends before the next begins.
pub open spec fn apart(runs: Seq<Range<usize>>) -> bool {
    &&& forall|k: int| 0 <= k < runs.len() ==> (#[trigger] runs[k]).start < runs[k].end
    &&& forall|k: int| 0 <= k < runs.len() - 1 ==> (#[trigger] runs[k]).end < runs[k + 1].start
}

/// Whether every line of `list` from the `from`th on is at or past `line`.
pub open spec fn all_from(list: Seq<LineTiers>, from: int, line: int) -> bool {
    forall|k: int| from <= k < list.len() ==> (#[trigger] list[k]).line >= line
}

proof fn lemma_runs_from_apart(before: Seq<LineTiers>, after: Seq<LineTiers>, i: int, j: int, runs: Seq<Range<usize>>)
    requires
        lines_rise(before),
        lines_rise(after),
        forall|k: int| 0 <= k < before.len() ==> (#[trigger] before[k]).line < usize::MAX,
        forall|k: int| 0 <= k < after.len() ==> (#[trigger] after[k]).line < usize::MAX,
        0 <= i <= before.len(),
        0 <= j <= after.len(),
        apart(runs),
        runs.len() > 0 ==> all_from(before, i, runs.last().end as int) && all_from(after, j, runs.last().end as int),
    ensures
        apart(runs_from(before, after, i, j, runs)),
    decreases before.len() - i + after.len() - j,
{
    if !(i == before.len() && j == after.len()) {
        let line = next_line(before, after, i, j);
        let was = i < before.len() && before[i].line == line;
        let now = j < after.len() && after[j].line == line;
        let ni = if was { i + 1 } else { i };
        let nj = if now { j + 1 } else { j };
        let same = if was && now {
            before[i].tiers.bright@ == after[j].tiers.bright@
        } else {
            !was && !now
        };
        assert(all_from(before, ni, line + 1)) by {
            assert forall|k: int| ni <= k < before.len() implies (#[trigger] before[k]).line >= line + 1 by {
                if i < before.len() && k > i {
                    assert(before[i].line < before[k].line);
                }
                if j < after.len() && i < before.len() && before[i].line > after[j].line {
                    assert(line == after[j].line);
                }
            }
        }
        assert(all_from(after, nj, line + 1)) by {
            assert forall|k: int| nj <= k < after.len() implies (#[trigger] after[k]).line >= line + 1 by {
                if j < after.len() && k > j {
                    assert(after[j].line < after[k].line);
                }
            }
        }
        let grown = if same {
            runs
        } else {
            extended(runs, line)
        };
        if !same {
            if runs.len() > 0 {
                if i < before.len() {
                    assert(before[i].line >= runs.last().end);
                }
                if j < after.len() {
                    assert(after[j].line >= runs.last().end);
                }
                assert(line >= runs.last().end);
            }
            assert(apart(grown)) by {
                if runs.len() > 0 && runs.last().end == line {
                    assert forall|k: int| 0 <= k < grown.len() - 1 implies (#[trigger] grown[k]).end < grown[k + 1].start by {
                        assert(grown[k] == runs[k]);
                    }
                } else {
                    assert forall|k: int| 0 <= k < grown.len() - 1 implies (#[trigger] grown[k]).end < grown[k + 1].start by {
                        assert(grown[k] == runs[k]);
                        if k + 1 < runs.len() {
                            assert(grown[k + 1] == runs[k + 1]);
                        }
                    }
                }
            }
            assert(grown.last().end == line + 1);
        } else {
            if runs.len() > 0 {
                assert(all_from(before, ni, runs.last().end as int)) by {
                    assert forall|k: int| ni <= k < before.len() implies (#[trigger] before[k]).line >= runs.last().end by {
                        assert(before[k].line >= runs.last().end);
                    }
                }
                assert(all_from(after, nj, runs.last().end as int)) by {
                    assert forall|k: int| nj <= k < after.len() implies (#[trigger] after[k]).line >= runs.last().end by {
                        assert(after[k].line >= runs.last().end);
                    }
                }
            }
        }
        lemma_runs_from_apart(before, after, ni, nj, grown);
    }
}

/// The lines a change of tiers redraws come as runs that stand apart: each
/// run holds a line, and each ends before the next one begins, so no two
/// touch, wherever both lists hold their lines in rising order.
pub proof fn lemma_changed_runs_stand_apart(before: Seq<LineTiers>, after: Seq<LineTiers>)
    requires
        lines_rise(before),
        lines_rise(after),
        forall|k: int| 0 <= k < before.len() ==> (#[trigger] before[k]).line < usize::MAX,
        forall|k: int| 0 <= k < after.len() ==> (#[trigger] after[k]).line < usize::MAX,
    ensures
        apart(runs_from(before, after, 0, 0, seq![])),
{
    lemma_runs_from_apart(before, after, 0, 0, seq![]);
}

/// What `list` lights on `line`: the bright ranges of its entry for that
/// line, or none where it holds no entry for it.
pub open spec fn share_of(list: Seq<LineTiers>, line: int) -> Option<Seq<Range<usize>>>
    decreases list.len(),
{
    if list.len() == 0 {
        None
    } else if list.last().line == line {
        Some(list.last().tiers.bright@)
    } else {
        share_of(list.drop_last(), line)
    }
}

/// Whether some run of `runs` holds `line`.
pub open spec fn covered(runs: Seq<Range<usize>>, line: int) -> bool {
    exists|k: int| 0 <= k < runs.len() && (#[trigger] runs[k]).start <= line < runs[k].end
}

proof fn lemma_share_at(list: Seq<LineTiers>, k: int)
    requires
        lines_rise(list),
        0 <= k < list.len(),
    ensures
        share_of(list, list[k].line as int) == Some(list[k].tiers.bright@),
    decreases list.len(),
{
    if k < list.len() - 1 {
        assert(list[k].line < list.last().line);
        assert(lines_rise(list.drop_last()));
        lemma_share_at(list.drop_last(), k);
        assert(list.drop_last()[k] == list[k]);
    }
}

proof fn lemma_share_none(list: Seq<LineTiers>, line: int)
    requires
        forall|k: int| 0 <= k < list.len() ==> (#[trigger] list[k]).line != line,
    ensures
        share_of(list, line) is None,
    decreases list.len(),
{
    if list.len() > 0 {
        assert(list.last() == list[list.len() - 1]);
        assert forall|k: int| 0 <= k < list.drop_last().len() implies (#[trigger] list.drop_last()[k]).line != line by {
            assert(list.drop_last()[k] == list[k]);
        }
        lemma_share_none(list.drop_last(), line);
    }
}

/// The line the walk from `i` and `j` stands at, or one past every line
/// where it is done.
pub open spec fn frontier(before: Seq<LineTiers>, after: Seq<LineTiers>, i: int, j: int) -> int {
    if i == before.len() && j == after.len() {
        usize::MAX as int + 1
    } else {
        next_line(before, after, i, j) as int
    }
}

proof fn lemma_runs_from_exact(before: Seq<LineTiers>, after: Seq<LineTiers>, i: int, j: int, runs: Seq<Range<usize>>)
    requires
        lines_rise(before),
        lines_rise(after),
        forall|k: int| 0 <= k < before.len() ==> (#[trigger] before[k]).line < usize::MAX,
        forall|k: int| 0 <= k < after.len() ==> (#[trigger] after[k]).line < usize::MAX,
        0 <= i <= before.len(),
        0 <= j <= after.len(),
        forall|k: int| 0 <= k < i ==> (#[trigger] before[k]).line < frontier(before, after, i, j),
        forall|k: int| 0 <= k < j ==> (#[trigger] after[k]).line < frontier(before, after, i, j),
        forall|l: int| #[trigger] covered(runs, l) <==> (l < frontier(before, after, i, j) && share_of(before, l) != share_of(after, l)),
        forall|k: int| 0 <= k < runs.len() ==> (#[trigger] runs[k]).start <= runs[k].end,
    ensures
        forall|l: int| #[trigger] covered(runs_from(before, after, i, j, runs), l) <==> share_of(before, l) != share_of(after, l),
    decreases before.len() - i + after.len() - j,
{
    if i == before.len() && j == after.len() {
        assert(runs_from(before, after, i, j, runs) == runs);
        assert forall|l: int| #[trigger] covered(runs, l) <==> share_of(before, l) != share_of(after, l) by {
            if l >= usize::MAX as int + 1 {
                lemma_share_none(before, l);
                lemma_share_none(after, l);
            }
        }
    } else {
        let line = next_line(before, after, i, j);
        let was = i < before.len() && before[i].line == line;
        let now = j < after.len() && after[j].line == line;
        let ni = if was { i + 1 } else { i };
        let nj = if now { j + 1 } else { j };
        let same = if was && now {
            before[i].tiers.bright@ == after[j].tiers.bright@
        } else {
            !was && !now
        };
        assert(was || now);
        let grown = if same { runs } else { extended(runs, line) };
        let next = frontier(before, after, ni, nj);
        assert forall|k: int| ni <= k < before.len() implies (#[trigger] before[k]).line >= next by {
            if k > ni {
                assert(before[ni].line < before[k].line);
            }
        }
        assert forall|k: int| nj <= k < after.len() implies (#[trigger] after[k]).line >= next by {
            if k > nj {
                assert(after[nj].line < after[k].line);
            }
        }
        assert forall|k: int| i <= k < before.len() implies (#[trigger] before[k]).line >= line by {
            if k > i {
                assert(before[i].line < before[k].line);
            }
        }
        assert forall|k: int| j <= k < after.len() implies (#[trigger] after[k]).line >= line by {
            if k > j {
                assert(after[j].line < after[k].line);
            }
        }
        assert(line < next) by {
            if ni < before.len() {
                assert(before[ni].line >= line);
                if was {
                    assert(before[i].line < before[ni].line);
                } else {
                    assert(before[ni].line != line);
                }
            }
            if nj < after.len() {
                if now {
                    assert(after[j].line < after[nj].line);
                } else {
                    assert(after[nj].line != line);
                }
            }
        }
        assert forall|k: int| 0 <= k < ni implies (#[trigger] before[k]).line < next by {
            if k < i {
                assert(before[k].line < frontier(before, after, i, j));
            }
        }
        assert forall|k: int| 0 <= k < nj implies (#[trigger] after[k]).line < next by {
            if k < j {
                assert(after[k].line < frontier(before, after, i, j));
            }
        }
        // What each list lights on the line the walk stands at.
        if was {
            lemma_share_at(before, i);
        } else {
            assert forall|k: int| 0 <= k < before.len() implies (#[trigger] before[k]).line != line by {
                if k < i {
                    assert(before[k].line < frontier(before, after, i, j));
                }
            }
            lemma_share_none(before, line as int);
        }
        if now {
            lemma_share_at(after, j);
        } else {
            assert forall|k: int| 0 <= k < after.len() implies (#[trigger] after[k]).line != line by {
                if k < j {
                    assert(after[k].line < frontier(before, after, i, j));
                }
            }
            lemma_share_none(after, line as int);
        }
        assert forall|l: int| #[trigger] covered(grown, l) <==> (l < next && share_of(before, l) != share_of(after, l)) by {
            if line < l < next {
                assert forall|k: int| 0 <= k < before.len() implies (#[trigger] before[k]).line != l by {
                    if k < ni {
                        if k < i {
                            assert(before[k].line < frontier(before, after, i, j));
                        }
                    }
                }
                assert forall|k: int| 0 <= k < after.len() implies (#[trigger] after[k]).line != l by {
                    if k < nj {
                        if k < j {
                            assert(after[k].line < frontier(before, after, i, j));
                        }
                    }
                }
                lemma_share_none(before, l);
                lemma_share_none(after, l);
            }
            if !same {
                if covered(grown, l) {
                    let k = choose|k: int| 0 <= k < grown.len() && (#[trigger] grown[k]).start <= l < grown[k].end;
                    if l != line {
                        if runs.len() > 0 && runs.last().end == line && k == runs.len() - 1 {
                            assert(runs[k].start <= l < runs[k].end);
                        } else {
                            assert(grown[k] == runs[k]);
                        }
                        assert(covered(runs, l));
                    }
                }
                if covered(runs, l) {
                    let k = choose|k: int| 0 <= k < runs.len() && (#[trigger] runs[k]).start <= l < runs[k].end;
                    if runs.len() > 0 && runs.last().end == line && k == runs.len() - 1 {
                        assert(grown[k].start <= l < grown[k].end);
                    } else {
                        assert(grown[k] == runs[k]);
                    }
                }
                if l == line {
                    if runs.len() > 0 && runs.last().end == line {
                        assert(grown[runs.len() - 1].start <= l < grown[runs.len() - 1].end);
                    } else {
                        assert(grown[runs.len() as int].start <= l < grown[runs.len() as int].end);
                    }
                }
            }
        }
        assert forall|k: int| 0 <= k < grown.len() implies (#[trigger] grown[k]).start <= grown[k].end by {
            if !same && k < runs.len() {
                if !(runs.last().end == line && k == runs.len() - 1) {
                    assert(grown[k] == runs[k]);
                }
            }
        }
        lemma_runs_from_exact(before, after, ni, nj, grown);
        assert(runs_from(before, after, i, j, runs) == runs_from(before, after, ni, nj, grown));
    }
}

/// The lines a change of tiers redraws are exactly the lines whose share of
/// light is not what it was: a line either list holds whose bright ranges
/// differ between the two, or that only one of them holds.
pub proof fn lemma_changed_runs_are_the_lines_that_changed(before: Seq<LineTiers>, after: Seq<LineTiers>)
    requires
        lines_rise(before),
        lines_rise(after),
        forall|k: int| 0 <= k < before.len() ==> (#[trigger] before[k]).line < usize::MAX,
        forall|k: int| 0 <= k < after.len() ==> (#[trigger] after[k]).line < usize::MAX,
    ensures
        forall|l: int| #[trigger] covered(runs_from(before, after, 0, 0, seq![]), l) <==> share_of(before, l)
            != share_of(after, l),
{
    let empty: Seq<Range<usize>> = seq![];
    assert forall|l: int| #[trigger] covered(empty, l) <==> (l < frontier(before, after, 0, 0) && share_of(before, l)
        != share_of(after, l)) by {
        if l < frontier(before, after, 0, 0) {
            assert forall|k: int| 0 <= k < before.len() implies (#[trigger] before[k]).line != l by {
                if k > 0 {
                    assert(before[0].line < before[k].line);
                }
            }
            assert forall|k: int| 0 <= k < after.len() implies (#[trigger] after[k]).line != l by {
                if k > 0 {
                    assert(after[0].line < after[k].line);
                }
            }
            lemma_share_none(before, l);
            lemma_share_none(after, l);
        }
    }
    lemma_runs_from_exact(before, after, 0, 0, empty);
}

/// Whether two ranges of bytes share a byte.
pub open spec fn overlap(one: Range<usize>, two: Range<usize>) -> bool {
    one.start < two.end && two.start < one.end
}

/// Whether some bright range of `tiers` shares a byte with `at`.
pub open spec fn lit_in(tiers: Seq<LineTiers>, at: Range<usize>) -> bool {
    exists|k: int, r: int|
        0 <= k < tiers.len() && 0 <= r < tiers[k].tiers.bright@.len() && #[trigger] overlap(
            tiers[k].tiers.bright@[r],
            at,
        )
}

/// The one tier a stretch of bytes is drawn in, for a property that has only
/// one, such as a code block's well: bright where Focus lights any of it,
/// and bright throughout with Focus off, which is the untiered answer.
pub fn tier_in(tiers: &[LineTiers], focus: Focus, at: &Range<usize>) -> (tier: Tier)
    ensures
        tier == (if focus == Focus::Off || lit_in(tiers@, *at) { Tier::Bright } else { Tier::Dim }),
{
    if let Focus::Off = focus {
        return Tier::Bright;
    }
    let mut k: usize = 0;
    while k < tiers.len()
        invariant
            0 <= k <= tiers@.len(),
            forall|m: int, r: int|
                0 <= m < k && 0 <= r < tiers@[m].tiers.bright@.len() ==> !#[trigger] overlap(
                    tiers@[m].tiers.bright@[r],
                    *at,
                ),
        decreases tiers.len() - k,
    {
        let bright = &tiers[k].tiers.bright;
        let mut r: usize = 0;
        while r < bright.len()
            invariant
                0 <= r <= bright@.len(),
                0 <= k < tiers@.len(),
                bright@ == tiers@[k as int].tiers.bright@,
                forall|m: int, q: int|
                    0 <= m < k && 0 <= q < tiers@[m].tiers.bright@.len() ==> !#[trigger] overlap(
                        tiers@[m].tiers.bright@[q],
                        *at,
                    ),
                forall|q: int| 0 <= q < r ==> !#[trigger] overlap(bright@[q], *at),
            decreases bright.len() - r,
        {
            if bright[r].start < at.end && at.start < bright[r].end {
                proof {
                    assert(overlap(tiers@[k as int].tiers.bright@[r as int], *at));
                }
                return Tier::Bright;
            }
            r = r + 1;
        }
        k = k + 1;
    }
    Tier::Dim
}

/// Whether `c` can end a sentence.
pub open spec fn is_terminator(c: char) -> bool {
    c == '.' || c == '!' || c == '?' || c == '\u{2026}'
}

/// Whether `c` is a closing quote or bracket, which belongs to the sentence
/// it follows.
pub open spec fn is_closer(c: char) -> bool {
    c == '"' || c == '\'' || c == '\u{201d}' || c == '\u{2019}' || c == '\u{bb}' || c == ')' || c == ']'
}

/// Whether `c` is an opening quote or bracket a word may start against.
pub open spec fn is_opener(c: char) -> bool {
    c == '(' || c == '"' || c == '\'' || c == '\u{201c}' || c == '\u{2018}' || c == '['
}

/// The three kinds of run a scan skips.
#[derive(Clone, Copy, Debug, PartialEq, Eq, Structural)]
pub enum Run {
    /// Terminators.
    Terminators,
    /// Closing quotes and brackets.
    Closers,
    /// White space.
    White,
}

/// Whether `c` belongs to a run of `kind`.
pub open spec fn in_run(kind: Run, c: char) -> bool {
    match kind {
        Run::Terminators => is_terminator(c),
        Run::Closers => is_closer(c),
        Run::White => is_white(c),
    }
}

/// Where the run of `kind` starting at `from` ends.
pub open spec fn run_end(chars: Seq<char>, from: int, kind: Run) -> int
    decreases chars.len() - from,
{
    if 0 <= from < chars.len() && in_run(kind, chars[from]) {
        run_end(chars, from + 1, kind)
    } else {
        from
    }
}

pub proof fn lemma_run_end(chars: Seq<char>, from: int, kind: Run)
    requires
        0 <= from <= chars.len(),
    ensures
        from <= run_end(chars, from, kind) <= chars.len(),
        from < chars.len() && in_run(kind, chars[from]) ==> from < run_end(chars, from, kind),
    decreases chars.len() - from,
{
    if from < chars.len() && in_run(kind, chars[from]) {
        lemma_run_end(chars, from + 1, kind);
    }
}

/// Whether a word starting where `head` ends starts a word rather than
/// continuing one: at the start of the line, after white space, or after an
/// opening quote or bracket.
pub open spec fn opens_a_word(head: Seq<char>) -> bool {
    head.len() == 0 || is_white(head.last()) || is_opener(head.last())
}

/// The words that end in a period and do not end a sentence. May is a word
/// as well as a month, so the months are here without it.
pub open spec fn abbreviations() -> Seq<&'static str> {
    seq![
        "mr", "mrs", "ms", "dr", "prof", "rev", "sr", "jr", "st", "vs", "etc", "eg", "e.g",
        "ie", "i.e", "cf", "al", "fig", "no", "nos", "vol", "ch", "pp", "approx", "dept",
        "est", "inc", "ltd", "co", "univ", "apt", "min", "max", "jan", "feb", "mar", "apr",
        "jun", "jul", "aug", "sep", "sept", "oct", "nov", "dec", "mon", "tue", "wed", "thu",
        "fri", "sat", "sun",
    ]
}

/// Whether `head` ends in `word`, in any ASCII case, and the word starts a
/// word of its own.
pub open spec fn ends_in_word(head: Seq<char>, word: Seq<char>) -> bool {
    let at = head.len() - word.len();
    &&& word.len() <= head.len()
    &&& same_ascii_folded(head.skip(at), word)
    &&& opens_a_word(head.take(at))
}

/// Whether the two texts are one text but for the case of ASCII letters.
pub open spec fn same_ascii_folded(a: Seq<char>, b: Seq<char>) -> bool {
    a.len() == b.len() && forall|k: int| 0 <= k < a.len() ==> ascii_lower(a[k]) == ascii_lower(b[k])
}

/// Whether `head` ends in a word that ends in a period without ending a
/// sentence.
pub open spec fn is_abbreviation(head: Seq<char>) -> bool {
    &&& head.len() > 0
    &&& head.last() == '.'
    &&& exists|k: int| 0 <= k < abbreviations().len() && #[trigger] ends_in_word(head.drop_last(), abbreviations()[k]@)
}

/// Whether `head` ends in a lone initial, the `J.` of "J. R. R. Tolkien".
pub open spec fn is_initial(head: Seq<char>) -> bool {
    &&& head.len() >= 2
    &&& head.last() == '.'
    &&& is_ascii_letter(head[head.len() - 2])
    &&& opens_a_word(head.take(head.len() - 2))
}

/// How many ASCII digits `s` ends in.
pub open spec fn trailing_digits(s: Seq<char>) -> nat
    decreases s.len(),
{
    if s.len() > 0 && is_ascii_digit(s.last()) {
        1 + trailing_digits(s.drop_last())
    } else {
        0
    }
}

/// Whether `c` may stand before a list's or a numbered heading's number.
pub open spec fn is_marker_lead(c: char) -> bool {
    is_white(c) || c == '#' || c == '>' || c == '-' || c == '*' || c == '+'
}

/// Whether `head` is a list's or a numbered heading's marker, the `1.` of
/// "# 1. Down the Rabbit Hole": digits and a period, with nothing before
/// them but white space and marker characters.
pub open spec fn is_ordinal(head: Seq<char>) -> bool {
    &&& head.len() > 0
    &&& head.last() == '.'
    &&& trailing_digits(head.drop_last()) > 0
    &&& forall|k: int| 0 <= k < head.len() - 1 - trailing_digits(head.drop_last()) ==> is_marker_lead(#[trigger] head[k])
}

/// Whether the punctuation ending at `before`, with the next word at
/// `after`, really ends a sentence: not after an abbreviation, an initial
/// or a list's number, and not before a lowercase letter.
pub open spec fn is_real_break(chars: Seq<char>, before: int, after: int) -> bool {
    let head = chars.take(before);
    &&& !is_abbreviation(head)
    &&& !is_initial(head)
    &&& !is_ordinal(head)
    &&& (after >= chars.len() || is_white(chars[after]) || !('a' <= chars[after] && chars[after] <= 'z'))
}

/// The sentence spans of a line from `scan` on, the current one starting at
/// `start`, in characters: a run of terminators, then any closers, then
/// white space or the line's end, is a break where it really ends a
/// sentence; punctuation with no space after it is inside a word.
pub open spec fn split_from(chars: Seq<char>, scan: int, start: int, spans: Seq<(int, int)>) -> Seq<(int, int)>
    decreases chars.len() - scan,
{
    if scan < 0 || scan >= chars.len() {
        spans.push((start, chars.len() as int))
    } else if !is_terminator(chars[scan]) {
        split_from(chars, scan + 1, start, spans)
    } else {
        let stop = run_end(chars, scan, Run::Terminators);
        let before = run_end(chars, stop, Run::Closers);
        let after = run_end(chars, before, Run::White);
        proof {
            lemma_run_end(chars, scan, Run::Terminators);
            lemma_run_end(chars, stop, Run::Closers);
            lemma_run_end(chars, before, Run::White);
        }
        if after == before && after < chars.len() {
            split_from(chars, stop, start, spans)
        } else if after >= chars.len() {
            spans.push((start, chars.len() as int))
        } else if is_real_break(chars, before, after) {
            split_from(chars, after, after, spans.push((start, after)))
        } else {
            split_from(chars, after, start, spans)
        }
    }
}

/// The sentence spans of a line, in characters.
pub open spec fn sentence_spans(chars: Seq<char>) -> Seq<(int, int)> {
    split_from(chars, 0, 0, seq![])
}

/// The byte a character index of `chars` starts at.
pub open spec fn byte_of(chars: Seq<char>, at: int) -> usize {
    utf8_size(chars.take(at)) as usize
}

/// Whether `c` belongs to a run of `kind`.
fn member(kind: Run, c: char) -> (yes: bool)
    ensures
        yes == in_run(kind, c),
{
    match kind {
        Run::Terminators => c == '.' || c == '!' || c == '?' || c == '\u{2026}',
        Run::Closers => c == '"' || c == '\'' || c == '\u{201d}' || c == '\u{2019}' || c == '\u{bb}'
            || c == ')' || c == ']',
        Run::White => white(c),
    }
}

/// Where the run of `kind` starting at `from` ends.
fn skip(chars: &Vec<char>, from: usize, kind: Run) -> (end: usize)
    requires
        from <= chars@.len(),
    ensures
        end == run_end(chars@, from as int, kind),
        from <= end <= chars@.len(),
{
    proof {
        lemma_run_end(chars@, from as int, kind);
    }
    let mut end: usize = from;
    while end < chars.len() && member(kind, chars[end])
        invariant
            from <= end <= chars@.len(),
            run_end(chars@, from as int, kind) == run_end(chars@, end as int, kind),
        decreases chars.len() - end,
    {
        end = end + 1;
    }
    end
}

/// Whether a word starting at `at` in `chars` starts a word.
fn opens_word_at(chars: &Vec<char>, at: usize) -> (yes: bool)
    requires
        at <= chars@.len(),
    ensures
        yes == opens_a_word(chars@.take(at as int)),
{
    if at == 0 {
        return true;
    }
    let c = chars[at - 1];
    proof {
        assert(chars@.take(at as int).last() == c);
    }
    white(c) || c == '(' || c == '"' || c == '\'' || c == '\u{201c}' || c == '\u{2018}' || c == '['
}

/// The abbreviations, as [`abbreviations`] lists them.
fn abbreviation_list() -> (list: Vec<&'static str>)
    ensures
        list@ == abbreviations(),
{
    let list = vec![
        "mr", "mrs", "ms", "dr", "prof", "rev", "sr", "jr", "st", "vs", "etc", "eg", "e.g",
        "ie", "i.e", "cf", "al", "fig", "no", "nos", "vol", "ch", "pp", "approx", "dept",
        "est", "inc", "ltd", "co", "univ", "apt", "min", "max", "jan", "feb", "mar", "apr",
        "jun", "jul", "aug", "sep", "sept", "oct", "nov", "dec", "mon", "tue", "wed", "thu",
        "fri", "sat", "sun",
    ];
    proof {
        assert(list@ =~= abbreviations());
    }
    list
}

/// Whether the first `end` characters of `chars` end in an abbreviation and
/// its period.
fn abbreviation_at(chars: &Vec<char>, end: usize) -> (yes: bool)
    requires
        end <= chars@.len(),
    ensures
        yes == is_abbreviation(chars@.take(end as int)),
{
    let ghost head = chars@.take(end as int);
    if end == 0 || chars[end - 1] != '.' {
        proof {
            if end > 0 {
                assert(head.last() == chars@[end - 1]);
            }
        }
        return false;
    }
    let stem = end - 1;
    proof {
        assert(head.last() == chars@[end - 1]);
        assert(head.drop_last() =~= chars@.take(stem as int));
    }
    let list = abbreviation_list();
    let mut k: usize = 0;
    while k < list.len()
        invariant
            0 <= k <= list@.len(),
            list@ == abbreviations(),
            stem + 1 == end,
            end <= chars@.len(),
            head == chars@.take(end as int),
            head.drop_last() == chars@.take(stem as int),
            head.len() > 0,
            head.last() == '.',
            forall|j: int| 0 <= j < k ==> !#[trigger] ends_in_word(head.drop_last(), abbreviations()[j]@),
        decreases list.len() - k,
    {
        let word = chars_of(list[k]);
        let n = word.len();
        if n <= stem {
            let at = stem - n;
            let mut i: usize = 0;
            let mut same = true;
            while i < n
                invariant
                    0 <= i <= n,
                    n == word@.len(),
                    at + n == stem,
                    stem < chars@.len(),
                    same == forall|j: int| 0 <= j < i ==> ascii_lower(chars@[at + j]) == ascii_lower(word@[j]),
                decreases n - i,
            {
                if to_ascii_lower(chars[at + i]) != to_ascii_lower(word[i]) {
                    same = false;
                }
                i = i + 1;
            }
            let opens = opens_word_at(chars, at);
            proof {
                let h = chars@.take(stem as int);
                assert(h.skip(at as int).len() == n);
                assert forall|j: int| 0 <= j < n implies h.skip(at as int)[j] == chars@[at + j] by {}
                assert(h.take(at as int) =~= chars@.take(at as int));
                assert(ends_in_word(h, word@) == (same && opens));
            }
            if same && opens {
                proof {
                    assert(word@ == abbreviations()[k as int]@);
                    assert(ends_in_word(head.drop_last(), abbreviations()[k as int]@));
                    assert(is_abbreviation(head));
                }
                return true;
            }
        }
        k = k + 1;
    }
    false
}

/// Whether the first `end` characters of `chars` end in a lone initial.
fn initial_at(chars: &Vec<char>, end: usize) -> (yes: bool)
    requires
        end <= chars@.len(),
    ensures
        yes == is_initial(chars@.take(end as int)),
{
    if end < 2 || chars[end - 1] != '.' {
        proof {
            if end >= 2 {
                assert(chars@.take(end as int).last() == chars@[end - 1]);
            }
        }
        return false;
    }
    let c = chars[end - 2];
    proof {
        assert(chars@.take(end as int).last() == chars@[end - 1]);
        assert(chars@.take(end as int)[end - 2] == c);
        assert(chars@.take(end as int).take(end - 2) =~= chars@.take(end - 2));
    }
    (('a' <= c && c <= 'z') || ('A' <= c && c <= 'Z')) && opens_word_at(chars, end - 2)
}

proof fn lemma_trailing_digits(s: Seq<char>, k: int)
    requires
        0 <= k <= s.len(),
        forall|j: int| k <= j < s.len() ==> is_ascii_digit(#[trigger] s[j]),
        k == 0 || !is_ascii_digit(s[k - 1]),
    ensures
        trailing_digits(s) == s.len() - k,
    decreases s.len() - k,
{
    if k < s.len() {
        assert(s.drop_last().len() == s.len() - 1);
        assert forall|j: int| k <= j < s.drop_last().len() implies is_ascii_digit(#[trigger] s.drop_last()[j]) by {
            assert(s.drop_last()[j] == s[j]);
        }
        if k > 0 {
            assert(s.drop_last()[k - 1] == s[k - 1]);
        }
        lemma_trailing_digits(s.drop_last(), k);
    }
}

/// Whether the first `end` characters of `chars` are a list's or a numbered
/// heading's marker.
fn ordinal_at(chars: &Vec<char>, end: usize) -> (yes: bool)
    requires
        end <= chars@.len(),
    ensures
        yes == is_ordinal(chars@.take(end as int)),
{
    let ghost head = chars@.take(end as int);
    if end == 0 || chars[end - 1] != '.' {
        proof {
            if end > 0 {
                assert(head.last() == chars@[end - 1]);
            }
        }
        return false;
    }
    let stem = end - 1;
    let mut k: usize = stem;
    while k > 0 && '0' <= chars[k - 1] && chars[k - 1] <= '9'
        invariant
            0 <= k <= stem,
            stem < chars@.len(),
            forall|j: int| k <= j < stem ==> is_ascii_digit(#[trigger] chars@[j]),
        decreases k,
    {
        k = k - 1;
    }
    proof {
        let h = head.drop_last();
        assert(h =~= chars@.take(stem as int));
        assert(head.last() == chars@[stem as int]);
        assert forall|j: int| k <= j < h.len() implies is_ascii_digit(#[trigger] h[j]) by {
            assert(h[j] == chars@[j]);
        }
        if k > 0 {
            assert(h[k - 1] == chars@[k - 1]);
        }
        lemma_trailing_digits(h, k as int);
    }
    if k == stem {
        return false;
    }
    let mut i: usize = 0;
    while i < k
        invariant
            0 <= i <= k,
            k < stem,
            stem < chars@.len(),
            end == stem + 1,
            head == chars@.take(end as int),
            head.len() == end,
            head.last() == '.',
            trailing_digits(head.drop_last()) == stem - k,
            forall|j: int| 0 <= j < i ==> is_marker_lead(#[trigger] chars@[j]),
        decreases k - i,
    {
        let c = chars[i];
        if !(white(c) || c == '#' || c == '>' || c == '-' || c == '*' || c == '+') {
            proof {
                assert(head[i as int] == c);
            }
            return false;
        }
        i = i + 1;
    }
    proof {
        assert forall|j: int| 0 <= j < head.len() - 1 - trailing_digits(head.drop_last()) implies is_marker_lead(#[trigger] head[j]) by {
            assert(head[j] == chars@[j]);
        }
    }
    true
}

/// Whether the punctuation ending at `before`, with the next word at
/// `after`, really ends a sentence.
fn real_break(chars: &Vec<char>, before: usize, after: usize) -> (yes: bool)
    requires
        before <= after <= chars@.len(),
    ensures
        yes == is_real_break(chars@, before as int, after as int),
{
    if abbreviation_at(chars, before) || initial_at(chars, before) || ordinal_at(chars, before) {
        return false;
    }
    if after >= chars.len() {
        return true;
    }
    let c = chars[after];
    white(c) || !('a' <= c && c <= 'z')
}

/// A period after a title, Mr, Mrs, Ms or Dr in any case, that starts a word
/// is never a full stop, whatever follows it.
pub proof fn lemma_a_title_is_not_a_full_stop(chars: Seq<char>, before: int, after: int, title: Seq<char>)
    requires
        title == seq!['m', 'r'] || title == seq!['m', 'r', 's'] || title == seq!['m', 's'] || title == seq!['d', 'r'],
        title.len() + 1 <= before <= chars.len(),
        chars[before - 1] == '.',
        forall|j: int|
            0 <= j < title.len() ==> ascii_lower(chars[before - 1 - title.len() + j]) == #[trigger] title[j],
        before - 1 - title.len() == 0 || is_white(chars[before - 2 - title.len()]) || is_opener(
            chars[before - 2 - title.len()],
        ),
    ensures
        !is_real_break(chars, before, after),
{
    let head = chars.take(before);
    let word = head.drop_last();
    let at = word.len() - title.len();
    assert(word =~= chars.take(before - 1));
    reveal_strlit("mr");
    reveal_strlit("mrs");
    reveal_strlit("ms");
    reveal_strlit("dr");
    let k: int = if title == seq!['m', 'r'] {
        0
    } else if title == seq!['m', 'r', 's'] {
        1
    } else if title == seq!['m', 's'] {
        2
    } else {
        3
    };
    assert(abbreviations()[k]@ =~= title);
    assert(same_ascii_folded(word.skip(at), title)) by {
        assert forall|j: int| 0 <= j < title.len() implies ascii_lower(word.skip(at)[j]) == ascii_lower(
            title[j],
        ) by {
            assert(word.skip(at)[j] == chars[before - 1 - title.len() + j]);
        }
    }
    let lead = word.take(at);
    assert(at > 0 ==> lead.last() == chars[before - 2 - title.len()]);
    assert(opens_a_word(lead));
    assert(ends_in_word(word, abbreviations()[k]@));
    assert(is_abbreviation(head));
}

/// The bytes each character of `text` starts at, and then the length.
fn starts_of(text: &str) -> (starts: Vec<usize>)
    ensures
        starts@.len() == text@.len() + 1,
        forall|k: int| 0 <= k <= text@.len() ==> #[trigger] starts@[k] == byte_of(text@, k),
{
    let total = byte_len(text);
    let t = chars_of(text);
    let mut starts: Vec<usize> = Vec::new();
    let mut at: usize = 0;
    let mut i: usize = 0;
    while i < t.len()
        invariant
            0 <= i <= t@.len(),
            t@ == text@,
            total == utf8_size(t@),
            at == utf8_size(t@.take(i as int)),
            starts@.len() == i,
            forall|k: int| 0 <= k < i ==> #[trigger] starts@[k] == byte_of(text@, k),
        decreases t.len() - i,
    {
        proof {
            lemma_utf8_size_prefix(t@, i + 1);
            assert(t@.take(i + 1).drop_last() =~= t@.take(i as int));
        }
        starts.push(at);
        at = at + width(t[i]);
        i = i + 1;
    }
    proof {
        assert(t@.take(i as int) =~= t@);
    }
    starts.push(at);
    starts
}

/// The sentence spans of one line, in bytes, covering it end to end: a
/// terminator run, then any closing quotes or brackets, then white space or
/// the end of the line. The spans tile, so the caret is always in one of
/// them and typing between two sentences never falls through a gap.
pub fn sentences(text: &str) -> (spans: Vec<Range<usize>>)
    ensures
        spans@.len() == sentence_spans(text@).len(),
        forall|k: int| 0 <= k < spans@.len() ==> (#[trigger] spans@[k]).start == byte_of(
            text@,
            sentence_spans(text@)[k].0,
        ) && spans@[k].end == byte_of(text@, sentence_spans(text@)[k].1),
        forall|k: int|
            0 <= k < spans@.len() ==> 0 <= (#[trigger] sentence_spans(text@)[k]).0 <= sentence_spans(text@)[k].1
                <= text@.len(),
{
    let chars = chars_of(text);
    let starts = starts_of(text);
    let n = chars.len();
    let ghost want = sentence_spans(text@);
    let mut spans: Vec<Range<usize>> = Vec::new();
    let ghost mut found: Seq<(int, int)> = seq![];
    let mut start: usize = 0;
    let mut scan: usize = 0;
    while scan < n
        invariant
            0 <= start <= scan <= n,
            n == chars@.len(),
            chars@ == text@,
            starts@.len() == n + 1,
            forall|k: int| 0 <= k <= n ==> #[trigger] starts@[k] == byte_of(text@, k),
            split_from(chars@, scan as int, start as int, found) == want,
            spans@.len() == found.len(),
            forall|k: int| 0 <= k < found.len() ==> 0 <= (#[trigger] found[k]).0 <= found[k].1 <= n,
            forall|k: int| 0 <= k < spans@.len() ==> (#[trigger] spans@[k]).start == byte_of(text@, found[k].0)
                && spans@[k].end == byte_of(text@, found[k].1),
        decreases n - scan,
    {
        let here = chars[scan];
        if !(here == '.' || here == '!' || here == '?' || here == '\u{2026}') {
            scan = scan + 1;
        } else {
            let stop = skip(&chars, scan, Run::Terminators);
            let before = skip(&chars, stop, Run::Closers);
            let after = skip(&chars, before, Run::White);
            proof {
                lemma_run_end(chars@, scan as int, Run::Terminators);
            }
            if after == before && after < n {
                scan = stop;
            } else if after >= n {
                scan = n;
            } else {
                if real_break(&chars, before, after) {
                    spans.push(Range { start: starts[start], end: starts[after] });
                    proof {
                        found = found.push((start as int, after as int));
                    }
                    start = after;
                }
                scan = after;
            }
        }
    }
    spans.push(Range { start: starts[start], end: starts[n] });
    proof {
        found = found.push((start as int, n as int));
        assert(found == want);
    }
    spans
}

/// Whether `spans` run end to end from the line's start to `end`, each one
/// beginning where the last one ended.
pub open spec fn tiles(spans: Seq<(int, int)>, end: int) -> bool {
    &&& spans.len() == 0 ==> end == 0
    &&& spans.len() > 0 ==> spans[0].0 == 0 && spans.last().1 == end
    &&& forall|k: int| 0 <= k < spans.len() - 1 ==> #[trigger] spans[k].1 == spans[k + 1].0
    &&& forall|k: int| 0 <= k < spans.len() ==> #[trigger] spans[k].0 <= spans[k].1
}

proof fn lemma_split_tiles(chars: Seq<char>, scan: int, start: int, spans: Seq<(int, int)>)
    requires
        0 <= start <= scan <= chars.len(),
        tiles(spans, start),
    ensures
        tiles(split_from(chars, scan, start, spans), chars.len() as int),
        split_from(chars, scan, start, spans).len() > 0,
    decreases chars.len() - scan,
{
    let n = chars.len() as int;
    if scan >= n {
        let out = spans.push((start, n));
        assert(tiles(out, n)) by {
            assert forall|k: int| 0 <= k < out.len() - 1 implies #[trigger] out[k].1 == out[k + 1].0 by {
                if k == out.len() - 2 {
                    assert(out[k] == spans.last());
                }
            }
        }
    } else if !is_terminator(chars[scan]) {
        lemma_split_tiles(chars, scan + 1, start, spans);
    } else {
        let stop = run_end(chars, scan, Run::Terminators);
        let before = run_end(chars, stop, Run::Closers);
        let after = run_end(chars, before, Run::White);
        lemma_run_end(chars, scan, Run::Terminators);
        lemma_run_end(chars, stop, Run::Closers);
        lemma_run_end(chars, before, Run::White);
        if after == before && after < n {
            lemma_split_tiles(chars, stop, start, spans);
        } else if after >= n {
            let out = spans.push((start, n));
            assert(tiles(out, n)) by {
                assert forall|k: int| 0 <= k < out.len() - 1 implies #[trigger] out[k].1 == out[k + 1].0 by {
                    if k == out.len() - 2 {
                        assert(out[k] == spans.last());
                    }
                }
            }
        } else if is_real_break(chars, before, after) {
            let grown = spans.push((start, after));
            assert(tiles(grown, after)) by {
                assert forall|k: int| 0 <= k < grown.len() - 1 implies #[trigger] grown[k].1 == grown[k + 1].0 by {
                    if k == grown.len() - 2 {
                        assert(grown[k] == spans.last());
                    }
                }
            }
            lemma_split_tiles(chars, after, after, grown);
        } else {
            lemma_split_tiles(chars, after, start, spans);
        }
    }
}

/// The sentences of a line tile it: the first starts at the line's start,
/// each starts where the one before it ended, and the last ends at the
/// line's end, so every caret position is in one of them.
pub proof fn lemma_sentences_tile_the_line(chars: Seq<char>)
    ensures
        sentence_spans(chars).len() > 0,
        tiles(sentence_spans(chars), chars.len() as int),
{
    lemma_split_tiles(chars, 0, 0, seq![]);
}

/// The span a caret `index` characters or bytes into a line is in: the
/// first that ends after it, or the last where none does. A caret on a
/// sentence's last byte belongs to that sentence, and a caret on a boundary
/// to the one it is about to type into.
pub fn sentence_at(spans: &[Range<usize>], index: usize) -> (at: usize)
    requires
        spans@.len() > 0,
    ensures
        at == sentence_index(range_views(spans@), index as int, 0),
        at < spans@.len(),
        forall|k: int| 0 <= k < at ==> index >= (#[trigger] spans@[k]).end,
        at < spans@.len() - 1 ==> index < spans@[at as int].end,
{
    let ghost views = range_views(spans@);
    let mut k: usize = 0;
    while k < spans.len()
        invariant
            0 <= k <= spans@.len(),
            views == range_views(spans@),
            forall|j: int| 0 <= j < k ==> index >= (#[trigger] spans@[j]).end,
            sentence_index(views, index as int, 0) == sentence_index(views, index as int, k as int),
        decreases spans.len() - k,
    {
        assert(views[k as int].1 == spans@[k as int].end);
        if index < spans[k].end {
            return k;
        }
        k = k + 1;
    }
    spans.len() - 1
}

/// Ranges as pairs of integers.
pub open spec fn range_views(ranges: Seq<Range<usize>>) -> Seq<(int, int)> {
    ranges.map_values(|r: Range<usize>| (r.start as int, r.end as int))
}

/// The span a caret `index` bytes into a line is in, looking from the span
/// `from` on: the first that ends after it, or the last where none does.
pub open spec fn sentence_index(spans: Seq<(int, int)>, index: int, from: int) -> int
    decreases spans.len() - from,
{
    if 0 <= from < spans.len() {
        if index < spans[from].1 {
            from
        } else {
            sentence_index(spans, index, from + 1)
        }
    } else {
        spans.len() - 1
    }
}

// The tiers of a Document.

/// The bytes of `line` without its line terminator.
pub open spec fn content_of(bytes: Seq<u8>, line: int) -> (int, int) {
    let at = line_bytes_of(bytes, line);
    (at.0, back_over_line_ends(bytes, at.0, at.1))
}

/// Whether the bytes `at` hold nothing but whitespace.
pub open spec fn blank_at(bytes: Seq<u8>, at: (int, int)) -> bool {
    trim_front(bytes, at.0, at.1) >= at.1
}

/// The last byte `start..end` covers, or its start when it covers none.
pub open spec fn last_byte(start: int, end: int) -> int {
    let before = if end > 0 {
        end - 1
    } else {
        0
    };
    if before > start {
        before
    } else {
        start
    }
}

/// `start..end` widened to the whole lines it touches, their terminators
/// left out.
pub open spec fn whole_lines_of(bytes: Seq<u8>, start: int, end: int) -> (int, int) {
    let from = line_bytes_of(bytes, place_of(bytes, start).0).0;
    let to = content_of(bytes, place_of(bytes, last_byte(start, end)).0).1;
    (from, if to > from { to } else { from })
}

/// `start..end` without the line terminator that closes it.
pub open spec fn trimmed_of(bytes: Seq<u8>, start: int, end: int) -> (int, int) {
    if start >= end {
        (start, start)
    } else {
        (start, back_over_line_ends(bytes, start, end))
    }
}

/// The lines the blank-line rule may look at above a caret parked on
/// `line`: the line above, and the one above that only when the first is
/// blank too.
pub open spec fn behind_lines_of(bytes: Seq<u8>, line: int) -> Seq<int> {
    if line <= 0 {
        seq![]
    } else if blank_at(bytes, content_of(bytes, line - 1)) && line >= 2 {
        seq![line - 1, line - 2]
    } else {
        seq![line - 1]
    }
}

/// The sentence spans of one line, in bytes from the line's start.
pub open spec fn sentence_bytes(line: Seq<char>) -> Seq<(int, int)> {
    sentence_spans(line).map_values(|span: (int, int)| (byte_of(line, span.0) as int, byte_of(line, span.1) as int))
}

/// The last sentence of the first of `lines`, from the `k`th on, that is
/// not blank: what a caret parked on a blank line lights.
pub open spec fn behind_from(text: Seq<char>, lines: Seq<int>, k: int) -> Seq<(int, int)>
    decreases lines.len() - k,
{
    if 0 <= k < lines.len() {
        let bytes = encode_utf8(text);
        let at = content_of(bytes, lines[k]);
        if blank_at(bytes, at) {
            behind_from(text, lines, k + 1)
        } else {
            let spans = sentence_bytes(chars_in(text, at.0, at.1));
            let start = if spans.len() > 0 {
                spans.last().0
            } else {
                0
            };
            seq![(at.0 + start, at.1)]
        }
    } else {
        seq![]
    }
}

/// The block of the block index `blocks`, of a text `len` bytes long, that
/// the byte `caret` is in, as the bytes it covers.
pub open spec fn block_of(blocks: Seq<(int, int, Kind)>, len: int, caret: int) -> Option<(int, int)> {
    match block_at_of(blocks, len, caret) {
        Some(found) => Some((blocks[found].0, blocks[found].1)),
        None => None,
    }
}

/// `start`, lowered to the start of each of `lines` from the `k`th on.
pub open spec fn reach_back(bytes: Seq<u8>, start: int, lines: Seq<int>, k: int) -> int
    decreases lines.len() - k,
{
    if 0 <= k < lines.len() {
        let above = content_of(bytes, lines[k]).0;
        reach_back(bytes, if above < start { above } else { start }, lines, k + 1)
    } else {
        start
    }
}

/// The bytes the tiers read to answer for `at`, and the only ones they
/// look at: the caret's block, widened to whole lines, and, when the caret
/// is parked on a blank line, the lines behind it. A selection is its own
/// reach.
pub open spec fn reach_of(text: Seq<char>, blocks: Seq<(int, int, Kind)>, at: (int, int), focus: Focus) -> (int, int) {
    let bytes = encode_utf8(text);
    let len = bytes.len() as int;
    let caret = if at.0 < len { at.0 } else { len };
    match focus {
        Focus::Off => (0, 0),
        Focus::On(scope) => match block_of(blocks, len, caret) {
            None => (0, 0),
            Some(block) => if scope == FocusScope::Sentence && at.1 > at.0 {
                whole_lines_of(bytes, caret, if at.1 < len { at.1 } else { len })
            } else {
                let read = whole_lines_of(bytes, block.0, block.1);
                let line = place_of(bytes, caret).0;
                if scope == FocusScope::Sentence && blank_at(bytes, content_of(bytes, line)) {
                    (reach_back(bytes, read.0, behind_lines_of(bytes, line), 0), read.1)
                } else {
                    read
                }
            },
        },
    }
}

/// The bright ranges for a caret, or a selection, at `at` under `focus`.
///
/// A selection is the bright span on its own; a caret lights its sentence,
/// or its paragraph; a caret on a blank line lights the last sentence of
/// the block above it.
pub open spec fn tiers_of(text: Seq<char>, blocks: Seq<(int, int, Kind)>, at: (int, int), focus: Focus) -> Seq<(int, int)> {
    let bytes = encode_utf8(text);
    let len = bytes.len() as int;
    let caret = if at.0 < len { at.0 } else { len };
    match focus {
        Focus::Off => seq![],
        Focus::On(scope) => match block_of(blocks, len, caret) {
            None => seq![],
            Some(block) => if scope == FocusScope::Paragraph {
                let read = reach_of(text, blocks, at, focus);
                let body = trimmed_of(
                    bytes,
                    if block.0 > read.0 { block.0 } else { read.0 },
                    if block.1 < read.1 { block.1 } else { read.1 },
                );
                if body.0 >= body.1 {
                    seq![]
                } else {
                    seq![body]
                }
            } else if at.1 > at.0 {
                seq![(caret, if at.1 < len { at.1 } else { len })]
            } else {
                let line = place_of(bytes, caret).0;
                let here = content_of(bytes, line);
                if blank_at(bytes, here) {
                    behind_from(text, behind_lines_of(bytes, line), 0)
                } else {
                    let spans = sentence_bytes(chars_in(text, here.0, here.1));
                    let into = if caret > here.0 { caret - here.0 } else { 0 };
                    let index = if into < here.1 - here.0 { into } else { here.1 - here.0 };
                    let this = sentence_index(spans, index, 0);
                    seq![(here.0 + spans[this].0, here.0 + spans[this].1)]
                }
            },
        },
    }
}

/// The bytes of `line` without its line terminator.
pub fn content(doc: &Document, line: usize) -> (at: Range<usize>)
    ensures
        (at.start as int, at.end as int) == content_of(doc.spec_bytes(), line as int),
        at.start <= at.end <= doc.spec_bytes().len(),
{
    let whole = doc.line_bytes(line);
    let bytes = doc.text().as_bytes();
    whole.start..back_over_breaks(bytes, whole.start, whole.end)
}

/// Whether the bytes `at` of `text` hold nothing but whitespace.
fn blank(text: &[u8], at: &Range<usize>) -> (yes: bool)
    requires
        at.start <= at.end <= text@.len(),
    ensures
        yes == blank_at(text@, (at.start as int, at.end as int)),
{
    trim_start_at(text, at.start, at.end) >= at.end
}

/// `start..end` widened to the whole lines it touches.
fn whole_lines(doc: &Document, start: usize, end: usize) -> (at: Range<usize>)
    ensures
        (at.start as int, at.end as int) == whole_lines_of(doc.spec_bytes(), start as int, end as int),
        at.start <= at.end <= doc.spec_bytes().len(),
{
    let before = if end > 0 {
        end - 1
    } else {
        0
    };
    let last = if before > start {
        before
    } else {
        start
    };
    let from = doc.line_bytes(doc.place(start).line).start;
    let to = content(doc, doc.place(last).line).end;
    from..if to > from {
        to
    } else {
        from
    }
}

/// The lines the blank-line rule may look at, above a caret parked on
/// `line`.
fn behind_lines(doc: &Document, line: usize) -> (lines: Vec<usize>)
    ensures
        lines@.map_values(|l: usize| l as int) == behind_lines_of(doc.spec_bytes(), line as int),
{
    let mut lines: Vec<usize> = Vec::new();
    if line == 0 {
        proof {
            assert(lines@.map_values(|l: usize| l as int) =~= Seq::<int>::empty());
        }
        return lines;
    }
    lines.push(line - 1);
    let above = content(doc, line - 1);
    if blank(doc.text().as_bytes(), &above) && line >= 2 {
        lines.push(line - 2);
        proof {
            assert(lines@.map_values(|l: usize| l as int) =~= seq![line - 1, line - 2]);
        }
    } else {
        proof {
            assert(lines@.map_values(|l: usize| l as int) =~= seq![line - 1]);
        }
    }
    lines
}

/// The sentence spans of the bytes `at` of `text`, in bytes from `at`'s
/// start, each ending no further out than `at` does.
fn sentences_in(text: &str, at: &Range<usize>) -> (spans: Vec<Range<usize>>)
    requires
        at.start <= at.end,
    ensures
        range_views(spans@) == sentence_bytes(chars_in(text@, at.start as int, at.end as int)),
        spans@.len() > 0,
        forall|k: int| 0 <= k < spans@.len() ==> (#[trigger] spans@[k]).start <= spans@[k].end <= at.end - at.start,
{
    let chars = chars_of(text);
    let total = byte_len(text);
    let words = text_in(&chars, total, at.start, at.end);
    let spans = sentences(words.as_str());
    let ghost line = words@;
    proof {
        lemma_sentences_tile_the_line(line);
        lemma_chars_in_size(text@, at.start as int, at.end as int);
        assert(utf8_size(line) <= at.end - at.start);
        assert(range_views(spans@) =~= sentence_bytes(line)) by {
            assert forall|k: int| 0 <= k < spans@.len() implies #[trigger] range_views(spans@)[k] == sentence_bytes(line)[k] by {
                assert(spans@[k].start == byte_of(line, sentence_spans(line)[k].0));
            }
        }
        assert forall|k: int| 0 <= k < spans@.len() implies (#[trigger] spans@[k]).start <= spans@[k].end <= at.end - at.start by {
            let span = sentence_spans(line)[k];
            lemma_byte_of_rises(line, span.0, span.1);
        }
    }
    spans
}

/// A character index further into a line is no earlier a byte.
proof fn lemma_byte_of_rises(chars: Seq<char>, one: int, two: int)
    requires
        0 <= one <= two <= chars.len(),
    ensures
        utf8_size(chars.take(one)) <= utf8_size(chars.take(two)) <= utf8_size(chars),
{
    lemma_utf8_size_prefix(chars.take(two), one);
    assert(chars.take(two).take(one) =~= chars.take(one));
    lemma_utf8_size_prefix(chars, two);
}

/// The last sentence of the block above a caret parked on a blank line.
fn behind(doc: &Document, line: usize) -> (bright: Vec<Range<usize>>)
    ensures
        range_views(bright@) == behind_from(doc.spec_text(), behind_lines_of(doc.spec_bytes(), line as int), 0),
{
    let lines = behind_lines(doc, line);
    let text = doc.text();
    let bytes = text.as_bytes();
    let ghost above = behind_lines_of(doc.spec_bytes(), line as int);
    let mut k: usize = 0;
    while k < lines.len()
        invariant
            0 <= k <= lines@.len(),
            above == lines@.map_values(|l: usize| l as int),
            above == behind_lines_of(doc.spec_bytes(), line as int),
            bytes@ == doc.spec_bytes(),
            text@ == doc.spec_text(),
            behind_from(doc.spec_text(), above, 0) == behind_from(doc.spec_text(), above, k as int),
        decreases lines.len() - k,
    {
        assert(above[k as int] == lines@[k as int]);
        let at = content(doc, lines[k]);
        if !blank(bytes, &at) {
            let spans = sentences_in(text, &at);
            let start = spans[spans.len() - 1].start;
            let mut bright: Vec<Range<usize>> = Vec::new();
            bright.push(at.start + start..at.end);
            proof {
                let found = sentence_bytes(chars_in(doc.spec_text(), at.start as int, at.end as int));
                assert(found.last() == range_views(spans@)[spans@.len() - 1]);
                assert(range_views(bright@) =~= seq![(at.start + start, at.end as int)]);
                assert(behind_from(doc.spec_text(), above, k as int) == seq![(at.start + start, at.end as int)]);
            }
            assert(range_views(bright@) == behind_from(doc.spec_text(), behind_lines_of(doc.spec_bytes(), line as int), 0));
            return bright;
        }
        k = k + 1;
    }
    let bright: Vec<Range<usize>> = Vec::new();
    proof {
        assert(range_views(bright@) =~= Seq::<(int, int)>::empty());
    }
    bright
}

/// The bytes the tiers read to answer for `at`, and the only ones they look
/// at.
pub fn reach(doc: &Document, at: &Range<usize>, focus: Focus) -> (read: Range<usize>)
    ensures
        (read.start as int, read.end as int) == reach_of(doc.spec_text(), doc.spec_blocks(), (at.start as int, at.end as int), focus),
{
    let scope = match focus {
        Focus::Off => return 0..0,
        Focus::On(scope) => scope,
    };
    let bytes = doc.text().as_bytes();
    let len = bytes.len();
    let caret = if at.start < len {
        at.start
    } else {
        len
    };
    let looked = doc.block_at(caret);
    let found = match looked {
        Some(found) => found,
        None => return 0..0,
    };
    let block = doc.block(found);
    proof {
        let opt = block_at_of(doc.spec_blocks(), doc.spec_bytes().len() as int, caret as int);
        assert(looked == Some(found));
        assert(opt is Some);
        assert(0 <= opt->0 < doc.spec_blocks().len());
        assert(found as int == opt->0);
        assert(bytes@ == doc.spec_bytes());
        assert(block_of(doc.spec_blocks(), doc.spec_bytes().len() as int, caret as int) == Some((block.at.start as int, block.at.end as int)));
    }
    let sentence = match scope {
        FocusScope::Sentence => true,
        FocusScope::Paragraph => false,
    };
    if sentence && at.end > at.start {
        return whole_lines(doc, caret, if at.end < len { at.end } else { len });
    }
    let read = whole_lines(doc, block.at.start, block.at.end);
    if sentence {
        let line = doc.place(caret).line;
        let here = content(doc, line);
        if blank(bytes, &here) {
            let lines = behind_lines(doc, line);
            let ghost above = lines@.map_values(|l: usize| l as int);
            let mut start = read.start;
            let mut k: usize = 0;
            while k < lines.len()
                invariant
                    0 <= k <= lines@.len(),
                    above == lines@.map_values(|l: usize| l as int),
                    reach_back(doc.spec_bytes(), read.start as int, above, 0) == reach_back(
                        doc.spec_bytes(),
                        start as int,
                        above,
                        k as int,
                    ),
                decreases lines.len() - k,
            {
                assert(above[k as int] == lines@[k as int]);
                let top = content(doc, lines[k]).start;
                if top < start {
                    start = top;
                }
                k = k + 1;
            }
            return start..read.end;
        }
    }
    read
}

/// The tiers for a caret, or a selection, at `at`, under `focus`.
///
/// `at` is the writer's selection: an empty range is a caret, and a range
/// with room in it is a live selection, which is the bright span on its own.
/// A caret on a blank line lights the last sentence of the block above it,
/// so that on every Enter with Focus on the page does not black out behind a
/// new thought.
pub fn tiers(doc: &Document, at: &Range<usize>, focus: Focus) -> (tiers: Tiers)
    ensures
        range_views(tiers.bright@) == tiers_of(doc.spec_text(), doc.spec_blocks(), (at.start as int, at.end as int), focus),
{
    let scope = match focus {
        Focus::Off => {
            let none = Tiers::default();
            proof {
                assert(range_views(none.bright@) =~= Seq::<(int, int)>::empty());
            }
            return none;
        },
        Focus::On(scope) => scope,
    };
    let text = doc.text();
    let bytes = text.as_bytes();
    let len = bytes.len();
    let caret = if at.start < len {
        at.start
    } else {
        len
    };
    let found = match doc.block_at(caret) {
        Some(found) => found,
        None => {
            let none = Tiers::default();
            proof {
                assert(range_views(none.bright@) =~= Seq::<(int, int)>::empty());
            }
            return none;
        },
    };
    let block = doc.block(found);
    let mut bright: Vec<Range<usize>> = Vec::new();
    match scope {
        FocusScope::Paragraph => {
            let read = reach(doc, at, focus);
            let start = if block.at.start > read.start {
                block.at.start
            } else {
                read.start
            };
            let end = if block.at.end < read.end {
                block.at.end
            } else {
                read.end
            };
            if start < end {
                let stop = back_over_breaks(bytes, start, end);
                if start < stop {
                    bright.push(start..stop);
                }
            }
            proof {
                assert(range_views(bright@) =~= tiers_of(doc.spec_text(), doc.spec_blocks(), (at.start as int, at.end as int), focus));
            }
            return Tiers { bright };
        },
        FocusScope::Sentence => {},
    }
    if at.end > at.start {
        bright.push(caret..if at.end < len {
            at.end
        } else {
            len
        });
        proof {
            assert(range_views(bright@) =~= tiers_of(doc.spec_text(), doc.spec_blocks(), (at.start as int, at.end as int), focus));
        }
        return Tiers { bright };
    }
    let line = doc.place(caret).line;
    let here = content(doc, line);
    if blank(bytes, &here) {
        return Tiers { bright: behind(doc, line) };
    }
    let spans = sentences_in(text, &here);
    let into = if caret > here.start {
        caret - here.start
    } else {
        0
    };
    let index = if into < here.end - here.start {
        into
    } else {
        here.end - here.start
    };
    let this = sentence_at(&spans, index);
    bright.push(here.start + spans[this].start..here.start + spans[this].end);
    proof {
        assert(range_views(bright@) =~= tiers_of(doc.spec_text(), doc.spec_blocks(), (at.start as int, at.end as int), focus));
    }
    Tiers { bright }
}

// The tiers, line by line.

/// The parts of the bright range `at` on each line from `line` through
/// `last`, each clipped to its line with the terminator left out; a line the
/// range leaves nothing of is passed over.
pub open spec fn clipped_from(bytes: Seq<u8>, at: (int, int), line: int, last: int) -> Seq<(int, (int, int))>
    decreases last + 1 - line,
{
    if line <= last {
        let on = content_of(bytes, line);
        let start = if at.0 > on.0 {
            at.0
        } else {
            on.0
        };
        let end = if at.1 < on.1 {
            at.1
        } else {
            on.1
        };
        let rest = clipped_from(bytes, at, line + 1, last);
        if start >= end {
            rest
        } else {
            seq![(line, (start, end))] + rest
        }
    } else {
        seq![]
    }
}

/// The parts of each of the bright ranges `bright` on each line it touches,
/// in order.
pub open spec fn pieces_of(bytes: Seq<u8>, bright: Seq<(int, int)>) -> Seq<(int, (int, int))>
    decreases bright.len(),
{
    if bright.len() == 0 {
        seq![]
    } else {
        let at = bright.last();
        pieces_of(bytes, bright.drop_last()) + clipped_from(
            bytes,
            at,
            place_of(bytes, at.0).0,
            place_of(bytes, last_byte(at.0, at.1)).0,
        )
    }
}

/// Where a line goes among lines held in rising order, looking from `from`
/// on: at the first held line that is not before it.
pub open spec fn line_slot(groups: Seq<(int, Seq<(int, int)>)>, line: int, from: int) -> int
    decreases groups.len() - from,
{
    if 0 <= from < groups.len() && groups[from].0 < line {
        line_slot(groups, line, from + 1)
    } else {
        from
    }
}

/// `groups` with the range `at` filed under `line`: after the ranges the
/// line holds already, or as a new line in its place among the others.
pub open spec fn filed(groups: Seq<(int, Seq<(int, int)>)>, line: int, at: (int, int)) -> Seq<(int, Seq<(int, int)>)> {
    let slot = line_slot(groups, line, 0);
    if slot < groups.len() && groups[slot].0 == line {
        groups.update(slot, (line, groups[slot].1.push(at)))
    } else {
        groups.insert(slot, (line, seq![at]))
    }
}

/// `pieces` filed by line, the lines in rising order.
pub open spec fn grouped(pieces: Seq<(int, (int, int))>) -> Seq<(int, Seq<(int, int)>)>
    decreases pieces.len(),
{
    if pieces.len() == 0 {
        seq![]
    } else {
        let piece = pieces.last();
        filed(grouped(pieces.drop_last()), piece.0, piece.1)
    }
}

/// Line tiers as each line and its bright ranges.
pub open spec fn line_views(lines: Seq<LineTiers>) -> Seq<(int, Seq<(int, int)>)> {
    lines.map_values(|on: LineTiers| (on.line as int, range_views(on.tiers.bright@)))
}

/// Pieces as each line and its range.
pub open spec fn piece_views(pieces: Seq<(usize, Range<usize>)>) -> Seq<(int, (int, int))> {
    pieces.map_values(|piece: (usize, Range<usize>)| (piece.0 as int, (piece.1.start as int, piece.1.end as int)))
}

/// `line_slot` stays within the lines held.
proof fn lemma_line_slot(groups: Seq<(int, Seq<(int, int)>)>, line: int, from: int)
    requires
        0 <= from <= groups.len(),
    ensures
        from <= line_slot(groups, line, from) <= groups.len(),
    decreases groups.len() - from,
{
    if from < groups.len() && groups[from].0 < line {
        lemma_line_slot(groups, line, from + 1);
    }
}

/// The parts of each bright range on each line it touches.
fn pieces(doc: &Document, bright: &Vec<Range<usize>>) -> (found: Vec<(usize, Range<usize>)>)
    ensures
        piece_views(found@) == pieces_of(doc.spec_bytes(), range_views(bright@)),
{
    let mut found: Vec<(usize, Range<usize>)> = Vec::new();
    let ghost views = range_views(bright@);
    let mut i: usize = 0;
    while i < bright.len()
        invariant
            0 <= i <= bright@.len(),
            views == range_views(bright@),
            piece_views(found@) == pieces_of(doc.spec_bytes(), views.take(i as int)),
        decreases bright.len() - i,
    {
        let start = bright[i].start;
        let end = bright[i].end;
        let ghost at = (start as int, end as int);
        proof {
            assert(views[i as int] == at);
            assert(views.take(i + 1).drop_last() =~= views.take(i as int));
            assert(views.take(i + 1).last() == at);
        }
        let before_end = if end > 0 {
            end - 1
        } else {
            0
        };
        let last_at = if before_end > start {
            before_end
        } else {
            start
        };
        let first = doc.place(start).line;
        let last = doc.place(last_at).line;
        let ghost held = piece_views(found@);
        let mut line = first;
        let mut more = first <= last;
        while more
            invariant
                first <= line,
                more ==> line <= last,
                at == (start as int, end as int),
                held + clipped_from(doc.spec_bytes(), at, first as int, last as int) == piece_views(found@) + (if more {
                    clipped_from(doc.spec_bytes(), at, line as int, last as int)
                } else {
                    seq![]
                }),
            decreases last - line + (if more { 1int } else { 0int }),
        {
            let on = content(doc, line);
            let from = if start > on.start {
                start
            } else {
                on.start
            };
            let to = if end < on.end {
                end
            } else {
                on.end
            };
            let ghost before = found@;
            if from < to {
                found.push((line, from..to));
                proof {
                    assert(piece_views(found@) =~= piece_views(before).push((line as int, (from as int, to as int))));
                }
            }
            proof {
                let whole = clipped_from(doc.spec_bytes(), at, line as int, last as int);
                let rest = clipped_from(doc.spec_bytes(), at, line + 1, last as int);
                if from < to {
                    assert(whole == seq![(line as int, (from as int, to as int))] + rest);
                    assert(piece_views(found@) + rest =~= piece_views(before) + whole);
                } else {
                    assert(whole == rest);
                }
                if line == last {
                    assert(rest =~= seq![]);
                }
            }
            if line == last {
                more = false;
            } else {
                line = line + 1;
            }
        }
        i = i + 1;
    }
    proof {
        assert(views.take(i as int) =~= views);
    }
    found
}

/// A copy of `ranges`.
fn copy_ranges(ranges: &Vec<Range<usize>>) -> (copy: Vec<Range<usize>>)
    ensures
        copy@ == ranges@,
{
    let mut copy: Vec<Range<usize>> = Vec::new();
    let mut i: usize = 0;
    while i < ranges.len()
        invariant
            0 <= i <= ranges@.len(),
            copy@ == ranges@.take(i as int),
        decreases ranges.len() - i,
    {
        copy.push(ranges[i].start..ranges[i].end);
        proof {
            assert(ranges@.take(i + 1) =~= ranges@.take(i as int).push(ranges@[i as int]));
        }
        i = i + 1;
    }
    proof {
        assert(ranges@.take(i as int) =~= ranges@);
    }
    copy
}

/// `pieces` filed by line, the lines in rising order.
fn group(pieces: &Vec<(usize, Range<usize>)>) -> (lines: Vec<LineTiers>)
    ensures
        line_views(lines@) == grouped(piece_views(pieces@)),
{
    let mut lines: Vec<LineTiers> = Vec::new();
    let ghost views = piece_views(pieces@);
    let mut k: usize = 0;
    while k < pieces.len()
        invariant
            0 <= k <= pieces@.len(),
            views == piece_views(pieces@),
            line_views(lines@) == grouped(views.take(k as int)),
        decreases pieces.len() - k,
    {
        let line = pieces[k].0;
        let at = pieces[k].1.start..pieces[k].1.end;
        let ghost groups = line_views(lines@);
        proof {
            assert(views.take(k + 1).drop_last() =~= views.take(k as int));
            assert(views.take(k + 1).last() == (line as int, (at.start as int, at.end as int)));
            lemma_line_slot(groups, line as int, 0);
        }
        let mut slot: usize = 0;
        while slot < lines.len() && lines[slot].line < line
            invariant
                0 <= slot <= lines@.len(),
                groups == line_views(lines@),
                line_slot(groups, line as int, 0) == line_slot(groups, line as int, slot as int),
            decreases lines.len() - slot,
        {
            assert(groups[slot as int].0 == lines@[slot as int].line);
            slot = slot + 1;
        }
        proof {
            if slot < lines@.len() {
                assert(groups[slot as int].0 == lines@[slot as int].line);
            }
        }
        if slot < lines.len() && lines[slot].line == line {
            let held = lines.remove(slot);
            let mut bright = copy_ranges(&held.tiers.bright);
            bright.push(at);
            let ghost pushed = range_views(bright@);
            lines.insert(slot, LineTiers { line, tiers: Tiers { bright } });
            proof {
                assert(pushed =~= range_views(held.tiers.bright@).push((at.start as int, at.end as int)));
                assert(groups[slot as int].1 == range_views(held.tiers.bright@));
                assert(line_views(lines@) =~= groups.update(
                    slot as int,
                    (line as int, groups[slot as int].1.push((at.start as int, at.end as int))),
                ));
            }
        } else {
            let mut bright: Vec<Range<usize>> = Vec::new();
            bright.push(at);
            let ghost one = range_views(bright@);
            lines.insert(slot, LineTiers { line, tiers: Tiers { bright } });
            proof {
                assert(one =~= seq![(at.start as int, at.end as int)]);
                assert(line_views(lines@) =~= groups.insert(slot as int, (line as int, seq![(at.start as int, at.end as int)])));
            }
        }
        k = k + 1;
    }
    proof {
        assert(views.take(k as int) =~= views);
    }
    lines
}

/// The [`Tiers`] split at the Document's line starts, in rising order of
/// line: the shape the flattening consumes, one line at a time. Line
/// terminators are left out, since an unlit newline is one the writer
/// cannot see, and so are the lines with nothing lit on them.
pub fn tiers_by_line(doc: &Document, tiers: &Tiers) -> (lines: Vec<LineTiers>)
    ensures
        line_views(lines@) == grouped(pieces_of(doc.spec_bytes(), range_views(tiers.bright@))),
{
    let found = pieces(doc, &tiers.bright);
    group(&found)
}

// The tiers across an edit.

/// Where the edit `splice` carries the byte `offset` of the text before it:
/// what lay before the bytes it took stays, what lay after slides by what it
/// added or took, and what lay inside collapses to where they were.
pub open spec fn carry(offset: int, splice: Splice) -> int {
    if offset <= splice.at.start {
        offset
    } else if offset >= splice.at.end {
        offset - (if splice.at.end > splice.at.start {
            splice.at.end - splice.at.start
        } else {
            0
        }) + splice.inserted
    } else {
        splice.at.start as int
    }
}

/// The bytes `splice` brought in, as they lie after it.
pub open spec fn came_in(splice: Splice) -> (int, int) {
    (splice.at.start as int, splice.at.start + splice.inserted)
}

/// `ranges`, carried across `splice` and each cut around the bytes it
/// brought in: those are the tiers read after the edit's to say.
pub open spec fn carried(ranges: Seq<Range<usize>>, splice: Splice) -> Seq<Range<usize>>
    decreases ranges.len(),
{
    if ranges.len() == 0 {
        seq![]
    } else {
        let was = ranges.last();
        let start = carry(was.start as int, splice);
        let end = carry(was.end as int, splice);
        let came = came_in(splice);
        carried(ranges.drop_last(), splice) + seq![
            Range { start: start as usize, end: (if end < came.0 { end } else { came.0 }) as usize },
            Range { start: (if start > came.1 { start } else { came.1 }) as usize, end: end as usize },
        ]
    }
}

/// The parts of `ranges` over the bytes `splice` brought in.
pub open spec fn typed(ranges: Seq<Range<usize>>, splice: Splice) -> Seq<Range<usize>>
    decreases ranges.len(),
{
    if ranges.len() == 0 {
        seq![]
    } else {
        let now = ranges.last();
        let came = came_in(splice);
        typed(ranges.drop_last(), splice) + seq![
            Range {
                start: (if now.start > came.0 { now.start as int } else { came.0 }) as usize,
                end: (if now.end < came.1 { now.end as int } else { came.1 }) as usize,
            },
        ]
    }
}

/// The ranges of `ranges` that hold a byte.
pub open spec fn holding_bytes(ranges: Seq<Range<usize>>) -> Seq<Range<usize>>
    decreases ranges.len(),
{
    if ranges.len() == 0 {
        seq![]
    } else {
        let before = holding_bytes(ranges.drop_last());
        if ranges.last().start < ranges.last().end {
            before.push(ranges.last())
        } else {
            before
        }
    }
}

/// Ranges in the order they start, each that starts inside or at the end of
/// the one before joined to it.
pub open spec fn joined(sorted: Seq<Range<usize>>) -> Seq<Range<usize>>
    decreases sorted.len(),
{
    if sorted.len() == 0 {
        seq![]
    } else {
        let before = joined(sorted.drop_last());
        let at = sorted.last();
        if before.len() > 0 && at.start <= before.last().end {
            before.update(
                before.len() - 1,
                Range {
                    start: before.last().start,
                    end: if before.last().end > at.end { before.last().end } else { at.end },
                },
            )
        } else {
            before.push(at)
        }
    }
}

/// Every bright range of `lines`, line after line.
pub open spec fn flat_bright(lines: Seq<LineTiers>) -> Seq<Range<usize>>
    decreases lines.len(),
{
    if lines.len() == 0 {
        seq![]
    } else {
        flat_bright(lines.drop_last()) + lines.last().tiers.bright@
    }
}

/// The bright ranges `before` held of the text before an edit, carried
/// into the text after it, with the bytes the edit brought in drawn as
/// `after` draws them; sorted and joined.
pub open spec fn rebased_bright(before: Seq<LineTiers>, splice: Splice, after: Seq<LineTiers>) -> Seq<Range<usize>> {
    joined(by_start(holding_bytes(carried(flat_bright(before), splice) + typed(flat_bright(after), splice))))
}

/// Every bright range of `lines`, line after line.
fn flatten_lines(lines: &[LineTiers]) -> (flat: Vec<Range<usize>>)
    ensures
        flat@ == flat_bright(lines@),
{
    let mut flat: Vec<Range<usize>> = Vec::new();
    let mut i: usize = 0;
    while i < lines.len()
        invariant
            0 <= i <= lines@.len(),
            flat@ == flat_bright(lines@.take(i as int)),
        decreases lines.len() - i,
    {
        proof {
            assert(lines@.take(i + 1).drop_last() =~= lines@.take(i as int));
        }
        let ghost held = flat@;
        let bright = &lines[i].tiers.bright;
        let mut j: usize = 0;
        while j < bright.len()
            invariant
                0 <= j <= bright@.len(),
                flat@ == held + bright@.take(j as int),
            decreases bright.len() - j,
        {
            flat.push(bright[j].start..bright[j].end);
            proof {
                assert(bright@.take(j + 1) =~= bright@.take(j as int).push(bright@[j as int]));
            }
            j = j + 1;
        }
        proof {
            assert(bright@.take(j as int) =~= bright@);
        }
        i = i + 1;
    }
    proof {
        assert(lines@.take(i as int) =~= lines@);
    }
    flat
}

/// The tiers as they were before an edit, carried into the text after it.
///
/// `before` holds bytes of the text as it was; `doc` is the text now, and
/// `splice` is what the edit did between the two. Every range is moved
/// across the splice, and the bytes the edit brought in are drawn as
/// `after`, the tiers read from the text now, draws them: text the writer
/// has just typed has no earlier colour to fade from.
pub fn rebased(doc: &Document, before: &[LineTiers], splice: &Splice, after: &[LineTiers]) -> (lines: Vec<LineTiers>)
    requires
        splice.at.start + splice.inserted <= usize::MAX,
        forall|i: int|
            0 <= i < flat_bright(before@).len() ==> (#[trigger] flat_bright(before@)[i]).start + splice.inserted
                <= usize::MAX && flat_bright(before@)[i].end + splice.inserted <= usize::MAX,
    ensures
        line_views(lines@) == grouped(
            pieces_of(doc.spec_bytes(), range_views(rebased_bright(before@, *splice, after@))),
        ),
{
    let came_start = splice.at.start;
    let came_end = splice.at.start + splice.inserted;
    let taken = if splice.at.end > splice.at.start {
        splice.at.end - splice.at.start
    } else {
        0
    };
    let was = flatten_lines(before);
    let mut bright: Vec<Range<usize>> = Vec::new();
    let mut i: usize = 0;
    while i < was.len()
        invariant
            0 <= i <= was@.len(),
            was@ == flat_bright(before@),
            came_start == splice.at.start,
            came_end == splice.at.start + splice.inserted,
            taken == (if splice.at.end > splice.at.start { splice.at.end - splice.at.start } else { 0 }),
            forall|k: int|
                0 <= k < was@.len() ==> (#[trigger] was@[k]).start + splice.inserted <= usize::MAX && was@[k].end
                    + splice.inserted <= usize::MAX,
            bright@ == carried(was@.take(i as int), *splice),
        decreases was.len() - i,
    {
        proof {
            assert(was@.take(i + 1).drop_last() =~= was@.take(i as int));
        }
        let one = was[i].start;
        let two = was[i].end;
        let start = if one <= splice.at.start {
            one
        } else if one >= splice.at.end {
            one - taken + splice.inserted
        } else {
            splice.at.start
        };
        let end = if two <= splice.at.start {
            two
        } else if two >= splice.at.end {
            two - taken + splice.inserted
        } else {
            splice.at.start
        };
        let ghost held = bright@;
        bright.push(start..if end < came_start {
            end
        } else {
            came_start
        });
        bright.push(if start > came_end {
            start
        } else {
            came_end
        }..end);
        proof {
            assert(bright@ =~= carried(was@.take(i + 1), *splice));
        }
        i = i + 1;
    }
    proof {
        assert(was@.take(i as int) =~= was@);
    }
    let now = flatten_lines(after);
    let ghost moved = bright@;
    let mut j: usize = 0;
    while j < now.len()
        invariant
            0 <= j <= now@.len(),
            came_start == splice.at.start,
            came_end == splice.at.start + splice.inserted,
            bright@ == moved + typed(now@.take(j as int), *splice),
        decreases now.len() - j,
    {
        proof {
            assert(now@.take(j + 1).drop_last() =~= now@.take(j as int));
        }
        let start = if now[j].start > came_start {
            now[j].start
        } else {
            came_start
        };
        let end = if now[j].end < came_end {
            now[j].end
        } else {
            came_end
        };
        bright.push(start..end);
        proof {
            assert(bright@ =~= moved + typed(now@.take(j + 1), *splice));
        }
        j = j + 1;
    }
    proof {
        assert(now@.take(j as int) =~= now@);
    }
    let ghost all = bright@;
    let mut kept: Vec<Range<usize>> = Vec::new();
    let mut k: usize = 0;
    while k < bright.len()
        invariant
            0 <= k <= bright@.len(),
            all == bright@,
            kept@ == holding_bytes(all.take(k as int)),
        decreases bright.len() - k,
    {
        proof {
            assert(all.take(k + 1).drop_last() =~= all.take(k as int));
        }
        if bright[k].start < bright[k].end {
            kept.push(bright[k].start..bright[k].end);
        }
        k = k + 1;
    }
    proof {
        assert(all.take(k as int) =~= all);
    }
    let sorted = sort_by_start(&kept);
    let mut joined_up: Vec<Range<usize>> = Vec::new();
    let mut m: usize = 0;
    while m < sorted.len()
        invariant
            0 <= m <= sorted@.len(),
            joined_up@ == joined(sorted@.take(m as int)),
        decreases sorted.len() - m,
    {
        proof {
            assert(sorted@.take(m + 1).drop_last() =~= sorted@.take(m as int));
        }
        let at = sorted[m].start..sorted[m].end;
        let n = joined_up.len();
        if n > 0 && at.start <= joined_up[n - 1].end {
            let last = joined_up.pop().unwrap();
            let end = if last.end > at.end {
                last.end
            } else {
                at.end
            };
            joined_up.push(last.start..end);
            proof {
                assert(joined_up@ =~= joined(sorted@.take(m + 1)));
            }
        } else {
            joined_up.push(at);
        }
        m = m + 1;
    }
    proof {
        assert(sorted@.take(m as int) =~= sorted@);
    }
    tiers_by_line(doc, &Tiers { bright: joined_up })
}

// What the tiers keep, line by line.

/// Whether `at` holds a byte and lies on `line`, its terminator left out.
pub open spec fn on_its_line(bytes: Seq<u8>, line: int, at: (int, int)) -> bool {
    let on = content_of(bytes, line);
    on.0 <= at.0 < at.1 <= on.1
}

/// Whether the lines of `groups` rise strictly.
pub open spec fn rising(groups: Seq<(int, Seq<(int, int)>)>) -> bool {
    forall|i: int, j: int| 0 <= i < j < groups.len() ==> #[trigger] groups[i].0 < #[trigger] groups[j].0
}

/// Whether every line of `groups` holds a range, and every range it holds
/// lies on it.
pub open spec fn placed(bytes: Seq<u8>, groups: Seq<(int, Seq<(int, int)>)>) -> bool {
    forall|i: int|
        0 <= i < groups.len() ==> (#[trigger] groups[i]).1.len() > 0 && forall|k: int|
            0 <= k < groups[i].1.len() ==> on_its_line(bytes, groups[i].0, #[trigger] groups[i].1[k])
}

proof fn lemma_clipped_on_lines(bytes: Seq<u8>, at: (int, int), line: int, last: int)
    ensures
        forall|k: int|
            0 <= k < clipped_from(bytes, at, line, last).len() ==> on_its_line(
                bytes,
                (#[trigger] clipped_from(bytes, at, line, last)[k]).0,
                clipped_from(bytes, at, line, last)[k].1,
            ),
    decreases last + 1 - line,
{
    if line <= last {
        lemma_clipped_on_lines(bytes, at, line + 1, last);
        let rest = clipped_from(bytes, at, line + 1, last);
        let whole = clipped_from(bytes, at, line, last);
        assert forall|k: int| 0 <= k < whole.len() implies on_its_line(bytes, (#[trigger] whole[k]).0, whole[k].1) by {
            if whole.len() > rest.len() && k > 0 {
                assert(whole[k] == rest[k - 1]);
            } else if whole.len() == rest.len() {
                assert(whole[k] == rest[k]);
            }
        }
    }
}

proof fn lemma_pieces_on_lines(bytes: Seq<u8>, bright: Seq<(int, int)>)
    ensures
        forall|k: int|
            0 <= k < pieces_of(bytes, bright).len() ==> on_its_line(
                bytes,
                (#[trigger] pieces_of(bytes, bright)[k]).0,
                pieces_of(bytes, bright)[k].1,
            ),
    decreases bright.len(),
{
    if bright.len() > 0 {
        let at = bright.last();
        let first = place_of(bytes, at.0).0;
        let last = place_of(bytes, last_byte(at.0, at.1)).0;
        lemma_pieces_on_lines(bytes, bright.drop_last());
        lemma_clipped_on_lines(bytes, at, first, last);
        let before = pieces_of(bytes, bright.drop_last());
        let more = clipped_from(bytes, at, first, last);
        let all = pieces_of(bytes, bright);
        assert(all == before + more);
        assert forall|k: int| 0 <= k < all.len() implies on_its_line(bytes, (#[trigger] all[k]).0, all[k].1) by {
            if k < before.len() {
                assert(all[k] == before[k]);
            } else {
                assert(all[k] == more[k - before.len()]);
            }
        }
    }
}

proof fn lemma_line_slot_rising(groups: Seq<(int, Seq<(int, int)>)>, line: int, from: int)
    requires
        rising(groups),
        0 <= from <= groups.len(),
        forall|i: int| 0 <= i < from ==> #[trigger] groups[i].0 < line,
    ensures
        from <= line_slot(groups, line, from) <= groups.len(),
        forall|i: int| 0 <= i < line_slot(groups, line, from) ==> #[trigger] groups[i].0 < line,
        line_slot(groups, line, from) < groups.len() ==> groups[line_slot(groups, line, from)].0 >= line,
    decreases groups.len() - from,
{
    if from < groups.len() && groups[from].0 < line {
        lemma_line_slot_rising(groups, line, from + 1);
    }
}

proof fn lemma_filed(bytes: Seq<u8>, groups: Seq<(int, Seq<(int, int)>)>, line: int, at: (int, int))
    requires
        rising(groups),
        placed(bytes, groups),
        on_its_line(bytes, line, at),
    ensures
        rising(filed(groups, line, at)),
        placed(bytes, filed(groups, line, at)),
{
    lemma_line_slot_rising(groups, line, 0);
    let slot = line_slot(groups, line, 0);
    let out = filed(groups, line, at);
    if slot < groups.len() && groups[slot].0 == line {
        assert forall|i: int| 0 <= i < out.len() implies (#[trigger] out[i]).1.len() > 0 && forall|k: int|
            0 <= k < out[i].1.len() ==> on_its_line(bytes, out[i].0, #[trigger] out[i].1[k]) by {
            if i == slot {
                assert forall|k: int| 0 <= k < out[i].1.len() implies on_its_line(bytes, out[i].0, #[trigger] out[i].1[k]) by {
                    if k < groups[slot].1.len() {
                        assert(out[i].1[k] == groups[slot].1[k]);
                    }
                }
            }
        }
        assert forall|i: int, j: int| 0 <= i < j < out.len() implies #[trigger] out[i].0 < #[trigger] out[j].0 by {
            assert(groups[i].0 < groups[j].0);
        }
    } else {
        assert forall|i: int| 0 <= i < out.len() implies (#[trigger] out[i]).1.len() > 0 && forall|k: int|
            0 <= k < out[i].1.len() ==> on_its_line(bytes, out[i].0, #[trigger] out[i].1[k]) by {
            if i < slot {
                assert(out[i] == groups[i]);
            } else if i > slot {
                assert(out[i] == groups[i - 1]);
            } else {
                assert forall|k: int| 0 <= k < out[i].1.len() implies on_its_line(bytes, out[i].0, #[trigger] out[i].1[k]) by {
                    assert(out[i].1[k] == at);
                }
            }
        }
        assert forall|i: int, j: int| 0 <= i < j < out.len() implies #[trigger] out[i].0 < #[trigger] out[j].0 by {
            if j < slot {
                assert(groups[i].0 < groups[j].0);
            } else if j == slot {
                assert(out[i] == groups[i]);
            } else if i < slot {
                assert(out[i] == groups[i]);
                assert(out[j] == groups[j - 1]);
                assert(groups[slot].0 >= line);
                if j - 1 > slot {
                    assert(groups[slot].0 < groups[j - 1].0);
                }
            } else if i == slot {
                assert(out[j] == groups[j - 1]);
                if j - 1 > slot {
                    assert(groups[slot].0 < groups[j - 1].0);
                }
            } else {
                assert(out[i] == groups[i - 1]);
                assert(out[j] == groups[j - 1]);
                assert(groups[i - 1].0 < groups[j - 1].0);
            }
        }
    }
}

proof fn lemma_grouped(bytes: Seq<u8>, pieces: Seq<(int, (int, int))>)
    requires
        forall|k: int| 0 <= k < pieces.len() ==> on_its_line(bytes, (#[trigger] pieces[k]).0, pieces[k].1),
    ensures
        rising(grouped(pieces)),
        placed(bytes, grouped(pieces)),
    decreases pieces.len(),
{
    if pieces.len() > 0 {
        let rest = pieces.drop_last();
        assert forall|k: int| 0 <= k < rest.len() implies on_its_line(bytes, (#[trigger] rest[k]).0, rest[k].1) by {
            assert(rest[k] == pieces[k]);
        }
        lemma_grouped(bytes, rest);
        let piece = pieces.last();
        assert(on_its_line(bytes, pieces[pieces.len() - 1].0, pieces[pieces.len() - 1].1));
        lemma_filed(bytes, grouped(rest), piece.0, piece.1);
    }
}

/// The tiers split at line starts never cross one: the lines come in rising
/// order, each line that is there holds a range, and each range holds a byte
/// and lies on its line with the line's terminator left out. What is carried
/// across an edit comes out split the same way.
pub proof fn lemma_tiers_by_line_stay_on_their_lines(bytes: Seq<u8>, bright: Seq<(int, int)>)
    ensures
        rising(grouped(pieces_of(bytes, bright))),
        placed(bytes, grouped(pieces_of(bytes, bright))),
{
    lemma_pieces_on_lines(bytes, bright);
    lemma_grouped(bytes, pieces_of(bytes, bright));
}

/// Ranges joined up stand apart: each ends before the next begins, and each
/// that was made of ranges holding a byte holds one.
pub proof fn lemma_joined_ranges_stand_apart(sorted: Seq<Range<usize>>)
    ensures
        forall|i: int|
            0 <= i < joined(sorted).len() - 1 ==> (#[trigger] joined(sorted)[i]).end < joined(sorted)[i + 1].start,
        (forall|k: int| 0 <= k < sorted.len() ==> (#[trigger] sorted[k]).start < sorted[k].end) ==> forall|i: int|
            0 <= i < joined(sorted).len() ==> (#[trigger] joined(sorted)[i]).start < joined(sorted)[i].end,
    decreases sorted.len(),
{
    if sorted.len() > 0 {
        let rest = sorted.drop_last();
        lemma_joined_ranges_stand_apart(rest);
        let before = joined(rest);
        let out = joined(sorted);
        let at = sorted.last();
        if before.len() > 0 && at.start <= before.last().end {
            assert forall|i: int| 0 <= i < out.len() - 1 implies (#[trigger] out[i]).end < out[i + 1].start by {
                assert(out[i] == before[i]);
                if i + 1 < before.len() - 1 {
                    assert(out[i + 1] == before[i + 1]);
                }
            }
        } else {
            assert forall|i: int| 0 <= i < out.len() - 1 implies (#[trigger] out[i]).end < out[i + 1].start by {
                assert(out[i] == before[i]);
                if i + 1 < before.len() {
                    assert(out[i + 1] == before[i + 1]);
                }
            }
        }
        if forall|k: int| 0 <= k < sorted.len() ==> (#[trigger] sorted[k]).start < sorted[k].end {
            assert forall|k: int| 0 <= k < rest.len() implies (#[trigger] rest[k]).start < rest[k].end by {
                assert(rest[k] == sorted[k]);
            }
            assert(at.start < at.end);
            assert forall|i: int| 0 <= i < out.len() implies (#[trigger] out[i]).start < out[i].end by {
                if i < before.len() {
                    assert(before[i].start < before[i].end);
                }
            }
        }
    }
}

} // verus!
