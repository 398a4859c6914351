//! What one keystroke changes.
//!
//! An edit first plans, against the text as it was, the block-scoped region
//! its change is bounded to ([`crate::document::plan`]), and reports it as
//! the edit's scope. It then writes its bytes into the text and re-derives
//! the line table, the block index and the Markup from the text it leaves,
//! so that the Document is always exactly what a fresh parse of its text
//! gives, and hands back the lines whose print is not what it was. A line's print is
//! what it draws as, measured from its own start, so a line that only slid
//! down the file because bytes were written above it looks the same and is
//! not handed back.

use vstd::prelude::*;
use std::ops::Range;

use vstd::string::StringSliceAdditionalSpecFns;
use vstd::utf8::{encode_utf8, is_char_boundary};

use crate::annotate::{copy_range, flatten, flattened, Look, Mark, Run};
use crate::document::{line_bytes_of, line_starts_of, Document, Edit, Scope, Splice};
use crate::document::plan::scope_of;
use crate::text::push_text;

verus! {

/// Whether the bytes `s..e` reach into the line `ls..le`.
pub open spec fn reaches(s: int, e: int, ls: int, le: int) -> bool {
    s < le && e > ls
}

/// The bytes `s..e` cut down to the line `ls..le` and measured from its start.
pub open spec fn clipped(s: usize, e: usize, ls: int, le: int) -> (usize, usize) {
    (((if s > ls { s as int } else { ls }) - ls) as usize, ((if e < le { e as int } else { le }) - ls) as usize)
}

/// The runs that reach the line `ls..le`, clipped to it, in order.
pub open spec fn run_print(runs: Seq<Run>, ls: int, le: int) -> Seq<(usize, usize, Look)>
    decreases runs.len(),
{
    if runs.len() == 0 {
        seq![]
    } else {
        let before = run_print(runs.drop_last(), ls, le);
        let r = runs.last();
        if reaches(r.at.start as int, r.at.end as int, ls, le) {
            let c = clipped(r.at.start, r.at.end, ls, le);
            before.push((c.0, c.1, r.look))
        } else {
            before
        }
    }
}

/// The spans that reach the line `ls..le`, clipped to it, in order.
pub open spec fn span_print(spans: Seq<crate::annotate::Span>, ls: int, le: int) -> Seq<(usize, usize, Mark)>
    decreases spans.len(),
{
    if spans.len() == 0 {
        seq![]
    } else {
        let before = span_print(spans.drop_last(), ls, le);
        let s = spans.last();
        if reaches(s.at.start as int, s.at.end as int, ls, le) {
            let c = clipped(s.at.start, s.at.end, ls, le);
            before.push((c.0, c.1, s.mark))
        } else {
            before
        }
    }
}

/// What `line` of the text `bytes` draws as under `spans`: the runs and the
/// spans reaching it, measured from the line's own start. Two lines with the
/// same print draw alike wherever in the Document they stand.
pub open spec fn print_of(spans: Seq<crate::annotate::Span>, bytes: Seq<u8>, line: int) -> (
    Seq<(usize, usize, Look)>,
    Seq<(usize, usize, Mark)>,
) {
    let (ls, le) = line_bytes_of(bytes, line);
    (run_print(flattened(spans), ls, le), span_print(spans, ls, le))
}

/// How many lines the text `bytes` has.
pub open spec fn line_count(bytes: Seq<u8>) -> int {
    line_starts_of(bytes).len() as int
}

/// What the Document draws `line` as.
pub open spec fn doc_print(doc: Document, line: int) -> (Seq<(usize, usize, Look)>, Seq<(usize, usize, Mark)>) {
    print_of(doc.spec_spans(), doc.spec_bytes(), line)
}

/// The lines of `after` whose print is not what the same line of `before`
/// was, as one range: the lines both open with alike come off the head, then
/// the lines both close with alike come off the tail of what is left.
pub open spec fn changed_lines(before: Document, after: Document, lines: Range<usize>) -> bool {
    let nb = line_count(before.spec_bytes());
    let na = line_count(after.spec_bytes());
    let both = if nb < na { nb } else { na };
    let head = lines.start as int;
    let tail = na - lines.end;
    &&& 0 <= head <= both
    &&& forall|k: int| 0 <= k < head ==> #[trigger] doc_print(before, k) == doc_print(after, k)
    &&& head < both ==> doc_print(before, head) != doc_print(after, head)
    &&& 0 <= tail <= both - head
    &&& forall|j: int| 0 <= j < tail ==> #[trigger] doc_print(before, nb - 1 - j) == doc_print(after, na - 1 - j)
    &&& tail < both - head ==> doc_print(before, nb - 1 - tail) != doc_print(after, na - 1 - tail)
}

/// The bytes of `a` then `b` are the bytes of `a` then the bytes of `b`.
pub(crate) proof fn lemma_encode_concat(a: Seq<char>, b: Seq<char>)
    ensures
        encode_utf8(a + b) == encode_utf8(a) + encode_utf8(b),
    decreases a.len(),
{
    if a.len() == 0 {
        assert(a + b =~= b);
        assert(encode_utf8(a) =~= seq![]);
        assert(encode_utf8(a) + encode_utf8(b) =~= encode_utf8(b));
    } else {
        lemma_encode_concat(a.drop_first(), b);
        assert((a + b).drop_first() =~= a.drop_first() + b);
        assert((a + b)[0] == a[0]);
        assert(encode_utf8(a + b) =~= encode_utf8(a) + encode_utf8(b));
    }
}

/// The runs of `runs` that reach `ls..le`, clipped to it.
fn runs_on(runs: &Vec<Run>, ls: usize, le: usize) -> (print: Vec<(usize, usize, Look)>)
    requires
        ls <= le,
    ensures
        print@ == run_print(runs@, ls as int, le as int),
{
    let mut print: Vec<(usize, usize, Look)> = Vec::new();
    let mut i: usize = 0;
    while i < runs.len()
        invariant
            0 <= i <= runs@.len(),
            ls <= le,
            print@ == run_print(runs@.take(i as int), ls as int, le as int),
        decreases runs.len() - i,
    {
        proof {
            assert(runs@.take(i + 1).drop_last() =~= runs@.take(i as int));
        }
        let s = runs[i].at.start;
        let e = runs[i].at.end;
        if s < le && e > ls {
            let from = if s > ls { s - ls } else { 0 };
            let to = if e < le { e - ls } else { le - ls };
            print.push((from, to, runs[i].look));
        }
        i = i + 1;
    }
    proof {
        assert(runs@.take(i as int) =~= runs@);
    }
    print
}

/// The spans of `spans` that reach `ls..le`, clipped to it.
fn spans_on(spans: &Vec<crate::annotate::Span>, ls: usize, le: usize) -> (print: Vec<(usize, usize, Mark)>)
    requires
        ls <= le,
    ensures
        print@ == span_print(spans@, ls as int, le as int),
{
    let mut print: Vec<(usize, usize, Mark)> = Vec::new();
    let mut i: usize = 0;
    while i < spans.len()
        invariant
            0 <= i <= spans@.len(),
            ls <= le,
            print@ == span_print(spans@.take(i as int), ls as int, le as int),
        decreases spans.len() - i,
    {
        proof {
            assert(spans@.take(i + 1).drop_last() =~= spans@.take(i as int));
        }
        let s = spans[i].at.start;
        let e = spans[i].at.end;
        if s < le && e > ls {
            let from = if s > ls { s - ls } else { 0 };
            let to = if e < le { e - ls } else { le - ls };
            print.push((from, to, spans[i].mark));
        }
        i = i + 1;
    }
    proof {
        assert(spans@.take(i as int) =~= spans@);
    }
    print
}

/// Whether two prints are the same print.
fn same_print(
    a: &(Vec<(usize, usize, Look)>, Vec<(usize, usize, Mark)>),
    b: &(Vec<(usize, usize, Look)>, Vec<(usize, usize, Mark)>),
) -> (yes: bool)
    ensures
        yes == ((a.0@, a.1@) == (b.0@, b.1@)),
{
    if a.0.len() != b.0.len() || a.1.len() != b.1.len() {
        proof {
            if a.0.len() != b.0.len() {
                assert(a.0@.len() != b.0@.len());
            } else {
                assert(a.1@.len() != b.1@.len());
            }
        }
        return false;
    }
    let mut k: usize = 0;
    while k < a.0.len()
        invariant
            0 <= k <= a.0@.len(),
            a.0@.len() == b.0@.len(),
            forall|j: int| 0 <= j < k ==> a.0@[j] == b.0@[j],
        decreases a.0.len() - k,
    {
        if a.0[k].0 != b.0[k].0 || a.0[k].1 != b.0[k].1 || a.0[k].2 != b.0[k].2 {
            return false;
        }
        k = k + 1;
    }
    let mut m: usize = 0;
    while m < a.1.len()
        invariant
            0 <= m <= a.1@.len(),
            a.1@.len() == b.1@.len(),
            forall|j: int| 0 <= j < m ==> a.1@[j] == b.1@[j],
        decreases a.1.len() - m,
    {
        if a.1[m].0 != b.1[m].0 || a.1[m].1 != b.1[m].1 || a.1[m].2 != b.1[m].2 {
            return false;
        }
        m = m + 1;
    }
    proof {
        assert(a.0@ =~= b.0@);
        assert(a.1@ =~= b.1@);
    }
    true
}

impl Document {
    /// The Markup flattened into runs that do not overlap, in absolute bytes.
    pub fn runs(&self) -> (runs: Vec<Run>)
        ensures
            runs@ == flattened(self.spec_spans()),
    {
        let spans = self.spans();
        flatten(spans.as_slice())
    }

    /// The runs that draw any of the bytes `at`, in order.
    pub fn runs_in(&self, at: &Range<usize>) -> (found: Vec<Run>)
        ensures
            found@ == flattened(self.spec_spans()).filter(
                |r: Run| reaches(r.at.start as int, r.at.end as int, at.start as int, at.end as int),
            ),
    {
        let all = self.runs();
        let ghost want = |r: Run| reaches(r.at.start as int, r.at.end as int, at.start as int, at.end as int);
        let mut found: Vec<Run> = Vec::new();
        let mut i: usize = 0;
        while i < all.len()
            invariant
                0 <= i <= all@.len(),
                want == (|r: Run| reaches(r.at.start as int, r.at.end as int, at.start as int, at.end as int)),
                found@ == all@.take(i as int).filter(want),
            decreases all.len() - i,
        {
            proof {
                assert(all@.take(i + 1).drop_last() =~= all@.take(i as int));
                reveal(Seq::filter);
            }
            if all[i].at.start < at.end && all[i].at.end > at.start {
                found.push(Run { at: copy_range(&all[i].at), look: all[i].look });
            }
            i = i + 1;
        }
        proof {
            assert(all@.take(i as int) =~= all@);
        }
        found
    }

    /// How many lines the text has.
    fn line_total(&self) -> (n: usize)
        ensures
            n == line_count(self.spec_bytes()),
    {
        proof {
            use_type_invariant(self);
            assert(self.lines@.map_values(|s: usize| s as int).len() == self.lines@.len());
        }
        self.lines.len()
    }

    /// What `line` draws as, where `runs` are the Document's runs.
    fn print(&self, runs: &Vec<Run>, line: usize) -> (print: (Vec<(usize, usize, Look)>, Vec<(usize, usize, Mark)>))
        requires
            runs@ == flattened(self.spec_spans()),
        ensures
            (print.0@, print.1@) == doc_print(*self, line as int),
    {
        let at = self.line_bytes(line);
        let spans = &self.spans;
        (runs_on(runs, at.start, at.end), spans_on(spans, at.start, at.end))
    }

    /// Writes `text` in at `at` bytes, and says what that changed.
    pub fn insert(&mut self, at: usize, text: &str) -> (edit: Edit)
        requires
            old(self).spec_generation() < u64::MAX,
            at <= old(self).spec_bytes().len(),
            is_char_boundary(old(self).spec_bytes(), at as int),
            old(self).spec_bytes().len() + text.spec_bytes().len() <= usize::MAX,
        ensures
            final(self).spec_bytes() == old(self).spec_bytes().take(at as int) + text.spec_bytes()
                + old(self).spec_bytes().skip(at as int),
            final(self).spec_path() == old(self).spec_path(),
            final(self).spec_generation() == old(self).spec_generation() + 1,
            final(self).parsed_whole(),
            edit.splice == (Splice { at: at..at, inserted: text.spec_bytes().len() as usize }),
            edit.scope == scope_of(old(self).spec_bytes(), old(self).spec_blocks(), old(self).spec_spans(),
                at as int, at as int, text.spec_bytes()),
            changed_lines(*old(self), *final(self), edit.lines),
    {
        self.edit(at..at, text)
    }

    /// Takes the bytes `at` out, and says what that changed.
    pub fn delete(&mut self, at: Range<usize>) -> (edit: Edit)
        requires
            old(self).spec_generation() < u64::MAX,
            at.start <= at.end <= old(self).spec_bytes().len(),
            is_char_boundary(old(self).spec_bytes(), at.start as int),
            is_char_boundary(old(self).spec_bytes(), at.end as int),
        ensures
            final(self).spec_bytes() == old(self).spec_bytes().take(at.start as int) + old(self).spec_bytes().skip(
                at.end as int,
            ),
            final(self).spec_path() == old(self).spec_path(),
            final(self).spec_generation() == old(self).spec_generation() + 1,
            final(self).parsed_whole(),
            edit.splice == (Splice { at: at, inserted: 0 }),
            edit.scope == scope_of(old(self).spec_bytes(), old(self).spec_blocks(), old(self).spec_spans(),
                at.start as int, at.end as int, Seq::<u8>::empty()),
            changed_lines(*old(self), *final(self), edit.lines),
    {
        let len = self.text().as_bytes().len();
        proof {
            reveal_strlit("");
            assert(""@ =~= seq![]);
            assert(encode_utf8(""@) =~= Seq::<u8>::empty());
        }
        let edit = self.edit(at, "");
        proof {
            reveal_strlit("");
            assert(""@ =~= seq![]);
            assert(encode_utf8(""@) =~= seq![]);
            assert(old(self).spec_bytes().take(at.start as int) + encode_utf8(""@) =~= old(self).spec_bytes().take(
                at.start as int,
            ));
        }
        edit
    }

    /// Replaces the bytes `at` with `inserted`: plans the block-scoped region
    /// the change is bounded to and reports it as the scope, re-derives the
    /// Document from the text that leaves, and says which lines now draw
    /// differently.
    pub fn edit(&mut self, at: Range<usize>, inserted: &str) -> (edit: Edit)
        requires
            old(self).spec_generation() < u64::MAX,
            at.start <= at.end <= old(self).spec_bytes().len(),
            is_char_boundary(old(self).spec_bytes(), at.start as int),
            is_char_boundary(old(self).spec_bytes(), at.end as int),
            old(self).spec_bytes().len() - (at.end - at.start) + inserted.spec_bytes().len() <= usize::MAX,
        ensures
            final(self).spec_bytes() == old(self).spec_bytes().take(at.start as int) + inserted.spec_bytes()
                + old(self).spec_bytes().skip(at.end as int),
            final(self).spec_path() == old(self).spec_path(),
            final(self).spec_generation() == old(self).spec_generation() + 1,
            final(self).parsed_whole(),
            edit.splice == (Splice { at: at, inserted: inserted.spec_bytes().len() as usize }),
            edit.scope == scope_of(old(self).spec_bytes(), old(self).spec_blocks(), old(self).spec_spans(),
                at.start as int, at.end as int, inserted.spec_bytes()),
            changed_lines(*old(self), *final(self), edit.lines),
    {
        let ghost before = *self;
        let old_runs = self.runs();
        let nb = self.line_total();
        let mut prints: Vec<(Vec<(usize, usize, Look)>, Vec<(usize, usize, Mark)>)> = Vec::new();
        let mut k: usize = 0;
        while k < nb
            invariant
                0 <= k <= nb,
                nb == line_count(before.spec_bytes()),
                *self == before,
                old_runs@ == flattened(before.spec_spans()),
                prints@.len() == k,
                forall|j: int| 0 <= j < k ==> (#[trigger] prints@[j].0@, prints@[j].1@) == doc_print(before, j),
            decreases nb - k,
        {
            let p = self.print(&old_runs, k);
            let ghost seen = (p.0@, p.1@);
            let ghost earlier = prints@;
            assert(forall|j: int| 0 <= j < k ==> (#[trigger] earlier[j].0@, earlier[j].1@) == doc_print(before, j));
            assert(seen == doc_print(before, k as int));
            prints.push(p);
            proof {
                assert((prints@[k as int].0@, prints@[k as int].1@) == seen);
                assert forall|j: int| 0 <= j < k + 1 implies (#[trigger] prints@[j].0@, prints@[j].1@) == doc_print(
                    before,
                    j,
                ) by {
                    if j < k {
                        assert(prints@[j] == earlier[j]);
                        assert((earlier[j].0@, earlier[j].1@) == doc_print(before, j));
                    } else {
                        assert((prints@[j].0@, prints@[j].1@) == seen);
                    }
                }
            }
            k = k + 1;
        }
        let scope = self.scope(at.start, at.end, inserted);
        let t = self.text.as_str();
        proof {
            assert(t.spec_bytes() == before.spec_bytes());
        }
        let (head, _) = t.split_at(at.start);
        let (_, tail) = t.split_at(at.end);
        let mut fresh = String::new();
        push_text(&mut fresh, head);
        push_text(&mut fresh, inserted);
        push_text(&mut fresh, tail);
        proof {
            assert(fresh@ =~= head@ + inserted@ + tail@);
            lemma_encode_concat(head@ + inserted@, tail@);
            lemma_encode_concat(head@, inserted@);
            assert(before.spec_bytes().subrange(0, at.start as int) =~= before.spec_bytes().take(at.start as int));
            assert(before.spec_bytes().subrange(at.end as int, before.spec_bytes().len() as int)
                =~= before.spec_bytes().skip(at.end as int));
        }
        let inserted_len = inserted.len();
        self.reload(fresh);
        let new_runs = self.runs();
        let na = self.line_total();
        let both = if nb < na { nb } else { na };
        let mut head_lines: usize = 0;
        let mut alike = true;
        while alike && head_lines < both
            invariant
                !alike ==> head_lines < both && doc_print(before, head_lines as int) != doc_print(*self, head_lines as int),
                0 <= head_lines <= both,
                both == (if nb < na { nb } else { na }),
                nb == line_count(before.spec_bytes()),
                na == line_count(self.spec_bytes()),
                new_runs@ == flattened(self.spec_spans()),
                prints@.len() == nb,
                forall|j: int| 0 <= j < nb ==> (#[trigger] prints@[j].0@, prints@[j].1@) == doc_print(before, j),
                forall|j: int| 0 <= j < head_lines ==> #[trigger] doc_print(before, j) == doc_print(*self, j),
            decreases both - head_lines + (if alike { 1int } else { 0int }),
        {
            let p = self.print(&new_runs, head_lines);
            if same_print(&prints[head_lines], &p) {
                head_lines = head_lines + 1;
            } else {
                alike = false;
            }
        }
        let mut tail_lines: usize = 0;
        let mut still = true;
        while still && tail_lines < both - head_lines
            invariant
                head_lines < both ==> doc_print(before, head_lines as int) != doc_print(*self, head_lines as int),
                forall|j: int| 0 <= j < head_lines ==> #[trigger] doc_print(before, j) == doc_print(*self, j),
                !still ==> tail_lines < both - head_lines && doc_print(before, nb - 1 - tail_lines) != doc_print(
                    *self,
                    na - 1 - tail_lines,
                ),
                0 <= head_lines <= both,
                0 <= tail_lines <= both - head_lines,
                both == (if nb < na { nb } else { na }),
                nb == line_count(before.spec_bytes()),
                na == line_count(self.spec_bytes()),
                new_runs@ == flattened(self.spec_spans()),
                prints@.len() == nb,
                forall|j: int| 0 <= j < nb ==> (#[trigger] prints@[j].0@, prints@[j].1@) == doc_print(before, j),
                forall|j: int| 0 <= j < tail_lines ==> #[trigger] doc_print(before, nb - 1 - j) == doc_print(
                    *self,
                    na - 1 - j,
                ),
            decreases both - head_lines - tail_lines + (if still { 1int } else { 0int }),
        {
            let p = self.print(&new_runs, na - 1 - tail_lines);
            if same_print(&prints[nb - 1 - tail_lines], &p) {
                tail_lines = tail_lines + 1;
            } else {
                still = false;
            }
        }
        Edit {
            lines: head_lines..na - tail_lines,
            scope,
            splice: Splice { at, inserted: inserted_len },
        }
    }
}

/// An edit hands back every line that draws differently: a line of the
/// text after the edit outside the range it names draws as the line it
/// faces in the text before (counting from the top above the range and from
/// the bottom below it).
pub proof fn lemma_an_edit_hands_back_every_line_that_changed(before: Document, after: Document, lines: Range<usize>)
    requires
        changed_lines(before, after, lines),
    ensures
        forall|k: int| 0 <= k < lines.start ==> #[trigger] doc_print(after, k) == doc_print(before, k),
        forall|k: int|
            lines.end <= k < line_count(after.spec_bytes()) ==> #[trigger] doc_print(after, k) == doc_print(
                before,
                k - line_count(after.spec_bytes()) + line_count(before.spec_bytes()),
            ),
{
    let nb = line_count(before.spec_bytes());
    let na = line_count(after.spec_bytes());
    assert forall|k: int| lines.end <= k < na implies #[trigger] doc_print(after, k) == doc_print(before, k - na + nb) by {
        let j = na - 1 - k;
        assert(doc_print(before, nb - 1 - j) == doc_print(after, na - 1 - j));
    }
}

} // verus!
