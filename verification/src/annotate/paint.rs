//! The Markup's runs cut at Focus's tier edges: what a retag draws over a
//! stretch of the Document, every piece with the look it is drawn in and
//! the tier it is in. The colour each pair resolves to is the theme's, and
//! is looked up where the pieces are drawn.

use vstd::prelude::*;
use std::ops::Range;

use crate::annotate::{copy_range, flatten, flattened, Look, Run, Span};
use crate::focus::{Focus, LineTiers, Tier};

verus! {

/// One stretch of bytes as one tag draws it.
#[derive(Debug, PartialEq, Eq)]
pub struct Tinted {
    /// Absolute UTF-8 bytes from the start of the Document.
    pub at: Range<usize>,
    /// How the Markup draws those bytes.
    pub look: Look,
    /// Which tier Focus puts them in.
    pub tier: Tier,
}

/// Each piece as its bytes, its look and its tier.
pub open spec fn tinted_views(pieces: Seq<Tinted>) -> Seq<(usize, usize, Look, Tier)> {
    pieces.map_values(|p: Tinted| (p.at.start, p.at.end, p.look, p.tier))
}

/// Every bright range of `tiers`, line by line.
pub open spec fn bright_all(tiers: Seq<LineTiers>) -> Seq<Range<usize>>
    decreases tiers.len(),
{
    if tiers.len() == 0 {
        seq![]
    } else {
        bright_all(tiers.drop_last()) + tiers.last().tiers.bright@
    }
}

/// The larger of two offsets.
pub open spec fn most(a: usize, b: usize) -> usize {
    if a >= b { a } else { b }
}

/// The smaller of two offsets.
pub open spec fn least(a: usize, b: usize) -> usize {
    if a <= b { a } else { b }
}

/// The bytes from `cursor` to `end` cut into tiers by the bright ranges
/// `lits` from the `k`th on: a bright range clipped to what is left, and dim
/// whatever lies between.
pub open spec fn segments_from(
    lits: Seq<Range<usize>>,
    k: int,
    cursor: usize,
    end: usize,
    out: Seq<(usize, usize, Tier)>,
) -> Seq<(usize, usize, Tier)>
    decreases lits.len() - k,
{
    if k < 0 || k >= lits.len() {
        if cursor < end { out.push((cursor, end, Tier::Dim)) } else { out }
    } else {
        let bs = most(lits[k].start, cursor);
        let be = least(most(lits[k].end, cursor), end);
        if bs >= be {
            segments_from(lits, k + 1, cursor, end, out)
        } else {
            let lead = if bs > cursor { out.push((cursor, bs, Tier::Dim)) } else { out };
            segments_from(lits, k + 1, be, end, lead.push((bs, be, Tier::Bright)))
        }
    }
}

/// The bytes `at` cut into tiers: one bright stretch with Focus off, and
/// with Focus on the bright ranges of `tiers` and the dim between them.
pub open spec fn segments_of(at: Range<usize>, tiers: Seq<LineTiers>, focus: Focus) -> Seq<(usize, usize, Tier)> {
    if focus == Focus::Off {
        seq![(at.start, at.end, Tier::Bright)]
    } else {
        segments_from(bright_all(tiers), 0, at.start, at.end, seq![])
    }
}

/// `out` with `s..e` drawn in `look` in `tier`, lengthening the last piece
/// where it ends at `s` and draws alike; nothing where there is no look to
/// draw or no bytes.
pub open spec fn tinted(
    out: Seq<(usize, usize, Look, Tier)>,
    s: usize,
    e: usize,
    look: Option<Look>,
    tier: Tier,
) -> Seq<(usize, usize, Look, Tier)> {
    match look {
        None => out,
        Some(look) => if s >= e {
            out
        } else if out.len() > 0 && out.last().1 == s && out.last().2 == look && out.last().3 == tier {
            out.update(out.len() - 1, (out.last().0, e, look, tier))
        } else {
            out.push((s, e, look, tier))
        },
    }
}

/// The walk of one segment `s..e` in `tier` over `runs` from the `next`th,
/// drawn from `cursor`: each run reaching the segment drawn in its look, the
/// gaps before them in `plain`, and the walk left at the run that runs past
/// the segment.
pub open spec fn seg_walk(
    runs: Seq<Run>,
    next: int,
    s: usize,
    e: usize,
    tier: Tier,
    cursor: usize,
    out: Seq<(usize, usize, Look, Tier)>,
    plain: Option<Look>,
) -> (int, Seq<(usize, usize, Look, Tier)>)
    decreases runs.len() - next,
{
    if 0 <= next < runs.len() && runs[next].at.start < e {
        let ds = most(runs[next].at.start, s);
        let de = least(runs[next].at.end, e);
        let drawn = tinted(tinted(out, cursor, ds, plain, tier), ds, de, Some(runs[next].look), tier);
        if runs[next].at.end > e {
            (next, tinted(drawn, de, e, plain, tier))
        } else {
            seg_walk(runs, next + 1, s, e, tier, de, drawn, plain)
        }
    } else {
        (next, tinted(out, cursor, e, plain, tier))
    }
}

/// The walk of the segments from the `j`th on.
pub open spec fn paint_from(
    runs: Seq<Run>,
    segs: Seq<(usize, usize, Tier)>,
    j: int,
    next: int,
    out: Seq<(usize, usize, Look, Tier)>,
    plain: Option<Look>,
) -> Seq<(usize, usize, Look, Tier)>
    decreases segs.len() - j,
{
    if j < 0 || j >= segs.len() {
        out
    } else {
        let seg = segs[j];
        let walked = seg_walk(runs, next, seg.0, seg.1, seg.2, seg.0, out, plain);
        paint_from(runs, segs, j + 1, walked.0, walked.1, plain)
    }
}

/// How many runs, from the `k`th on, end by `at`.
pub open spec fn behind(runs: Seq<Run>, at: usize, k: int) -> int
    decreases runs.len() - k,
{
    if 0 <= k < runs.len() && runs[k].at.end <= at {
        behind(runs, at, k + 1)
    } else {
        k
    }
}

/// The Markup `spans` flattened, over the bytes `at`, cut at the tier edges
/// of `tiers`: with Focus on, every byte of `at` in a piece, plain prose
/// included; with Focus off, only the bytes some run draws.
pub open spec fn tinted_of(spans: Seq<Span>, at: Range<usize>, tiers: Seq<LineTiers>, focus: Focus) -> Seq<(usize, usize, Look, Tier)> {
    let runs = flattened(spans);
    let plain = if focus == Focus::Off { None } else { Some(Look::prose_spec()) };
    paint_from(runs, segments_of(at, tiers, focus), 0, behind(runs, at.start, 0), seq![], plain)
}

/// `out` with `s..e` drawn in `look` in `tier`.
fn push_tinted(out: &mut Vec<Tinted>, s: usize, e: usize, look: Option<Look>, tier: Tier)
    ensures
        tinted_views(final(out)@) == tinted(tinted_views(old(out)@), s, e, look, tier),
{
    let ghost before = tinted_views(out@);
    match look {
        None => {},
        Some(look) => {
            if s >= e {
                return;
            }
            let n = out.len();
            if n > 0 && out[n - 1].at.end == s && out[n - 1].look == look && out[n - 1].tier == tier {
                let start = out[n - 1].at.start;
                out.set(n - 1, Tinted { at: start..e, look, tier });
                proof {
                    assert(tinted_views(out@) =~= before.update(before.len() - 1, (before.last().0, e, look, tier)));
                }
            } else {
                out.push(Tinted { at: s..e, look, tier });
                proof {
                    assert(tinted_views(out@) =~= before.push((s, e, look, tier)));
                }
            }
        },
    }
}

/// The bytes `at` cut into tiers.
fn segments_in(at: &Range<usize>, tiers: &[LineTiers], focus: Focus) -> (segs: Vec<(usize, usize, Tier)>)
    ensures
        segs@ == segments_of(*at, tiers@, focus),
{
    if focus == Focus::Off {
        return vec![(at.start, at.end, Tier::Bright)];
    }
    let mut lits: Vec<Range<usize>> = Vec::new();
    let mut t: usize = 0;
    while t < tiers.len()
        invariant
            0 <= t <= tiers@.len(),
            lits@ == bright_all(tiers@.take(t as int)),
        decreases tiers.len() - t,
    {
        let mut b: usize = 0;
        let ghost start = lits@;
        while b < tiers[t].tiers.bright.len()
            invariant
                0 <= b <= tiers@[t as int].tiers.bright@.len(),
                t < tiers@.len(),
                lits@ == start + tiers@[t as int].tiers.bright@.take(b as int),
            decreases tiers@[t as int].tiers.bright@.len() - b,
        {
            lits.push(copy_range(&tiers[t].tiers.bright[b]));
            proof {
                assert(lits@ =~= start + tiers@[t as int].tiers.bright@.take(b + 1));
            }
            b = b + 1;
        }
        proof {
            assert(tiers@.take(t + 1).drop_last() =~= tiers@.take(t as int));
            assert(tiers@[t as int].tiers.bright@.take(b as int) =~= tiers@[t as int].tiers.bright@);
        }
        t = t + 1;
    }
    proof {
        assert(tiers@.take(t as int) =~= tiers@);
    }
    let mut out: Vec<(usize, usize, Tier)> = Vec::new();
    let mut cursor = at.start;
    let mut k: usize = 0;
    while k < lits.len()
        invariant
            0 <= k <= lits@.len(),
            segments_from(lits@, 0, at.start, at.end, seq![]) == segments_from(lits@, k as int, cursor, at.end, out@),
        decreases lits.len() - k,
    {
        let lo = lits[k].start;
        let hi = lits[k].end;
        let bs = if lo >= cursor { lo } else { cursor };
        let top = if hi >= cursor { hi } else { cursor };
        let be = if top <= at.end { top } else { at.end };
        if bs < be {
            if bs > cursor {
                out.push((cursor, bs, Tier::Dim));
            }
            out.push((bs, be, Tier::Bright));
            cursor = be;
        }
        k = k + 1;
    }
    if cursor < at.end {
        out.push((cursor, at.end, Tier::Dim));
    }
    out
}

/// The Markup `spans` flattened over the bytes `at` and cut at the tier
/// edges of `tiers`, every piece with its look and its tier. With Focus on
/// every byte of `at` is in a piece, plain prose included, because the
/// buffer's own ink is the wrong colour for most of the page; with Focus off
/// the bytes no run draws are left to the buffer.
pub fn paint_in(spans: &[Span], at: &Range<usize>, tiers: &[LineTiers], focus: Focus) -> (pieces: Vec<Tinted>)
    ensures
        tinted_views(pieces@) == tinted_of(spans@, *at, tiers@, focus),
{
    let runs = flatten(spans);
    let plain = if focus == Focus::Off { None } else { Some(Look::prose()) };
    let segs = segments_in(at, tiers, focus);
    let mut next: usize = 0;
    while next < runs.len() && runs[next].at.end <= at.start
        invariant
            0 <= next <= runs@.len(),
            behind(runs@, at.start, 0) == behind(runs@, at.start, next as int),
        decreases runs.len() - next,
    {
        next = next + 1;
    }
    let mut out: Vec<Tinted> = Vec::new();
    proof {
        assert(behind(runs@, at.start, next as int) == next as int);
        assert(tinted_views(out@) =~= seq![]);
    }
    let mut j: usize = 0;
    while j < segs.len()
        invariant
            0 <= j <= segs@.len(),
            0 <= next <= runs@.len(),
            paint_from(runs@, segs@, 0, behind(runs@, at.start, 0), seq![], plain) == paint_from(
                runs@,
                segs@,
                j as int,
                next as int,
                tinted_views(out@),
                plain,
            ),
        decreases segs.len() - j,
    {
        let (s, e, tier) = segs[j];
        let ghost target = seg_walk(runs@, next as int, s, e, tier, s, tinted_views(out@), plain);
        let mut cursor = s;
        let mut going = true;
        while going && next < runs.len() && runs[next].at.start < e
            invariant
                0 <= next <= runs@.len(),
                going ==> seg_walk(runs@, next as int, s, e, tier, cursor, tinted_views(out@), plain) == target,
                !going ==> target == (next as int, tinted(tinted_views(out@), cursor, e, plain, tier)),
            decreases runs.len() - next + (if going { 1int } else { 0int }),
        {
            let rs = runs[next].at.start;
            let re = runs[next].at.end;
            let ds = if rs >= s { rs } else { s };
            let de = if re <= e { re } else { e };
            push_tinted(&mut out, cursor, ds, plain, tier);
            push_tinted(&mut out, ds, de, Some(runs[next].look), tier);
            cursor = de;
            if re > e {
                going = false;
            } else {
                next = next + 1;
            }
        }
        push_tinted(&mut out, cursor, e, plain, tier);
        j = j + 1;
    }
    out
}

} // verus!
