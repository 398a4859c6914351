//! The Palette's list: the registry in its four named sections and More,
//! the match that narrows it as the writer types, and the same match over
//! the recents and the Settings window's rows.
//!
//! With nothing typed the Palette is a map of the app in the order a writer
//! meets it; typing turns it into one ranked list. Every listing here is a
//! function of the registry, the settings table and what it is handed, so
//! the popover only draws what it is given.

use vstd::prelude::*;
use crate::commands::{commands, registry, Command, Kind};
use crate::document::{paths_equal, same_path, shown_name, shown_of};
use crate::outline::Heading;
use crate::text::{
    ascii_lower, byte_len, chars_of, lemma_utf8_size_prefix, lower, lowercase, lowered, to_ascii_lower,
    same, to_lower, trim, trimmed, utf8_size, width,
};

verus! {

/// How a row matched the query, best first: a prefix of the title, a
/// substring further in, the query's letters in order with gaps, and last a
/// match on something the row does not show (a radio Command's group, a
/// Settings row's pane), so an invisible match never outranks a visible one.
#[derive(Clone, Copy, Debug, PartialEq, Eq, PartialOrd, Ord, Structural)]
pub enum Tier {
    /// The title starts with the query.
    Prefix,
    /// The title contains the query further in.
    Inside,
    /// The title has the query's letters in order, with gaps.
    Letters,
    /// The title did not match and the group or pane name did.
    Group,
}

/// Where a match stands in the ranked list, lowest first: its [`Tier`], then
/// the character the match begins at, so within a tier the earlier match is
/// the higher row.
#[derive(Clone, Copy, Debug, PartialEq, Eq, PartialOrd, Ord, Structural)]
pub struct Rank(pub Tier, pub usize);

/// The place of `tier` in the order of the tiers.
pub open spec fn tier_order(tier: Tier) -> int {
    match tier {
        Tier::Prefix => 0,
        Tier::Inside => 1,
        Tier::Letters => 2,
        Tier::Group => 3,
    }
}

/// Whether `a` ranks strictly above `b`: a better tier, or the same tier and
/// an earlier start.
pub open spec fn rank_before(a: Rank, b: Rank) -> bool {
    tier_order(a.0) < tier_order(b.0) || (a.0 == b.0 && a.1 < b.1)
}

/// Whether `a` ranks strictly above `b`.
pub fn before(a: Rank, b: Rank) -> (yes: bool)
    ensures
        yes == rank_before(a, b),
{
    let (x, y) = (order(a.0), order(b.0));
    x < y || (x == y && a.1 < b.1)
}

fn order(tier: Tier) -> (at: u8)
    ensures
        at == tier_order(tier),
{
    match tier {
        Tier::Prefix => 0,
        Tier::Inside => 1,
        Tier::Letters => 2,
        Tier::Group => 3,
    }
}

/// Each character of `title` lower-cased, beside the bytes of `title` it
/// starts and ends at, so that a hit can be handed back as bytes.
pub open spec fn cells(title: Seq<char>) -> Seq<(usize, usize, char)>
    decreases title.len(),
{
    if title.len() == 0 {
        seq![]
    } else {
        cells(title.drop_last()).push(
            (
                utf8_size(title.drop_last()) as usize,
                utf8_size(title) as usize,
                lowered(title.last()),
            ),
        )
    }
}

proof fn lemma_cells_len(title: Seq<char>)
    ensures
        cells(title).len() == title.len(),
    decreases title.len(),
{
    if title.len() > 0 {
        lemma_cells_len(title.drop_last());
    }
}

/// Whether `query` stands in the lower-cased `cells` from cell `start` on.
pub open spec fn found_at(cells: Seq<(usize, usize, char)>, query: Seq<char>, start: int) -> bool {
    &&& 0 <= start
    &&& start + query.len() <= cells.len()
    &&& forall|k: int| 0 <= k < query.len() ==> cells[start + k].2 == query[k]
}

/// The first cell, from `start` on, that `query` stands at.
pub open spec fn first_from(cells: Seq<(usize, usize, char)>, query: Seq<char>, start: int) -> Option<int>
    decreases cells.len() - start,
{
    if start < 0 || start >= cells.len() {
        None
    } else if found_at(cells, query, start) {
        Some(start)
    } else {
        first_from(cells, query, start + 1)
    }
}

/// The cells, from `at` on, that take the query's letters in order, `taken`
/// of them already taken: each cell takes the next letter when it is that
/// letter, and the rest are passed over.
pub open spec fn letters(cells: Seq<(usize, usize, char)>, query: Seq<char>, at: int, taken: int) -> Seq<int>
    decreases cells.len() - at,
{
    if at < 0 || at >= cells.len() {
        seq![]
    } else if taken < query.len() && cells[at].2 == query[taken] {
        seq![at] + letters(cells, query, at + 1, taken + 1)
    } else {
        letters(cells, query, at + 1, taken)
    }
}

/// The byte ranges of the cells at `picked`.
pub open spec fn spans_of(cells: Seq<(usize, usize, char)>, picked: Seq<int>) -> Seq<(usize, usize)> {
    picked.map_values(|j: int| (cells[j].0, cells[j].1))
}

/// The match of the already lower-cased `query` against `title`: a blank
/// query matches everything at the top; a substring ranks first, at its
/// first place; failing that the query's letters in order anywhere in the
/// title, ranked by the first of them; failing that, no match. A rank's
/// offset is the byte of `title` the match begins at, and the hits are byte
/// ranges of `title`.
pub open spec fn score_of(title: Seq<char>, query: Seq<char>) -> Option<(Rank, Seq<(usize, usize)>)> {
    let c = cells(title);
    if query.len() == 0 {
        Some((Rank(Tier::Prefix, 0), seq![]))
    } else {
        match first_from(c, query, 0) {
            Some(at) => Some(
                (
                    Rank(if at == 0 { Tier::Prefix } else { Tier::Inside }, c[at].0),
                    seq![(c[at].0, c[at + query.len() - 1].1)],
                ),
            ),
            None => {
                let picked = letters(c, query, 0, 0);
                if picked.len() < query.len() {
                    None
                } else {
                    Some((Rank(Tier::Letters, c[picked[0]].0), spans_of(c, picked)))
                }
            },
        }
    }
}

/// A match as its rank and its hits' view.
pub open spec fn seen(scored: Option<(Rank, Vec<(usize, usize)>)>) -> Option<(Rank, Seq<(usize, usize)>)> {
    match scored {
        Some((rank, hits)) => Some((rank, hits@)),
        None => None,
    }
}

/// The cells of `title`, built left to right.
fn cells_in(title: &str) -> (built: Vec<(usize, usize, char)>)
    ensures
        built@ == cells(title@),
        built@.len() == title@.len(),
{
    let total = byte_len(title);
    let t = chars_of(title);
    let mut built: Vec<(usize, usize, char)> = Vec::new();
    let mut at: usize = 0;
    let mut i: usize = 0;
    while i < t.len()
        invariant
            0 <= i <= t@.len(),
            t@ == title@,
            total == utf8_size(t@),
            at == utf8_size(t@.take(i as int)),
            built@ == cells(t@.take(i as int)),
        decreases t.len() - i,
    {
        proof {
            lemma_utf8_size_prefix(t@, i + 1);
            assert(t@.take(i + 1).drop_last() =~= t@.take(i as int));
        }
        let w = width(t[i]);
        let next = at + w;
        built.push((at, next, lower(t[i])));
        at = next;
        i = i + 1;
    }
    proof {
        assert(t@.take(i as int) =~= t@);
        lemma_cells_len(t@);
    }
    built
}

/// Whether `query` stands in `cells` from `start` on.
fn stands_at(cells: &Vec<(usize, usize, char)>, query: &Vec<char>, start: usize) -> (yes: bool)
    requires
        start < cells@.len(),
    ensures
        yes == found_at(cells@, query@, start as int),
{
    let n = cells.len();
    let m = query.len();
    if n - start < m {
        return false;
    }
    let mut k: usize = 0;
    while k < m
        invariant
            0 <= k <= m,
            m == query@.len(),
            n == cells@.len(),
            start + m <= n,
            forall|j: int| 0 <= j < k ==> cells@[start + j].2 == query@[j],
        decreases m - k,
    {
        if cells[start + k].2 != query[k] {
            return false;
        }
        k = k + 1;
    }
    true
}

/// The match of `query`, already lower-cased, against `title`: a substring
/// first, at its offset; failing that the query's letters in order anywhere
/// in the title, "sen" finding "Sentence" and "tw" "Typewriter"; failing
/// that, none. The hits are byte ranges of `title`.
pub fn score(title: &str, query: &str) -> (scored: Option<(Rank, Vec<(usize, usize)>)>)
    ensures
        seen(scored) == score_of(title@, query@),
{
    let q = chars_of(query);
    if q.len() == 0 {
        let none: Vec<(usize, usize)> = Vec::new();
        proof {
            assert(none@ =~= seq![]);
        }
        return Some((Rank(Tier::Prefix, 0), none));
    }
    let cs = cells_in(title);
    let ghost c = cs@;
    let n = cs.len();
    let m = q.len();
    let mut start: usize = 0;
    while start < n
        invariant
            0 <= start <= n,
            n == c.len(),
            c == cs@,
            c == cells(title@),
            q@ == query@,
            m == q@.len(),
            m > 0,
            first_from(c, q@, 0) == first_from(c, q@, start as int),
        decreases n - start,
    {
        if stands_at(&cs, &q, start) {
            let end = cs[start + m - 1].1;
            let tier = if start == 0 {
                Tier::Prefix
            } else {
                Tier::Inside
            };
            let hits = vec![(cs[start].0, end)];
            proof {
                assert(hits@ =~= seq![(c[start as int].0, c[start + m - 1].1)]);
            }
            return Some((Rank(tier, cs[start].0), hits));
        }
        start = start + 1;
    }
    let mut hits: Vec<(usize, usize)> = Vec::new();
    let ghost mut picked: Seq<int> = seq![];
    let mut k: usize = 0;
    let mut first: usize = 0;
    let mut i: usize = 0;
    while i < n
        invariant
            0 <= i <= n,
            n == c.len(),
            c == cs@,
            m == q@.len(),
            0 <= k <= m,
            picked.len() == k,
            picked + letters(c, q@, i as int, k as int) == letters(c, q@, 0, 0),
            hits@ == spans_of(c, picked),
            forall|j: int| 0 <= j < k ==> 0 <= #[trigger] picked[j] < i,
            k > 0 ==> first == c[picked[0]].0,
        decreases n - i,
    {
        if k < m && cs[i].2 == q[k] {
            hits.push((cs[i].0, cs[i].1));
            if k == 0 {
                first = cs[i].0;
            }
            proof {
                assert(picked.push(i as int) + letters(c, q@, i + 1, k + 1) =~= picked + (seq![
                    i as int,
                ] + letters(c, q@, i + 1, k + 1)));
                picked = picked.push(i as int);
                assert(hits@ =~= spans_of(c, picked));
            }
            k = k + 1;
        }
        i = i + 1;
    }
    proof {
        assert(picked + seq![] =~= picked);
    }
    if k < m {
        return None;
    }
    Some((Rank(Tier::Letters, first), hits))
}

proof fn lemma_first_place_reached(c: Seq<(usize, usize, char)>, query: Seq<char>, s: int, at: int)
    requires
        query.len() > 0,
        0 <= s <= at,
        found_at(c, query, at),
        forall|k: int| s <= k < at ==> !#[trigger] found_at(c, query, k),
    ensures
        first_from(c, query, s) == Some(at),
    decreases at - s,
{
    if s < at {
        lemma_first_place_reached(c, query, s + 1, at);
    }
}

proof fn lemma_first_cell_starts_at_zero(title: Seq<char>)
    requires
        title.len() > 0,
    ensures
        cells(title)[0].0 == 0,
    decreases title.len(),
{
    lemma_cells_len(title.drop_last());
    if title.len() > 1 {
        lemma_first_cell_starts_at_zero(title.drop_last());
    }
}

/// A query that stands in a title scores at the first place it stands: the
/// rank's offset and the one hit begin at the leftmost cell the query's
/// letters run from, in the Prefix tier when that is the title's first cell
/// and the Inside tier otherwise; a title that begins with the query so
/// scores Prefix at byte 0.
pub proof fn lemma_a_substring_scores_at_its_first_place(title: Seq<char>, query: Seq<char>, at: int)
    requires
        query.len() > 0,
        0 <= at,
        at + query.len() <= title.len(),
        forall|j: int| 0 <= j < query.len() ==> cells(title)[at + j].2 == #[trigger] query[j],
        forall|k: int| 0 <= k < at ==> !#[trigger] found_at(cells(title), query, k),
    ensures
        score_of(title, query) == Some(
            (
                Rank(if at == 0 { Tier::Prefix } else { Tier::Inside }, cells(title)[at].0),
                seq![(cells(title)[at].0, cells(title)[at + query.len() - 1].1)],
            ),
        ),
        at == 0 ==> score_of(title, query) == Some(
            (Rank(Tier::Prefix, 0), seq![(0usize, cells(title)[query.len() - 1].1)]),
        ),
{
    lemma_cells_len(title);
    lemma_first_place_reached(cells(title), query, 0, at);
    lemma_first_cell_starts_at_zero(title);
}

/// Whether `a` comes strictly before `b` in `str`'s order: the first
/// character they differ at decides, and a prefix comes first.
pub open spec fn text_before(a: Seq<char>, b: Seq<char>) -> bool
    decreases a.len(),
{
    if a.len() == 0 {
        b.len() > 0
    } else if b.len() == 0 {
        false
    } else if a[0] != b[0] {
        a[0] < b[0]
    } else {
        text_before(a.drop_first(), b.drop_first())
    }
}

proof fn lemma_text_before_skip(a: Seq<char>, b: Seq<char>, i: int)
    requires
        0 <= i < a.len(),
        i < b.len(),
        a[i] == b[i],
    ensures
        text_before(a.skip(i), b.skip(i)) == text_before(a.skip(i + 1), b.skip(i + 1)),
{
    assert(a.skip(i).drop_first() =~= a.skip(i + 1));
    assert(b.skip(i).drop_first() =~= b.skip(i + 1));
}

/// Whether `a` comes strictly before `b` in `str`'s order.
pub fn str_before(a: &str, b: &str) -> (yes: bool)
    ensures
        yes == text_before(a@, b@),
{
    let n = a.unicode_len();
    let m = b.unicode_len();
    let mut i: usize = 0;
    proof {
        assert(a@.skip(0) =~= a@);
        assert(b@.skip(0) =~= b@);
    }
    while i < n && i < m && a.get_char(i) == b.get_char(i)
        invariant
            0 <= i <= n,
            i <= m,
            n == a@.len(),
            m == b@.len(),
            text_before(a@, b@) == text_before(a@.skip(i as int), b@.skip(i as int)),
        decreases n - i,
    {
        proof {
            lemma_text_before_skip(a@, b@, i as int);
        }
        i = i + 1;
    }
    if i == n {
        i < m
    } else if i == m {
        false
    } else {
        a.get_char(i) < b.get_char(i)
    }
}

/// Whether the entry keyed `a` comes strictly before the one keyed `b`: by
/// rank, and within a rank by the text that breaks the tie.
pub open spec fn key_before(a: (Rank, Seq<char>), b: (Rank, Seq<char>)) -> bool {
    rank_before(a.0, b.0) || (a.0 == b.0 && text_before(a.1, b.1))
}

/// The key an entry of a ranked list sorts on.
pub open spec fn key_of<'a, T>(entry: (Rank, &'a str, T)) -> (Rank, Seq<char>) {
    (entry.0, entry.1@)
}

/// `sorted` with `entry` placed after every entry it does not come before.
pub open spec fn insert_ranked<'a, T>(sorted: Seq<(Rank, &'a str, T)>, entry: (Rank, &'a str, T)) -> Seq<(Rank, &'a str, T)>
    decreases sorted.len(),
{
    if sorted.len() == 0 {
        seq![entry]
    } else if !key_before(key_of(entry), key_of(sorted.last())) {
        sorted.push(entry)
    } else {
        insert_ranked(sorted.drop_last(), entry).push(sorted.last())
    }
}

/// `entries` in a stable sort by key: lowest key first, and entries whose
/// keys tie in the order they were given.
pub open spec fn ranked<'a, T>(entries: Seq<(Rank, &'a str, T)>) -> Seq<(Rank, &'a str, T)>
    decreases entries.len(),
{
    if entries.len() == 0 {
        seq![]
    } else {
        insert_ranked(ranked(entries.drop_last()), entries.last())
    }
}

fn comes_before<'a, T>(a: &(Rank, &'a str, T), b: &(Rank, &'a str, T)) -> (yes: bool)
    ensures
        yes == key_before(key_of(*a), key_of(*b)),
{
    if before(a.0, b.0) {
        true
    } else if a.0.0 == b.0.0 && a.0.1 == b.0.1 {
        str_before(a.1, b.1)
    } else {
        false
    }
}

/// `entries` sorted by key, stably.
pub fn rank_sort<'a, T>(entries: Vec<(Rank, &'a str, T)>) -> (sorted: Vec<(Rank, &'a str, T)>)
    ensures
        sorted@ == ranked(entries@),
{
    let ghost given = entries@;
    let mut rest = entries;
    let mut sorted: Vec<(Rank, &'a str, T)> = Vec::new();
    let mut i: usize = 0;
    let n = rest.len();
    while i < n
        invariant
            0 <= i <= n,
            n == given.len(),
            rest@ == given.skip(i as int),
            sorted@ == ranked(given.take(i as int)),
        decreases n - i,
    {
        let entry = rest.remove(0);
        proof {
            assert(entry == given[i as int]);
            assert(given.skip(i as int).remove(0) =~= given.skip(i + 1));
            assert(given.take(i + 1).drop_last() =~= given.take(i as int));
        }
        let ghost s = sorted@;
        let mut j: usize = sorted.len();
        proof {
            assert(s.take(j as int) =~= s);
            assert(s.skip(j as int) =~= seq![]);
            assert(insert_ranked(s, entry) =~= insert_ranked(s.take(j as int), entry) + s.skip(j as int));
        }
        while j > 0 && comes_before(&entry, &sorted[j - 1])
            invariant
                0 <= j <= s.len(),
                sorted@ == s,
                insert_ranked(s, entry) == insert_ranked(s.take(j as int), entry) + s.skip(j as int),
            decreases j,
        {
            proof {
                let t = s.take(j as int);
                assert(t.drop_last() =~= s.take(j - 1));
                assert(t.last() == s[j - 1]);
                assert(insert_ranked(t, entry) == insert_ranked(s.take(j - 1), entry).push(s[j - 1]));
                assert(insert_ranked(s.take(j - 1), entry).push(s[j - 1]) + s.skip(j as int) =~= insert_ranked(s.take(j - 1), entry) + s.skip(j - 1));
            }
            j = j - 1;
        }
        proof {
            let t = s.take(j as int);
            if j > 0 {
                assert(t.last() == s[j - 1]);
            }
            assert(insert_ranked(t, entry) =~= t.push(entry));
            assert(t.push(entry) + s.skip(j as int) =~= s.insert(j as int, entry));
        }
        sorted.insert(j, entry);
        i = i + 1;
    }
    proof {
        assert(given.take(n as int) =~= given);
    }
    sorted
}

proof fn lemma_insert_ranked_members<'a, T>(sorted: Seq<(Rank, &'a str, T)>, entry: (Rank, &'a str, T))
    ensures
        insert_ranked(sorted, entry).len() == sorted.len() + 1,
        forall|x| #[trigger] insert_ranked(sorted, entry).contains(x) ==> x == entry || sorted.contains(x),
    decreases sorted.len(),
{
    if sorted.len() > 0 && key_before(key_of(entry), key_of(sorted.last())) {
        let shorter = sorted.drop_last();
        lemma_insert_ranked_members(shorter, entry);
        assert forall|x| #[trigger] insert_ranked(sorted, entry).contains(x) implies x == entry
            || sorted.contains(x) by {
            let r = insert_ranked(sorted, entry);
            let j = choose|j: int| 0 <= j < r.len() && r[j] == x;
            if j < r.len() - 1 {
                assert(insert_ranked(shorter, entry).contains(x)) by {
                    assert(insert_ranked(shorter, entry)[j] == x);
                }
                if x != entry {
                    let m = choose|m: int| 0 <= m < shorter.len() && shorter[m] == x;
                    assert(sorted[m] == x);
                }
            } else {
                assert(sorted[sorted.len() - 1] == x);
            }
        }
    } else if sorted.len() > 0 {
        assert forall|x| #[trigger] insert_ranked(sorted, entry).contains(x) implies x == entry
            || sorted.contains(x) by {
            let r = insert_ranked(sorted, entry);
            let j = choose|j: int| 0 <= j < r.len() && r[j] == x;
            if j < sorted.len() {
                assert(sorted[j] == x);
            }
        }
    }
}

/// A stable sort keeps the entries it is given, neither adding nor dropping
/// one.
pub proof fn lemma_ranked_members<'a, T>(entries: Seq<(Rank, &'a str, T)>)
    ensures
        ranked(entries).len() == entries.len(),
        forall|x| #[trigger] ranked(entries).contains(x) ==> entries.contains(x),
    decreases entries.len(),
{
    if entries.len() > 0 {
        let shorter = entries.drop_last();
        lemma_ranked_members(shorter);
        lemma_insert_ranked_members(ranked(shorter), entries.last());
        assert forall|x| #[trigger] ranked(entries).contains(x) implies entries.contains(x) by {
            if x == entries.last() {
                assert(entries[entries.len() - 1] == x);
            } else {
                assert(ranked(shorter).contains(x));
                let m = choose|m: int| 0 <= m < shorter.len() && shorter[m] == x;
                assert(entries[m] == x);
            }
        }
    }
}

proof fn lemma_setting_entries(table: Seq<Setting>, q: Seq<char>, n: int)
    requires
        0 <= n <= table.len() <= usize::MAX,
    ensures
        forall|e| #[trigger] setting_entries(table, q, n).contains(e) ==> e.2 < n
            && setting_match(table[e.2 as int], q) is Some,
    decreases n,
{
    if n > 0 {
        lemma_setting_entries(table, q, n - 1);
        let before = setting_entries(table, q, n - 1);
        assert forall|e| #[trigger] setting_entries(table, q, n).contains(e) implies e.2 < n
            && setting_match(table[e.2 as int], q) is Some by {
            let all = setting_entries(table, q, n);
            let j = choose|j: int| 0 <= j < all.len() && all[j] == e;
            match setting_match(table[n - 1], q) {
                Some((rank, _)) => {
                    assert(all == before.push((rank, "", (n - 1) as usize)));
                    if j < before.len() {
                        assert(before[j] == e);
                        assert(before.contains(e));
                    }
                },
                None => {
                    assert(all == before);
                    assert(before[j] == e);
                    assert(before.contains(e));
                },
            }
        }
    }
}

pub(crate) proof fn lemma_text_asymmetric(a: Seq<char>, b: Seq<char>)
    ensures
        text_before(a, b) ==> !text_before(b, a),
        !text_before(a, b) && !text_before(b, a) ==> a == b,
    decreases a.len(),
{
    if a.len() > 0 && b.len() > 0 && a[0] == b[0] {
        lemma_text_asymmetric(a.drop_first(), b.drop_first());
        if !text_before(a, b) && !text_before(b, a) {
            assert(a =~= seq![a[0]] + a.drop_first());
            assert(b =~= seq![b[0]] + b.drop_first());
        }
    } else if a.len() == 0 && b.len() == 0 {
        assert(a =~= b);
    }
}

pub(crate) proof fn lemma_text_between(a: Seq<char>, b: Seq<char>, c: Seq<char>)
    ensures
        text_before(a, c) ==> text_before(a, b) || text_before(b, c),
    decreases a.len(),
{
    if text_before(a, c) && a.len() > 0 && b.len() > 0 && c.len() > 0 && a[0] == b[0] && b[0] == c[0] {
        lemma_text_between(a.drop_first(), b.drop_first(), c.drop_first());
    }
}

proof fn lemma_key_order(a: (Rank, Seq<char>), b: (Rank, Seq<char>), c: (Rank, Seq<char>))
    ensures
        key_before(a, b) ==> !key_before(b, a),
        !key_before(a, b) && !key_before(b, a) ==> a == b,
        key_before(a, c) ==> key_before(a, b) || key_before(b, c),
{
    lemma_text_asymmetric(a.1, b.1);
    lemma_text_between(a.1, b.1, c.1);
    if !key_before(a, b) && !key_before(b, a) {
        assert(a.0.0 == b.0.0 && a.0.1 == b.0.1) by {
            assert(tier_order(a.0.0) == tier_order(b.0.0));
        }
        assert(a.0 == b.0);
    }
}

/// Whether a ranked list keeps its order: each entry's key comes before
/// the next one's, or ties with it and came first.
pub open spec fn in_rank_order<'a>(entries: Seq<(Rank, &'a str, usize)>) -> bool {
    forall|i: int, j: int|
        0 <= i < j < entries.len() ==> key_before(key_of(#[trigger] entries[i]), key_of(#[trigger] entries[j]))
            || (key_of(entries[i]) == key_of(entries[j]) && entries[i].2 < entries[j].2)
}

proof fn lemma_insert_in_order<'a>(sorted: Seq<(Rank, &'a str, usize)>, entry: (Rank, &'a str, usize))
    requires
        in_rank_order(sorted),
        forall|k: int| 0 <= k < sorted.len() ==> (#[trigger] sorted[k]).2 < entry.2,
    ensures
        in_rank_order(insert_ranked(sorted, entry)),
    decreases sorted.len(),
{
    let r = insert_ranked(sorted, entry);
    if sorted.len() == 0 {
    } else if !key_before(key_of(entry), key_of(sorted.last())) {
        let last = sorted.len() - 1;
        assert forall|i: int, j: int| 0 <= i < j < r.len() implies key_before(key_of(#[trigger] r[i]), key_of(#[trigger] r[j]))
            || (key_of(r[i]) == key_of(r[j]) && r[i].2 < r[j].2) by {
            if j == sorted.len() {
                let ki = key_of(sorted[i]);
                let ke = key_of(entry);
                let kl = key_of(sorted[last]);
                lemma_key_order(ki, ke, kl);
                lemma_key_order(ke, ki, kl);
                lemma_key_order(ke, kl, ki);
                if i < last {
                    assert(key_before(ki, kl) || ki == kl);
                }
            } else {
                assert(r[i] == sorted[i] && r[j] == sorted[j]);
            }
        }
    } else {
        let shorter = sorted.drop_last();
        let last = sorted.last();
        assert(in_rank_order(shorter)) by {
            assert forall|i: int, j: int| 0 <= i < j < shorter.len() implies key_before(key_of(#[trigger] shorter[i]), key_of(#[trigger] shorter[j]))
                || (key_of(shorter[i]) == key_of(shorter[j]) && shorter[i].2 < shorter[j].2) by {
                assert(shorter[i] == sorted[i] && shorter[j] == sorted[j]);
            }
        }
        lemma_insert_in_order(shorter, entry);
        lemma_insert_ranked_members(shorter, entry);
        let inner = insert_ranked(shorter, entry);
        lemma_key_order(key_of(entry), key_of(last), key_of(last));
        assert forall|i: int, j: int| 0 <= i < j < r.len() implies key_before(key_of(#[trigger] r[i]), key_of(#[trigger] r[j]))
            || (key_of(r[i]) == key_of(r[j]) && r[i].2 < r[j].2) by {
            if j == inner.len() {
                assert(r[j] == last);
                assert(inner.contains(r[i])) by {
                    assert(inner[i] == r[i]);
                }
                if r[i] != entry {
                    let m = choose|m: int| 0 <= m < shorter.len() && shorter[m] == r[i];
                    assert(sorted[m] == r[i]);
                    assert(sorted[sorted.len() - 1] == last);
                }
            } else {
                assert(r[i] == inner[i] && r[j] == inner[j]);
            }
        }
    }
}

/// The ranked lists keep their order: an entry stands above another when
/// its rank, or failing that its tie-breaking text, comes first, and
/// entries that tie stay in the order they were given, so that two rows
/// matched alike keep the order the writer was handed them in.
pub proof fn lemma_ranked_in_order<'a>(entries: Seq<(Rank, &'a str, usize)>)
    requires
        forall|i: int, j: int| 0 <= i < j < entries.len() ==> (#[trigger] entries[i]).2 < (#[trigger] entries[j]).2,
    ensures
        in_rank_order(ranked(entries)),
    decreases entries.len(),
{
    if entries.len() > 0 {
        let shorter = entries.drop_last();
        assert forall|i: int, j: int| 0 <= i < j < shorter.len() implies (#[trigger] shorter[i]).2 < (#[trigger] shorter[j]).2 by {
            assert(shorter[i] == entries[i] && shorter[j] == entries[j]);
        }
        lemma_ranked_in_order(shorter);
        lemma_ranked_members(shorter);
        let last = entries.last();
        assert forall|k: int| 0 <= k < ranked(shorter).len() implies (#[trigger] ranked(shorter)[k]).2 < last.2 by {
            assert(ranked(shorter).contains(ranked(shorter)[k]));
            let m = choose|m: int| 0 <= m < shorter.len() && shorter[m] == ranked(shorter)[k];
            assert(entries[m] == shorter[m]);
            assert(entries[entries.len() - 1] == last);
        }
        lemma_insert_in_order(ranked(shorter), last);
    }
}

/// The query as every listing reads it: trimmed, then lower-cased.
pub open spec fn normalized(query: Seq<char>) -> Seq<char> {
    lowercase(trimmed(query))
}

/// The query trimmed and lower-cased.
fn normalize(query: &str) -> (q: String)
    ensures
        q@ == normalized(query@),
        trimmed(query@).len() == 0 ==> q@.len() == 0,
{
    let t = trim(query);
    to_lower(t.as_str())
}

/// One of the Settings window's five panes, in the sidebar's order.
#[derive(Clone, Copy, Debug, PartialEq, Eq, Structural)]
pub enum Pane {
    /// The theme, the bars, Typewriter's anchor and Spell check's language.
    General,
    /// Locations, Pinned and the sidebar's four file toggles.
    Library,
    /// The five Templates and their three toggles.
    Template,
    /// The page an export is laid out on.
    Export,
    /// The file itself, and the lines of it the last read refused.
    Advanced,
}

/// What the sidebar calls `pane`.
pub open spec fn pane_label(pane: Pane) -> &'static str {
    match pane {
        Pane::General => "General",
        Pane::Library => "Library",
        Pane::Template => "Template",
        Pane::Export => "Export",
        Pane::Advanced => "Advanced",
    }
}

/// Every pane, in the sidebar's order.
pub open spec fn all_panes() -> Seq<Pane> {
    seq![Pane::General, Pane::Library, Pane::Template, Pane::Export, Pane::Advanced]
}

/// Whether `a` and `b` are the same text but for the case of ASCII letters.
pub open spec fn same_ignoring_ascii_case(a: Seq<char>, b: Seq<char>) -> bool {
    a.len() == b.len() && forall|k: int| 0 <= k < a.len() ==> ascii_lower(a[k]) == ascii_lower(b[k])
}

/// Whether `a` and `b` are the same text but for the case of ASCII letters.
fn eq_ignoring_ascii_case(a: &str, b: &str) -> (yes: bool)
    ensures
        yes == same_ignoring_ascii_case(a@, b@),
{
    let n = a.unicode_len();
    if n != b.unicode_len() {
        return false;
    }
    let mut k: usize = 0;
    while k < n
        invariant
            0 <= k <= n,
            n == a@.len() == b@.len(),
            forall|j: int| 0 <= j < k ==> ascii_lower(a@[j]) == ascii_lower(b@[j]),
        decreases n - k,
    {
        if to_ascii_lower(a.get_char(k)) != to_ascii_lower(b.get_char(k)) {
            return false;
        }
        k = k + 1;
    }
    true
}

/// The first of `panes` whose name is `name` in any ASCII case.
pub open spec fn pane_named(panes: Seq<Pane>, name: Seq<char>) -> Option<Pane>
    decreases panes.len(),
{
    if panes.len() == 0 {
        None
    } else if same_ignoring_ascii_case(pane_label(panes[0])@, name) {
        Some(panes[0])
    } else {
        pane_named(panes.drop_first(), name)
    }
}

/// A pane is found by its own name, written as the sidebar writes it or in
/// ASCII lower case.
pub proof fn lemma_a_pane_answers_to_its_name(pane: Pane)
    ensures
        pane_named(all_panes(), pane_label(pane)@) == Some(pane),
        pane_named(all_panes(), pane_label(pane)@.map_values(|c: char| ascii_lower(c))) == Some(pane),
{
    reveal_strlit("General");
    reveal_strlit("Library");
    reveal_strlit("Template");
    reveal_strlit("Export");
    reveal_strlit("Advanced");
    reveal_with_fuel(pane_named, 6);
    let panes = all_panes();
    let name = pane_label(pane)@;
    let low = name.map_values(|c: char| ascii_lower(c));
    assert forall|k: int| 0 <= k < name.len() implies ascii_lower(name[k]) == ascii_lower(#[trigger] low[k]) by {}
    assert(same_ignoring_ascii_case(name, name));
    assert(same_ignoring_ascii_case(name, low));
    assert(panes.drop_first() =~= seq![Pane::Library, Pane::Template, Pane::Export, Pane::Advanced]);
    assert(panes.drop_first().drop_first() =~= seq![Pane::Template, Pane::Export, Pane::Advanced]);
    assert(panes.drop_first().drop_first().drop_first() =~= seq![Pane::Export, Pane::Advanced]);
    assert(panes.drop_first().drop_first().drop_first().drop_first() =~= seq![Pane::Advanced]);
    // The names that share a length part at their first letter.
    assert(ascii_lower("General"@[0]) != ascii_lower("Library"@[0]));
    assert(ascii_lower("Template"@[0]) != ascii_lower("Advanced"@[0]));
    match pane {
        Pane::General => {},
        Pane::Library => {
            assert(!same_ignoring_ascii_case("General"@, name));
            assert(!same_ignoring_ascii_case("General"@, low));
        },
        Pane::Template => {
            assert(!same_ignoring_ascii_case("General"@, name));
            assert(!same_ignoring_ascii_case("Library"@, name));
            assert(!same_ignoring_ascii_case("General"@, low));
            assert(!same_ignoring_ascii_case("Library"@, low));
        },
        Pane::Export => {
            assert(!same_ignoring_ascii_case("General"@, name));
            assert(!same_ignoring_ascii_case("Library"@, name));
            assert(!same_ignoring_ascii_case("Template"@, name));
            assert(!same_ignoring_ascii_case("General"@, low));
            assert(!same_ignoring_ascii_case("Library"@, low));
            assert(!same_ignoring_ascii_case("Template"@, low));
        },
        Pane::Advanced => {
            assert(!same_ignoring_ascii_case("General"@, name));
            assert(!same_ignoring_ascii_case("Library"@, name));
            assert(!same_ignoring_ascii_case("Export"@, name));
            assert(!same_ignoring_ascii_case("General"@, low));
            assert(!same_ignoring_ascii_case("Library"@, low));
            assert(!same_ignoring_ascii_case("Template"@, name));
            assert(!same_ignoring_ascii_case("Template"@, low));
            assert(!same_ignoring_ascii_case("Export"@, low));
        },
    }
}

impl Pane {
    /// Every pane, in the sidebar's order.
    pub fn all() -> (panes: [Pane; 5])
        ensures
            panes@ == all_panes(),
    {
        let panes = [Pane::General, Pane::Library, Pane::Template, Pane::Export, Pane::Advanced];
        proof {
            assert(panes@ =~= all_panes());
        }
        panes
    }

    /// What the sidebar and a search result call the pane.
    pub fn name(self) -> (name: &'static str)
        ensures
            name == pane_label(self),
    {
        match self {
            Pane::General => "General",
            Pane::Library => "Library",
            Pane::Template => "Template",
            Pane::Export => "Export",
            Pane::Advanced => "Advanced",
        }
    }

    /// The pane the sidebar calls `name`, in any ASCII case, or none.
    pub fn from_name(name: &str) -> (pane: Option<Pane>)
        ensures
            pane == pane_named(all_panes(), name@),
    {
        let panes = Pane::all();
        let mut i: usize = 0;
        proof {
            assert(all_panes().skip(0) =~= all_panes());
        }
        while i < 5
            invariant
                0 <= i <= 5,
                panes@ == all_panes(),
                pane_named(all_panes(), name@) == pane_named(all_panes().skip(i as int), name@),
            decreases 5 - i,
        {
            proof {
                assert(all_panes().skip(i as int).drop_first() =~= all_panes().skip(i + 1));
            }
            if eq_ignoring_ascii_case(panes[i].name(), name) {
                return Some(panes[i]);
            }
            i = i + 1;
        }
        proof {
            assert(all_panes().skip(5) =~= seq![]);
        }
        None
    }
}

/// The control a Settings row carries.
#[derive(Clone, Copy, Debug, PartialEq, Eq)]
pub enum Control {
    /// On or off.
    Switch,
    /// One of a list, in a popup.
    Dropdown,
    /// A whole number stepped by − and +.
    Spin,
    /// A fraction dragged along a trough.
    Scale,
    /// One of a group of rows sharing the key, each writing its own value.
    Radio {
        /// What the row writes to its key, as the file spells it.
        value: &'static str,
    },
    /// A button that acts on the file rather than setting a key.
    Button,
    /// No control that fits a row: the Palette opens the window on the
    /// row's pane, and the window's search scrolls to it.
    Jump,
}

/// One row of the Settings window, which the window builds and which both
/// its search and the Palette find.
#[derive(Clone, Copy, Debug, PartialEq, Eq)]
pub struct Setting {
    /// What the row reads.
    pub label: &'static str,
    /// The pane it sits in.
    pub pane: Pane,
    /// The `settings.toml` key it writes, dotted under its table; none for
    /// the rows that set no key.
    pub key: Option<&'static str>,
    /// The control it carries.
    pub control: Control,
    /// The Command that already sets it, where one does. The Palette lists
    /// such a row as that Command and leaves it out of its settings group.
    pub command: Option<&'static str>,
}

/// Every row of the Settings window once, pane by pane in the sidebar's
/// order and in each pane's own order.
pub open spec fn settings_table() -> Seq<Setting> {
    seq![
        Setting {
            label: "Dark Mode",
            pane: Pane::General,
            key: Some("theme"),
            control: Control::Switch,
            command: Some("theme.toggle"),
        },
        Setting {
            label: "Follow System",
            pane: Pane::General,
            key: Some("theme"),
            control: Control::Switch,
            command: Some("theme.auto"),
        },
        Setting {
            label: "Hide Bars",
            pane: Pane::General,
            key: Some("chrome"),
            control: Control::Switch,
            command: Some("chrome.toggle"),
        },
        Setting {
            label: "Typewriter anchor",
            pane: Pane::General,
            key: Some("typewriter_anchor"),
            control: Control::Scale,
            command: None,
        },
        Setting {
            label: "Spell check language",
            pane: Pane::General,
            key: Some("spell_language"),
            control: Control::Dropdown,
            command: None,
        },
        Setting {
            label: "Locations",
            pane: Pane::Library,
            key: Some("library.locations"),
            control: Control::Jump,
            command: None,
        },
        Setting {
            label: "Pinned",
            pane: Pane::Library,
            key: Some("library.pinned"),
            control: Control::Jump,
            command: None,
        },
        Setting {
            label: "Show hidden folders",
            pane: Pane::Library,
            key: Some("library.show_hidden"),
            control: Control::Switch,
            command: None,
        },
        Setting {
            label: "Show file extensions",
            pane: Pane::Library,
            key: Some("library.show_extensions"),
            control: Control::Switch,
            command: None,
        },
        Setting {
            label: "Confirm before moving files",
            pane: Pane::Library,
            key: Some("library.confirm_move"),
            control: Control::Switch,
            command: None,
        },
        Setting {
            label: "Always ask where to save",
            pane: Pane::Library,
            key: Some("library.ask_where_to_save"),
            control: Control::Switch,
            command: None,
        },
        Setting {
            label: "Modern",
            pane: Pane::Template,
            key: Some("template.name"),
            control: Control::Radio { value: "modern" },
            command: Some("template.modern"),
        },
        Setting {
            label: "Classic",
            pane: Pane::Template,
            key: Some("template.name"),
            control: Control::Radio { value: "classic" },
            command: Some("template.classic"),
        },
        Setting {
            label: "Manuscript Mono",
            pane: Pane::Template,
            key: Some("template.name"),
            control: Control::Radio { value: "manuscript-mono" },
            command: Some("template.manuscriptMono"),
        },
        Setting {
            label: "Manuscript Duo",
            pane: Pane::Template,
            key: Some("template.name"),
            control: Control::Radio { value: "manuscript-duo" },
            command: Some("template.manuscriptDuo"),
        },
        Setting {
            label: "Manuscript Quattro",
            pane: Pane::Template,
            key: Some("template.name"),
            control: Control::Radio { value: "manuscript-quattro" },
            command: Some("template.manuscriptQuattro"),
        },
        Setting {
            label: "Center headings",
            pane: Pane::Template,
            key: Some("template.center_headings"),
            control: Control::Switch,
            command: Some("template.centerHeadings"),
        },
        Setting {
            label: "Number headings",
            pane: Pane::Template,
            key: Some("template.number_headings"),
            control: Control::Switch,
            command: Some("template.numberHeadings"),
        },
        Setting {
            label: "Indent paragraphs",
            pane: Pane::Template,
            key: Some("template.indent_paragraphs"),
            control: Control::Switch,
            command: Some("template.indentParagraphs"),
        },
        Setting {
            label: "Paper",
            pane: Pane::Export,
            key: Some("export.paper"),
            control: Control::Dropdown,
            command: None,
        },
        Setting {
            label: "Margin (mm)",
            pane: Pane::Export,
            key: Some("export.margin"),
            control: Control::Spin,
            command: None,
        },
        Setting {
            label: "Text size (pt)",
            pane: Pane::Export,
            key: Some("export.text_size"),
            control: Control::Spin,
            command: None,
        },
        Setting {
            label: "Title page",
            pane: Pane::Export,
            key: Some("export.title_page"),
            control: Control::Switch,
            command: None,
        },
        Setting {
            label: "Header",
            pane: Pane::Export,
            key: Some("export.header"),
            control: Control::Switch,
            command: None,
        },
        Setting {
            label: "Footer",
            pane: Pane::Export,
            key: Some("export.footer"),
            control: Control::Switch,
            command: None,
        },
        Setting {
            label: "Edit settings.toml…",
            pane: Pane::Advanced,
            key: None,
            control: Control::Button,
            command: None,
        },
        Setting {
            label: "Not applied from settings.toml",
            pane: Pane::Advanced,
            key: None,
            control: Control::Jump,
            command: None,
        },
    ]
}

/// Every row of the Settings window, as [`settings_table`] lists them.
#[verifier::rlimit(50)]
pub fn settings_rows() -> (rows: Vec<Setting>)
    ensures
        rows@ == settings_table(),
{
    let mut rows: Vec<Setting> = Vec::new();
    rows.push(Setting {
        label: "Dark Mode",
        pane: Pane::General,
        key: Some("theme"),
        control: Control::Switch,
        command: Some("theme.toggle"),
    });
    rows.push(Setting {
        label: "Follow System",
        pane: Pane::General,
        key: Some("theme"),
        control: Control::Switch,
        command: Some("theme.auto"),
    });
    rows.push(Setting {
        label: "Hide Bars",
        pane: Pane::General,
        key: Some("chrome"),
        control: Control::Switch,
        command: Some("chrome.toggle"),
    });
    rows.push(Setting {
        label: "Typewriter anchor",
        pane: Pane::General,
        key: Some("typewriter_anchor"),
        control: Control::Scale,
        command: None,
    });
    rows.push(Setting {
        label: "Spell check language",
        pane: Pane::General,
        key: Some("spell_language"),
        control: Control::Dropdown,
        command: None,
    });
    rows.push(Setting {
        label: "Locations",
        pane: Pane::Library,
        key: Some("library.locations"),
        control: Control::Jump,
        command: None,
    });
    rows.push(Setting {
        label: "Pinned",
        pane: Pane::Library,
        key: Some("library.pinned"),
        control: Control::Jump,
        command: None,
    });
    rows.push(Setting {
        label: "Show hidden folders",
        pane: Pane::Library,
        key: Some("library.show_hidden"),
        control: Control::Switch,
        command: None,
    });
    rows.push(Setting {
        label: "Show file extensions",
        pane: Pane::Library,
        key: Some("library.show_extensions"),
        control: Control::Switch,
        command: None,
    });
    rows.push(Setting {
        label: "Confirm before moving files",
        pane: Pane::Library,
        key: Some("library.confirm_move"),
        control: Control::Switch,
        command: None,
    });
    rows.push(Setting {
        label: "Always ask where to save",
        pane: Pane::Library,
        key: Some("library.ask_where_to_save"),
        control: Control::Switch,
        command: None,
    });
    rows.push(Setting {
        label: "Modern",
        pane: Pane::Template,
        key: Some("template.name"),
        control: Control::Radio { value: "modern" },
        command: Some("template.modern"),
    });
    rows.push(Setting {
        label: "Classic",
        pane: Pane::Template,
        key: Some("template.name"),
        control: Control::Radio { value: "classic" },
        command: Some("template.classic"),
    });
    rows.push(Setting {
        label: "Manuscript Mono",
        pane: Pane::Template,
        key: Some("template.name"),
        control: Control::Radio { value: "manuscript-mono" },
        command: Some("template.manuscriptMono"),
    });
    rows.push(Setting {
        label: "Manuscript Duo",
        pane: Pane::Template,
        key: Some("template.name"),
        control: Control::Radio { value: "manuscript-duo" },
        command: Some("template.manuscriptDuo"),
    });
    rows.push(Setting {
        label: "Manuscript Quattro",
        pane: Pane::Template,
        key: Some("template.name"),
        control: Control::Radio { value: "manuscript-quattro" },
        command: Some("template.manuscriptQuattro"),
    });
    rows.push(Setting {
        label: "Center headings",
        pane: Pane::Template,
        key: Some("template.center_headings"),
        control: Control::Switch,
        command: Some("template.centerHeadings"),
    });
    rows.push(Setting {
        label: "Number headings",
        pane: Pane::Template,
        key: Some("template.number_headings"),
        control: Control::Switch,
        command: Some("template.numberHeadings"),
    });
    rows.push(Setting {
        label: "Indent paragraphs",
        pane: Pane::Template,
        key: Some("template.indent_paragraphs"),
        control: Control::Switch,
        command: Some("template.indentParagraphs"),
    });
    rows.push(Setting {
        label: "Paper",
        pane: Pane::Export,
        key: Some("export.paper"),
        control: Control::Dropdown,
        command: None,
    });
    rows.push(Setting {
        label: "Margin (mm)",
        pane: Pane::Export,
        key: Some("export.margin"),
        control: Control::Spin,
        command: None,
    });
    rows.push(Setting {
        label: "Text size (pt)",
        pane: Pane::Export,
        key: Some("export.text_size"),
        control: Control::Spin,
        command: None,
    });
    rows.push(Setting {
        label: "Title page",
        pane: Pane::Export,
        key: Some("export.title_page"),
        control: Control::Switch,
        command: None,
    });
    rows.push(Setting {
        label: "Header",
        pane: Pane::Export,
        key: Some("export.header"),
        control: Control::Switch,
        command: None,
    });
    rows.push(Setting {
        label: "Footer",
        pane: Pane::Export,
        key: Some("export.footer"),
        control: Control::Switch,
        command: None,
    });
    rows.push(Setting {
        label: "Edit settings.toml…",
        pane: Pane::Advanced,
        key: None,
        control: Control::Button,
        command: None,
    });
    rows.push(Setting {
        label: "Not applied from settings.toml",
        pane: Pane::Advanced,
        key: None,
        control: Control::Jump,
        command: None,
    });
    proof {
        assert(rows@ =~= settings_table());
    }
    rows
}

/// One match of the settings listing.
#[derive(Clone, Debug, PartialEq, Eq)]
pub struct Found {
    /// The row matched.
    pub setting: Setting,
    /// The byte ranges of its label the query matched; none when only its
    /// pane's name did.
    pub hits: Vec<(usize, usize)>,
}

impl Found {
    /// Whether the Palette lists this match as a settings row: only when no
    /// Command already sets it, since the Palette lists those as the Commands
    /// they are. The window's search lists every match.
    pub fn in_palette(&self) -> (listed: bool)
        ensures
            listed == (self.setting.command is None),
    {
        self.setting.command.is_none()
    }
}

/// How `setting` matches the normalized query `q`: by its label, or failing
/// that by its pane's name at the group tier with nothing to highlight.
pub open spec fn setting_match(setting: Setting, q: Seq<char>) -> Option<(Rank, Seq<(usize, usize)>)> {
    match score_of(setting.label@, q) {
        Some(hit) => Some(hit),
        None => match score_of(pane_label(setting.pane)@, q) {
            Some(_) => Some((Rank(Tier::Group, 0), seq![])),
            None => None,
        },
    }
}

/// The ranked entries of the first `n` rows of `table` that `q` matches,
/// each keyed by its rank alone and naming its row.
pub open spec fn setting_entries(table: Seq<Setting>, q: Seq<char>, n: int) -> Seq<(Rank, &'static str, usize)>
    decreases n,
{
    if n <= 0 {
        seq![]
    } else {
        let before = setting_entries(table, q, n - 1);
        match setting_match(table[n - 1], q) {
            Some((rank, _)) => before.push((rank, "", (n - 1) as usize)),
            None => before,
        }
    }
}

/// What the settings listing holds for `query`: nothing when the query is
/// blank; otherwise each matched row with its hits, by rank and then in the
/// table's order.
pub open spec fn settings_found(query: Seq<char>) -> Seq<(Setting, Seq<(usize, usize)>)> {
    let q = normalized(query);
    let table = settings_table();
    if q.len() == 0 {
        seq![]
    } else {
        ranked(setting_entries(table, q, table.len() as int)).map_values(
            |e: (Rank, &'static str, usize)| (table[e.2 as int], setting_match(table[e.2 as int], q).unwrap().1),
        )
    }
}

/// How `setting` matches `q`.
fn match_setting(setting: &Setting, q: &str) -> (found: Option<(Rank, Vec<(usize, usize)>)>)
    ensures
        seen(found) == setting_match(*setting, q@),
{
    match score(setting.label, q) {
        Some(hit) => Some(hit),
        None => match score(setting.pane.name(), q) {
            Some(_) => {
                let none: Vec<(usize, usize)> = Vec::new();
                proof {
                    assert(none@ =~= seq![]);
                }
                Some((Rank(Tier::Group, 0), none))
            },
            None => None,
        },
    }
}

/// The Settings rows for `query`: none when the query is blank, so the
/// Palette opens as it always has; otherwise every row whose label, or
/// failing that whose pane's name, [`score`] matches, by [`Rank`] and then
/// in the table's order. A pane-name match ranks at [`Tier::Group`], below
/// every label match, as it has no highlight to show.
pub fn settings(query: &str) -> (found: Vec<Found>)
    ensures
        found@.map_values(|f: Found| (f.setting, f.hits@)) == settings_found(query@),
{
    let q = normalize(query);
    let ghost qs = q@;
    let table = settings_rows();
    if q.unicode_len() == 0 {
        let none: Vec<Found> = Vec::new();
        proof {
            assert(none@.map_values(|f: Found| (f.setting, f.hits@)) =~= settings_found(query@));
        }
        return none;
    }
    let mut entries: Vec<(Rank, &'static str, usize)> = Vec::new();
    let mut i: usize = 0;
    while i < table.len()
        invariant
            0 <= i <= table@.len(),
            table@ == settings_table(),
            q@ == qs,
            entries@ == setting_entries(table@, qs, i as int),
        decreases table.len() - i,
    {
        if let Some((rank, _)) = match_setting(&table[i], q.as_str()) {
            entries.push((rank, "", i));
        }
        i = i + 1;
    }
    let sorted = rank_sort(entries);
    let ghost want = settings_found(query@);
    proof {
        let entries = setting_entries(table@, qs, table@.len() as int);
        lemma_ranked_members(entries);
        lemma_setting_entries(table@, qs, table@.len() as int);
        assert forall|j: int| 0 <= j < sorted@.len() implies #[trigger] sorted@[j].2 < table@.len()
            && setting_match(table@[sorted@[j].2 as int], qs) is Some by {
            assert(ranked(entries).contains(sorted@[j]));
        }
    }
    let mut found: Vec<Found> = Vec::new();
    let mut k: usize = 0;
    while k < sorted.len()
        invariant
            0 <= k <= sorted@.len(),
            table@ == settings_table(),
            q@ == qs,
            qs == normalized(query@),
            qs.len() > 0,
            sorted@ == ranked(setting_entries(table@, qs, table@.len() as int)),
            forall|j: int| 0 <= j < sorted@.len() ==> #[trigger] sorted@[j].2 < table@.len()
                && setting_match(table@[sorted@[j].2 as int], qs) is Some,
            found@.map_values(|f: Found| (f.setting, f.hits@)) == want.take(k as int),
            want.len() == sorted@.len(),
            want == settings_found(query@),
        decreases sorted.len() - k,
    {
        let at = sorted[k].2;
        let setting = table[at];
        let hits = match match_setting(&setting, q.as_str()) {
            Some((_, hits)) => hits,
            None => Vec::new(),
        };
        proof {
            let e = sorted@[k as int];
            assert(want[k as int] == (table@[e.2 as int], setting_match(table@[e.2 as int], qs).unwrap().1));
            assert(hits@ == setting_match(table@[e.2 as int], qs).unwrap().1);
        }
        let ghost old_found = found@;
        found.push(Found { setting, hits });
        proof {
            assert(found@.map_values(|f: Found| (f.setting, f.hits@)) =~= old_found.map_values(
                |f: Found| (f.setting, f.hits@),
            ).push(want[k as int]));
            assert(want.take(k + 1) =~= want.take(k as int).push(want[k as int]));
        }
        k = k + 1;
    }
    proof {
        assert(want.take(k as int) =~= want);
    }
    found
}

/// The four named sections, by the registry's ids in the Palette's order
/// and membership; the one export row is `export.pdf`, and the Commands the
/// sections hold no row for fall to [`MORE`] with the rest of the table.
pub open spec fn section_table() -> Seq<(&'static str, &'static [&'static str])> {
    let write: &'static [&'static str] = &["focus.toggle", "focus.sentence", "focus.paragraph", "typewriter.toggle"];
    let text: &'static [&'static str] = &["font.duo", "font.quattro", "font.mono", "font.bigger", "font.smaller", "font.reset"];
    let view: &'static [&'static str] = &["theme.toggle", "theme.light", "theme.dark", "theme.auto", "chrome.stats", "chrome.toggle", "library.toggle", "library.search"];
    let document: &'static [&'static str] = &["file.new", "file.open", "file.openFolder", "file.save", "file.saveAs", "file.rename", "file.duplicate", "export.pdf", "file.next", "file.prev", "file.follow", "outline.open", "file.delete"];
    seq![("Write", write), ("Text", text), ("View", view), ("Document", document)]
}

/// The four sections, as [`section_table`] lists them.
pub fn section_lists() -> (lists: Vec<(&'static str, &'static [&'static str])>)
    ensures
        lists@ == section_table(),
{
    let write: &'static [&'static str] = &["focus.toggle", "focus.sentence", "focus.paragraph", "typewriter.toggle"];
    let text: &'static [&'static str] = &["font.duo", "font.quattro", "font.mono", "font.bigger", "font.smaller", "font.reset"];
    let view: &'static [&'static str] = &["theme.toggle", "theme.light", "theme.dark", "theme.auto", "chrome.stats", "chrome.toggle", "library.toggle", "library.search"];
    let document: &'static [&'static str] = &["file.new", "file.open", "file.openFolder", "file.save", "file.saveAs", "file.rename", "file.duplicate", "export.pdf", "file.next", "file.prev", "file.follow", "outline.open", "file.delete"];
    let lists = vec![("Write", write), ("Text", text), ("View", view), ("Document", document)];
    proof {
        assert(lists@ =~= section_table());
    }
    lists
}

/// The fifth section: every registry Command in none of the four, in the
/// table's order.
pub const MORE: &'static str = "More";

/// The first Command of `table`, from `from` on, whose id is `id`.
pub open spec fn id_from(table: Seq<Command>, id: Seq<char>, from: int) -> Option<int>
    decreases table.len() - from,
{
    if from < 0 || from >= table.len() {
        None
    } else if table[from].id@ == id {
        Some(from)
    } else {
        id_from(table, id, from + 1)
    }
}

/// The Commands `ids` name, in their order, each id that names none left
/// out.
pub open spec fn section_rows(ids: Seq<&'static str>) -> Seq<Command>
    decreases ids.len(),
{
    if ids.len() == 0 {
        seq![]
    } else {
        let rest = section_rows(ids.drop_last());
        match id_from(registry(), ids.last()@, 0) {
            Some(i) => rest.push(registry()[i]),
            None => rest,
        }
    }
}

/// Whether one of the four sections lists `id`.
pub open spec fn placed(id: Seq<char>) -> bool {
    exists|s: int, k: int|
        0 <= s < section_table().len() && 0 <= k < section_table()[s].1@.len()
            && (#[trigger] section_table()[s].1@[k])@ == id
}

/// The Commands of `table` no section lists, in its order.
pub open spec fn unplaced(table: Seq<Command>) -> Seq<Command>
    decreases table.len(),
{
    if table.len() == 0 {
        seq![]
    } else {
        let rest = unplaced(table.drop_last());
        if placed(table.last().id@) {
            rest
        } else {
            rest.push(table.last())
        }
    }
}

/// The list at rest: the four sections, then More when anything is left.
pub open spec fn sections_of() -> Seq<(&'static str, Seq<Command>)> {
    let four = section_table().map_values(
        |s: (&'static str, &'static [&'static str])| (s.0, section_rows(s.1@)),
    );
    let rest = unplaced(registry());
    if rest.len() > 0 {
        four.push((MORE, rest))
    } else {
        four
    }
}

/// The Command of `table` whose id is `id`, the first of them.
fn find_id(table: &Vec<Command>, id: &str) -> (found: Option<usize>)
    ensures
        match found {
            Some(i) => id_from(table@, id@, 0) == Some(i as int) && i < table@.len(),
            None => id_from(table@, id@, 0) is None,
        },
{
    let mut i: usize = 0;
    while i < table.len()
        invariant
            0 <= i <= table@.len(),
            id_from(table@, id@, 0) == id_from(table@, id@, i as int),
        decreases table.len() - i,
    {
        if same(table[i].id, id) {
            return Some(i);
        }
        i = i + 1;
    }
    None
}

/// Whether one of `lists` lists `id`.
fn listed(lists: &Vec<(&'static str, &'static [&'static str])>, id: &str) -> (yes: bool)
    requires
        lists@ == section_table(),
    ensures
        yes == placed(id@),
{
    let mut s: usize = 0;
    while s < lists.len()
        invariant
            0 <= s <= lists@.len(),
            lists@ == section_table(),
            forall|t: int, k: int|
                0 <= t < s && 0 <= k < section_table()[t].1@.len() ==> (#[trigger] section_table()[t].1@[k])@ != id@,
        decreases lists.len() - s,
    {
        let ids = lists[s].1;
        let mut k: usize = 0;
        while k < ids.len()
            invariant
                0 <= k <= ids@.len(),
                0 <= s < lists@.len(),
                lists@ == section_table(),
                ids == section_table()[s as int].1,
                forall|j: int| 0 <= j < k ==> (#[trigger] ids@[j])@ != id@,
            decreases ids.len() - k,
        {
            if same(ids[k], id) {
                return true;
            }
            k = k + 1;
        }
        s = s + 1;
    }
    false
}

/// The Commands `ids` name, in their order.
fn rows_of(table: &Vec<Command>, ids: &'static [&'static str]) -> (rows: Vec<Command>)
    requires
        table@ == registry(),
    ensures
        rows@ == section_rows(ids@),
{
    let mut rows: Vec<Command> = Vec::new();
    let mut k: usize = 0;
    while k < ids.len()
        invariant
            0 <= k <= ids@.len(),
            table@ == registry(),
            rows@ == section_rows(ids@.take(k as int)),
        decreases ids.len() - k,
    {
        proof {
            assert(ids@.take(k + 1).drop_last() =~= ids@.take(k as int));
        }
        if let Some(i) = find_id(table, ids[k]) {
            rows.push(table[i]);
        }
        k = k + 1;
    }
    proof {
        assert(ids@.take(k as int) =~= ids@);
    }
    rows
}

/// The list at rest: the four sections then More, every Command once.
pub fn sections() -> (out: Vec<(&'static str, Vec<Command>)>)
    ensures
        out@.len() == sections_of().len(),
        forall|k: int| 0 <= k < out@.len() ==> (#[trigger] out@[k]).0 == sections_of()[k].0
            && out@[k].1@ == sections_of()[k].1,
{
    let table = commands();
    let lists = section_lists();
    let ghost four = section_table().map_values(
        |s: (&'static str, &'static [&'static str])| (s.0, section_rows(s.1@)),
    );
    let mut out: Vec<(&'static str, Vec<Command>)> = Vec::new();
    let mut s: usize = 0;
    while s < lists.len()
        invariant
            0 <= s <= lists@.len(),
            lists@ == section_table(),
            table@ == registry(),
            four == section_table().map_values(
                |s: (&'static str, &'static [&'static str])| (s.0, section_rows(s.1@)),
            ),
            out@.len() == s,
            forall|k: int| 0 <= k < s ==> (#[trigger] out@[k]).0 == four[k].0 && out@[k].1@ == four[k].1,
        decreases lists.len() - s,
    {
        let rows = rows_of(&table, lists[s].1);
        out.push((lists[s].0, rows));
        s = s + 1;
    }
    let mut rest: Vec<Command> = Vec::new();
    let mut i: usize = 0;
    while i < table.len()
        invariant
            0 <= i <= table@.len(),
            lists@ == section_table(),
            table@ == registry(),
            rest@ == unplaced(registry().take(i as int)),
        decreases table.len() - i,
    {
        proof {
            assert(registry().take(i + 1).drop_last() =~= registry().take(i as int));
        }
        if !listed(&lists, table[i].id) {
            rest.push(table[i]);
        }
        i = i + 1;
    }
    proof {
        assert(registry().take(i as int) =~= registry());
    }
    if rest.len() > 0 {
        out.push((MORE, rest));
    }
    out
}

/// One row of the list: its Command and, when a query matched it, the byte
/// ranges of the title it matched, which the row sets heavier.
#[derive(Clone, Debug, PartialEq, Eq)]
pub struct Row {
    /// The Command the row runs.
    pub command: Command,
    /// The byte ranges of its title the query matched; none at rest.
    pub hits: Vec<(usize, usize)>,
}

/// How a radio Command's group matches the normalized `q`: by the same rule
/// the title uses, at [`Tier::Group`] and with nothing to highlight. A
/// Command with no group never matches.
pub open spec fn group_match(command: Command, q: Seq<char>) -> Option<Rank> {
    match command.kind {
        Kind::Radio { group, .. } => match score_of(group@, q) {
            Some(_) => Some(Rank(Tier::Group, 0)),
            None => None,
        },
        _ => None,
    }
}

/// How `command` matches the normalized `q`: its rank, the title that breaks
/// a tie within the rank, and the hits; a title match first, failing that a
/// group match with the empty title and no hits.
pub open spec fn command_match(command: Command, q: Seq<char>) -> Option<(Rank, &'static str, Seq<(usize, usize)>)> {
    match score_of(command.title@, q) {
        Some((rank, hits)) => Some((rank, command.title, hits)),
        None => match group_match(command, q) {
            Some(rank) => Some((rank, "", seq![])),
            None => None,
        },
    }
}

/// The ranked entries of the first `n` Commands of `table` that `q`
/// matches, each naming its Command.
pub open spec fn command_entries(table: Seq<Command>, q: Seq<char>, n: int) -> Seq<(Rank, &'static str, usize)>
    decreases n,
{
    if n <= 0 {
        seq![]
    } else {
        let before = command_entries(table, q, n - 1);
        match command_match(table[n - 1], q) {
            Some((rank, tie, _)) => before.push((rank, tie, (n - 1) as usize)),
            None => before,
        }
    }
}

/// The list for `query`: the map at rest, section by section, when the
/// normalized query is blank; otherwise one ranked list under no heading.
pub open spec fn list_of(query: Seq<char>) -> Seq<(Option<&'static str>, Seq<(Command, Seq<(usize, usize)>)>)> {
    let q = normalized(query);
    if q.len() == 0 {
        sections_of().map_values(
            |s: (&'static str, Seq<Command>)| (Some(s.0), s.1.map_values(|c: Command| (c, Seq::<(usize, usize)>::empty()))),
        )
    } else {
        let t = registry();
        seq![(None, ranked(command_entries(t, q, t.len() as int)).map_values(
            |e: (Rank, &'static str, usize)| (t[e.2 as int], command_match(t[e.2 as int], q).unwrap().2),
        ))]
    }
}

/// How a radio Command's group matches `q`, already lower-cased.
pub fn score_group(command: &Command, q: &str) -> (rank: Option<Rank>)
    ensures
        rank == group_match(*command, q@),
{
    match command.kind {
        Kind::Radio { group, .. } => match score(group, q) {
            Some(_) => Some(Rank(Tier::Group, 0)),
            None => None,
        },
        _ => None,
    }
}

fn match_command(command: &Command, q: &str) -> (found: Option<(Rank, &'static str, Vec<(usize, usize)>)>)
    ensures
        match (found, command_match(*command, q@)) {
            (Some((r, t, h)), Some((r2, t2, h2))) => r == r2 && t == t2 && h@ == h2,
            (None, None) => true,
            _ => false,
        },
{
    match score(command.title, q) {
        Some((rank, hits)) => Some((rank, command.title, hits)),
        None => match score_group(command, q) {
            Some(rank) => {
                let none: Vec<(usize, usize)> = Vec::new();
                proof {
                    assert(none@ =~= seq![]);
                }
                Some((rank, "", none))
            },
            None => None,
        },
    }
}

proof fn lemma_command_entries(table: Seq<Command>, q: Seq<char>, n: int)
    requires
        0 <= n <= table.len() <= usize::MAX,
    ensures
        forall|e| #[trigger] command_entries(table, q, n).contains(e) ==> e.2 < n
            && command_match(table[e.2 as int], q) is Some,
    decreases n,
{
    if n > 0 {
        lemma_command_entries(table, q, n - 1);
        let before = command_entries(table, q, n - 1);
        assert forall|e| #[trigger] command_entries(table, q, n).contains(e) implies e.2 < n
            && command_match(table[e.2 as int], q) is Some by {
            let all = command_entries(table, q, n);
            let j = choose|j: int| 0 <= j < all.len() && all[j] == e;
            match command_match(table[n - 1], q) {
                Some((rank, tie, _)) => {
                    assert(all == before.push((rank, tie, (n - 1) as usize)));
                    if j < before.len() {
                        assert(before[j] == e);
                        assert(before.contains(e));
                    }
                },
                None => {
                    assert(all == before);
                    assert(before[j] == e);
                    assert(before.contains(e));
                },
            }
        }
    }
}

/// The list for `query`: the map at rest, section by section, when the
/// query is blank; otherwise one ranked list under no heading, the rows
/// ordered by [`Rank`] and then by title. A row whose title misses is still
/// listed when its radio group matches, at [`Tier::Group`] below every title
/// match and in the registry's order.
pub fn list(query: &str) -> (out: Vec<(Option<&'static str>, Vec<Row>)>)
    ensures
        out@.len() == list_of(query@).len(),
        forall|k: int| 0 <= k < out@.len() ==> (#[trigger] out@[k]).0 == list_of(query@)[k].0
            && out@[k].1@.map_values(|r: Row| (r.command, r.hits@)) == list_of(query@)[k].1,
        trimmed(query@).len() == 0 ==> out@.len() == sections_of().len() && forall|k: int|
            0 <= k < out@.len() ==> (#[trigger] out@[k]).0 == Some(sections_of()[k].0)
                && out@[k].1@.map_values(|r: Row| (r.command, r.hits@)) == sections_of()[k].1.map_values(
                |c: Command| (c, Seq::<(usize, usize)>::empty()),
            ),
{
    let q = normalize(query);
    let ghost qs = q@;
    let ghost want = list_of(query@);
    if q.unicode_len() == 0 {
        let secs = sections();
        let mut out: Vec<(Option<&'static str>, Vec<Row>)> = Vec::new();
        let mut s: usize = 0;
        while s < secs.len()
            invariant
                0 <= s <= secs@.len(),
                qs == normalized(query@),
                qs.len() == 0,
                want == list_of(query@),
                secs@.len() == sections_of().len(),
                forall|k: int| 0 <= k < secs@.len() ==> (#[trigger] secs@[k]).0 == sections_of()[k].0
                    && secs@[k].1@ == sections_of()[k].1,
                out@.len() == s,
                forall|k: int| 0 <= k < s ==> (#[trigger] out@[k]).0 == want[k].0
                    && out@[k].1@.map_values(|r: Row| (r.command, r.hits@)) == want[k].1,
            decreases secs.len() - s,
        {
            let commands = &secs[s].1;
            let mut rows: Vec<Row> = Vec::new();
            let mut i: usize = 0;
            while i < commands.len()
                invariant
                    0 <= i <= commands@.len(),
                    rows@.map_values(|r: Row| (r.command, r.hits@)) == commands@.take(i as int).map_values(
                        |c: Command| (c, Seq::<(usize, usize)>::empty()),
                    ),
                decreases commands.len() - i,
            {
                let ghost before = rows@;
                let none: Vec<(usize, usize)> = Vec::new();
                rows.push(Row { command: commands[i], hits: none });
                proof {
                    assert(none@ =~= Seq::<(usize, usize)>::empty());
                    assert(rows@.map_values(|r: Row| (r.command, r.hits@)) =~= before.map_values(
                        |r: Row| (r.command, r.hits@),
                    ).push((commands@[i as int], Seq::<(usize, usize)>::empty())));
                    assert(commands@.take(i + 1).map_values(|c: Command| (c, Seq::<(usize, usize)>::empty()))
                        =~= commands@.take(i as int).map_values(
                        |c: Command| (c, Seq::<(usize, usize)>::empty()),
                    ).push((commands@[i as int], Seq::<(usize, usize)>::empty())));
                }
                i = i + 1;
            }
            proof {
                assert(commands@.take(i as int) =~= commands@);
            }
            out.push((Some(secs[s].0), rows));
            s = s + 1;
        }
        return out;
    }
    let table = commands();
    let mut entries: Vec<(Rank, &'static str, usize)> = Vec::new();
    let mut i: usize = 0;
    while i < table.len()
        invariant
            0 <= i <= table@.len(),
            table@ == registry(),
            q@ == qs,
            entries@ == command_entries(table@, qs, i as int),
        decreases table.len() - i,
    {
        if let Some((rank, tie, _)) = match_command(&table[i], q.as_str()) {
            entries.push((rank, tie, i));
        }
        i = i + 1;
    }
    let sorted = rank_sort(entries);
    let ghost all = ranked(command_entries(table@, qs, table@.len() as int)).map_values(
        |e: (Rank, &'static str, usize)| (table@[e.2 as int], command_match(table@[e.2 as int], qs).unwrap().2),
    );
    proof {
        let entries = command_entries(table@, qs, table@.len() as int);
        lemma_ranked_members(entries);
        lemma_command_entries(table@, qs, table@.len() as int);
        assert forall|j: int| 0 <= j < sorted@.len() implies #[trigger] sorted@[j].2 < table@.len()
            && command_match(table@[sorted@[j].2 as int], qs) is Some by {
            assert(ranked(entries).contains(sorted@[j]));
        }
    }
    let mut rows: Vec<Row> = Vec::new();
    let mut k: usize = 0;
    while k < sorted.len()
        invariant
            0 <= k <= sorted@.len(),
            table@ == registry(),
            q@ == qs,
            sorted@ == ranked(command_entries(table@, qs, table@.len() as int)),
            forall|j: int| 0 <= j < sorted@.len() ==> #[trigger] sorted@[j].2 < table@.len()
                && command_match(table@[sorted@[j].2 as int], qs) is Some,
            all.len() == sorted@.len(),
            all == ranked(command_entries(table@, qs, table@.len() as int)).map_values(
                |e: (Rank, &'static str, usize)| (table@[e.2 as int], command_match(table@[e.2 as int], qs).unwrap().2),
            ),
            rows@.map_values(|r: Row| (r.command, r.hits@)) == all.take(k as int),
        decreases sorted.len() - k,
    {
        let at = sorted[k].2;
        let command = table[at];
        let hits = match match_command(&command, q.as_str()) {
            Some((_, _, hits)) => hits,
            None => Vec::new(),
        };
        proof {
            let e = sorted@[k as int];
            assert(all[k as int] == (table@[e.2 as int], command_match(table@[e.2 as int], qs).unwrap().2));
        }
        let ghost before = rows@;
        rows.push(Row { command, hits });
        proof {
            assert(rows@.map_values(|r: Row| (r.command, r.hits@)) =~= before.map_values(
                |r: Row| (r.command, r.hits@),
            ).push(all[k as int]));
            assert(all.take(k + 1) =~= all.take(k as int).push(all[k as int]));
        }
        k = k + 1;
    }
    proof {
        assert(all.take(k as int) =~= all);
    }
    let mut out: Vec<(Option<&'static str>, Vec<Row>)> = Vec::new();
    out.push((None, rows));
    out
}

/// One row of the Palette's recents list: a Document the writer opened
/// before.
#[derive(Clone, Debug, PartialEq, Eq)]
pub struct Recent<'a> {
    /// The Document the row opens.
    pub path: &'a str,
    /// What the row reads: the file name without its extension, the name
    /// the top bar shows it under.
    pub name: String,
    /// The byte ranges of that name the query matched; none at rest.
    pub hits: Vec<(usize, usize)>,
}

/// The ranked entries of the first `n` of `paths` whose shown name the
/// normalized `q` matches, each naming its path.
pub open spec fn recent_entries(paths: Seq<Seq<char>>, q: Seq<char>, n: int) -> Seq<(Rank, &'static str, usize)>
    decreases n,
{
    if n <= 0 {
        seq![]
    } else {
        let before = recent_entries(paths, q, n - 1);
        match score_of(shown_of(paths[n - 1]), q) {
            Some((rank, _)) => before.push((rank, "", (n - 1) as usize)),
            None => before,
        }
    }
}

/// The recents list for `query`, each row as its path, its shown name and
/// its hits: `paths` as they stand, newest first, when the normalized query
/// is blank; otherwise the rows whose name matched, by rank and, within a
/// rank, in the order they were given.
pub open spec fn recents_of(paths: Seq<Seq<char>>, query: Seq<char>) -> Seq<(Seq<char>, Seq<char>, Seq<(usize, usize)>)> {
    let q = normalized(query);
    if q.len() == 0 {
        paths.map_values(|p: Seq<char>| (p, shown_of(p), Seq::<(usize, usize)>::empty()))
    } else {
        ranked(recent_entries(paths, q, paths.len() as int)).map_values(
            |e: (Rank, &'static str, usize)| (
                paths[e.2 as int],
                shown_of(paths[e.2 as int]),
                score_of(shown_of(paths[e.2 as int]), q).unwrap().1,
            ),
        )
    }
}

proof fn lemma_recent_entries(paths: Seq<Seq<char>>, q: Seq<char>, n: int)
    requires
        0 <= n <= paths.len() <= usize::MAX,
    ensures
        forall|e| #[trigger] recent_entries(paths, q, n).contains(e) ==> e.2 < n
            && score_of(shown_of(paths[e.2 as int]), q) is Some,
    decreases n,
{
    if n > 0 {
        lemma_recent_entries(paths, q, n - 1);
        let before = recent_entries(paths, q, n - 1);
        assert forall|e| #[trigger] recent_entries(paths, q, n).contains(e) implies e.2 < n
            && score_of(shown_of(paths[e.2 as int]), q) is Some by {
            let all = recent_entries(paths, q, n);
            let j = choose|j: int| 0 <= j < all.len() && all[j] == e;
            match score_of(shown_of(paths[n - 1]), q) {
                Some((rank, _)) => {
                    assert(all == before.push((rank, "", (n - 1) as usize)));
                    if j < before.len() {
                        assert(before[j] == e);
                        assert(before.contains(e));
                    }
                },
                None => {
                    assert(all == before);
                    assert(before[j] == e);
                    assert(before.contains(e));
                },
            }
        }
    }
}

/// The view of a recents row: its path, its name and its hits.
pub open spec fn recent_view<'a>(r: Recent<'a>) -> (Seq<char>, Seq<char>, Seq<(usize, usize)>) {
    (r.path@, r.name@, r.hits@)
}

/// The recents list for `query`: `opened` as it stands, newest first, when
/// the query is blank; otherwise the rows whose name matched, by [`Rank`].
///
/// The match is [`score`] over the name alone, the same rule the Commands
/// are narrowed by. Within a rank the sort is stable, so two names matched
/// alike stay newest first, which is the order the writer was handed them in.
pub fn recents<'a>(opened: &'a [String], query: &str) -> (rows: Vec<Recent<'a>>)
    ensures
        rows@.map_values(|r: Recent<'a>| recent_view(r)) == recents_of(
            opened@.map_values(|s: String| s@),
            query@,
        ),
{
    let ghost paths = opened@.map_values(|s: String| s@);
    let ghost want = recents_of(paths, query@);
    let q = normalize(query);
    let ghost qs = q@;
    let mut rows: Vec<Recent<'a>> = Vec::new();
    if q.unicode_len() == 0 {
        let mut i: usize = 0;
        while i < opened.len()
            invariant
                0 <= i <= opened@.len(),
                paths == opened@.map_values(|s: String| s@),
                qs == normalized(query@),
                qs.len() == 0,
                want == recents_of(paths, query@),
                rows@.map_values(|r: Recent<'a>| recent_view(r)) == want.take(i as int),
            decreases opened.len() - i,
        {
            let path = opened[i].as_str();
            let none: Vec<(usize, usize)> = Vec::new();
            let ghost before = rows@;
            rows.push(Recent { path, name: shown_name(path), hits: none });
            proof {
                assert(none@ =~= Seq::<(usize, usize)>::empty());
                assert(want[i as int] == (paths[i as int], shown_of(paths[i as int]), Seq::<(usize, usize)>::empty()));
                assert(rows@.map_values(|r: Recent<'a>| recent_view(r)) =~= before.map_values(
                    |r: Recent<'a>| recent_view(r),
                ).push(want[i as int]));
                assert(want.take(i + 1) =~= want.take(i as int).push(want[i as int]));
            }
            i = i + 1;
        }
        proof {
            assert(want.take(i as int) =~= want);
        }
        return rows;
    }
    let mut entries: Vec<(Rank, &'static str, usize)> = Vec::new();
    let mut i: usize = 0;
    while i < opened.len()
        invariant
            0 <= i <= opened@.len(),
            paths == opened@.map_values(|s: String| s@),
            q@ == qs,
            entries@ == recent_entries(paths, qs, i as int),
        decreases opened.len() - i,
    {
        let name = shown_name(opened[i].as_str());
        if let Some((rank, _)) = score(name.as_str(), q.as_str()) {
            entries.push((rank, "", i));
        }
        i = i + 1;
    }
    let sorted = rank_sort(entries);
    proof {
        let entries = recent_entries(paths, qs, paths.len() as int);
        lemma_ranked_members(entries);
        lemma_recent_entries(paths, qs, paths.len() as int);
        assert forall|j: int| 0 <= j < sorted@.len() implies #[trigger] sorted@[j].2 < paths.len()
            && score_of(shown_of(paths[sorted@[j].2 as int]), qs) is Some by {
            assert(ranked(entries).contains(sorted@[j]));
        }
    }
    let mut k: usize = 0;
    while k < sorted.len()
        invariant
            0 <= k <= sorted@.len(),
            paths == opened@.map_values(|s: String| s@),
            q@ == qs,
            qs == normalized(query@),
            qs.len() > 0,
            want == recents_of(paths, query@),
            sorted@ == ranked(recent_entries(paths, qs, paths.len() as int)),
            forall|j: int| 0 <= j < sorted@.len() ==> #[trigger] sorted@[j].2 < paths.len()
                && score_of(shown_of(paths[sorted@[j].2 as int]), qs) is Some,
            want.len() == sorted@.len(),
            rows@.map_values(|r: Recent<'a>| recent_view(r)) == want.take(k as int),
        decreases sorted.len() - k,
    {
        let at = sorted[k].2;
        let path = opened[at].as_str();
        let name = shown_name(path);
        let hits = match score(name.as_str(), q.as_str()) {
            Some((_, hits)) => hits,
            None => Vec::new(),
        };
        proof {
            let e = sorted@[k as int];
            assert(want[k as int] == (paths[e.2 as int], shown_of(paths[e.2 as int]), score_of(
                shown_of(paths[e.2 as int]),
                qs,
            ).unwrap().1));
        }
        let ghost before = rows@;
        rows.push(Recent { path, name, hits });
        proof {
            assert(rows@.map_values(|r: Recent<'a>| recent_view(r)) =~= before.map_values(
                |r: Recent<'a>| recent_view(r),
            ).push(want[k as int]));
            assert(want.take(k + 1) =~= want.take(k as int).push(want[k as int]));
        }
        k = k + 1;
    }
    proof {
        assert(want.take(k as int) =~= want);
    }
    rows
}

/// The head the Outline listing draws over its Documents.
pub const DOCUMENTS: &'static str = "Documents";

/// The most Documents the Outline listing appends under [`DOCUMENTS`].
pub const DOCUMENTS_CAP: usize = 10;

/// One row of the Palette's Outline listing.
#[derive(Clone, Debug, PartialEq, Eq)]
pub enum Outlined<'a> {
    /// A heading of the open Document, which Enter jumps to.
    Heading {
        /// The byte its words start at, where the jump puts the caret.
        start: usize,
        /// Its level, 1 to 6, which the row indents by.
        level: u8,
        /// Its words, as the Editor shows them.
        text: &'a str,
        /// The byte ranges of those words the query matched; none at rest.
        hits: Vec<(usize, usize)>,
    },
    /// The head over the Documents: neither selected nor run.
    Head(&'static str),
    /// A Document of the Library by name, which Enter opens; drawn as a
    /// recents row is.
    Document(Recent<'a>),
    /// The dim line standing where the headings would be, for a Document
    /// with none: neither selected nor run.
    NoHeadings,
}

/// The Outline listing for one query: its rows and which of the rows that
/// can be selected is.
#[derive(Clone, Debug, PartialEq, Eq)]
pub struct OutlineList<'a> {
    /// The rows, top to bottom, heads and the dim line among them.
    pub rows: Vec<Outlined<'a>>,
    /// The index, among the rows that can be selected, of the selected one.
    pub selected: usize,
}

/// An Outline row as the contracts read it.
pub enum OutlineRow {
    /// A heading: where its words start, its level, its words, its hits.
    Heading(usize, u8, Seq<char>, Seq<(usize, usize)>),
    /// The head over the Documents.
    Head(Seq<char>),
    /// A Document: its path, its shown name, its hits.
    Document(Seq<char>, Seq<char>, Seq<(usize, usize)>),
    /// The dim line of a Document with no headings.
    NoHeadings,
}

/// What `row` reads as.
pub open spec fn outline_row<'a>(row: Outlined<'a>) -> OutlineRow {
    match row {
        Outlined::Heading { start, level, text, hits } => OutlineRow::Heading(start, level, text@, hits@),
        Outlined::Head(head) => OutlineRow::Head(head@),
        Outlined::Document(recent) => OutlineRow::Document(recent.path@, recent.name@, recent.hits@),
        Outlined::NoHeadings => OutlineRow::NoHeadings,
    }
}

/// The row of `heading` with `hits`.
pub open spec fn heading_row(heading: Heading, hits: Seq<(usize, usize)>) -> OutlineRow {
    OutlineRow::Heading(heading.source.start, heading.level, heading.text@, hits)
}

/// The ranked entries of the first `n` of `headings` whose words the
/// normalized `q` matches, each naming its heading.
pub open spec fn heading_entries(headings: Seq<Heading>, q: Seq<char>, n: int) -> Seq<(Rank, &'static str, usize)>
    decreases n,
{
    if n <= 0 {
        seq![]
    } else {
        let before = heading_entries(headings, q, n - 1);
        match score_of(headings[n - 1].text@, q) {
            Some((rank, _)) => before.push((rank, "", (n - 1) as usize)),
            None => before,
        }
    }
}

/// The Documents of `documents` that are not the open one, in order.
pub open spec fn other_documents(documents: Seq<Seq<char>>, open: Option<Seq<char>>) -> Seq<Seq<char>>
    decreases documents.len(),
{
    if documents.len() == 0 {
        seq![]
    } else {
        let rest = other_documents(documents.drop_last(), open);
        match open {
            Some(path) if same_path(path, documents.last()) => rest,
            _ => rest.push(documents.last()),
        }
    }
}

/// The Outline listing's rows for `query`: with nothing typed, the headings
/// alone in reading order; once something is typed, the headings it matched
/// by [`score`], ranked, then under [`DOCUMENTS`] the first
/// [`DOCUMENTS_CAP`] of the Documents that are not the open one. A Document
/// with no headings lists the dim line where they would stand.
pub open spec fn outline_rows(
    headings: Seq<Heading>,
    documents: Seq<Seq<char>>,
    open: Option<Seq<char>>,
    query: Seq<char>,
) -> Seq<OutlineRow> {
    let q = normalized(query);
    let above = if headings.len() == 0 {
        seq![OutlineRow::NoHeadings]
    } else if q.len() == 0 {
        headings.map_values(|h: Heading| heading_row(h, Seq::<(usize, usize)>::empty()))
    } else {
        ranked(heading_entries(headings, q, headings.len() as int)).map_values(
            |e: (Rank, &'static str, usize)| heading_row(
                headings[e.2 as int],
                score_of(headings[e.2 as int].text@, q).unwrap().1,
            ),
        )
    };
    let others = other_documents(documents, open);
    let listed = if others.len() > DOCUMENTS_CAP {
        others.take(DOCUMENTS_CAP as int)
    } else {
        others
    };
    if q.len() == 0 || listed.len() == 0 {
        above
    } else {
        above + seq![OutlineRow::Head(DOCUMENTS@)] + listed.map_values(
            |d: Seq<char>| OutlineRow::Document(d, shown_of(d), Seq::<(usize, usize)>::empty()),
        )
    }
}

/// The row selected in the Outline listing: the caret's section at rest, or
/// the first row above every heading; the first matched row once something
/// is typed.
pub open spec fn outline_selected(section: Option<usize>, query: Seq<char>) -> usize {
    if normalized(query).len() == 0 {
        match section {
            Some(at) => at,
            None => 0,
        }
    } else {
        0
    }
}

/// The view of an optional path.
pub open spec fn path_of(open: Option<&str>) -> Option<Seq<char>> {
    match open {
        Some(path) => Some(path@),
        None => None,
    }
}

proof fn lemma_heading_entries(headings: Seq<Heading>, q: Seq<char>, n: int)
    requires
        0 <= n <= headings.len() <= usize::MAX,
    ensures
        forall|e| #[trigger] heading_entries(headings, q, n).contains(e) ==> e.2 < n
            && score_of(headings[e.2 as int].text@, q) is Some,
    decreases n,
{
    if n > 0 {
        lemma_heading_entries(headings, q, n - 1);
        let before = heading_entries(headings, q, n - 1);
        assert forall|e| #[trigger] heading_entries(headings, q, n).contains(e) implies e.2 < n
            && score_of(headings[e.2 as int].text@, q) is Some by {
            let all = heading_entries(headings, q, n);
            let j = choose|j: int| 0 <= j < all.len() && all[j] == e;
            match score_of(headings[n - 1].text@, q) {
                Some((rank, _)) => {
                    assert(all == before.push((rank, "", (n - 1) as usize)));
                    if j < before.len() {
                        assert(before[j] == e);
                        assert(before.contains(e));
                    }
                },
                None => {
                    assert(all == before);
                    assert(before[j] == e);
                    assert(before.contains(e));
                },
            }
        }
    }
}

/// The view of an Outline listing's rows.
pub open spec fn outline_view<'a>(rows: Seq<Outlined<'a>>) -> Seq<OutlineRow> {
    rows.map_values(|r: Outlined<'a>| outline_row(r))
}

/// The Outline listing for `query`: with nothing typed, `headings` alone in
/// reading order with `section`, the caret's, selected, or the first row
/// when the caret stands above every heading; once something is typed, the
/// headings it matched by [`score`], ranked, then under [`DOCUMENTS`] the
/// first [`DOCUMENTS_CAP`] of `documents` that are not `open`, the first
/// matched heading selected. A Document with no headings lists
/// [`Outlined::NoHeadings`] where they would stand, and its Documents beneath
/// as ever.
pub fn outline<'a>(
    headings: &'a [Heading],
    section: Option<usize>,
    documents: &'a [String],
    open: Option<&str>,
    query: &str,
) -> (list: OutlineList<'a>)
    ensures
        outline_view(list.rows@) == outline_rows(
            headings@,
            documents@.map_values(|s: String| s@),
            path_of(open),
            query@,
        ),
        list.selected == outline_selected(section, query@),
{
    let ghost docs = documents@.map_values(|s: String| s@);
    let ghost want = outline_rows(headings@, docs, path_of(open), query@);
    let q = normalize(query);
    let ghost qs = q@;
    let blank = q.unicode_len() == 0;
    let mut rows: Vec<Outlined<'a>> = Vec::new();
    if headings.len() == 0 {
        rows.push(Outlined::NoHeadings);
        proof {
            assert(outline_view(rows@) =~= seq![OutlineRow::NoHeadings]);
        }
    } else if blank {
        let mut i: usize = 0;
        while i < headings.len()
            invariant
                0 <= i <= headings@.len(),
                outline_view(rows@) == headings@.take(i as int).map_values(
                    |h: Heading| heading_row(h, Seq::<(usize, usize)>::empty()),
                ),
            decreases headings.len() - i,
        {
            let heading = &headings[i];
            let none: Vec<(usize, usize)> = Vec::new();
            let ghost before = rows@;
            rows.push(
                Outlined::Heading {
                    start: heading.source.start,
                    level: heading.level,
                    text: heading.text.as_str(),
                    hits: none,
                },
            );
            proof {
                assert(none@ =~= Seq::<(usize, usize)>::empty());
                assert(outline_view(rows@) =~= outline_view(before).push(
                    heading_row(headings@[i as int], Seq::<(usize, usize)>::empty()),
                ));
                assert(headings@.take(i + 1).map_values(
                    |h: Heading| heading_row(h, Seq::<(usize, usize)>::empty()),
                ) =~= headings@.take(i as int).map_values(
                    |h: Heading| heading_row(h, Seq::<(usize, usize)>::empty()),
                ).push(heading_row(headings@[i as int], Seq::<(usize, usize)>::empty())));
            }
            i = i + 1;
        }
        proof {
            assert(headings@.take(i as int) =~= headings@);
        }
    } else {
        let mut entries: Vec<(Rank, &'static str, usize)> = Vec::new();
        let mut i: usize = 0;
        while i < headings.len()
            invariant
                0 <= i <= headings@.len(),
                q@ == qs,
                entries@ == heading_entries(headings@, qs, i as int),
            decreases headings.len() - i,
        {
            if let Some((rank, _)) = score(headings[i].text.as_str(), q.as_str()) {
                entries.push((rank, "", i));
            }
            i = i + 1;
        }
        let sorted = rank_sort(entries);
        let ghost all = ranked(heading_entries(headings@, qs, headings@.len() as int)).map_values(
            |e: (Rank, &'static str, usize)| heading_row(
                headings@[e.2 as int],
                score_of(headings@[e.2 as int].text@, qs).unwrap().1,
            ),
        );
        proof {
            let entries = heading_entries(headings@, qs, headings@.len() as int);
            lemma_ranked_members(entries);
            lemma_heading_entries(headings@, qs, headings@.len() as int);
            assert forall|j: int| 0 <= j < sorted@.len() implies #[trigger] sorted@[j].2 < headings@.len()
                && score_of(headings@[sorted@[j].2 as int].text@, qs) is Some by {
                assert(ranked(entries).contains(sorted@[j]));
            }
        }
        let mut k: usize = 0;
        while k < sorted.len()
            invariant
                0 <= k <= sorted@.len(),
                q@ == qs,
                sorted@ == ranked(heading_entries(headings@, qs, headings@.len() as int)),
                forall|j: int| 0 <= j < sorted@.len() ==> #[trigger] sorted@[j].2 < headings@.len()
                    && score_of(headings@[sorted@[j].2 as int].text@, qs) is Some,
                all.len() == sorted@.len(),
                all == ranked(heading_entries(headings@, qs, headings@.len() as int)).map_values(
                    |e: (Rank, &'static str, usize)| heading_row(
                        headings@[e.2 as int],
                        score_of(headings@[e.2 as int].text@, qs).unwrap().1,
                    ),
                ),
                outline_view(rows@) == all.take(k as int),
            decreases sorted.len() - k,
        {
            let heading = &headings[sorted[k].2];
            let hits = match score(heading.text.as_str(), q.as_str()) {
                Some((_, hits)) => hits,
                None => Vec::new(),
            };
            proof {
                let e = sorted@[k as int];
                assert(all[k as int] == heading_row(headings@[e.2 as int], score_of(headings@[e.2 as int].text@, qs).unwrap().1));
            }
            let ghost before = rows@;
            rows.push(
                Outlined::Heading {
                    start: heading.source.start,
                    level: heading.level,
                    text: heading.text.as_str(),
                    hits,
                },
            );
            proof {
                assert(outline_view(rows@) =~= outline_view(before).push(all[k as int]));
                assert(all.take(k + 1) =~= all.take(k as int).push(all[k as int]));
            }
            k = k + 1;
        }
        proof {
            assert(all.take(k as int) =~= all);
        }
    }
    let ghost above = outline_view(rows@);
    if !blank {
        let mut kept: Vec<usize> = Vec::new();
        let mut i: usize = 0;
        while i < documents.len()
            invariant
                0 <= i <= documents@.len(),
                docs == documents@.map_values(|s: String| s@),
                kept@.map_values(|j: usize| docs[j as int]) == other_documents(docs.take(i as int), path_of(open)),
                forall|j: int| 0 <= j < kept@.len() ==> #[trigger] kept@[j] < i,
            decreases documents.len() - i,
        {
            proof {
                assert(docs.take(i + 1).drop_last() =~= docs.take(i as int));
            }
            let skip = match open {
                Some(path) => paths_equal(path, documents[i].as_str()),
                None => false,
            };
            let ghost before = kept@;
            if !skip {
                kept.push(i);
                proof {
                    assert(kept@.map_values(|j: usize| docs[j as int]) =~= before.map_values(
                        |j: usize| docs[j as int],
                    ).push(docs[i as int]));
                }
            }
            i = i + 1;
        }
        proof {
            assert(docs.take(i as int) =~= docs);
        }
        let count = if kept.len() > DOCUMENTS_CAP {
            DOCUMENTS_CAP
        } else {
            kept.len()
        };
        let ghost others = other_documents(docs, path_of(open));
        let ghost listed = if others.len() > DOCUMENTS_CAP {
            others.take(DOCUMENTS_CAP as int)
        } else {
            others
        };
        proof {
            assert(listed.len() == count);
        }
        if count > 0 {
            rows.push(Outlined::Head(DOCUMENTS));
            let ghost headed = outline_view(rows@);
            proof {
                assert(headed =~= above + seq![OutlineRow::Head(DOCUMENTS@)]);
            }
            let mut k: usize = 0;
            while k < count
                invariant
                    0 <= k <= count <= kept@.len(),
                    count == listed.len(),
                    docs == documents@.map_values(|s: String| s@),
                    kept@.map_values(|j: usize| docs[j as int]) == others,
                    forall|j: int| 0 <= j < kept@.len() ==> #[trigger] kept@[j] < documents@.len(),
                    listed == if others.len() > DOCUMENTS_CAP {
                        others.take(DOCUMENTS_CAP as int)
                    } else {
                        others
                    },
                    outline_view(rows@) == headed + listed.take(k as int).map_values(
                        |d: Seq<char>| OutlineRow::Document(d, shown_of(d), Seq::<(usize, usize)>::empty()),
                    ),
                decreases count - k,
            {
                let path = documents[kept[k]].as_str();
                let none: Vec<(usize, usize)> = Vec::new();
                let ghost before = rows@;
                rows.push(Outlined::Document(Recent { path, name: shown_name(path), hits: none }));
                proof {
                    assert(none@ =~= Seq::<(usize, usize)>::empty());
                    assert(listed[k as int] == others[k as int]);
                    assert(others[k as int] == docs[kept@[k as int] as int]);
                    let d = listed[k as int];
                    assert(outline_view(rows@) =~= outline_view(before).push(
                        OutlineRow::Document(d, shown_of(d), Seq::<(usize, usize)>::empty()),
                    ));
                    assert(listed.take(k + 1).map_values(
                        |d: Seq<char>| OutlineRow::Document(d, shown_of(d), Seq::<(usize, usize)>::empty()),
                    ) =~= listed.take(k as int).map_values(
                        |d: Seq<char>| OutlineRow::Document(d, shown_of(d), Seq::<(usize, usize)>::empty()),
                    ).push(OutlineRow::Document(d, shown_of(d), Seq::<(usize, usize)>::empty())));
                }
                k = k + 1;
            }
            proof {
                assert(listed.take(k as int) =~= listed);
            }
        }
    }
    let selected = if blank {
        match section {
            Some(at) => at,
            None => 0,
        }
    } else {
        0
    };
    OutlineList { rows, selected }
}

proof fn lemma_recent_increasing(paths: Seq<Seq<char>>, q: Seq<char>, n: int)
    requires
        0 <= n <= paths.len() <= usize::MAX,
    ensures
        forall|i: int, j: int| 0 <= i < j < recent_entries(paths, q, n).len() ==> (#[trigger] recent_entries(paths, q, n)[i]).2
            < (#[trigger] recent_entries(paths, q, n)[j]).2,
    decreases n,
{
    if n > 0 {
        lemma_recent_increasing(paths, q, n - 1);
        lemma_recent_entries(paths, q, n - 1);
        let before = recent_entries(paths, q, n - 1);
        let all = recent_entries(paths, q, n);
        assert forall|i: int, j: int| 0 <= i < j < all.len() implies (#[trigger] all[i]).2 < (#[trigger] all[j]).2 by {
            if j < before.len() {
                assert(all[i] == before[i] && all[j] == before[j]);
            } else {
                assert(all[i] == before[i]);
                assert(before.contains(before[i]));
            }
        }
    }
}

proof fn lemma_command_increasing(table: Seq<Command>, q: Seq<char>, n: int)
    requires
        0 <= n <= table.len() <= usize::MAX,
    ensures
        forall|i: int, j: int| 0 <= i < j < command_entries(table, q, n).len() ==> (#[trigger] command_entries(table, q, n)[i]).2
            < (#[trigger] command_entries(table, q, n)[j]).2,
    decreases n,
{
    if n > 0 {
        lemma_command_increasing(table, q, n - 1);
        lemma_command_entries(table, q, n - 1);
        let before = command_entries(table, q, n - 1);
        let all = command_entries(table, q, n);
        assert forall|i: int, j: int| 0 <= i < j < all.len() implies (#[trigger] all[i]).2 < (#[trigger] all[j]).2 by {
            if j < before.len() {
                assert(all[i] == before[i] && all[j] == before[j]);
            } else {
                assert(all[i] == before[i]);
                assert(before.contains(before[i]));
            }
        }
    }
}

proof fn lemma_setting_increasing(table: Seq<Setting>, q: Seq<char>, n: int)
    requires
        0 <= n <= table.len() <= usize::MAX,
    ensures
        forall|i: int, j: int| 0 <= i < j < setting_entries(table, q, n).len() ==> (#[trigger] setting_entries(table, q, n)[i]).2
            < (#[trigger] setting_entries(table, q, n)[j]).2,
    decreases n,
{
    if n > 0 {
        lemma_setting_increasing(table, q, n - 1);
        lemma_setting_entries(table, q, n - 1);
        let before = setting_entries(table, q, n - 1);
        let all = setting_entries(table, q, n);
        assert forall|i: int, j: int| 0 <= i < j < all.len() implies (#[trigger] all[i]).2 < (#[trigger] all[j]).2 by {
            if j < before.len() {
                assert(all[i] == before[i] && all[j] == before[j]);
            } else {
                assert(all[i] == before[i]);
                assert(before.contains(before[i]));
            }
        }
    }
}

/// The recents matched for a query stand in rank order, and two names
/// matched alike stay in the order they were handed over, newest first.
pub proof fn lemma_recents_keep_their_order(paths: Seq<Seq<char>>, q: Seq<char>)
    requires
        paths.len() <= usize::MAX,
    ensures
        in_rank_order(ranked(recent_entries(paths, q, paths.len() as int))),
{
    lemma_recent_increasing(paths, q, paths.len() as int);
    lemma_ranked_in_order(recent_entries(paths, q, paths.len() as int));
}

/// The Commands a query matches stand by rank, then by title, and rows that
/// tie on both, the group matches among them, stay in the registry's order.
pub proof fn lemma_commands_keep_their_order(q: Seq<char>)
    ensures
        in_rank_order(ranked(command_entries(registry(), q, registry().len() as int))),
{
    assert(registry().len() <= usize::MAX);
    lemma_command_increasing(registry(), q, registry().len() as int);
    lemma_ranked_in_order(command_entries(registry(), q, registry().len() as int));
}

/// The Settings rows a query matches stand by rank, then in the table's
/// order.
pub proof fn lemma_settings_keep_their_order(q: Seq<char>)
    ensures
        in_rank_order(ranked(setting_entries(settings_table(), q, settings_table().len() as int))),
{
    assert(settings_table().len() <= usize::MAX);
    lemma_setting_increasing(settings_table(), q, settings_table().len() as int);
    lemma_ranked_in_order(setting_entries(settings_table(), q, settings_table().len() as int));
}

} // verus!
