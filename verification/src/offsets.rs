//! Offsets: ascending byte positions kept so that an edit shifts none of them.
//!
//! The line table and the block index are lists of byte offsets into the
//! text, and an edit moves every offset below it by the edit's delta. An
//! [`Offsets`] is such a list as a gap buffer of positions. The entries at or
//! above the last edit are held as absolute offsets, ascending; the entries
//! below it are held as distances from the end of the text, nearest the edit
//! last. An edit at the seam then changes one number, the text's length, and
//! every entry below it has moved by exactly the delta without being touched.

use vstd::prelude::*;
use std::ops::Range;

verus! {

/// Ascending byte offsets, each carrying a tag, in two halves either side of
/// the last edit. Read as one list, in absolute bytes, whichever half holds
/// an entry.
pub struct Offsets<T> {
    /// The entries at or above the seam, in absolute bytes, ascending.
    head: Vec<(usize, T)>,
    /// The entries below the seam, each as `len - offset`, the nearest the
    /// seam at the back.
    tail: Vec<(usize, T)>,
    /// The length of the text the tail is measured from.
    len: usize,
}

/// Whether `entries` are ascending and none lies past `len`.
pub open spec fn ascending_within<T>(entries: Seq<(usize, T)>, len: int) -> bool {
    &&& forall|i: int, j: int| 0 <= i <= j < entries.len() ==> entries[i].0 <= entries[j].0
    &&& forall|i: int| 0 <= i < entries.len() ==> entries[i].0 <= len
}

/// `entries` with every offset moved by `delta`.
pub open spec fn shifted<T>(entries: Seq<(usize, T)>, delta: int) -> Seq<(usize, T)> {
    entries.map_values(|e: (usize, T)| ((e.0 + delta) as usize, e.1))
}

/// The list a splice leaves: the entries before `stale`, then `fresh`, then
/// the entries after `stale` moved by `delta`.
pub open spec fn spliced<T>(entries: Seq<(usize, T)>, stale: Range<usize>, fresh: Seq<(usize, T)>, delta: int) -> Seq<(usize, T)> {
    entries.take(stale.start as int) + fresh + shifted(entries.skip(stale.end as int), delta)
}

impl<T> View for Offsets<T> {
    type V = Seq<(usize, T)>;

    /// The entries in order, in absolute bytes.
    closed spec fn view(&self) -> Seq<(usize, T)> {
        self.head@ + Seq::new(
            self.tail@.len(),
            |k: int| ((self.len - self.tail@[self.tail@.len() - 1 - k].0) as usize, self.tail@[self.tail@.len() - 1 - k].1),
        )
    }
}

impl<T> Offsets<T> {
    /// The length of the text the offsets are into.
    pub closed spec fn text_len(&self) -> nat {
        self.len as nat
    }

    /// How many entries stand above the seam.
    pub closed spec fn seam(&self) -> nat {
        self.head@.len()
    }

    /// The halves agree with each other: the list is ascending and within the
    /// text, and every distance in the tail is from within the text.
    pub closed spec fn wf(&self) -> bool {
        &&& forall|k: int| 0 <= k < self.tail@.len() ==> self.tail@[k].0 <= self.len
        &&& ascending_within(self@, self.len as int)
        &&& self.head@.len() + self.tail@.len() <= usize::MAX
    }

    proof fn lemma_view(&self)
        ensures
            self@.len() == self.head@.len() + self.tail@.len(),
            forall|i: int| 0 <= i < self.head@.len() ==> #[trigger] self@[i] == self.head@[i],
            forall|k: int|
                0 <= k < self.tail@.len() ==> #[trigger] self@[self.head@.len() + k] == (
                    (self.len - self.tail@[self.tail@.len() - 1 - k].0) as usize,
                    self.tail@[self.tail@.len() - 1 - k].1,
                ),
    {
    }

    /// The offsets of `entries`, ascending and in absolute bytes, into a text
    /// `len` bytes long.
    pub fn new(entries: Vec<(usize, T)>, len: usize) -> (made: Self)
        requires
            ascending_within(entries@, len as int),
        ensures
            made.wf(),
            made@ == entries@,
            made.text_len() == len,
    {
        let count = entries.len();
        let made = Offsets { head: entries, tail: Vec::new(), len };
        proof {
            assert(made@ =~= entries@);
        }
        made
    }

    /// How many entries there are.
    pub fn len(&self) -> (n: usize)
        requires
            self.wf(),
        ensures
            n == self@.len(),
    {
        proof {
            self.lemma_view();
        }
        self.head.len() + self.tail.len()
    }

    /// The offset at view index `index`, which is below the count.
    fn offset_at(&self, index: usize) -> (offset: usize)
        requires
            self.wf(),
            index < self@.len(),
        ensures
            offset == self@[index as int].0,
    {
        proof {
            self.lemma_view();
        }
        if index < self.head.len() {
            self.head[index].0
        } else {
            let k = index - self.head.len();
            let at = self.tail.len() - 1 - k;
            self.len - self.tail[at].0
        }
    }

    /// The entry at `index`: its offset in absolute bytes and its tag; none
    /// past the last.
    pub fn get(&self, index: usize) -> (found: Option<(usize, &T)>)
        requires
            self.wf(),
            index < usize::MAX,
        ensures
            match found {
                Some((offset, tag)) => index < self@.len() && offset == self@[index as int].0 && *tag
                    == self@[index as int].1,
                None => index >= self@.len(),
            },
    {
        proof {
            self.lemma_view();
        }
        if index < self.head.len() {
            let entry = &self.head[index];
            return Some((entry.0, &entry.1));
        }
        let from_back = index - self.head.len();
        if from_back + 1 > self.tail.len() {
            return None;
        }
        let at = self.tail.len() - (from_back + 1);
        let entry = &self.tail[at];
        Some((self.len - entry.0, &entry.1))
    }

    /// The offset at `index`, in absolute bytes; none past the last.
    pub fn offset(&self, index: usize) -> (found: Option<usize>)
        requires
            self.wf(),
            index < usize::MAX,
        ensures
            match found {
                Some(offset) => index < self@.len() && offset == self@[index as int].0,
                None => index >= self@.len(),
            },
    {
        match self.get(index) {
            Some((offset, _)) => Some(offset),
            None => None,
        }
    }

    /// Every entry, in order: its offset in absolute bytes and its tag.
    pub fn iter(&self) -> (all: Vec<(usize, &T)>)
        requires
            self.wf(),
        ensures
            all@.len() == self@.len(),
            forall|k: int| 0 <= k < all@.len() ==> (#[trigger] all@[k]).0 == self@[k].0 && *all@[k].1 == self@[k].1,
    {
        let n = self.len();
        let mut all: Vec<(usize, &T)> = Vec::new();
        let mut k: usize = 0;
        while k < n
            invariant
                0 <= k <= n,
                n == self@.len(),
                self.wf(),
                all@.len() == k,
                forall|j: int| 0 <= j < k ==> (#[trigger] all@[j]).0 == self@[j].0 && *all@[j].1 == self@[j].1,
            decreases n - k,
        {
            match self.get(k) {
                Some(entry) => all.push(entry),
                None => {},
            }
            k = k + 1;
        }
        all
    }

    /// Every offset, in order, in absolute bytes, without its tag.
    pub fn offsets(&self) -> (all: Vec<usize>)
        requires
            self.wf(),
        ensures
            all@.len() == self@.len(),
            forall|k: int| 0 <= k < all@.len() ==> all@[k] == self@[k].0,
    {
        let n = self.len();
        let mut all: Vec<usize> = Vec::new();
        let mut k: usize = 0;
        while k < n
            invariant
                0 <= k <= n,
                n == self@.len(),
                self.wf(),
                all@.len() == k,
                forall|j: int| 0 <= j < k ==> all@[j] == self@[j].0,
            decreases n - k,
        {
            all.push(self.offset_at(k));
            k = k + 1;
        }
        all
    }

    /// Moves entries across the seam until exactly `index` of them are above
    /// it, or all of them where there are fewer. The list reads the same.
    pub fn seam_to(&mut self, index: usize)
        requires
            old(self).wf(),
        ensures
            final(self).wf(),
            final(self)@ == old(self)@,
            final(self).text_len() == old(self).text_len(),
            final(self).seam() == if index <= old(self)@.len() {
                index as int
            } else {
                old(self)@.len() as int
            },
    {
        let ghost whole = self@;
        let ghost length = self.len;
        proof {
            self.lemma_view();
        }
        while self.head.len() > index
            invariant
                self.wf(),
                self@ == whole,
                self.len == length,
            decreases self.head@.len(),
        {
            proof {
                self.lemma_view();
                let i = self.head@.len() - 1;
                assert(self@[i] == self.head@[i]);
                assert(self.head@[i].0 <= self.len);
            }
            let (offset, tag) = self.head.pop().unwrap();
            self.tail.push((self.len - offset, tag));
            proof {
                self.lemma_view();
                assert(self@ =~= whole);
            }
        }
        while self.head.len() < index && self.tail.len() > 0
            invariant
                self.wf(),
                self@ == whole,
                self.len == length,
                self.head@.len() <= index,
            decreases self.tail@.len(),
        {
            proof {
                self.lemma_view();
            }
            let (from_end, tag) = self.tail.pop().unwrap();
            self.head.push((self.len - from_end, tag));
            proof {
                self.lemma_view();
                assert(self@ =~= whole);
            }
        }
        proof {
            self.lemma_view();
        }
    }

    /// Takes the entry at `index` out, or nothing past the last; the rest
    /// stay where they were.
    pub fn remove(&mut self, index: usize) -> (taken: Option<(usize, T)>)
        requires
            old(self).wf(),
        ensures
            final(self).wf(),
            final(self).text_len() == old(self).text_len(),
            match taken {
                Some(entry) => index < old(self)@.len() && entry == old(self)@[index as int] && final(self)@
                    == old(self)@.remove(index as int),
                None => index >= old(self)@.len() && final(self)@ == old(self)@,
            },
    {
        let ghost whole = self@;
        self.seam_to(index);
        proof {
            self.lemma_view();
        }
        match self.tail.pop() {
            Some((from_end, tag)) => {
                let entry = (self.len - from_end, tag);
                proof {
                    self.lemma_view();
                    assert(self@ =~= whole.remove(index as int));
                    assert forall|i: int, j: int| 0 <= i <= j < self@.len() implies self@[i].0 <= self@[j].0 by {
                        if i >= index {
                            assert(self@[i] == whole[i + 1]);
                        } else {
                            assert(self@[i] == whole[i]);
                        }
                        if j >= index {
                            assert(self@[j] == whole[j + 1]);
                        } else {
                            assert(self@[j] == whole[j]);
                        }
                    }
                    assert forall|i: int| 0 <= i < self@.len() implies self@[i].0 <= self.len by {
                        if i >= index {
                            assert(self@[i] == whole[i + 1]);
                        } else {
                            assert(self@[i] == whole[i]);
                        }
                    }
                }
                Some(entry)
            },
            None => None,
        }
    }

    /// Puts `fresh` where the entries at `stale` were, and moves everything
    /// after them by `delta`, the edit's change to the text's length.
    ///
    /// `fresh` is in absolute bytes of the text as it is after the edit. The
    /// entries after `stale` are moved by changing the length they are
    /// measured from.
    pub fn splice(&mut self, stale: Range<usize>, fresh: Vec<(usize, T)>, delta: isize)
        requires
            old(self).wf(),
            stale.start <= stale.end <= old(self)@.len(),
            0 <= old(self).text_len() + delta <= usize::MAX,
            spliced(old(self)@, stale, fresh@, delta as int).len() <= usize::MAX,
            forall|k: int| stale.end <= k < old(self)@.len() ==> old(self)@[k].0 + delta >= 0,
            ascending_within(
                spliced(old(self)@, stale, fresh@, delta as int),
                old(self).text_len() + delta,
            ),
        ensures
            final(self).wf(),
            final(self)@ == spliced(old(self)@, stale, fresh@, delta as int),
            final(self).text_len() == old(self).text_len() + delta,
    {
        let ghost whole = self@;
        let ghost want = spliced(whole, stale, fresh@, delta as int);
        self.seam_to(stale.start);
        proof {
            self.lemma_view();
        }
        let gone = stale.end - stale.start;
        let keep = self.tail.len() - gone;
        self.tail.truncate(keep);
        let total: i128 = self.len as i128 + delta as i128;
        let new_len: usize = total as usize;
        let ghost old_len = self.len;
        self.len = new_len;
        proof {
            self.lemma_view();
            assert forall|k: int| 0 <= k < self.tail@.len() implies self.tail@[k].0 <= self.len by {
                let v = self.tail@.len() - 1 - k;
                assert(whole[stale.end + v] == ((old_len - self.tail@[k].0) as usize, self.tail@[k].1));
            }
        }
        let mut fresh = fresh;
        let ghost added = fresh@;
        let n = fresh.len();
        let ghost base = self.head@;
        self.head.append(&mut fresh);
        proof {
            self.lemma_view();
            assert(self@ =~= want) by {
                assert forall|k: int| 0 <= k < self@.len() implies self@[k] == want[k] by {
                    let h = base.len() + n;
                    if k >= h {
                        let q = k - h;
                        let v = self.tail@.len() - 1 - q;
                        assert(whole[stale.end + q] == ((old_len - self.tail@[v].0) as usize, self.tail@[v].1));
                    }
                }
            }
        }
    }

    /// The index of the first entry whose offset fails `holds`, given that
    /// `holds` is true for a prefix of the entries and false after it, the
    /// same contract as a slice's `partition_point`, over both halves at once.
    pub fn partition_point<F: Fn(usize) -> bool>(&self, holds: F) -> (point: usize)
        requires
            self.wf(),
            forall|x: usize| #[trigger] holds.requires((x,)),
            forall|i: int, j: int, b: bool, c: bool|
                0 <= i <= j < self@.len() && holds.ensures((self@[i].0,), b) && holds.ensures(
                    (self@[j].0,),
                    c,
                ) ==> (c ==> b),
        ensures
            point <= self@.len(),
            forall|k: int, b: bool| 0 <= k < point && holds.ensures((self@[k].0,), b) ==> b,
            forall|k: int, b: bool| point <= k < self@.len() && holds.ensures((self@[k].0,), b) ==> !b,
    {
        let mut low: usize = 0;
        let mut high: usize = self.len();
        while low < high
            invariant
                self.wf(),
                0 <= low <= high <= self@.len(),
                forall|x: usize| #[trigger] holds.requires((x,)),
                forall|i: int, j: int, b: bool, c: bool|
                    0 <= i <= j < self@.len() && holds.ensures((self@[i].0,), b) && holds.ensures(
                        (self@[j].0,),
                        c,
                    ) ==> (c ==> b),
                forall|k: int, b: bool| 0 <= k < low && holds.ensures((self@[k].0,), b) ==> b,
                forall|k: int, b: bool| high <= k < self@.len() && holds.ensures((self@[k].0,), b) ==> !b,
            decreases high - low,
        {
            let mid = low + (high - low) / 2;
            let offset = self.offset_at(mid);
            if holds(offset) {
                low = mid + 1;
            } else {
                high = mid;
            }
        }
        low
    }
}

/// Two lists that read alike give one partition point for one predicate,
/// wherever their seams are: the point is a function of the list and the
/// predicate alone.
pub proof fn lemma_partition_point_is_the_lists<T, F: Fn(usize) -> bool>(
    entries: Seq<(usize, T)>,
    holds: F,
    one: int,
    two: int,
)
    requires
        forall|x: usize| #[trigger] holds.requires((x,)),
        0 <= one <= entries.len(),
        0 <= two <= entries.len(),
        forall|k: int, b: bool| 0 <= k < one && holds.ensures((entries[k].0,), b) ==> b,
        forall|k: int, b: bool| one <= k < entries.len() && holds.ensures((entries[k].0,), b) ==> !b,
        forall|k: int, b: bool| 0 <= k < two && holds.ensures((entries[k].0,), b) ==> b,
        forall|k: int, b: bool| two <= k < entries.len() && holds.ensures((entries[k].0,), b) ==> !b,
        forall|k: int| #![trigger entries[k]] 0 <= k < entries.len() ==> exists|b: bool| #[trigger] holds.ensures((entries[k].0,), b),
    ensures
        one == two,
{
    if one < two {
        let b = choose|b: bool| holds.ensures((entries[one].0,), b);
        assert(holds.ensures((entries[one].0,), b));
    } else if two < one {
        let b = choose|b: bool| holds.ensures((entries[two].0,), b);
        assert(holds.ensures((entries[two].0,), b));
    }
}

} // verus!
