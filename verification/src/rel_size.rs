//! The size history of a relation: how many pages it has, from which LSN on.

use crate::lsn::Lsn;
use vstd::prelude::*;

verus! {

/// The entries stand in the order of their LSNs, each LSN once.
pub open spec fn lsns_ascending(es: Seq<(u64, u32)>) -> bool {
    forall|i: int, j: int| 0 <= i < j < es.len() ==> (#[trigger] es[i]).0 < (#[trigger] es[j]).0
}

/// Some entry is for this LSN.
pub open spec fn has_lsn(es: Seq<(u64, u32)>, l: u64) -> bool {
    exists|i: int| 0 <= i < es.len() && (#[trigger] es[i]).0 == l
}

/// The mapping that entries make when they are entered one after another:
/// of two entries for one LSN the later one stays.
pub open spec fn sizes_map(es: Seq<(u64, u32)>) -> Map<u64, u32>
    decreases es.len(),
{
    if es.len() == 0 {
        Map::empty()
    } else {
        sizes_map(es.drop_last()).insert(es.last().0, es.last().1)
    }
}

/// The size of the relation as of `lsn`: the one entered at the greatest LSN
/// that is at most `lsn`. `None` where there is none: the relation did not
/// exist yet.
pub open spec fn size_at(m: Map<u64, u32>, lsn: int) -> Option<u32>
    decreases lsn + 1,
{
    if lsn < 0 {
        None
    } else if m.dom().contains(lsn as u64) {
        Some(m[lsn as u64])
    } else {
        size_at(m, lsn - 1)
    }
}

/// Where no size was entered in `lo + 1 ..= hi`, the size as of `hi` is that
/// as of `lo`.
pub proof fn lemma_size_at_skip(m: Map<u64, u32>, lo: int, hi: int)
    requires
        -1 <= lo <= hi <= u64::MAX,
        forall|l: u64| lo < l <= hi ==> !m.dom().contains(l),
    ensures
        size_at(m, hi) == size_at(m, lo),
    decreases hi - lo,
{
    if lo < hi {
        assert(!m.dom().contains(hi as u64));
        lemma_size_at_skip(m, lo, hi - 1);
    }
}

/// A size is known as of `lsn` exactly where one was entered at or before
/// `lsn`; it is then the one entered last of those.
pub proof fn lemma_size_at_is_latest(m: Map<u64, u32>, lsn: u64)
    ensures
        size_at(m, lsn as int) is Some <==> exists|l: u64| l <= lsn && m.dom().contains(l),
        size_at(m, lsn as int) matches Some(n) ==> exists|l: u64|
            l <= lsn && #[trigger] m.dom().contains(l) && m[l] == n && forall|k: u64|
                l < k <= lsn ==> !m.dom().contains(k),
    decreases lsn,
{
    if m.dom().contains(lsn) {
        assert(lsn <= lsn && m.dom().contains(lsn));
    } else if lsn > 0 {
        lemma_size_at_is_latest(m, (lsn - 1) as u64);
        if size_at(m, lsn as int) is Some {
            let n = size_at(m, lsn as int)->0;
            let l = choose|l: u64|
                l <= lsn - 1 && #[trigger] m.dom().contains(l) && m[l] == n && forall|k: u64|
                    l < k <= lsn - 1 ==> !m.dom().contains(k);
            assert(l <= lsn && m.dom().contains(l) && m[l] == n && forall|k: u64|
                l < k <= lsn ==> !m.dom().contains(k));
        }
        if exists|l: u64| l <= lsn && m.dom().contains(l) {
            let l = choose|l: u64| l <= lsn && m.dom().contains(l);
            assert(l <= lsn - 1 && m.dom().contains(l));
        }
    } else {
        assert(size_at(m, -1) is None);
    }
}

/// The LSNs of the mapping are those of the entries.
pub proof fn lemma_sizes_map_dom(es: Seq<(u64, u32)>)
    ensures
        forall|l: u64| #[trigger] sizes_map(es).dom().contains(l) <==> has_lsn(es, l),
    decreases es.len(),
{
    if es.len() > 0 {
        let front = es.drop_last();
        lemma_sizes_map_dom(front);
        assert forall|l: u64| #[trigger] sizes_map(es).dom().contains(l) <==> has_lsn(es, l) by {
            assert(sizes_map(es) == sizes_map(front).insert(es.last().0, es.last().1));
            if has_lsn(es, l) {
                let i = choose|i: int| 0 <= i < es.len() && (#[trigger] es[i]).0 == l;
                if i < es.len() - 1 {
                    assert(front[i].0 == l);
                    assert(has_lsn(front, l));
                    assert(sizes_map(front).dom().contains(l));
                }
            }
            if sizes_map(es).dom().contains(l) {
                if l == es.last().0 {
                    assert(es[es.len() - 1].0 == l);
                } else {
                    assert(sizes_map(front).dom().contains(l));
                    assert(has_lsn(front, l));
                    let i = choose|i: int| 0 <= i < front.len() && (#[trigger] front[i]).0 == l;
                    assert(es[i].0 == l);
                }
            }
        }
    }
}

/// Where each LSN stands once, the mapping holds each entry's size under
/// the entry's LSN.
pub proof fn lemma_sizes_map_value(es: Seq<(u64, u32)>, i: int)
    requires
        lsns_ascending(es),
        0 <= i < es.len(),
    ensures
        sizes_map(es).dom().contains(es[i].0),
        sizes_map(es)[es[i].0] == es[i].1,
    decreases es.len(),
{
    if i < es.len() - 1 {
        let front = es.drop_last();
        assert(lsns_ascending(front)) by {
            assert forall|a: int, b: int| 0 <= a < b < front.len() implies (#[trigger] front[a]).0
                < (#[trigger] front[b]).0 by {
                assert(es[a].0 < es[b].0);
            }
        }
        lemma_sizes_map_value(front, i);
        assert(front[i] == es[i]);
        assert(es[i].0 < es[es.len() - 1].0);
    }
}

/// Entering an entry at its place in the order adds it to the mapping.
pub proof fn lemma_insert_size(es: Seq<(u64, u32)>, n: int, e: (u64, u32))
    requires
        lsns_ascending(es),
        0 <= n <= es.len(),
        forall|j: int| 0 <= j < n ==> (#[trigger] es[j]).0 < e.0,
        forall|j: int| n <= j < es.len() ==> e.0 < (#[trigger] es[j]).0,
    ensures
        lsns_ascending(es.insert(n, e)),
        sizes_map(es.insert(n, e)) == sizes_map(es).insert(e.0, e.1),
{
    let after = es.insert(n, e);
    assert forall|a: int, b: int| 0 <= a < b < after.len() implies (#[trigger] after[a]).0 < (
    #[trigger] after[b]).0 by {
        let a0 = if a < n { a } else { a - 1 };
        let b0 = if b < n { b } else { b - 1 };
        if a == n {
            assert(after[b] == es[b - 1]);
        } else if b == n {
            assert(after[a] == es[a]);
        } else {
            assert(after[a] == es[a0]);
            assert(after[b] == es[b0]);
            assert(es[a0].0 < es[b0].0);
        }
    }
    lemma_sizes_map_dom(es);
    lemma_sizes_map_dom(after);
    let m1 = sizes_map(after);
    let m2 = sizes_map(es).insert(e.0, e.1);
    assert forall|l: u64| m1.dom().contains(l) <==> m2.dom().contains(l) by {
        if has_lsn(after, l) {
            let i = choose|i: int| 0 <= i < after.len() && (#[trigger] after[i]).0 == l;
            if i < n {
                assert(es[i].0 == l);
            } else if i > n {
                assert(es[i - 1].0 == l);
            }
        }
        if has_lsn(es, l) {
            let i = choose|i: int| 0 <= i < es.len() && (#[trigger] es[i]).0 == l;
            if i < n {
                assert(after[i].0 == l);
            } else {
                assert(after[i + 1].0 == l);
            }
        }
        if l == e.0 {
            assert(after[n].0 == l);
        }
    }
    assert forall|l: u64| m1.dom().contains(l) implies m1[l] == m2[l] by {
        let i = choose|i: int| 0 <= i < after.len() && (#[trigger] after[i]).0 == l;
        lemma_sizes_map_value(after, i);
        if i < n {
            lemma_sizes_map_value(es, i);
            assert(after[i] == es[i]);
        } else if i > n {
            lemma_sizes_map_value(es, i - 1);
            assert(after[i] == es[i - 1]);
        }
    }
    assert(m1 =~= m2);
}

/// Putting an entry in the place of one for the same LSN replaces that
/// LSN's size in the mapping.
pub proof fn lemma_replace_size(es: Seq<(u64, u32)>, n: int, e: (u64, u32))
    requires
        lsns_ascending(es),
        0 <= n < es.len(),
        es[n].0 == e.0,
    ensures
        lsns_ascending(es.update(n, e)),
        sizes_map(es.update(n, e)) == sizes_map(es).insert(e.0, e.1),
{
    let after = es.update(n, e);
    assert forall|a: int, b: int| 0 <= a < b < after.len() implies (#[trigger] after[a]).0 < (
    #[trigger] after[b]).0 by {
        assert(es[a].0 < es[b].0);
    }
    lemma_sizes_map_dom(es);
    lemma_sizes_map_dom(after);
    let m1 = sizes_map(after);
    let m2 = sizes_map(es).insert(e.0, e.1);
    assert forall|l: u64| m1.dom().contains(l) <==> m2.dom().contains(l) by {
        if has_lsn(after, l) {
            let i = choose|i: int| 0 <= i < after.len() && (#[trigger] after[i]).0 == l;
            assert(es[i].0 == l);
        }
        if has_lsn(es, l) {
            let i = choose|i: int| 0 <= i < es.len() && (#[trigger] es[i]).0 == l;
            assert(after[i].0 == l);
        }
        if l == e.0 {
            assert(after[n].0 == l);
        }
    }
    assert forall|l: u64| m1.dom().contains(l) implies m1[l] == m2[l] by {
        let i = choose|i: int| 0 <= i < after.len() && (#[trigger] after[i]).0 == l;
        lemma_sizes_map_value(after, i);
        if i != n {
            lemma_sizes_map_value(es, i);
            assert(es[i].0 < es[n].0 || es[n].0 < es[i].0);
        }
    }
    assert(m1 =~= m2);
}

/// The size history of a relation: an ordered mapping from an LSN to the
/// number of pages that the relation has from that LSN on.
pub struct SizeHistory {
    entries: Vec<(Lsn, u32)>,
}

impl View for SizeHistory {
    type V = Map<u64, u32>;

    /// The history as a mapping from LSN to size.
    closed spec fn view(&self) -> Map<u64, u32> {
        sizes_map(self.entries())
    }
}

impl SizeHistory {
    /// The entries of the history in the order of their LSNs.
    pub closed spec fn entries(&self) -> Seq<(u64, u32)> {
        self.entries@.map_values(|e: (Lsn, u32)| (e.0@, e.1))
    }

    /// The entries are kept in the order of their LSNs, each LSN once.
    #[verifier::type_invariant]
    pub open spec fn wf(&self) -> bool {
        lsns_ascending(self.entries())
    }

    /// The mapping of a history is that of its entries.
    pub proof fn lemma_view(&self)
        ensures
            self@ == sizes_map(self.entries()),
    {
    }

    /// A history without sizes.
    pub fn new() -> (h: Self)
        ensures
            h.entries() == Seq::<(u64, u32)>::empty(),
            h@ == Map::<u64, u32>::empty(),
    {
        let h = SizeHistory { entries: Vec::new() };
        assert(h.entries() =~= Seq::<(u64, u32)>::empty());
        h
    }

    /// How many sizes the history holds.
    pub fn len(&self) -> (n: usize)
        ensures
            n == self.entries().len(),
    {
        self.entries.len()
    }

    /// The entry at place `i` in the order of the LSNs.
    pub fn entry_at(&self, i: usize) -> (e: (Lsn, u32))
        requires
            i < self.entries().len(),
        ensures
            (e.0@, e.1) == self.entries()[i as int],
    {
        self.entries[i]
    }

    /// How many entries have an LSN of at most `lsn`: they are the first so
    /// many.
    pub fn upper_bound(&self, lsn: Lsn) -> (n: usize)
        ensures
            n <= self.entries().len(),
            forall|j: int| 0 <= j < n ==> (#[trigger] self.entries()[j]).0 <= lsn@,
            forall|j: int| n <= j < self.entries().len() ==> (#[trigger] self.entries()[j]).0 > lsn@,
    {
        proof {
            use_type_invariant(self);
        }
        let mut lo: usize = 0;
        let mut hi: usize = self.entries.len();
        while lo < hi
            invariant
                lo <= hi <= self.entries().len(),
                self.entries().len() == self.entries@.len(),
                lsns_ascending(self.entries()),
                forall|j: int| 0 <= j < lo ==> (#[trigger] self.entries()[j]).0 <= lsn@,
                forall|j: int|
                    hi <= j < self.entries().len() ==> (#[trigger] self.entries()[j]).0 > lsn@,
            decreases hi - lo,
        {
            let mid = lo + (hi - lo) / 2;
            let e = self.entries[mid];
            assert((e.0@, e.1) == self.entries()[mid as int]);
            if e.0.0 <= lsn.0 {
                assert forall|j: int| 0 <= j < mid + 1 implies (#[trigger] self.entries()[j]).0
                    <= lsn@ by {
                    if j < mid {
                        assert(self.entries()[j].0 < self.entries()[mid as int].0);
                    }
                }
                lo = mid + 1;
            } else {
                assert forall|j: int| mid <= j < self.entries().len() implies (
                #[trigger] self.entries()[j]).0 > lsn@ by {
                    if j > mid {
                        assert(self.entries()[mid as int].0 < self.entries()[j].0);
                    }
                }
                hi = mid;
            }
        }
        lo
    }

    /// Enters the size that the relation has from `lsn` on; one that was
    /// entered for `lsn` is replaced.
    pub fn insert(&mut self, lsn: Lsn, size: u32)
        ensures
            final(self)@ == old(self)@.insert(lsn@, size),
    {
        proof {
            use_type_invariant(&*self);
        }
        let n = self.upper_bound(lsn);
        let ghost before = self.entries();
        let ghost e = (lsn@, size);
        let replace = n > 0 && self.entries[n - 1].0.0 == lsn.0;
        // The entries are taken out to be changed and put back in order.
        let mut entries: Vec<(Lsn, u32)> = Vec::new();
        core::mem::swap(&mut self.entries, &mut entries);
        if replace {
            proof {
                lemma_replace_size(before, n - 1, e);
            }
            entries[n - 1] = (lsn, size);
            assert(entries@.map_values(|e: (Lsn, u32)| (e.0@, e.1)) =~= before.update(n - 1, e));
        } else {
            proof {
                assert forall|j: int| 0 <= j < n implies (#[trigger] before[j]).0 < e.0 by {
                    if j < n - 1 {
                        assert(before[j].0 < before[n - 1].0);
                    }
                }
                lemma_insert_size(before, n as int, e);
            }
            entries.insert(n, (lsn, size));
            assert(entries@.map_values(|e: (Lsn, u32)| (e.0@, e.1)) =~= before.insert(
                n as int,
                e,
            ));
        }
        self.entries = entries;
    }

    /// The size of the relation as of `lsn`, if it existed then.
    pub fn size_at(&self, lsn: Lsn) -> (r: Option<u32>)
        ensures
            r == size_at(self@, lsn@ as int),
    {
        proof {
            use_type_invariant(self);
            lemma_sizes_map_dom(self.entries());
        }
        let ghost es = self.entries();
        let ghost m = self@;
        let n = self.upper_bound(lsn);
        if n == 0 {
            proof {
                assert forall|l: u64| -1 < l <= lsn@ implies !m.dom().contains(l) by {
                    if has_lsn(es, l) {
                        let j = choose|j: int| 0 <= j < es.len() && (#[trigger] es[j]).0 == l;
                        assert(es[j].0 > lsn@);
                    }
                }
                lemma_size_at_skip(m, -1, lsn@ as int);
            }
            None
        } else {
            let e = self.entries[n - 1];
            proof {
                assert((e.0@, e.1) == es[n - 1]);
                assert forall|l: u64| e.0@ < l <= lsn@ implies !m.dom().contains(l) by {
                    if has_lsn(es, l) {
                        let j = choose|j: int| 0 <= j < es.len() && (#[trigger] es[j]).0 == l;
                        if j < n - 1 {
                            assert(es[j].0 < es[n - 1].0);
                        } else if j >= n {
                            assert(es[j].0 > lsn@);
                        }
                    }
                }
                lemma_size_at_skip(m, e.0@ as int, lsn@ as int);
                lemma_sizes_map_value(es, n - 1);
            }
            Some(e.1)
        }
    }
}

} // verus!
