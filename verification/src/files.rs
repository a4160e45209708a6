//! The flat map of the virtual file system: from a key to the one file bound to it.
//!
//! The map keeps its entries in the order of their keys, so that walking it is
//! deterministic and its content alone decides what a walk yields. A key is found
//! by halving, two maps are laid one over the other in one walk, and a map is made
//! of a list by merging the maps of its halves.

use vstd::prelude::*;
use crate::path::{lemma_lex_irreflexive, lemma_lex_total, lemma_lex_transitive, lex_less};
use crate::vfs_file::{FileView, VfsFile};

verus! {

/// One binding: a key and what the file bound to it is.
pub type Binding = (Seq<u8>, FileView);

/// The map that a list of bindings makes when it is read from first to last and a
/// later binding of a key replaces an earlier one.
pub open spec fn bindings(list: Seq<Binding>) -> Map<Seq<u8>, FileView>
    decreases list.len(),
{
    if list.len() == 0 {
        Map::empty()
    } else {
        bindings(list.drop_last()).insert(list.last().0, list.last().1)
    }
}

/// The keys of `list` rise strictly from each entry to the next.
pub open spec fn rising(list: Seq<Binding>) -> bool {
    forall|i: int, j: int| 0 <= i < j < list.len() ==> lex_less(#[trigger] list[i].0, #[trigger] list[j].0)
}

/// A key is bound by a list exactly when some entry of the list holds it.
pub proof fn lemma_bindings_dom(list: Seq<Binding>, key: Seq<u8>)
    ensures
        bindings(list).contains_key(key) <==> exists|i: int|
            0 <= i < list.len() && (#[trigger] list[i]).0 == key,
    decreases list.len(),
{
    if list.len() > 0 {
        let front = list.drop_last();
        lemma_bindings_dom(front, key);
        if list.last().0 == key {
            assert(list[list.len() - 1].0 == key);
        } else {
            if bindings(list).contains_key(key) {
                let i = choose|i: int| 0 <= i < front.len() && (#[trigger] front[i]).0 == key;
                assert(list[i].0 == key);
            }
            if exists|i: int| 0 <= i < list.len() && (#[trigger] list[i]).0 == key {
                let i = choose|i: int| 0 <= i < list.len() && (#[trigger] list[i]).0 == key;
                assert(front[i].0 == key);
            }
        }
    }
}

/// A key is bound to what the last entry that holds it holds.
pub proof fn lemma_bindings_last(list: Seq<Binding>, at: int)
    requires
        0 <= at < list.len(),
        forall|j: int| at < j < list.len() ==> (#[trigger] list[j]).0 != list[at].0,
    ensures
        bindings(list).contains_key(list[at].0),
        bindings(list)[list[at].0] == list[at].1,
    decreases list.len(),
{
    if at < list.len() - 1 {
        let front = list.drop_last();
        assert(front[at] == list[at]);
        assert forall|j: int| at < j < front.len() implies (#[trigger] front[j]).0
            != front[at].0 by {
            assert(front[j] == list[j]);
        }
        lemma_bindings_last(front, at);
        assert(list[list.len() - 1].0 != list[at].0);
    }
}

/// Reading two lists one after the other lets the second replace what the first
/// bound.
pub proof fn lemma_bindings_concat(first: Seq<Binding>, second: Seq<Binding>)
    ensures
        bindings(first + second) == bindings(first).union_prefer_right(bindings(second)),
    decreases second.len(),
{
    if second.len() == 0 {
        assert(first + second =~= first);
        assert(bindings(first).union_prefer_right(bindings(second)) =~= bindings(first));
    } else {
        assert((first + second).drop_last() =~= first + second.drop_last());
        lemma_bindings_concat(first, second.drop_last());
        assert(bindings(first + second) =~= bindings(first).union_prefer_right(bindings(second)));
    }
}

/// In a list whose keys rise strictly every key stands once, so each entry is what
/// its key is bound to.
pub proof fn lemma_bindings_rising(list: Seq<Binding>)
    requires
        rising(list),
    ensures
        forall|i: int|
            0 <= i < list.len() ==> bindings(list).contains_key((#[trigger] list[i]).0)
                && bindings(list)[list[i].0] == list[i].1,
        forall|key: Seq<u8>| #[trigger]
            bindings(list).contains_key(key) ==> exists|i: int|
                0 <= i < list.len() && (#[trigger] list[i]).0 == key,
{
    assert forall|i: int| 0 <= i < list.len() implies bindings(list).contains_key(
        (#[trigger] list[i]).0,
    ) && bindings(list)[list[i].0] == list[i].1 by {
        let key = list[i].0;
        assert forall|j: int| i < j < list.len() implies (#[trigger] list[j]).0 != key by {
            lemma_lex_irreflexive(key);
        }
        lemma_bindings_last(list, i);
    }
    assert forall|key: Seq<u8>| #[trigger] bindings(list).contains_key(key) implies exists|i: int|
        0 <= i < list.len() && (#[trigger] list[i]).0 == key by {
        lemma_bindings_dom(list, key);
    }
}

/// Two lists with strictly rising keys that make the same map are the same list.
pub proof fn lemma_rising_unique(a: Seq<Binding>, b: Seq<Binding>)
    requires
        rising(a),
        rising(b),
        bindings(a) == bindings(b),
    ensures
        a == b,
    decreases a.len(),
{
    lemma_bindings_rising(a);
    lemma_bindings_rising(b);
    if a.len() == 0 {
        if b.len() > 0 {
            assert(bindings(b).contains_key(b[0].0));
            assert(!bindings(a).contains_key(b[0].0));
        }
        assert(a =~= b);
    } else if b.len() == 0 {
        assert(bindings(a).contains_key(a[0].0));
        assert(!bindings(b).contains_key(a[0].0));
    } else {
        // The greatest key of each list is the greatest key of the map.
        let la = a.last();
        let lb = b.last();
        assert(bindings(a).contains_key(a[a.len() - 1].0));
        assert(bindings(b).contains_key(b[b.len() - 1].0));
        let ia = choose|i: int| 0 <= i < b.len() && (#[trigger] b[i]).0 == la.0;
        let ib = choose|i: int| 0 <= i < a.len() && (#[trigger] a[i]).0 == lb.0;
        lemma_lex_total(la.0, lb.0);
        if la.0 != lb.0 {
            if ia < b.len() - 1 {
                assert(lex_less(b[ia].0, b[b.len() - 1].0));
            }
            if ib < a.len() - 1 {
                assert(lex_less(a[ib].0, a[a.len() - 1].0));
            }
            assert(false);
        }
        assert(bindings(a)[la.0] == la.1);
        assert(bindings(b)[lb.0] == lb.1);
        assert(la == lb);
        let fa = a.drop_last();
        let fb = b.drop_last();
        assert(rising(fa)) by {
            assert forall|i: int, j: int| 0 <= i < j < fa.len() implies lex_less(
                #[trigger] fa[i].0,
                #[trigger] fa[j].0,
            ) by {
                assert(fa[i] == a[i] && fa[j] == a[j]);
            }
        }
        assert(rising(fb)) by {
            assert forall|i: int, j: int| 0 <= i < j < fb.len() implies lex_less(
                #[trigger] fb[i].0,
                #[trigger] fb[j].0,
            ) by {
                assert(fb[i] == b[i] && fb[j] == b[j]);
            }
        }
        lemma_bindings_rising(fa);
        lemma_bindings_rising(fb);
        assert(bindings(fa) =~= bindings(fb)) by {
            assert forall|key: Seq<u8>| bindings(fa).contains_key(key) implies bindings(
                fb,
            ).contains_key(key) && bindings(fa)[key] == bindings(fb)[key] by {
                let i = choose|i: int| 0 <= i < fa.len() && (#[trigger] fa[i]).0 == key;
                assert(fa[i] == a[i]);
                assert(lex_less(a[i].0, a[a.len() - 1].0));
                lemma_lex_irreflexive(key);
                assert(key != la.0);
                assert(bindings(a).contains_key(a[i].0));
                assert(bindings(b).contains_key(key));
                assert(bindings(b) == bindings(fb).insert(lb.0, lb.1));
                assert(bindings(a) == bindings(fa).insert(la.0, la.1));
            }
            assert forall|key: Seq<u8>| bindings(fb).contains_key(key) implies bindings(
                fa,
            ).contains_key(key) by {
                let i = choose|i: int| 0 <= i < fb.len() && (#[trigger] fb[i]).0 == key;
                assert(fb[i] == b[i]);
                assert(lex_less(b[i].0, b[b.len() - 1].0));
                lemma_lex_irreflexive(key);
                assert(key != lb.0);
                assert(bindings(b).contains_key(b[i].0));
                assert(bindings(a).contains_key(key));
                assert(bindings(b) == bindings(fb).insert(lb.0, lb.1));
                assert(bindings(a) == bindings(fa).insert(la.0, la.1));
            }
        }
        lemma_rising_unique(fa, fb);
        assert(a =~= fa.push(la));
        assert(b =~= fb.push(lb));
    }
}

/// A map from keys to files. A key is bound to at most one file; binding it again
/// replaces the file.
pub struct VFSFiles {
    entries: Vec<(Vec<u8>, VfsFile)>,
}

/// What a list of owned entries holds.
pub open spec fn entries_view(entries: Seq<(Vec<u8>, VfsFile)>) -> Seq<Binding> {
    Seq::new(entries.len(), |i: int| (entries[i].0@, entries[i].1@))
}

impl View for VFSFiles {
    type V = Seq<Binding>;

    /// The entries of the map in the order of their keys.
    closed spec fn view(&self) -> Seq<Binding> {
        entries_view(self.entries@)
    }
}

impl VFSFiles {
    /// The keys of the entries rise strictly.
    #[verifier::type_invariant]
    pub closed spec fn wf(self) -> bool {
        rising(entries_view(self.entries@))
    }

    /// The map as a map.
    pub open spec fn map(&self) -> Map<Seq<u8>, FileView> {
        bindings(self@)
    }

    /// The entries of a map stand in the strict order of their keys.
    pub proof fn lemma_rising(&self)
        requires
            self.wf(),
        ensures
            rising(self@),
    {
    }

    /// An empty map.
    pub fn new() -> (files: Self)
        ensures
            files@ == Seq::<Binding>::empty(),
            files.wf(),
    {
        let files = VFSFiles { entries: Vec::new() };
        assert(files@ =~= Seq::<Binding>::empty());
        files
    }

    /// The number of entries.
    pub fn len(&self) -> (n: usize)
        ensures
            n == self@.len(),
    {
        self.entries.len()
    }

    /// Whether the map is empty.
    pub fn is_empty(&self) -> (empty: bool)
        ensures
            empty == (self@.len() == 0),
    {
        self.entries.len() == 0
    }

    /// The key and the file of the entry at `index`, counting in the order of the
    /// keys.
    pub fn entry(&self, index: usize) -> (entry: (&[u8], &VfsFile))
        requires
            index < self@.len(),
        ensures
            (entry.0@, entry.1@) == self@[index as int],
            self.wf(),
    {
        proof {
            use_type_invariant(self);
        }
        let pair = &self.entries[index];
        (pair.0.as_slice(), &pair.1)
    }

    /// The index of the first entry whose key does not stand before `key`.
    fn slot(&self, key: &[u8]) -> (at: usize)
        ensures
            at <= self@.len(),
            forall|i: int| 0 <= i < at ==> lex_less((#[trigger] self@[i]).0, key@),
            forall|i: int| at <= i < self@.len() ==> !lex_less((#[trigger] self@[i]).0, key@),
            self.wf(),
    {
        proof {
            use_type_invariant(self);
        }
        let mut low: usize = 0;
        let mut high: usize = self.entries.len();
        while low < high
            invariant
                low <= high <= self@.len(),
                self.wf(),
                self@.len() == self.entries@.len(),
                forall|i: int| 0 <= i < low ==> lex_less((#[trigger] self@[i]).0, key@),
                forall|i: int| high <= i < self@.len() ==> !lex_less((#[trigger] self@[i]).0, key@),
            decreases high - low,
        {
            let mid: usize = low + (high - low) / 2;
            if crate::path::bytes_less(self.entries[mid].0.as_slice(), key) {
                assert forall|i: int| 0 <= i < mid + 1 implies lex_less(
                    (#[trigger] self@[i]).0,
                    key@,
                ) by {
                    if i < mid {
                        assert(lex_less(self@[i].0, self@[mid as int].0));
                        lemma_lex_transitive(self@[i].0, self@[mid as int].0, key@);
                    }
                }
                low = mid + 1;
            } else {
                assert forall|i: int| mid <= i < self@.len() implies !lex_less(
                    (#[trigger] self@[i]).0,
                    key@,
                ) by {
                    if i > mid && lex_less(self@[i].0, key@) {
                        assert(lex_less(self@[mid as int].0, self@[i].0));
                        lemma_lex_transitive(self@[mid as int].0, self@[i].0, key@);
                    }
                }
                high = mid;
            }
        }
        low
    }

    /// The file bound to `key`, where one is.
    pub fn get(&self, key: &[u8]) -> (file: Option<&VfsFile>)
        ensures
            match file {
                Some(f) => self.map().contains_key(key@) && self.map()[key@] == f@,
                None => !self.map().contains_key(key@),
            },
    {
        let at = self.slot(key);
        proof {
            lemma_bindings_rising(self@);
        }
        if at < self.entries.len() && crate::path::bytes_eq(self.entries[at].0.as_slice(), key) {
            assert(self@[at as int].0 == key@);
            Some(&self.entries[at].1)
        } else {
            proof {
                if self.map().contains_key(key@) {
                    let i = choose|i: int| 0 <= i < self@.len() && (#[trigger] self@[i]).0 == key@;
                    lemma_lex_irreflexive(key@);
                    if i > at {
                        assert(lex_less(self@[at as int].0, self@[i].0));
                        lemma_lex_total(self@[at as int].0, key@);
                    }
                }
            }
            None
        }
    }

    /// Binds `key` to `file`. A file that was bound to `key` before is replaced.
    pub fn insert(&mut self, key: &[u8], file: VfsFile)
        ensures
            final(self).map() == old(self).map().insert(key@, file@),
            final(self).wf(),
    {
        let at = self.slot(key);
        let ghost before = self@;
        let ghost entry = (key@, file@);
        let mut entries: Vec<(Vec<u8>, VfsFile)> = Vec::new();
        std::mem::swap(&mut entries, &mut self.entries);
        assert(entries_view(entries@) == before);
        let found = at < entries.len() && crate::path::bytes_eq(entries[at].0.as_slice(), key);
        if found {
            let owned = crate::path::to_vec(key);
            entries[at] = (owned, file);
            assert(entries_view(entries@) =~= before.update(at as int, entry));
        } else {
            let owned = crate::path::to_vec(key);
            entries.insert(at, (owned, file));
            assert(entries_view(entries@) =~= before.insert(at as int, entry));
        }
        let ghost after = entries_view(entries@);
        proof {
            assert(rising(after)) by {
                assert forall|i: int, j: int| 0 <= i < j < after.len() implies lex_less(
                    #[trigger] after[i].0,
                    #[trigger] after[j].0,
                ) by {
                    if found {
                        assert(after[i].0 == before[i].0);
                        assert(after[j].0 == before[j].0);
                    } else {
                        let oi = if i < at {
                            i
                        } else {
                            i - 1
                        };
                        let oj = if j < at {
                            j
                        } else {
                            j - 1
                        };
                        if i == at {
                            // the new key before an old one that does not stand before it
                            assert(after[j] == before[oj]);
                            assert(!lex_less(before[oj].0, key@));
                            lemma_lex_total(before[oj].0, key@);
                            if before[oj].0 == key@ {
                                if oj > at {
                                    assert(lex_less(before[at as int].0, before[oj].0));
                                    assert(!lex_less(before[at as int].0, key@));
                                }
                            }
                        } else if j == at {
                            assert(after[i] == before[oi]);
                        } else {
                            assert(after[i] == before[oi]);
                            assert(after[j] == before[oj]);
                        }
                    }
                }
            }
            lemma_bindings_rising(before);
            lemma_bindings_rising(after);
            assert(bindings(after) =~= bindings(before).insert(key@, file@)) by {
                assert forall|k: Seq<u8>| bindings(after).contains_key(k) implies bindings(
                    before,
                ).insert(key@, file@).contains_key(k) && bindings(after)[k] == bindings(
                    before,
                ).insert(key@, file@)[k] by {
                    let i = choose|i: int| 0 <= i < after.len() && (#[trigger] after[i]).0 == k;
                    assert(bindings(after)[after[i].0] == after[i].1);
                    if i != at {
                        let oi = if found || i < at {
                            i
                        } else {
                            i - 1
                        };
                        assert(after[i] == before[oi]);
                        assert(bindings(before).contains_key(before[oi].0));
                        if k == key@ {
                            lemma_lex_irreflexive(k);
                            if i < at {
                                assert(lex_less(after[i].0, after[at as int].0));
                            } else {
                                assert(lex_less(after[at as int].0, after[i].0));
                            }
                        }
                    }
                }
                assert forall|k: Seq<u8>|
                    bindings(before).insert(key@, file@).contains_key(k) implies bindings(
                    after,
                ).contains_key(k) by {
                    if k == key@ {
                        assert(after[at as int].0 == k);
                        assert(bindings(after).contains_key(after[at as int].0));
                    } else {
                        let i = choose|i: int|
                            0 <= i < before.len() && (#[trigger] before[i]).0 == k;
                        let ni = if found || i < at {
                            i
                        } else {
                            i + 1
                        };
                        assert(after[ni] == before[i]);
                        assert(bindings(after).contains_key(after[ni].0));
                    }
                }
            }
        }
        self.entries = entries;
    }

    /// Binds every key of `other` to the file that `other` binds it to: where both
    /// maps bind a key, the file of `other` stays.
    pub fn extend(&mut self, other: VFSFiles)
        ensures
            final(self).map() == old(self).map().union_prefer_right(other.map()),
            final(self).wf(),
    {
        let mut under = VFSFiles::new();
        std::mem::swap(&mut under, self);
        let mut merged = under.merge(other);
        std::mem::swap(&mut merged, self);
    }

    /// The map that binds every key of `self` and of `other`: where both bind a key,
    /// to the file of `other`. The two maps are walked once, side by side.
    pub fn merge(self, other: VFSFiles) -> (merged: VFSFiles)
        ensures
            merged.map() == self.map().union_prefer_right(other.map()),
            merged.wf(),
    {
        proof {
            use_type_invariant(&self);
            use_type_invariant(&other);
        }
        let mut a = self.entries;
        let mut b = other.entries;
        let ghost av = entries_view(a@);
        let ghost bv = entries_view(b@);
        let mut out: Vec<(Vec<u8>, VfsFile)> = Vec::new();
        let mut i: usize = 0;
        let mut j: usize = 0;
        assert(av.take(0) =~= Seq::<Binding>::empty());
        assert(bv.take(0) =~= Seq::<Binding>::empty());
        assert(bindings(entries_view(out@)) =~= bindings(av.take(0)).union_prefer_right(
            bindings(bv.take(0)),
        ));
        while i < a.len() || j < b.len()
            invariant
                i <= av.len(),
                j <= bv.len(),
                a@.len() == av.len(),
                b@.len() == bv.len(),
                rising(av),
                rising(bv),
                forall|k: int| i <= k < av.len() ==> (a@[k].0@, a@[k].1@) == #[trigger] av[k],
                forall|k: int| j <= k < bv.len() ==> (b@[k].0@, b@[k].1@) == #[trigger] bv[k],
                rising(entries_view(out@)),
                forall|m: int, k: int|
                    0 <= m < out@.len() && i <= k < av.len() ==> lex_less(
                        (#[trigger] entries_view(out@)[m]).0,
                        (#[trigger] av[k]).0,
                    ),
                forall|m: int, k: int|
                    0 <= m < out@.len() && j <= k < bv.len() ==> lex_less(
                        (#[trigger] entries_view(out@)[m]).0,
                        (#[trigger] bv[k]).0,
                    ),
                forall|m: int, k: int|
                    0 <= m < j && i <= k < av.len() ==> lex_less(
                        (#[trigger] bv[m]).0,
                        (#[trigger] av[k]).0,
                    ),
                bindings(entries_view(out@)) == bindings(av.take(i as int)).union_prefer_right(
                    bindings(bv.take(j as int)),
                ),
            decreases (av.len() - i) + (bv.len() - j),
        {
            let from_a: bool = j >= b.len() || (i < a.len() && crate::path::bytes_less(
                a[i].0.as_slice(),
                b[j].0.as_slice(),
            ));
            let from_b: bool = !from_a && (i >= a.len() || crate::path::bytes_less(
                b[j].0.as_slice(),
                a[i].0.as_slice(),
            ));
            let ghost outv = entries_view(out@);
            let ghost x = bindings(av.take(i as int));
            let ghost y = bindings(bv.take(j as int));
            if from_a {
                // the next key of `self` stands before what is left of `other`
                let entry = take_binding(&mut a, i);
                let ghost e = av[i as int];
                proof {
                    assert(av.take(i + 1).drop_last() =~= av.take(i as int));
                    lemma_bindings_dom(bv.take(j as int), e.0);
                    if y.contains_key(e.0) {
                        let m = choose|m: int|
                            0 <= m < bv.take(j as int).len() && (#[trigger] bv.take(j as int)[m]).0
                                == e.0;
                        assert(bv.take(j as int)[m] == bv[m]);
                        assert(lex_less(bv[m].0, av[i as int].0));
                        lemma_lex_irreflexive(e.0);
                    }
                    assert(x.insert(e.0, e.1).union_prefer_right(y) =~= x.union_prefer_right(
                        y,
                    ).insert(e.0, e.1));
                    assert forall|m: int, k: int|
                        0 <= m < outv.len() + 1 && j <= k < bv.len() implies lex_less(
                        (#[trigger] outv.push(e)[m]).0,
                        (#[trigger] bv[k]).0,
                    ) by {
                        if m == outv.len() {
                            assert(lex_less(e.0, bv[j as int].0));
                            if k > j {
                                assert(lex_less(bv[j as int].0, bv[k].0));
                                lemma_lex_transitive(e.0, bv[j as int].0, bv[k].0);
                            }
                        } else {
                            assert(outv.push(e)[m] == outv[m]);
                        }
                    }
                    assert forall|m: int, k: int|
                        0 <= m < outv.len() + 1 && i + 1 <= k < av.len() implies lex_less(
                        (#[trigger] outv.push(e)[m]).0,
                        (#[trigger] av[k]).0,
                    ) by {
                        if m == outv.len() {
                            assert(lex_less(av[i as int].0, av[k].0));
                        } else {
                            assert(outv.push(e)[m] == outv[m]);
                        }
                    }
                    assert(rising(outv.push(e))) by {
                        assert forall|m: int, n: int| 0 <= m < n < outv.len() + 1 implies lex_less(
                            #[trigger] outv.push(e)[m].0,
                            #[trigger] outv.push(e)[n].0,
                        ) by {
                            assert(outv.push(e)[m] == outv[m]);
                            if n < outv.len() {
                                assert(outv.push(e)[n] == outv[n]);
                            } else {
                                assert(lex_less(outv[m].0, av[i as int].0));
                            }
                        }
                    }
                }
                out.push(entry);
                assert(entries_view(out@) =~= outv.push(e));
                assert(outv.push(e).drop_last() =~= outv);
                assert(bindings(av.take(i + 1)) == x.insert(e.0, e.1));
                i += 1;
            } else if from_b {
                // the next key of `other` stands before what is left of `self`
                let entry = take_binding(&mut b, j);
                let ghost e = bv[j as int];
                proof {
                    assert(bv.take(j + 1).drop_last() =~= bv.take(j as int));
                    assert(x.union_prefer_right(y.insert(e.0, e.1)) =~= x.union_prefer_right(
                        y,
                    ).insert(e.0, e.1));
                    assert forall|m: int, k: int|
                        0 <= m < outv.len() + 1 && i <= k < av.len() implies lex_less(
                        (#[trigger] outv.push(e)[m]).0,
                        (#[trigger] av[k]).0,
                    ) by {
                        if m == outv.len() {
                            assert(lex_less(e.0, av[i as int].0));
                            if k > i {
                                assert(lex_less(av[i as int].0, av[k].0));
                                lemma_lex_transitive(e.0, av[i as int].0, av[k].0);
                            }
                        } else {
                            assert(outv.push(e)[m] == outv[m]);
                        }
                    }
                    assert forall|m: int, k: int|
                        0 <= m < outv.len() + 1 && j + 1 <= k < bv.len() implies lex_less(
                        (#[trigger] outv.push(e)[m]).0,
                        (#[trigger] bv[k]).0,
                    ) by {
                        if m == outv.len() {
                            assert(lex_less(bv[j as int].0, bv[k].0));
                        } else {
                            assert(outv.push(e)[m] == outv[m]);
                        }
                    }
                    assert forall|m: int, k: int| 0 <= m < j + 1 && i <= k < av.len() implies lex_less(
                        (#[trigger] bv[m]).0,
                        (#[trigger] av[k]).0,
                    ) by {
                        if m == j {
                            assert(lex_less(e.0, av[i as int].0));
                            if k > i {
                                assert(lex_less(av[i as int].0, av[k].0));
                                lemma_lex_transitive(e.0, av[i as int].0, av[k].0);
                            }
                        }
                    }
                    assert(rising(outv.push(e))) by {
                        assert forall|m: int, n: int| 0 <= m < n < outv.len() + 1 implies lex_less(
                            #[trigger] outv.push(e)[m].0,
                            #[trigger] outv.push(e)[n].0,
                        ) by {
                            assert(outv.push(e)[m] == outv[m]);
                            if n < outv.len() {
                                assert(outv.push(e)[n] == outv[n]);
                            } else {
                                assert(lex_less(outv[m].0, bv[j as int].0));
                            }
                        }
                    }
                }
                out.push(entry);
                assert(entries_view(out@) =~= outv.push(e));
                assert(outv.push(e).drop_last() =~= outv);
                assert(bindings(bv.take(j + 1)) == y.insert(e.0, e.1));
                j += 1;
            } else {
                // both hold the key: the file of `other` stays
                let entry = take_binding(&mut b, j);
                let ghost e = bv[j as int];
                let ghost d = av[i as int];
                proof {
                    lemma_lex_total(d.0, e.0);
                    assert(d.0 == e.0);
                    assert(av.take(i + 1).drop_last() =~= av.take(i as int));
                    assert(bv.take(j + 1).drop_last() =~= bv.take(j as int));
                    assert(x.insert(d.0, d.1).union_prefer_right(y.insert(e.0, e.1))
                        =~= x.union_prefer_right(y).insert(e.0, e.1));
                    assert forall|m: int, k: int|
                        0 <= m < outv.len() + 1 && i + 1 <= k < av.len() implies lex_less(
                        (#[trigger] outv.push(e)[m]).0,
                        (#[trigger] av[k]).0,
                    ) by {
                        if m == outv.len() {
                            assert(lex_less(av[i as int].0, av[k].0));
                        } else {
                            assert(outv.push(e)[m] == outv[m]);
                        }
                    }
                    assert forall|m: int, k: int|
                        0 <= m < outv.len() + 1 && j + 1 <= k < bv.len() implies lex_less(
                        (#[trigger] outv.push(e)[m]).0,
                        (#[trigger] bv[k]).0,
                    ) by {
                        if m == outv.len() {
                            assert(lex_less(bv[j as int].0, bv[k].0));
                        } else {
                            assert(outv.push(e)[m] == outv[m]);
                        }
                    }
                    assert forall|m: int, k: int|
                        0 <= m < j + 1 && i + 1 <= k < av.len() implies lex_less(
                        (#[trigger] bv[m]).0,
                        (#[trigger] av[k]).0,
                    ) by {
                        if m == j {
                            assert(lex_less(av[i as int].0, av[k].0));
                        }
                    }
                    assert(rising(outv.push(e))) by {
                        assert forall|m: int, n: int| 0 <= m < n < outv.len() + 1 implies lex_less(
                            #[trigger] outv.push(e)[m].0,
                            #[trigger] outv.push(e)[n].0,
                        ) by {
                            assert(outv.push(e)[m] == outv[m]);
                            if n < outv.len() {
                                assert(outv.push(e)[n] == outv[n]);
                            } else {
                                assert(lex_less(outv[m].0, bv[j as int].0));
                            }
                        }
                    }
                }
                out.push(entry);
                assert(entries_view(out@) =~= outv.push(e));
                assert(outv.push(e).drop_last() =~= outv);
                assert(bindings(av.take(i + 1)) == x.insert(d.0, d.1));
                assert(bindings(bv.take(j + 1)) == y.insert(e.0, e.1));
                i += 1;
                j += 1;
            }
        }
        assert(av.take(i as int) =~= av);
        assert(bv.take(j as int) =~= bv);
        VFSFiles { entries: out }
    }

    /// The map that the list `entries` makes when it is read from first to last and
    /// a later entry replaces an earlier one of the same key. The list is halved
    /// again and again, and the maps of the halves are merged.
    pub fn from_entries(entries: Vec<(Vec<u8>, VfsFile)>) -> (files: VFSFiles)
        ensures
            files.map() == bindings(entries_view(entries@)),
            files.wf(),
        decreases entries@.len(),
    {
        let ghost all = entries_view(entries@);
        if entries.len() == 0 {
            return VFSFiles::new();
        }
        if entries.len() == 1 {
            return VFSFiles { entries };
        }
        let mut left = entries;
        let mid: usize = left.len() / 2;
        let right = left.split_off(mid);
        let ghost first = entries_view(left@);
        let ghost second = entries_view(right@);
        assert(first + second =~= all);
        proof {
            lemma_bindings_concat(first, second);
        }
        let low = VFSFiles::from_entries(left);
        let high = VFSFiles::from_entries(right);
        low.merge(high)
    }
}

/// Takes the entry at `index` out of `entries` and leaves an empty one there.
fn take_binding(entries: &mut Vec<(Vec<u8>, VfsFile)>, index: usize) -> (entry: (Vec<u8>, VfsFile))
    requires
        index < old(entries)@.len(),
    ensures
        entry == old(entries)@[index as int],
        final(entries)@.len() == old(entries)@.len(),
        forall|i: int|
            0 <= i < old(entries)@.len() && i != index ==> final(entries)@[i] == old(entries)@[i],
{
    let mut entry = (Vec::new(), VfsFile::default());
    std::mem::swap(&mut entry, &mut entries[index]);
    entry
}

} // verus!
