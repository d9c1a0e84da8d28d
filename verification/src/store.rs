//! The metric store: the latest gauge value for every label set of one
//! metric family.
//!
//! The store is a mapping from label set to gauge. A lookup that misses
//! creates a fresh zero-valued gauge (`get_or_create`), never an error; a
//! `set` overwrites, last writer wins; `snapshot` copies every entry out for
//! serialization. The store's invariant is that no two entries carry the
//! same label set.

use vstd::prelude::*;

use crate::labels::LabelSet;
use crate::value::DecValue;

verus! {

/// The view of one entry: the label-set view and the gauge value.
pub type EntryView = (Seq<(Seq<char>, Seq<char>)>, DecValue);

/// The zero value a fresh gauge starts from.
pub open spec fn zero_value() -> DecValue {
    DecValue { neg: false, mantissa: 0, scale: 0 }
}

/// The view of a sequence of owned entries.
pub open spec fn entries_view(es: Seq<(LabelSet, DecValue)>) -> Seq<EntryView> {
    Seq::new(es.len(), |i: int| (es[i].0@, es[i].1))
}

/// The index of the first entry with labels `l`, or `-1` if there is none.
pub open spec fn find_idx(s: Seq<EntryView>, l: Seq<(Seq<char>, Seq<char>)>) -> int
    decreases s.len(),
{
    if s.len() == 0 {
        -1
    } else if s[0].0 == l {
        0
    } else {
        let r = find_idx(s.subrange(1, s.len() as int), l);
        if r < 0 {
            -1
        } else {
            r + 1
        }
    }
}

/// No two entries carry the same label set.
pub open spec fn store_wf(s: Seq<EntryView>) -> bool {
    forall|i: int, j: int| 0 <= i < j < s.len() ==> s[i].0 != s[j].0
}

/// What `find_idx` finds: a miss means no entry matches, a hit names the
/// first matching entry.
pub proof fn lemma_find_idx(s: Seq<EntryView>, l: Seq<(Seq<char>, Seq<char>)>)
    ensures
        find_idx(s, l) < 0 ==> forall|i: int| 0 <= i < s.len() ==> s[i].0 != l,
        find_idx(s, l) >= 0 ==> {
            &&& 0 <= find_idx(s, l) < s.len()
            &&& s[find_idx(s, l)].0 == l
            &&& forall|j: int| 0 <= j < find_idx(s, l) ==> s[j].0 != l
        },
    decreases s.len(),
{
    if s.len() > 0 && s[0].0 != l {
        let t = s.subrange(1, s.len() as int);
        lemma_find_idx(t, l);
        let r = find_idx(t, l);
        if r < 0 {
            assert forall|i: int| 0 <= i < s.len() implies s[i].0 != l by {
                if i >= 1 {
                    assert(t[i - 1] == s[i]);
                    assert(t[i - 1].0 != l);
                }
            }
        } else {
            assert(s[r + 1] == t[r]);
            assert forall|j: int| 0 <= j < r + 1 implies s[j].0 != l by {
                if j >= 1 {
                    assert(t[j - 1] == s[j]);
                    assert(t[j - 1].0 != l);
                }
            }
        }
    }
}

/// Appending an entry to a store that lacks `l` makes `find_idx` find the
/// new entry exactly when it carries `l`.
pub proof fn lemma_find_idx_push(s: Seq<EntryView>, l: Seq<(Seq<char>, Seq<char>)>, e: EntryView)
    requires
        find_idx(s, l) < 0,
    ensures
        e.0 == l ==> find_idx(s.push(e), l) == s.len(),
        e.0 != l ==> find_idx(s.push(e), l) < 0,
    decreases s.len(),
{
    let p = s.push(e);
    if s.len() == 0 {
        assert(p.len() == 1);
        assert(p[0] == e);
        assert(p.subrange(1, p.len() as int).len() == 0);
        assert(find_idx(p.subrange(1, p.len() as int), l) == -1);
    } else {
        assert(p[0] == s[0]);
        let t = s.subrange(1, s.len() as int);
        assert(p.subrange(1, p.len() as int) =~= t.push(e));
        assert(s[0].0 != l) by {
            lemma_find_idx(s, l);
        }
        lemma_find_idx_push(t, l, e);
    }
}

/// The store transition performed by `get_or_create`, over views: the
/// resulting store and the handle it returns.
pub open spec fn get_or_create_model(
    s: Seq<EntryView>,
    l: Seq<(Seq<char>, Seq<char>)>,
) -> (Seq<EntryView>, int) {
    if find_idx(s, l) >= 0 {
        (s, find_idx(s, l))
    } else {
        (s.push((l, zero_value())), s.len() as int)
    }
}

/// The store transition performed by `set` on handle `h`, over views.
pub open spec fn set_model(s: Seq<EntryView>, h: int, v: DecValue) -> Seq<EntryView> {
    s.update(h, (s[h].0, v))
}

/// Idempotence of get-or-create: asking twice for the same label set yields
/// the same handle and leaves the store exactly as the first call left it —
/// no duplicate entry ever appears.
pub proof fn lemma_get_or_create_idempotent(s: Seq<EntryView>, l: Seq<(Seq<char>, Seq<char>)>)
    ensures
        get_or_create_model(get_or_create_model(s, l).0, l).0 == get_or_create_model(s, l).0,
        get_or_create_model(get_or_create_model(s, l).0, l).1 == get_or_create_model(s, l).1,
{
    if find_idx(s, l) < 0 {
        lemma_find_idx_push(s, l, (l, zero_value()));
    }
}

/// Repeated sets on one handle, over views.
pub open spec fn apply_sets(s: Seq<EntryView>, h: int, vs: Seq<DecValue>) -> Seq<EntryView>
    decreases vs.len(),
{
    if vs.len() == 0 {
        s
    } else {
        apply_sets(set_model(s, h, vs.first()), h, vs.drop_first())
    }
}

/// Snapshot consistency: after a run of sequential `set` calls on one
/// handle, the entry holds exactly the last value written — never a blend
/// of two writes — and every other entry is untouched.
pub proof fn lemma_sets_last_value_wins(s: Seq<EntryView>, h: int, vs: Seq<DecValue>)
    requires
        0 <= h < s.len(),
        vs.len() > 0,
    ensures
        apply_sets(s, h, vs).len() == s.len(),
        apply_sets(s, h, vs)[h].1 == vs.last(),
        apply_sets(s, h, vs)[h].0 == s[h].0,
        forall|i: int| 0 <= i < s.len() && i != h ==> apply_sets(s, h, vs)[i] == s[i],
    decreases vs.len(),
{
    let s1 = set_model(s, h, vs.first());
    if vs.len() == 1 {
        assert(apply_sets(s1, h, vs.drop_first()) == s1);
        assert(vs.first() == vs.last());
        assert forall|i: int| 0 <= i < s.len() && i != h implies apply_sets(s, h, vs)[i]
            == s[i] by {
            assert(s1[i] == s[i]);
        }
    } else {
        lemma_sets_last_value_wins(s1, h, vs.drop_first());
        assert(vs.drop_first().last() == vs.last());
        assert forall|i: int| 0 <= i < s.len() && i != h implies apply_sets(s, h, vs)[i]
            == s[i] by {
            assert(apply_sets(s1, h, vs.drop_first())[i] == s1[i]);
            assert(s1[i] == s[i]);
        }
    }
}

/// An interleaving of writes: each operation names a handle and the value
/// it stores, applied in sequence order.
pub open spec fn apply_ops(s: Seq<EntryView>, ops: Seq<(int, DecValue)>) -> Seq<EntryView>
    decreases ops.len(),
{
    if ops.len() == 0 {
        s
    } else {
        apply_ops(set_model(s, ops.first().0, ops.first().1), ops.drop_first())
    }
}

/// The value of the last operation in `ops` that writes handle `h`, if any.
pub open spec fn last_write(ops: Seq<(int, DecValue)>, h: int) -> Option<DecValue>
    decreases ops.len(),
{
    if ops.len() == 0 {
        Option::None
    } else {
        let rest = last_write(ops.drop_first(), h);
        if rest is Some {
            rest
        } else if ops.first().0 == h {
            Option::Some(ops.first().1)
        } else {
            Option::None
        }
    }
}

/// Concurrent-write safety: however `set` calls to the individual handles
/// interleave, every handle ends up holding exactly the last value written
/// to it — a write to one handle never corrupts another — and a handle
/// nobody wrote keeps its old value.
pub proof fn lemma_interleaved_sets_are_independent(s: Seq<EntryView>, ops: Seq<(int, DecValue)>)
    requires
        forall|k: int| 0 <= k < ops.len() ==> 0 <= #[trigger] ops[k].0 < s.len(),
    ensures
        apply_ops(s, ops).len() == s.len(),
        forall|h: int|
            0 <= h < s.len() ==> #[trigger] apply_ops(s, ops)[h] == (
            s[h].0,
            match last_write(ops, h) {
                Option::Some(v) => v,
                Option::None => s[h].1,
            },
            ),
    decreases ops.len(),
{
    if ops.len() == 0 {
        assert forall|h: int| 0 <= h < s.len() implies #[trigger] apply_ops(s, ops)[h] == (
            s[h].0,
            match last_write(ops, h) {
                Option::Some(v) => v,
                Option::None => s[h].1,
            },
        ) by {
            assert(apply_ops(s, ops)[h] == s[h]);
        }
    } else {
        let f = ops.first();
        let s1 = set_model(s, f.0, f.1);
        assert(ops[0].0 == f.0);
        assert forall|k: int| 0 <= k < ops.drop_first().len() implies 0 <= #[trigger] ops.drop_first()[k].0
            < s1.len() by {
            assert(ops.drop_first()[k] == ops[k + 1]);
        }
        lemma_interleaved_sets_are_independent(s1, ops.drop_first());
        assert forall|h: int| 0 <= h < s.len() implies #[trigger] apply_ops(s, ops)[h] == (
            s[h].0,
            match last_write(ops, h) {
                Option::Some(v) => v,
                Option::None => s[h].1,
            },
        ) by {
            assert(apply_ops(s, ops) == apply_ops(s1, ops.drop_first()));
            assert(apply_ops(s1, ops.drop_first())[h] == (
                s1[h].0,
                match last_write(ops.drop_first(), h) {
                    Option::Some(v) => v,
                    Option::None => s1[h].1,
                },
            ));
            if h == f.0 {
                assert(s1[h].0 == s[h].0);
            } else {
                assert(s1[h] == s[h]);
            }
        }
    }
}

/// A concurrency-free metric store for one family: the latest gauge value
/// per label set, at most one entry per distinct label set.
pub struct MetricStore {
    pub entries: Vec<(LabelSet, DecValue)>,
}

impl View for MetricStore {
    type V = Seq<EntryView>;

    open spec fn view(&self) -> Seq<EntryView> {
        entries_view(self.entries@)
    }
}

impl MetricStore {
    /// The store's invariant: label sets are unique.
    pub open spec fn wf(&self) -> bool {
        store_wf(self@)
    }

    /// An empty store.
    pub fn new() -> (r: MetricStore)
        ensures
            r@ == Seq::<EntryView>::empty(),
            r.wf(),
    {
        let r = MetricStore { entries: Vec::new() };
        proof {
            assert(r@ =~= Seq::<EntryView>::empty());
        }
        r
    }

    /// The number of entries.
    pub fn len(&self) -> (n: usize)
        ensures
            n == self@.len(),
    {
        self.entries.len()
    }

    /// The gauge value of the entry behind handle `h`.
    pub fn value_at(&self, h: usize) -> (v: DecValue)
        requires
            h < self@.len(),
        ensures
            v == self@[h as int].1,
    {
        self.entries[h].1
    }

    /// Returns a stable handle to the gauge for `labels`, creating a fresh
    /// zero-valued gauge if no entry carries these labels yet.
    pub fn get_or_create(&mut self, labels: &LabelSet) -> (h: usize)
        requires
            old(self).wf(),
        ensures
            final(self).wf(),
            h < final(self)@.len(),
            final(self)@[h as int].0 == labels@,
            final(self)@ == get_or_create_model(old(self)@, labels@).0,
            h == get_or_create_model(old(self)@, labels@).1,
            find_idx(old(self)@, labels@) >= 0 ==> {
                &&& final(self)@ == old(self)@
                &&& h == find_idx(old(self)@, labels@)
            },
            find_idx(old(self)@, labels@) < 0 ==> {
                &&& final(self)@ == old(self)@.push((labels@, zero_value()))
                &&& h == old(self)@.len()
            },
    {
        proof {
            lemma_find_idx(old(self)@, labels@);
        }
        let ghost s0 = old(self)@;
        let ghost f = find_idx(old(self)@, labels@);
        let n = self.entries.len();
        let mut i: usize = 0;
        while i < n
            invariant
                n == s0.len(),
                i <= n,
                *self == *old(self),
                old(self).wf(),
                s0 == old(self)@,
                f == find_idx(old(self)@, labels@),
                f < 0 ==> forall|k: int| 0 <= k < s0.len() ==> s0[k].0 != labels@,
                f >= 0 ==> 0 <= f < s0.len() && s0[f].0 == labels@ && (forall|j: int|
                    0 <= j < f ==> s0[j].0 != labels@),
                forall|j: int| 0 <= j < i ==> s0[j].0 != labels@,
            decreases n - i,
        {
            if self.entries[i].0.same_labels(labels) {
                proof {
                    assert(self@[i as int] == s0[i as int]);
                    assert(s0[i as int].0 == labels@);
                    assert(f >= 0) by {
                        if f < 0 {
                            assert(s0[i as int].0 != labels@);
                        }
                    }
                    assert(f >= i) by {
                        if f < i {
                            assert(s0[f].0 != labels@);
                        }
                    }
                    assert(f <= i) by {
                        if f > i {
                            assert(s0[i as int].0 != labels@);
                        }
                    }
                    assert(self@ == old(self)@);
                    assert(store_wf(self@));
                }
                return i;
            }
            proof {
                assert(self@[i as int] == s0[i as int]);
            }
            i = i + 1;
        }
        proof {
            assert(f < 0) by {
                if f >= 0 {
                    assert(s0[f].0 != labels@);
                }
            }
        }
        let fresh = labels.clone();
        self.entries.push((fresh, DecValue::zero()));
        proof {
            assert(self@ =~= old(self)@.push((labels@, zero_value())));
            assert forall|a: int, b: int| 0 <= a < b < self@.len() implies self@[a].0
                != self@[b].0 by {
                if b < self@.len() - 1 {
                    assert(old(self).wf());
                } else {
                    assert(self@[b].0 == labels@);
                }
            }
        }
        n
    }

    /// Overwrites the gauge behind handle `h`; every other entry is left as
    /// it was.
    pub fn set(&mut self, h: usize, v: DecValue)
        requires
            h < old(self)@.len(),
        ensures
            final(self)@ == set_model(old(self)@, h as int, v),
            final(self)@ == old(self)@.update(h as int, (old(self)@[h as int].0, v)),
            old(self).wf() ==> final(self).wf(),
    {
        self.entries[h].1 = v;
        proof {
            assert(self@ =~= old(self)@.update(h as int, (old(self)@[h as int].0, v)));
            if old(self).wf() {
                assert forall|a: int, b: int| 0 <= a < b < self@.len() implies self@[a].0
                    != self@[b].0 by {
                    assert(old(self)@[a].0 != old(self)@[b].0);
                }
            }
        }
    }

    /// Copies every entry out, in store order, for serialization. The copy
    /// shares nothing with the store: a later `set` cannot disturb it.
    pub fn snapshot(&self) -> (snap: Vec<(LabelSet, DecValue)>)
        ensures
            entries_view(snap@) == self@,
    {
        let mut snap: Vec<(LabelSet, DecValue)> = Vec::new();
        let n = self.entries.len();
        let mut i: usize = 0;
        while i < n
            invariant
                n == self@.len(),
                i <= n,
                snap@.len() == i,
                entries_view(snap@) =~= self@.subrange(0, i as int),
            decreases n - i,
        {
            let e = &self.entries[i];
            snap.push((e.0.clone(), e.1));
            proof {
                assert(snap@[i as int].0@ == self.entries@[i as int].0@);
                assert(snap@[i as int].1 == self.entries@[i as int].1);
                assert(entries_view(snap@) =~= self@.subrange(0, i + 1));
            }
            i = i + 1;
        }
        proof {
            assert(entries_view(snap@) =~= self@);
        }
        snap
    }
}

} // verus!
