//! The registry: process-wide metadata binding metric families to their
//! stores.
//!
//! A registry owns one shared store per family, keyed by a family name that
//! is unique for the registry's lifetime. It is built once at startup —
//! registration happens before any concurrent access — and afterwards only
//! read: the sampler writes through a family's store, and every scrape
//! renders a snapshot of each family.

use vstd::prelude::*;

use crate::render::{family_chars, render_family};
use crate::shared::SharedStore;
use crate::store::{store_wf, EntryView};

verus! {

/// The type of a metric family. Gauges are the only kind this exporter
/// serves.
#[derive(Clone, Copy, PartialEq, Eq, Structural, Debug)]
pub enum MetricKind {
    Gauge,
}

/// One registered family: immutable metadata and the store of its series.
pub struct MetricFamily {
    pub name: String,
    pub help: String,
    pub kind: MetricKind,
    pub store: SharedStore,
}

/// The whole exposition of a registry: every family's text, in
/// registration order, each rendered from its own snapshot.
pub open spec fn families_chars(
    metas: Seq<(Seq<char>, Seq<char>)>,
    snaps: Seq<Seq<EntryView>>,
) -> Seq<char>
    decreases metas.len(),
{
    if metas.len() == 0 || snaps.len() == 0 {
        Seq::empty()
    } else {
        families_chars(metas.drop_last(), snaps.drop_last()) + family_chars(
            metas.last().0,
            metas.last().1,
            snaps.last(),
        )
    }
}

/// A registry of metric families, each with its shared store.
pub struct Registry {
    pub families: Vec<MetricFamily>,
}

impl Registry {
    /// The registered metadata: one `(name, help)` pair per family, in
    /// registration order.
    pub open spec fn metas(&self) -> Seq<(Seq<char>, Seq<char>)> {
        Seq::new(self.families@.len(), |i: int| (self.families@[i].name@, self.families@[i].help@))
    }

    /// The registry's invariant: family names are unique.
    pub open spec fn wf(&self) -> bool {
        forall|i: int, j: int|
            0 <= i < j < self.families@.len() ==> self.families@[i].name@ != self.families@[
                j
            ].name@
    }

    /// An empty registry.
    pub fn new() -> (r: Registry)
        ensures
            r.wf(),
            r.metas() == Seq::<(Seq<char>, Seq<char>)>::empty(),
    {
        let r = Registry { families: Vec::new() };
        proof {
            assert(r.metas() =~= Seq::<(Seq<char>, Seq<char>)>::empty());
        }
        r
    }

    /// How many families are registered.
    pub fn len(&self) -> (n: usize)
        ensures
            n == self.metas().len(),
    {
        self.families.len()
    }

    /// The index of the family registered under `name`, if any.
    pub fn find_family(&self, name: &str) -> (r: Option<usize>)
        ensures
            match r {
                Option::Some(i) => i < self.metas().len() && self.metas()[i as int].0 == name@,
                Option::None => forall|i: int|
                    0 <= i < self.metas().len() ==> self.metas()[i].0 != name@,
            },
    {
        let n = self.families.len();
        let mut i: usize = 0;
        let key = name.to_owned();
        while i < n
            invariant
                n == self.families@.len(),
                i <= n,
                key@ == name@,
                forall|j: int| 0 <= j < i ==> self.metas()[j].0 != name@,
            decreases n - i,
        {
            if self.families[i].name == key {
                proof {
                    assert(self.metas()[i as int].0 == name@);
                }
                return Some(i);
            }
            proof {
                assert(self.metas()[i as int].0 == self.families@[i as int].name@);
            }
            i = i + 1;
        }
        None
    }

    /// Registers a gauge family under `name`, with a fresh empty store.
    /// A name already taken registers nothing; the registry is unchanged
    /// and the result is false.
    pub fn register(&mut self, name: &str, help: &str) -> (added: bool)
        ensures
            old(self).wf() ==> final(self).wf(),
            !added ==> *final(self) == *old(self) && (exists|i: int|
                0 <= i < old(self).metas().len() && old(self).metas()[i].0 == name@),
            added ==> {
                &&& final(self).metas() == old(self).metas().push((name@, help@))
                &&& forall|i: int|
                    0 <= i < old(self).families@.len() ==> final(self).families@[i] == old(
                        self,
                    ).families@[i]
            },
    {
        match self.find_family(name) {
            Some(_) => false,
            None => {
                let family = MetricFamily {
                    name: name.to_owned(),
                    help: help.to_owned(),
                    kind: MetricKind::Gauge,
                    store: SharedStore::new(),
                };
                self.families.push(family);
                proof {
                    assert(self.metas() =~= old(self).metas().push((name@, help@)));
                    if old(self).wf() {
                        assert forall|i: int, j: int|
                            0 <= i < j < self.families@.len() implies self.families@[i].name@
                            != self.families@[j].name@ by {
                            if j == self.families@.len() - 1 {
                                assert(old(self).metas()[i].0 == self.families@[i].name@);
                            }
                        }
                    }
                }
                true
            },
        }
    }

    /// The shared store of the family at index `i`.
    pub fn store_at(&self, i: usize) -> (r: &SharedStore)
        requires
            i < self.metas().len(),
        ensures
            r == self.families@[i as int].store,
    {
        &self.families[i].store
    }

    /// Renders the whole registry: every family's exposition text from a
    /// point-in-time snapshot of its store, in registration order. Whatever
    /// the concurrent sampler does, the result is one well-formed payload
    /// over some such snapshots.
    pub fn render(&self) -> (r: String)
        ensures
            exists|snaps: Seq<Seq<EntryView>>|
                {
                    &&& snaps.len() == self.metas().len()
                    &&& (forall|i: int| 0 <= i < snaps.len() ==> store_wf(#[trigger] snaps[i]))
                    &&& r@ == families_chars(self.metas(), snaps)
                },
    {
        let mut out = String::new();
        let ghost mut snaps: Seq<Seq<EntryView>> = Seq::empty();
        let n = self.families.len();
        let mut i: usize = 0;
        proof {
            assert(self.metas().take(0) =~= Seq::<(Seq<char>, Seq<char>)>::empty());
        }
        while i < n
            invariant
                n == self.families@.len(),
                i <= n,
                snaps.len() == i,
                forall|j: int| 0 <= j < snaps.len() ==> store_wf(#[trigger] snaps[j]),
                out@ == families_chars(self.metas().take(i as int), snaps),
            decreases n - i,
        {
            let family = &self.families[i];
            let snap = family.store.snapshot();
            let text = render_family(family.name.as_str(), family.help.as_str(), &snap);
            out.append(text.as_str());
            proof {
                let snaps0 = snaps;
                snaps = snaps.push(crate::store::entries_view(snap@));
                let mtaken = self.metas().take(i + 1);
                assert(mtaken.drop_last() =~= self.metas().take(i as int));
                assert(snaps.drop_last() =~= snaps0);
                assert(snaps.last() == crate::store::entries_view(snap@));
                assert(mtaken.last() == (self.families@[i as int].name@, self.families@[
                    i as int
                ].help@));
                assert(out@ =~= families_chars(mtaken, snaps));
            }
            i = i + 1;
        }
        proof {
            assert(self.metas().take(n as int) =~= self.metas());
            assert(snaps.len() == self.metas().len());
            assert(out@ == families_chars(self.metas(), snaps));
        }
        out
    }
}

} // verus!
