//! The facade that instrumentation calls.
//!
//! One [`ATI`] value represents one complete analysis run: it owns the
//! global value-interaction index, the site registry, and the counter that
//! mints fresh tag identities. Instrumentation mints a tag whenever a
//! value is produced ([`ATI::mint_tracked`], [`ATI::untracked`]), records
//! which values combine ([`ATI::union_tags`]), brackets each analyzed
//! invocation with [`ATI::get_site`] and [`ATI::update_site`], and reads
//! the result with [`ATI::report`].

use vstd::prelude::*;

use crate::errors::UnknownTag;
use crate::site::{
    commit_pending, has_site, pending_known, report_of, site_idx, Site, SiteView, Sites,
};
use crate::tag::Tag;
use crate::union_find::{UfView, UnionFind};

verus! {

/// Unions the classes of each adjacent pair of `ids`: `ids[0]` with
/// `ids[1]`, `ids[1]` with `ids[2]`, and so on. Because union is
/// transitive, this linear chain produces the same final partition as an
/// all-pairs union.
pub open spec fn union_chain(v: UfView, ids: Seq<u64>) -> UfView
    decreases ids.len(),
{
    if ids.len() <= 1 {
        v
    } else {
        union_chain(v.union(ids[0], ids[1]).0, ids.drop_first())
    }
}

/// A chain over introduced identities stays consistent and neither adds
/// nor removes identities.
pub proof fn lemma_union_chain_wf(v: UfView, ids: Seq<u64>)
    requires
        v.wf(),
        forall|i: int| 0 <= i < ids.len() ==> v.contains(#[trigger] ids[i]),
    ensures
        union_chain(v, ids).wf(),
        union_chain(v, ids).leader.dom() == v.leader.dom(),
        union_chain(v, ids).ids == v.ids,
    decreases ids.len(),
{
    if ids.len() > 1 {
        crate::union_find::lemma_union_wf(v, ids[0], ids[1]);
        let v2 = v.union(ids[0], ids[1]).0;
        assert forall|i: int| 0 <= i < ids.drop_first().len() implies v2.contains(
            #[trigger] ids.drop_first()[i],
        ) by {
            assert(ids.drop_first()[i] == ids[i + 1]);
        }
        lemma_union_chain_wf(v2, ids.drop_first());
    }
}

/// Chaining one more identity unions it with the last one before it.
pub proof fn lemma_union_chain_snoc(v: UfView, ids: Seq<u64>, e: u64)
    requires
        ids.len() >= 1,
    ensures
        union_chain(v, ids.push(e)) == union_chain(v, ids).union(ids.last(), e).0,
    decreases ids.len(),
{
    reveal_with_fuel(union_chain, 2);
    if ids.len() == 1 {
        assert(ids.push(e)[0] == ids[0] && ids.push(e)[1] == e);
        assert(ids.push(e).drop_first() =~= ids.drop_first().push(e));
        assert(ids.push(e).drop_first().len() == 1);
    } else {
        assert(ids.push(e)[0] == ids[0] && ids.push(e)[1] == ids[1]);
        assert(ids.push(e).drop_first() =~= ids.drop_first().push(e));
        lemma_union_chain_snoc(v.union(ids[0], ids[1]).0, ids.drop_first(), e);
        assert(ids.drop_first().last() == ids.last());
    }
}

/// The abstract state of an [`ATI`] run.
#[verifier::ext_equal]
pub ghost struct AtiView {
    /// The global partition over value identities.
    pub index: UfView,
    /// The site registry: one abstract site per held location.
    pub sites: Seq<SiteView>,
    /// The next identity the minting counter will hand out.
    pub next_id: u64,
}

/// One complete dynamic abstract-type-inference run: the global
/// value-interaction index, the site registry, and the monotonically
/// increasing counter that mints tag identities.
pub struct ATI {
    value_uf: UnionFind,
    sites: Sites,
    next_id: u64,
}

impl View for ATI {
    type V = AtiView;

    closed spec fn view(&self) -> AtiView {
        AtiView { index: self.value_uf@, sites: self.sites@, next_id: self.next_id }
    }
}

impl ATI {
    /// Internal consistency: both structures are consistent, and every
    /// identity in the index is below the minting counter, so the next
    /// minted tag is always fresh.
    pub closed spec fn wf(&self) -> bool {
        &&& self.value_uf.wf()
        &&& self.sites.wf()
        &&& forall|k: u64| self.value_uf@.contains(k) ==> k < self.next_id
    }

    /// Whether the minting counter can still hand out an identity.
    pub open spec fn can_mint(&self) -> bool {
        self@.next_id < u64::MAX
    }

    /// A consistent run presents a consistent abstract index.
    pub proof fn lemma_view_wf(&self)
        requires
            self.wf(),
        ensures
            self@.index.wf(),
    {
        self.value_uf.lemma_view_wf();
    }

    /// How many tag identities this run has minted so far; minting is
    /// possible while this is below `u64::MAX`.
    pub fn tags_minted(&self) -> (r: u64)
        ensures
            r == self@.next_id,
    {
        self.next_id
    }

    /// Creates a fresh run with an empty index and no sites.
    pub fn new() -> (a: ATI)
        ensures
            a.wf(),
            a@ == (AtiView {
                index: UfView::empty(),
                sites: Seq::<SiteView>::empty(),
                next_id: 0u64,
            }),
    {
        let a = ATI { value_uf: UnionFind::new(), sites: Sites::new(), next_id: 0 };
        proof {
            assert(a@ =~= (AtiView {
                index: UfView::empty(),
                sites: Seq::<SiteView>::empty(),
                next_id: 0u64,
            }));
        }
        a
    }

    /// Mints a tag for a newly produced value that is not bound to any
    /// named variable at an observed location (an inline literal, say)
    /// and introduces it into the global index as its own singleton
    /// class; no site observes it. The value itself is never inspected:
    /// its identity is the next counter value, fresh by construction.
    pub fn untracked<V>(&mut self, _value: &V) -> (t: Tag)
        requires
            old(self).wf(),
            old(self).can_mint(),
        ensures
            final(self).wf(),
            t@ == old(self)@.next_id,
            !old(self)@.index.contains(t@),
            final(self)@ == (AtiView {
                index: old(self)@.index.introduce(t@),
                next_id: (old(self)@.next_id + 1) as u64,
                ..old(self)@
            }),
    {
        proof {
            self.value_uf.lemma_view_wf();
        }
        let t = self.value_uf.make_set(self.next_id);
        self.next_id = self.next_id + 1;
        proof {
            crate::union_find::lemma_introduce_wf(old(self)@.index, t@);
            assert forall|k: u64| self.value_uf@.contains(k) implies k < self.next_id by {
                if k != t@ {
                    assert(old(self).value_uf@.contains(k));
                }
            }
            assert(self@ =~= (AtiView {
                index: old(self)@.index.introduce(t@),
                next_id: (old(self)@.next_id + 1) as u64,
                ..old(self)@
            }));
        }
        t
    }

    /// Mints a tag for a newly produced value bound to the variable
    /// `var_name`, introduces it into the global index, and records the
    /// observation `(var_name, tag)` in `site`'s pending log.
    pub fn mint_tracked<V>(&mut self, var_name: &str, _value: &V, site: &mut Site) -> (t: Tag)
        requires
            old(self).wf(),
            old(self).can_mint(),
            old(site).wf(),
        ensures
            final(self).wf(),
            final(site).wf(),
            t@ == old(self)@.next_id,
            !old(self)@.index.contains(t@),
            final(self)@ == (AtiView {
                index: old(self)@.index.introduce(t@),
                next_id: (old(self)@.next_id + 1) as u64,
                ..old(self)@
            }),
            final(site)@ == (SiteView {
                pending: old(site)@.pending.push((var_name@, t@)),
                ..old(site)@
            }),
    {
        proof {
            self.value_uf.lemma_view_wf();
        }
        let t = self.value_uf.make_set(self.next_id);
        self.next_id = self.next_id + 1;
        site.observe_var(var_name, &t);
        proof {
            crate::union_find::lemma_introduce_wf(old(self)@.index, t@);
            assert forall|k: u64| self.value_uf@.contains(k) implies k < self.next_id by {
                if k != t@ {
                    assert(old(self).value_uf@.contains(k));
                }
            }
            assert(self@ =~= (AtiView {
                index: old(self)@.index.introduce(t@),
                next_id: (old(self)@.next_id + 1) as u64,
                ..old(self)@
            }));
        }
        t
    }

    /// Checks the site for the location `id` out of the registry,
    /// transferring ownership to the caller; a fresh, empty site if the
    /// registry holds none (first reference, or currently checked out).
    pub fn get_site(&mut self, id: &str) -> (s: Site)
        requires
            old(self).wf(),
        ensures
            final(self).wf(),
            s.wf(),
            final(self)@.index == old(self)@.index,
            final(self)@.next_id == old(self)@.next_id,
            has_site(old(self)@.sites, id@) ==> {
                &&& s@ == old(self)@.sites[site_idx(old(self)@.sites, id@)]
                &&& final(self)@.sites == old(self)@.sites.remove(site_idx(old(self)@.sites, id@))
            },
            !has_site(old(self)@.sites, id@) ==> {
                &&& s@ == SiteView::empty(id@)
                &&& final(self)@.sites == old(self)@.sites
            },
    {
        self.sites.extract(id)
    }

    /// Commits `site` against the global index, then checks it back in
    /// under its own location identifier, overwriting whatever is stored
    /// there. On [`UnknownTag`] (some pending tag was never minted) the
    /// site is checked back in unchanged, pending log included, and the
    /// error is passed on to the caller.
    pub fn update_site(&mut self, site: Site) -> (r: Result<(), UnknownTag>)
        requires
            old(self).wf(),
            site.wf(),
        ensures
            final(self).wf(),
            final(self)@.index == old(self)@.index,
            final(self)@.next_id == old(self)@.next_id,
            match r {
                Ok(_) => {
                    &&& pending_known(site@.pending, old(self)@.index)
                    &&& ({
                        let folded = commit_pending(
                            site@.local,
                            site@.committed,
                            site@.pending,
                            old(self)@.index,
                        );
                        let stashed = SiteView {
                            name: site@.name,
                            pending: Seq::<(Seq<char>, u64)>::empty(),
                            committed: folded.1,
                            local: folded.0,
                        };
                        if has_site(old(self)@.sites, site@.name) {
                            final(self)@.sites == old(self)@.sites.update(
                                site_idx(old(self)@.sites, site@.name),
                                stashed,
                            )
                        } else {
                            final(self)@.sites == old(self)@.sites.push(stashed)
                        }
                    })
                },
                Err(_) => {
                    &&& !pending_known(site@.pending, old(self)@.index)
                    &&& (if has_site(old(self)@.sites, site@.name) {
                        final(self)@.sites == old(self)@.sites.update(
                            site_idx(old(self)@.sites, site@.name),
                            site@,
                        )
                    } else {
                        final(self)@.sites == old(self)@.sites.push(site@)
                    })
                },
            },
    {
        let mut site = site;
        let ghost site0 = site;
        let r = site.update(&mut self.value_uf);
        proof {
            if r is Ok {
                assert(site@.name == site0@.name);
                assert((site@.local, site@.committed) == commit_pending(
                    site0@.local,
                    site0@.committed,
                    site0@.pending,
                    old(self)@.index,
                ));
                assert(site@ =~= (SiteView {
                    name: site0@.name,
                    pending: Seq::<(Seq<char>, u64)>::empty(),
                    committed: commit_pending(
                        site0@.local,
                        site0@.committed,
                        site0@.pending,
                        old(self)@.index,
                    ).1,
                    local: commit_pending(
                        site0@.local,
                        site0@.committed,
                        site0@.pending,
                        old(self)@.index,
                    ).0,
                }));
            }
        }
        self.sites.stash(site);
        r
    }

    /// Records that the values carried by `tags` combined in one
    /// operation: unions each adjacent pair in the global index, which is
    /// equivalent to unioning every pair. Fails with [`UnknownTag`],
    /// leaving the index unchanged, exactly when some tag in `tags` was
    /// never minted.
    pub fn union_tags(&mut self, tags: &[Tag]) -> (r: Result<(), UnknownTag>)
        requires
            old(self).wf(),
        ensures
            final(self).wf(),
            final(self)@.sites == old(self)@.sites,
            final(self)@.next_id == old(self)@.next_id,
            match r {
                Ok(_) => {
                    &&& forall|i: int|
                        0 <= i < tags@.len() ==> old(self)@.index.contains(#[trigger] tags@[i]@)
                    &&& final(self)@.index == union_chain(
                        old(self)@.index,
                        Seq::new(tags@.len(), |i: int| tags@[i]@),
                    )
                },
                Err(_) => {
                    &&& !(forall|i: int|
                        0 <= i < tags@.len() ==> old(self)@.index.contains(#[trigger] tags@[i]@))
                    &&& final(self)@ == old(self)@
                },
            },
    {
        let ghost ids = Seq::new(tags@.len(), |i: int| tags@[i]@);
        let n = tags.len();
        let mut i: usize = 0;
        while i < n
            invariant
                n == tags@.len(),
                i <= n,
                *self == *old(self),
                old(self).wf(),
                forall|j: int| 0 <= j < i ==> old(self)@.index.contains(#[trigger] tags@[j]@),
            decreases n - i,
        {
            let known = self.value_uf.contains_tag(&tags[i]);
            if !known {
                return Err(UnknownTag);
            }
            i += 1;
        }
        if n < 2 {
            proof {
                assert(union_chain(old(self)@.index, ids) == old(self)@.index);
            }
            return Ok(());
        }
        proof {
            assert(ids.take(1).len() == 1);
            assert(union_chain(old(self)@.index, ids.take(1)) == old(self)@.index);
        }
        let mut k: usize = 1;
        while k < n
            invariant
                n == tags@.len(),
                2 <= n,
                1 <= k <= n,
                ids == Seq::new(tags@.len(), |i: int| tags@[i]@),
                old(self).wf(),
                self.wf(),
                self.sites == old(self).sites,
                self@.next_id == old(self)@.next_id,
                forall|j: int| 0 <= j < n ==> old(self)@.index.contains(#[trigger] tags@[j]@),
                self@.index == union_chain(old(self)@.index, ids.take(k as int)),
                self@.index.leader.dom() == old(self)@.index.leader.dom(),
            decreases n - k,
        {
            proof {
                old(self).value_uf.lemma_view_wf();
                assert forall|j: int|
                    0 <= j < ids.take(k as int).len() implies old(self)@.index.contains(
                    #[trigger] ids.take(k as int)[j],
                ) by {
                    assert(ids.take(k as int)[j] == ids[j]);
                    assert(old(self)@.index.contains(tags@[j]@));
                }
                lemma_union_chain_wf(old(self)@.index, ids.take(k as int));
                assert(self@.index.contains(ids[k - 1]) && self@.index.contains(ids[k as int]));
            }
            let merged = self.value_uf.union_tags(&tags[k - 1], &tags[k]);
            proof {
                assert(merged is Some);
                crate::union_find::lemma_union_wf(
                    union_chain(old(self)@.index, ids.take(k as int)),
                    ids[k - 1],
                    ids[k as int],
                );
                lemma_union_chain_snoc(old(self)@.index, ids.take(k as int), ids[k as int]);
                assert(ids.take(k + 1) =~= ids.take(k as int).push(ids[k as int]));
                assert(ids.take(k as int).last() == ids[k - 1]);
                assert forall|kk: u64| self.value_uf@.contains(kk) implies kk < self.next_id by {
                    assert(old(self).value_uf@.contains(kk));
                }
            }
            k += 1;
        }
        proof {
            assert(ids.take(n as int) =~= ids);
        }
        Ok(())
    }

    /// The `(site id, variable, type class)` triples of every site the
    /// registry currently holds, in registry order: the final output of a
    /// run. Read-only; equal class tags mean "the same inferred abstract
    /// type", and nothing more.
    pub fn report(&self) -> (r: Vec<(String, String, Tag)>)
        requires
            self.wf(),
        ensures
            Seq::new(r@.len(), |i: int| (r@[i].0@, r@[i].1@, r@[i].2@)) == report_of(self@.sites),
    {
        self.sites.report()
    }
}

} // verus!
