use vstd::prelude::*;
use std::any::TypeId;
use std::marker::PhantomData;
use crate::containers::sparse_set::entities_of;
use crate::ecs::Entity;
use crate::world::Registry;

verus! {

/// `lens[p]` is present and no present length before `p` is as small, and none after is smaller.
pub open spec fn is_first_shortest(lens: Seq<Option<usize>>, len: usize, pos: usize) -> bool {
    &&& pos < lens.len()
    &&& lens[pos as int] == Some(len)
    &&& forall|i: int| 0 <= i < lens.len() && (#[trigger] lens[i]) is Some ==> len <= lens[i]->0
    &&& forall|i: int| 0 <= i < pos && (#[trigger] lens[i]) is Some ==> len < lens[i]->0
}

/// The length and position of the first shortest component container, where `lens[i]` is
/// `Some(len)` for a container of components and `None` for a resource; `None` when every
/// container is a resource.
pub fn shortest_at(lens: &[Option<usize>]) -> (r: Option<(usize, usize)>)
    ensures
        r is None <==> forall|i: int| 0 <= i < lens@.len() ==> (#[trigger] lens@[i]) is None,
        r is Some ==> is_first_shortest(lens@, (r->0).0, (r->0).1),
{
    let mut min_len_pos: Option<(usize, usize)> = None;
    let mut i: usize = 0;
    while i < lens.len()
        invariant
            i <= lens@.len(),
            min_len_pos is None <==> forall|k: int| 0 <= k < i ==> (#[trigger] lens@[k]) is None,
            min_len_pos is Some ==> is_first_shortest(lens@.take(i as int), (min_len_pos->0).0, (min_len_pos->0).1),
        decreases lens@.len() - i,
    {
        match lens[i] {
            Some(container_len) => {
                match min_len_pos {
                    None => {
                        min_len_pos = Some((container_len, i));
                    },
                    Some((min_len, _)) => {
                        if min_len > container_len {
                            min_len_pos = Some((container_len, i));
                        }
                    },
                }
            },
            None => {},
        }
        proof {
            let t = lens@.take(i + 1);
            assert forall|k: int| 0 <= k < i implies #[trigger] t[k] == lens@.take(i as int)[k] by {}
        }
        i = i + 1;
    }
    proof {
        assert(lens@.take(i as int) =~= lens@);
    }
    min_len_pos
}

/// Where a system parameter takes its value from.
#[derive(Clone, Copy)]
pub enum ParamSource {
    /// The single resource of the parameter's type.
    Resource,
    /// The components of the given type, one entity at a time.
    Component(TypeId),
}

/// How a system is to be run.
pub enum SystemPlan {
    /// Not at all: some parameter has no container, or two.
    Skip,
    /// Once: every parameter is a resource.
    Once,
    /// Once for each of these entities, in order.
    Each(Vec<Entity>),
}

/// A parameter draws from its component container when only that exists, from its
/// resource when only that exists, and from nothing otherwise.
pub open spec fn source_of(silo_present: bool, resource_present: bool, key: TypeId) -> Option<ParamSource> {
    if silo_present && !resource_present {
        Some(ParamSource::Component(key))
    } else if !silo_present && resource_present {
        Some(ParamSource::Resource)
    } else {
        None
    }
}

pub fn param_source(silo_present: bool, resource_present: bool, key: TypeId) -> (r: Option<ParamSource>)
    ensures
        r == source_of(silo_present, resource_present, key),
{
    match (silo_present, resource_present) {
        (false, true) => Some(ParamSource::Resource),
        (true, false) => Some(ParamSource::Component(key)),
        _ => None,
    }
}

impl Registry {
    /// The source of each parameter `(component type, whether its resource exists)`.
    pub open spec fn sources(&self, params: Seq<(TypeId, bool)>) -> Seq<Option<ParamSource>> {
        params.map_values(|p: (TypeId, bool)| source_of(self.has_silo(p.0), p.1, p.0))
    }

    /// The container lengths that choose the driving container: `None` for a resource.
    pub open spec fn source_lens(&self, sources: Seq<Option<ParamSource>>) -> Seq<Option<usize>> {
        sources.map_values(|s: Option<ParamSource>| match s {
            Some(ParamSource::Component(k)) => Some(self.silo_entries(k).len() as usize),
            _ => None,
        })
    }

    /// Whether `e` has every component the sources ask for.
    pub open spec fn fits(&self, sources: Seq<Option<ParamSource>>, e: Entity) -> bool {
        forall|j: int| 0 <= j < sources.len() ==> match #[trigger] sources[j] {
            Some(ParamSource::Component(k)) => self.has(k, e),
            _ => true,
        }
    }

    /// Some parameter has no single source.
    pub open spec fn some_unsourced(&self, srcs: Seq<Option<ParamSource>>) -> bool {
        exists|i: int| 0 <= i < srcs.len() && (#[trigger] srcs[i]) is None
    }

    /// Every parameter draws from a resource.
    pub open spec fn all_resources(&self, srcs: Seq<Option<ParamSource>>) -> bool {
        forall|i: int| 0 <= i < srcs.len() ==> (#[trigger] srcs[i]) == Some(ParamSource::Resource)
    }

    /// `v` is what the first shortest component container yields, kept where the entity
    /// has every component asked for.
    pub open spec fn drives(&self, srcs: Seq<Option<ParamSource>>, v: Seq<Entity>) -> bool {
        let lens = self.source_lens(srcs);
        exists|p: int| #![trigger srcs[p]] {
            &&& is_first_shortest(lens, lens[p]->0, p as usize)
            &&& srcs[p] matches Some(ParamSource::Component(k))
            &&& v == entities_of(self.silo_entries(k)).filter(|e: Entity| self.fits(srcs, e))
        }
    }

    /// How a system with these parameters runs: skipped when a parameter has no single
    /// source, once when all are resources, and otherwise once per entity of the first
    /// shortest component container that has every component asked for.
    pub fn plan_system(&self, params: &[(TypeId, bool)]) -> (r: SystemPlan)
        requires
            self.wf(),
        ensures
            r is Skip <==> self.some_unsourced(self.sources(params@)),
            r is Once <==> self.all_resources(self.sources(params@)),
            r matches SystemPlan::Each(v) ==> self.drives(self.sources(params@), v@),
    {
        let ghost srcs = self.sources(params@);
        let mut sources: Vec<ParamSource> = Vec::new();
        let mut lens: Vec<Option<usize>> = Vec::new();
        let mut i: usize = 0;
        while i < params.len()
            invariant
                self.wf(),
                srcs == self.sources(params@),
                i <= params@.len(),
                sources@.len() == i,
                lens@.len() == i,
                forall|k: int| 0 <= k < i ==> srcs[k] == Some(#[trigger] sources@[k]),
                lens@ == self.source_lens(srcs).take(i as int),
            decreases params@.len() - i,
        {
            let (key, resource_present) = params[i];
            let count = self.component_count(key);
            match param_source(count.is_some(), resource_present, key) {
                None => {
                    proof {
                        assert(srcs[i as int] is None);
                    }
                    return SystemPlan::Skip;
                },
                Some(source) => {
                    proof {
                        assert(srcs[i as int] == Some(source));
                    }
                    sources.push(source);
                    match source {
                        ParamSource::Component(_) => lens.push(count),
                        ParamSource::Resource => lens.push(None),
                    }
                    proof {
                        assert(lens@ =~= self.source_lens(srcs).take(i + 1));
                    }
                },
            }
            i = i + 1;
        }
        proof {
            assert(lens@ =~= self.source_lens(srcs));
            assert forall|k: int| 0 <= k < srcs.len() implies (#[trigger] srcs[k]) is Some by {
                assert(srcs[k] == Some(sources@[k]));
            }
        }
        match shortest_at(lens.as_slice()) {
            None => {
                proof {
                    assert forall|k: int| 0 <= k < srcs.len() implies (#[trigger] srcs[k]) == Some(ParamSource::Resource) by {
                        assert(lens@[k] is None);
                        assert(srcs[k] == Some(sources@[k]));
                    }
                }
                SystemPlan::Once
            },
            Some((_, pos)) => {
                let source = sources[pos];
                proof {
                    assert(srcs[pos as int] == Some(source));
                    assert(lens@[pos as int] is Some);
                    assert(!(srcs[pos as int] == Some(ParamSource::Resource)));
                }
                match source {
                    ParamSource::Component(key) => {
                        let candidates = self.component_entities(key).unwrap();
                        let ghost pred = |e: Entity| self.fits(srcs, e);
                        let mut ret: Vec<Entity> = Vec::new();
                        let mut c: usize = 0;
                        while c < candidates.len()
                            invariant
                                self.wf(),
                                srcs == self.sources(params@),
                                sources@.len() == srcs.len(),
                                forall|k: int| 0 <= k < srcs.len() ==> srcs[k] == Some(#[trigger] sources@[k]),
                                c <= candidates@.len(),
                                pred == (|e: Entity| self.fits(srcs, e)),
                                ret@ == candidates@.take(c as int).filter(pred),
                            decreases candidates@.len() - c,
                        {
                            let e = candidates[c];
                            let mut keep = true;
                            let mut j: usize = 0;
                            while j < sources.len()
                                invariant
                                    self.wf(),
                                    sources@.len() == srcs.len(),
                                    forall|k: int| 0 <= k < srcs.len() ==> srcs[k] == Some(#[trigger] sources@[k]),
                                    j <= sources@.len(),
                                    keep <==> forall|k: int| 0 <= k < j ==> match #[trigger] srcs[k] {
                                        Some(ParamSource::Component(kk)) => self.has(kk, e),
                                        _ => true,
                                    },
                                decreases sources@.len() - j,
                            {
                                match sources[j] {
                                    ParamSource::Component(k) => {
                                        if !self.has_component(k, e) {
                                            keep = false;
                                        }
                                    },
                                    ParamSource::Resource => {},
                                }
                                proof {
                                    assert(srcs[j as int] == Some(sources@[j as int]));
                                }
                                j = j + 1;
                            }
                            proof {
                                let t = candidates@.take(c + 1);
                                assert(t.drop_last() =~= candidates@.take(c as int));
                                assert(t.last() == e);
                                reveal(Seq::filter);
                                assert(keep == self.fits(srcs, e));
                            }
                            if keep {
                                ret.push(e);
                            }
                            c = c + 1;
                        }
                        proof {
                            assert(candidates@.take(c as int) =~= candidates@);
                        }
                        SystemPlan::Each(ret)
                    },
                    ParamSource::Resource => {
                        SystemPlan::Skip
                    },
                }
            },
        }
    }
}

/// Turns a tuple of mutable references into the tuple of shared references to the same values.
pub trait Downgrade {
    type Ref;

    fn downgrade(self) -> Self::Ref;
}

impl<'a, A: 'a> Downgrade for (&'a mut A,) {
    type Ref = (&'a A,);

    fn downgrade(self) -> (r: (&'a A,))
        ensures
            *r.0 == *old(self.0),
            *final(self.0) == *old(self.0),
    {
        let (a,) = self;
        (a,)
    }
}

impl<'a, A: 'a, B: 'a> Downgrade for (&'a mut A, &'a mut B) {
    type Ref = (&'a A, &'a B);

    fn downgrade(self) -> (r: (&'a A, &'a B))
        ensures
            *r.0 == *old(self.0),
            *final(self.0) == *old(self.0),
            *r.1 == *old(self.1),
            *final(self.1) == *old(self.1),
    {
        let (a, b) = self;
        (a, b)
    }
}

impl<'a, A: 'a, B: 'a, C: 'a> Downgrade for (&'a mut A, &'a mut B, &'a mut C) {
    type Ref = (&'a A, &'a B, &'a C);

    fn downgrade(self) -> (r: (&'a A, &'a B, &'a C))
        ensures
            *r.0 == *old(self.0),
            *final(self.0) == *old(self.0),
            *r.1 == *old(self.1),
            *final(self.1) == *old(self.1),
            *r.2 == *old(self.2),
            *final(self.2) == *old(self.2),
    {
        let (a, b, c) = self;
        (a, b, c)
    }
}

/// The type of a query element's missing half: no container is ever kept for it.
pub struct NonExistent;

/// A system parameter that reads the resource of type `T`.
pub struct Global<'a, T> {
    pub inner: &'a T,
}

/// A system parameter that may change the resource of type `T`.
pub struct GlobalMut<'a, T> {
    pub inner: &'a mut T,
}

/// A system kept behind a uniform interface, with the parameter list it was written for.
pub struct SystemFn<F, Params> {
    f: F,
    _params: PhantomData<Params>,
}

impl<F, Params> SystemFn<F, Params> {
    /// The wrapped system.
    pub closed spec fn function(&self) -> F {
        self.f
    }

    pub fn function_mut(&mut self) -> (r: &mut F)
        ensures
            *r == old(self).function(),
            final(self).function() == *final(r),
    {
        &mut self.f
    }
}

/// Wraps a system behind a uniform interface.
pub trait IntoSystemDyn<Params>: Sized {
    fn into_dyn(self) -> (r: SystemFn<Self, Params>)
        ensures
            r.function() == self,
    ;
}

impl<F, Params> IntoSystemDyn<Params> for F {
    fn into_dyn(self) -> SystemFn<F, Params> {
        SystemFn { f: self, _params: PhantomData }
    }
}

} // verus!
