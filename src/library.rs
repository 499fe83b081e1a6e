use vstd::prelude::*;

use crate::assoc::{
    lemma_pairs_map_absent,
    lemma_pairs_map_finite,
    lemma_pairs_map_last,
    lemma_pairs_map_value,
    lemma_pairs_map_push,
    lemma_pairs_map_replace,
    pairs_map,
};
use crate::digest::Digest;
use crate::manifest::{Manifest, Target};
use crate::package::Package;

verus! {

/// The loaded packages by digest, and the package that handles each target.
pub struct Library {
    packages: Vec<Package>,
    handlers: Vec<(Target, Digest)>,
}

/// Packages as (digest bytes, package) pairs.
pub open spec fn package_entries(v: Seq<Package>) -> Seq<(Seq<u8>, Package)> {
    v.map_values(|p: Package| (p.hash@, p))
}

/// Handlers as (target, digest bytes) pairs.
pub open spec fn handler_entries(v: Seq<(Target, Digest)>) -> Seq<(Target, Seq<u8>)> {
    v.map_values(|e: (Target, Digest)| (e.0, e.1@))
}

/// Whether no two pairs share a key.
pub open spec fn keys_unique<K, V>(s: Seq<(K, V)>) -> bool {
    forall|i: int, j: int| 0 <= i < s.len() && 0 <= j < s.len() && i != j ==> s[i].0 != s[j].0
}

/// What a lookup by digest finds among `packages`.
pub open spec fn package_of(packages: Map<Seq<u8>, Package>, h: Seq<u8>) -> Option<Package> {
    if packages.contains_key(h) {
        Some(packages[h])
    } else {
        None
    }
}

/// What a lookup by target finds: the handler's digest, then its package.
pub open spec fn handler_of(
    packages: Map<Seq<u8>, Package>,
    handlers: Map<Target, Seq<u8>>,
    t: Target,
) -> Option<Package> {
    if handlers.contains_key(t) {
        package_of(packages, handlers[t])
    } else {
        None
    }
}

/// The packages after `p` is added.
pub open spec fn add_packages(packages: Map<Seq<u8>, Package>, p: Package) -> Map<Seq<u8>, Package> {
    packages.insert(p.hash@, p)
}

/// The handlers after `p` is added: an app becomes its target's handler.
pub open spec fn add_handlers(handlers: Map<Target, Seq<u8>>, p: Package) -> Map<Target, Seq<u8>> {
    match p.manifest {
        Manifest::App { target, .. } => handlers.insert(target, p.hash@),
        Manifest::Comic { .. } => handlers,
    }
}

impl Library {
    /// The packages, by the bytes of their digest.
    pub closed spec fn packages_view(&self) -> Map<Seq<u8>, Package> {
        pairs_map(package_entries(self.packages@))
    }

    /// The digest of the handler of each target.
    pub closed spec fn handlers_view(&self) -> Map<Target, Seq<u8>> {
        pairs_map(handler_entries(self.handlers@))
    }

    /// Each digest and each target occurs once, and every handler is a
    /// loaded package.
    pub closed spec fn wf(&self) -> bool {
        &&& self.packages_view().dom().finite()
        &&& self.handlers_view().dom().finite()
        &&& keys_unique(package_entries(self.packages@))
        &&& keys_unique(handler_entries(self.handlers@))
        &&& forall|t: Target| #[trigger]
            self.handlers_view().contains_key(t) ==> self.packages_view().contains_key(
                self.handlers_view()[t],
            )
    }

    /// An empty library.
    pub fn new() -> (r: Library)
        ensures
            r.wf(),
            r.packages_view().dom().finite(),
            r.handlers_view().dom().finite(),
            r.packages_view() == Map::<Seq<u8>, Package>::empty(),
            r.handlers_view() == Map::<Target, Seq<u8>>::empty(),
    {
        let r = Library { packages: Vec::new(), handlers: Vec::new() };
        assert(package_entries(r.packages@) =~= Seq::empty());
        assert(handler_entries(r.handlers@) =~= Seq::empty());
        r
    }

    /// Stores `package` under its digest, replacing a package with the same
    /// digest; an app package also becomes the handler of its target.
    pub fn add(&mut self, package: Package)
        requires
            old(self).wf(),
        ensures
            final(self).wf(),
            final(self).packages_view().dom().finite(),
            final(self).handlers_view().dom().finite(),
            old(self).packages_view().len() <= final(self).packages_view().len()
                <= old(self).packages_view().len() + 1,
            final(self).packages_view() == add_packages(old(self).packages_view(), package),
            final(self).handlers_view() == add_handlers(old(self).handlers_view(), package),
    {
        let hash = package.hash;
        let target = match &package.manifest {
            Manifest::App { target, .. } => Some(*target),
            Manifest::Comic { .. } => None,
        };
        self.put_package(package);
        proof {
            assert(self.packages_view().dom() =~= old(self).packages_view().dom().insert(hash@));
            let prev = old(self).packages_view();
            assert forall|t: Target| #[trigger]
                self.handlers_view().contains_key(t) implies self.packages_view().contains_key(
                self.handlers_view()[t],
            ) by {
                assert(prev.contains_key(old(self).handlers_view()[t]));
            }
        }
        if let Some(t) = target {
            self.put_handler(t, hash);
        }
    }

    /// Stores `package` under its digest.
    fn put_package(&mut self, package: Package)
        requires
            old(self).wf(),
        ensures
            keys_unique(package_entries(final(self).packages@)),
            final(self).handlers == old(self).handlers,
            final(self).packages_view() == old(self).packages_view().insert(package.hash@, package),
    {
        let ghost s = package_entries(self.packages@);
        let mut i: usize = 0;
        while i < self.packages.len()
            invariant
                0 <= i <= self.packages@.len(),
                s == package_entries(self.packages@),
                *self == *old(self),
                keys_unique(s),
                forall|j: int| 0 <= j < i ==> (#[trigger] s[j]).0 != package.hash@,
            decreases self.packages@.len() - i,
        {
            if self.packages[i].hash == package.hash {
                let ghost key = package.hash@;
                self.packages.set(i, package);
                proof {
                    lemma_pairs_map_replace(s, i as int, package);
                    let u = s.update(i as int, (key, package));
                    assert(package_entries(self.packages@) =~= u);
                    assert(forall|k: int| 0 <= k < s.len() ==> (#[trigger] u[k]).0 == s[k].0);
                }
                return;
            }
            i = i + 1;
        }
        let ghost key = package.hash@;
        self.packages.push(package);
        proof {
            lemma_pairs_map_push(s, key, package);
            let u = s.push((key, package));
            assert(package_entries(self.packages@) =~= u);
            assert(forall|k: int| 0 <= k < s.len() ==> (#[trigger] u[k]) == s[k]);
        }
    }

    /// Every handler stays a loaded package when a loaded one is added, and
    /// both maps stay finite.
    proof fn lemma_handlers_kept(&self, prev: Map<Target, Seq<u8>>, target: Target, h: Seq<u8>)
        requires
            self.packages_view().contains_key(h),
            self.handlers_view() == prev.insert(target, h),
            forall|t: Target| #[trigger]
                prev.contains_key(t) ==> self.packages_view().contains_key(prev[t]),
        ensures
            forall|t: Target| #[trigger]
                self.handlers_view().contains_key(t) ==> self.packages_view().contains_key(
                    self.handlers_view()[t],
                ),
            self.packages_view().dom().finite(),
            self.handlers_view().dom().finite(),
    {
        lemma_pairs_map_finite(package_entries(self.packages@));
        lemma_pairs_map_finite(handler_entries(self.handlers@));
        assert forall|t: Target| #[trigger] self.handlers_view().contains_key(t) implies self.packages_view().contains_key(
            self.handlers_view()[t],
        ) by {
            if t != target {
                assert(prev.contains_key(t));
            }
        }
    }

    /// Makes `hash` the handler of `target`.
    fn put_handler(&mut self, target: Target, hash: Digest)
        requires
            keys_unique(package_entries(old(self).packages@)),
            keys_unique(handler_entries(old(self).handlers@)),
            old(self).packages_view().contains_key(hash@),
            forall|t: Target| #[trigger]
                old(self).handlers_view().contains_key(t) ==> old(self).packages_view().contains_key(
                    old(self).handlers_view()[t],
                ),
        ensures
            final(self).wf(),
            final(self).packages == old(self).packages,
            final(self).handlers_view() == old(self).handlers_view().insert(target, hash@),
    {
        let ghost s = handler_entries(self.handlers@);
        let mut i: usize = 0;
        while i < self.handlers.len()
            invariant
                0 <= i <= self.handlers@.len(),
                s == handler_entries(self.handlers@),
                *self == *old(self),
                keys_unique(s),
                forall|j: int| 0 <= j < i ==> (#[trigger] s[j]).0 != target,
                old(self).packages_view().contains_key(hash@),
                keys_unique(package_entries(old(self).packages@)),
                forall|t: Target| #[trigger]
                    old(self).handlers_view().contains_key(t) ==> old(
                        self,
                    ).packages_view().contains_key(old(self).handlers_view()[t]),
            decreases self.handlers@.len() - i,
        {
            if self.handlers[i].0 == target {
                self.handlers.set(i, (target, hash));
                proof {
                    lemma_pairs_map_replace(s, i as int, hash@);
                    let u = s.update(i as int, (target, hash@));
                    assert(handler_entries(self.handlers@) =~= u);
                    assert(forall|k: int| 0 <= k < s.len() ==> (#[trigger] u[k]).0 == s[k].0);
                    assert(self.packages == old(self).packages);
                    self.lemma_handlers_kept(old(self).handlers_view(), target, hash@);
                }
                return;
            }
            i = i + 1;
        }
        self.handlers.push((target, hash));
        proof {
            lemma_pairs_map_push(s, target, hash@);
            let u = s.push((target, hash@));
            assert(handler_entries(self.handlers@) =~= u);
            assert(forall|k: int| 0 <= k < s.len() ==> (#[trigger] u[k]) == s[k]);
            assert(self.packages == old(self).packages);
            self.lemma_handlers_kept(old(self).handlers_view(), target, hash@);
        }
    }

    /// The package stored under `hash`.
    pub fn package(&self, hash: Digest) -> (r: Option<&Package>)
        ensures
            match r {
                Some(p) => package_of(self.packages_view(), hash@) == Some(*p),
                None => package_of(self.packages_view(), hash@) is None,
            },
    {
        let ghost s = package_entries(self.packages@);
        let mut i: usize = self.packages.len();
        while i > 0
            invariant
                0 <= i <= self.packages@.len(),
                s == package_entries(self.packages@),
                forall|j: int| i <= j < s.len() ==> (#[trigger] s[j]).0 != hash@,
            decreases i,
        {
            i = i - 1;
            if self.packages[i].hash == hash {
                proof {
                    lemma_pairs_map_last(s, hash@, i as int);
                }
                return Some(&self.packages[i]);
            }
        }
        proof {
            lemma_pairs_map_absent(s, hash@);
        }
        None
    }

    /// The package that handles `target`: its handler digest, then the
    /// package stored under it.
    pub fn handler(&self, target: Target) -> (r: Option<&Package>)
        requires
            self.wf(),
        ensures
            match r {
                Some(p) => handler_of(self.packages_view(), self.handlers_view(), target) == Some(*p),
                None => handler_of(self.packages_view(), self.handlers_view(), target) is None,
            },
    {
        let ghost s = handler_entries(self.handlers@);
        let mut i: usize = self.handlers.len();
        while i > 0
            invariant
                0 <= i <= self.handlers@.len(),
                s == handler_entries(self.handlers@),
                forall|j: int| i <= j < s.len() ==> (#[trigger] s[j]).0 != target,
                self.wf(),
            decreases i,
        {
            i = i - 1;
            if self.handlers[i].0 == target {
                proof {
                    lemma_pairs_map_last(s, target, i as int);
                    assert(s[i as int].1 == self.handlers@[i as int].1@);
                    assert(self.handlers_view().contains_key(target));
                }
                return self.package(self.handlers[i].1);
            }
        }
        proof {
            lemma_pairs_map_absent(s, target);
        }
        None
    }
}

/// After an app package is added, its target resolves to exactly that
/// package, and so does its digest.
pub proof fn lemma_add_then_lookup(lib: Library, p: Package)
    requires
        lib.wf(),
        p.manifest is App,
    ensures
        handler_of(
            add_packages(lib.packages_view(), p),
            add_handlers(lib.handlers_view(), p),
            p.manifest->target,
        ) == Some(p),
        package_of(add_packages(lib.packages_view(), p), p.hash@) == Some(p),
{
}

/// Adding a second app package for the same target, under another digest,
/// makes it the handler; the first stays stored under its own digest.
pub proof fn lemma_handler_overwrite(lib: Library, first: Package, second: Package)
    requires
        lib.wf(),
        first.manifest is App,
        second.manifest is App,
        first.manifest->target == second.manifest->target,
        first.hash@ != second.hash@,
    ensures
        ({
            let packages = add_packages(add_packages(lib.packages_view(), first), second);
            let handlers = add_handlers(add_handlers(lib.handlers_view(), first), second);
            &&& handler_of(packages, handlers, first.manifest->target) == Some(second)
            &&& package_of(packages, first.hash@) == Some(first)
            &&& package_of(packages, second.hash@) == Some(second)
        }),
{
}

/// Lookups in a library read one consistent state: a target's handler is
/// found, and is the same package, when looked up by its own digest.
pub proof fn lemma_handler_consistent(lib: Library, t: Target)
    requires
        lib.wf(),
    ensures
        lib.handlers_view().contains_key(t) ==> handler_of(
            lib.packages_view(),
            lib.handlers_view(),
            t,
        ) is Some,
        handler_of(lib.packages_view(), lib.handlers_view(), t) matches Some(p) ==> package_of(
            lib.packages_view(),
            p.hash@,
        ) == Some(p),
{
    if lib.handlers_view().contains_key(t) {
        let h = lib.handlers_view()[t];
        let s = package_entries(lib.packages@);
        let j = lemma_pairs_map_value(s, h);
        assert(s[j] == (lib.packages@[j].hash@, lib.packages@[j]));
    }
}

impl Default for Library {
    fn default() -> (r: Library)
        ensures
            r.wf(),
            r.packages_view().dom().finite(),
            r.handlers_view().dom().finite(),
            r.packages_view() == Map::<Seq<u8>, Package>::empty(),
            r.handlers_view() == Map::<Target, Seq<u8>>::empty(),
    {
        Library::new()
    }
}

} // verus!
