//! The package graph of a workspace, the owner of a path, and the packages
//! that a set of changed files affects.
use vstd::prelude::*;
use vstd::set_lib::{lemma_len_subset, lemma_int_range, set_int_range};
use radix_trie::Trie;
use crate::index::{trie_entries, trie_new, trie_insert, ancestor, ancestor_value, longest_key};
use crate::names::{views, strictly_sorted, insert_sorted, contains_name};
use crate::paths::{has_prefix, path_within, dir_key, parent_dir, joined, check_path, parent_directory,
    directory_key, join_path};

verus! {

/// One buildable unit of the workspace.
pub struct Package {
    pub name: String,
    pub manifest: String,
    /// The directory that holds the manifest: the root of the package.
    pub directory: String,
    /// Paths of the local dependencies that lie within the workspace; each
    /// stands for the package that owns it.
    pub dependencies: Vec<String>,
}

/// A package as the manifest metadata describes it, before the graph is
/// built: a dependency has a path only where it is a local one.
pub struct PackageRecord {
    pub name: String,
    pub manifest: String,
    pub dependencies: Vec<Option<String>>,
}

/// The packages of a workspace, indexed by directory.
pub struct Workspace {
    packages: Vec<Package>,
    index: Trie<String, usize>,
}

/// The local dependency paths of `ds` that lie within `root`, in order.
pub open spec fn internal_deps(root: Seq<char>, ds: Seq<Option<String>>) -> Seq<Seq<char>>
    decreases ds.len(),
{
    if ds.len() == 0 {
        Seq::empty()
    } else {
        let rest = internal_deps(root, ds.drop_last());
        match ds.last() {
            Some(p) => if path_within(root, p@) { rest.push(p@) } else { rest },
            None => rest,
        }
    }
}

/// The names of all of `packages`.
pub open spec fn universe(packages: Seq<Package>) -> Set<Seq<char>> {
    Set::new(|t: Seq<char>| exists|i: int| 0 <= i < packages.len() && #[trigger] packages[i].name@ == t)
}

/// The names of `packages` that are not among `included`.
pub open spec fn excluded(packages: Seq<Package>, included: Set<Seq<char>>) -> Set<Seq<char>> {
    universe(packages).filter(|t: Seq<char>| !included.contains(t))
}

/// The positions whose mark is set.
pub open spec fn marked(m: Seq<bool>) -> Set<int> {
    Set::new(|i: int| 0 <= i < m.len() && m[i])
}

/// The names of the packages that are not among `included`, sorted and
/// without repeats.
pub fn generate_exclude_list(packages: &Vec<Package>, included: &Vec<String>) -> (r: Vec<String>)
    ensures
        strictly_sorted(views(r@)),
        views(r@).to_set() == excluded(packages@, views(included@).to_set()),
{
    let mut r: Vec<String> = Vec::new();
    let mut i: usize = 0;
    let ghost inc = views(included@).to_set();
    while i < packages.len()
        invariant
            i <= packages@.len(),
            inc == views(included@).to_set(),
            strictly_sorted(views(r@)),
            forall|t: Seq<char>| #[trigger] views(r@).contains(t) <==> (exists|k: int|
                0 <= k < i && #[trigger] packages@[k].name@ == t) && !inc.contains(t),
        decreases packages@.len() - i,
    {
        let name = &packages[i].name;
        let found = contains_name(included, name);
        assert(found <==> inc.contains(name@));
        let ghost prev = views(r@);
        if !found {
            insert_sorted(&mut r, name.clone());
        }
        assert forall|t: Seq<char>| #[trigger] views(r@).contains(t) <==> (exists|k: int|
            0 <= k < i + 1 && #[trigger] packages@[k].name@ == t) && !inc.contains(t) by {
            if t == name@ {
                assert(packages@[i as int].name@ == t);
            }
            if prev.contains(t) {
                let k = choose|k: int| 0 <= k < i && #[trigger] packages@[k].name@ == t;
                assert(0 <= k < i + 1 && packages@[k].name@ == t);
            }
            if views(r@).contains(t) {
                assert(prev.contains(t) || t == name@);
            }
            if exists|k: int| 0 <= k < i + 1 && #[trigger] packages@[k].name@ == t {
                let k = choose|k: int| 0 <= k < i + 1 && #[trigger] packages@[k].name@ == t;
                if k < i {
                    assert(exists|k: int| 0 <= k < i && #[trigger] packages@[k].name@ == t);
                }
            }
        }
        i = i + 1;
    }
    assert(views(r@).to_set() =~= excluded(packages@, inc));
    r
}

impl Workspace {
    pub closed spec fn pkgs(self) -> Seq<Package> {
        self.packages@
    }

    pub closed spec fn entries(self) -> Map<Seq<char>, usize> {
        trie_entries(self.index)
    }

    /// Every key of the index is the key of the package it names, and every
    /// package's directory is a key.
    pub closed spec fn wf(self) -> bool {
        &&& forall|k: Seq<char>| #[trigger] self.entries().dom().contains(k) ==> {
            &&& self.entries()[k] < self.packages@.len()
            &&& dir_key(self.packages@[self.entries()[k] as int].directory@) == k
        }
        &&& forall|i: int| 0 <= i < self.packages@.len() ==> #[trigger] self.entries().dom().contains(
            dir_key(self.packages@[i].directory@),
        )
    }

    pub open spec fn dir(self, i: int) -> Seq<char> {
        self.pkgs()[i].directory@
    }

    /// The package that owns `p`: the one whose directory is the deepest
    /// that holds `p`.
    pub closed spec fn owner(self, p: Seq<char>) -> Option<usize> {
        ancestor_value(self.entries(), dir_key(p))
    }

    /// One of the dependency paths of package `j` is owned by a package in
    /// `s`.
    pub open spec fn dep_hit(self, j: int, s: Set<int>) -> bool {
        exists|d: int|
            0 <= d < self.pkgs()[j].dependencies@.len() && #[trigger] self.owner(self.pkgs()[j].dependencies@[d]@) is Some
                && s.contains(self.owner(self.pkgs()[j].dependencies@[d]@)->0 as int)
    }

    /// `s` takes in the owner of every package that depends on one of its
    /// members.
    pub open spec fn closed_under(self, s: Set<int>) -> bool {
        forall|j: int|
            0 <= j < self.pkgs().len() && #[trigger] self.dep_hit(j, s) && self.owner(self.dir(j)) is Some
                ==> s.contains(self.owner(self.dir(j))->0 as int)
    }

    /// The least set of packages that holds `seeds` and is closed.
    pub open spec fn closure(self, seeds: Set<int>) -> Set<int> {
        Set::new(
            |i: int|
                0 <= i < self.pkgs().len() && forall|s: Set<int>|
                    seeds.subset_of(s) && #[trigger] self.closed_under(s) ==> s.contains(i),
        )
    }

    /// The packages that own one of `files`, read from `root`.
    pub open spec fn seed_set(self, root: Seq<char>, files: Seq<String>) -> Set<int> {
        Set::new(|i: int| exists|f: int| 0 <= f < files.len() && #[trigger] self.owner(joined(root, files[f]@)) is Some && self.owner(joined(root, files[f]@))->0 as int == i)
    }

    /// The names of the packages in `s`.
    pub open spec fn names_of(self, s: Set<int>) -> Set<Seq<char>> {
        Set::new(|t: Seq<char>| exists|i: int| #[trigger] s.contains(i) && 0 <= i < self.pkgs().len() && self.pkgs()[i].name@ == t)
    }

    /// The names of the packages that `files` affect.
    pub open spec fn affected(self, root: Seq<char>, files: Seq<String>) -> Set<Seq<char>> {
        self.names_of(self.closure(self.seed_set(root, files)))
    }

    proof fn lemma_owner_bound(self, p: Seq<char>)
        requires
            self.wf(),
        ensures
            self.owner(p) is Some ==> (self.owner(p)->0 as int) < self.pkgs().len(),
    {
        let m = self.entries();
        let q = dir_key(p);
        if exists|k: Seq<char>| longest_key(m, q, k) {
            let c = choose|k: Seq<char>| longest_key(m, q, k);
            assert(m.dom().contains(c));
        }
    }

    /// The packages of a workspace rooted at `root`, built from the manifest
    /// records: each package's directory is its manifest's, and it keeps the
    /// dependencies whose paths lie within `root`.
    pub fn build(root: &str, records: &Vec<PackageRecord>) -> (ws: Workspace)
        ensures
            ws.wf(),
            ws.pkgs().len() == records@.len(),
            forall|i: int| 0 <= i < records@.len() ==> {
                &&& (#[trigger] ws.pkgs()[i]).name@ == records@[i].name@
                &&& ws.pkgs()[i].manifest@ == records@[i].manifest@
                &&& ws.pkgs()[i].directory@ == parent_dir(records@[i].manifest@)
                &&& views(ws.pkgs()[i].dependencies@) == internal_deps(root@, records@[i].dependencies@)
            },
    {
        let mut packages: Vec<Package> = Vec::new();
        let mut index = trie_new();
        let mut i: usize = 0;
        while i < records.len()
            invariant
                i <= records@.len(),
                packages@.len() == i,
                forall|k: Seq<char>| #[trigger] trie_entries(index).dom().contains(k) ==> {
                    &&& trie_entries(index)[k] < packages@.len()
                    &&& dir_key(packages@[trie_entries(index)[k] as int].directory@) == k
                },
                forall|j: int| 0 <= j < packages@.len() ==> #[trigger] trie_entries(index).dom().contains(
                    dir_key(packages@[j].directory@),
                ),
                forall|j: int| 0 <= j < i ==> {
                    &&& (#[trigger] packages@[j]).name@ == records@[j].name@
                    &&& packages@[j].manifest@ == records@[j].manifest@
                    &&& packages@[j].directory@ == parent_dir(records@[j].manifest@)
                    &&& views(packages@[j].dependencies@) == internal_deps(root@, records@[j].dependencies@)
                },
            decreases records@.len() - i,
        {
            let rec = &records[i];
            let mut deps: Vec<String> = Vec::new();
            let mut d: usize = 0;
            while d < rec.dependencies.len()
                invariant
                    d <= rec.dependencies@.len(),
                    views(deps@) == internal_deps(root@, rec.dependencies@.subrange(0, d as int)),
                decreases rec.dependencies@.len() - d,
            {
                let ghost before = rec.dependencies@.subrange(0, d as int);
                assert(rec.dependencies@.subrange(0, d + 1).drop_last() =~= before);
                match &rec.dependencies[d] {
                    Some(p) => {
                        if check_path(root, Some(p.as_str())) {
                            deps.push(p.clone());
                            assert(views(deps@) =~= internal_deps(root@, before).push(p@));
                        }
                    },
                    None => {},
                }
                d = d + 1;
            }
            assert(rec.dependencies@.subrange(0, rec.dependencies@.len() as int) =~= rec.dependencies@);
            let directory = parent_directory(rec.manifest.as_str());
            let key = directory_key(directory.as_str());
            let pkg = Package {
                name: rec.name.clone(),
                manifest: rec.manifest.clone(),
                directory,
                dependencies: deps,
            };
            packages.push(pkg);
            trie_insert(&mut index, key, i);
            i = i + 1;
        }
        Workspace { packages, index }
    }

    /// The packages, in the order of their records.
    pub fn packages(&self) -> (r: &Vec<Package>)
        ensures
            r@ == self.pkgs(),
    {
        &self.packages
    }

    /// The number of packages.
    pub fn len(&self) -> (r: usize)
        ensures
            r == self.pkgs().len(),
    {
        self.packages.len()
    }

    /// The package at position `i`.
    pub fn package(&self, i: usize) -> (r: &Package)
        requires
            i < self.pkgs().len(),
        ensures
            *r == self.pkgs()[i as int],
    {
        &self.packages[i]
    }

    /// Whether one of the dependency paths of package `j` is owned by a
    /// marked package.
    fn depends_on_marked(&self, j: usize, m: &Vec<bool>) -> (r: bool)
        requires
            self.wf(),
            j < self.pkgs().len(),
            m@.len() == self.pkgs().len(),
        ensures
            r == self.dep_hit(j as int, marked(m@)),
    {
        let deps = &self.packages[j].dependencies;
        let mut d: usize = 0;
        while d < deps.len()
            invariant
                self.wf(),
                deps == self.pkgs()[j as int].dependencies,
                m@.len() == self.pkgs().len(),
                d <= deps@.len(),
                forall|dd: int| 0 <= dd < d && #[trigger] self.owner(deps@[dd]@) is Some
                    ==> !marked(m@).contains(self.owner(deps@[dd]@)->0 as int),
            decreases deps@.len() - d,
        {
            match self.owner_of(deps[d].as_str()) {
                Some(o) => {
                    if m[o] {
                        assert(self.owner(self.pkgs()[j as int].dependencies@[d as int]@) is Some);
                        return true;
                    }
                },
                None => {},
            }
            d = d + 1;
        }
        false
    }

    /// A package that a member of the closure forces in is in the closure.
    proof fn lemma_step(self, seeds: Set<int>, cur: Set<int>, j: int)
        requires
            self.wf(),
            0 <= j < self.pkgs().len(),
            cur.subset_of(self.closure(seeds)),
            self.dep_hit(j, cur),
            self.owner(self.dir(j)) is Some,
        ensures
            self.closure(seeds).contains(self.owner(self.dir(j))->0 as int),
    {
        let o = self.owner(self.dir(j))->0 as int;
        self.lemma_owner_bound(self.dir(j));
        let d = choose|d: int|
            0 <= d < self.pkgs()[j].dependencies@.len() && #[trigger] self.owner(self.pkgs()[j].dependencies@[d]@) is Some
                && cur.contains(self.owner(self.pkgs()[j].dependencies@[d]@)->0 as int);
        let k = self.owner(self.pkgs()[j].dependencies@[d]@)->0 as int;
        self.lemma_owner_bound(self.pkgs()[j].dependencies@[d]@);
        assert forall|s: Set<int>| seeds.subset_of(s) && #[trigger] self.closed_under(s) implies s.contains(o) by {
            assert(self.closure(seeds).contains(k));
            assert(s.contains(k));
            assert(self.dep_hit(j, s));
        }
    }

    /// A closed set that holds the seeds and lies within their closure is
    /// the closure.
    proof fn lemma_closed_is_closure(self, seeds: Set<int>, cur: Set<int>)
        requires
            seeds.subset_of(cur),
            cur.subset_of(self.closure(seeds)),
            self.closed_under(cur),
        ensures
            cur == self.closure(seeds),
    {
        assert forall|i: int| self.closure(seeds).contains(i) implies cur.contains(i) by {
            assert(self.closed_under(cur));
        }
        assert(cur =~= self.closure(seeds));
    }

    /// Marks every package that the marked ones affect, until nothing more
    /// changes.
    pub fn propagate(&self, marks: Vec<bool>) -> (r: Vec<bool>)
        requires
            self.wf(),
            marks@.len() == self.pkgs().len(),
        ensures
            r@.len() == marks@.len(),
            marked(r@) == self.closure(marked(marks@)),
    {
        let ghost seeds = marked(marks@);
        let n = self.packages.len();
        let mut m = marks;
        proof {
            lemma_int_range(0, n as int);
            assert forall|i: int| seeds.contains(i) implies self.closure(seeds).contains(i) by {}
        }
        let mut changed = true;
        while changed
            invariant
                self.wf(),
                n == self.pkgs().len(),
                m@.len() == n,
                seeds.subset_of(marked(m@)),
                marked(m@).subset_of(self.closure(seeds)),
                marked(m@).subset_of(set_int_range(0, n as int)),
                set_int_range(0, n as int).finite(),
                set_int_range(0, n as int).len() == n,
                !changed ==> self.closed_under(marked(m@)),
            decreases 2 * (n - marked(m@).len()) + (if changed { 1int } else { 0int }),
        {
            let ghost start = marked(m@);
            proof {
                lemma_len_subset(start, set_int_range(0, n as int));
            }
            changed = false;
            let mut j: usize = 0;
            while j < n
                invariant
                    self.wf(),
                    n == self.pkgs().len(),
                    m@.len() == n,
                    j <= n,
                    seeds.subset_of(marked(m@)),
                    marked(m@).subset_of(self.closure(seeds)),
                    marked(m@).subset_of(set_int_range(0, n as int)),
                    start.subset_of(marked(m@)),
                    start.finite(),
                    !changed ==> marked(m@) == start,
                    changed ==> exists|x: int| marked(m@).contains(x) && !start.contains(x),
                    !changed ==> forall|jj: int|
                        0 <= jj < j && #[trigger] self.dep_hit(jj, start) && self.owner(self.dir(jj)) is Some
                            ==> start.contains(self.owner(self.dir(jj))->0 as int),
                decreases n - j,
            {
                let ghost before = marked(m@);
                if self.depends_on_marked(j, &m) {
                    let own = self.owner_of(self.packages[j].directory.as_str());
                    match own {
                        Some(o) => {
                            if !m[o] {
                                proof {
                                    self.lemma_step(seeds, before, j as int);
                                }
                                m.set(o, true);
                                assert(marked(m@) =~= before.insert(o as int));
                                assert(!start.contains(o as int));
                                changed = true;
                            }
                        },
                        None => {},
                    }
                }
                j = j + 1;
            }
            proof {
                lemma_len_subset(marked(m@), set_int_range(0, n as int));
                if changed {
                    let x = choose|x: int| marked(m@).contains(x) && !start.contains(x);
                    start.lemma_subset_not_in_lt(marked(m@), x);
                } else {
                    assert forall|jj: int|
                        0 <= jj < self.pkgs().len() && #[trigger] self.dep_hit(jj, marked(m@)) && self.owner(self.dir(jj)) is Some
                        implies marked(m@).contains(self.owner(self.dir(jj))->0 as int) by {
                        assert(self.dep_hit(jj, start));
                    }
                }
            }
        }
        proof {
            self.lemma_closed_is_closure(seeds, marked(m@));
        }
        m
    }

    /// Marks the packages that own one of `files`, read from `root`; a file
    /// that no package owns is passed over.
    pub fn seed_marks(&self, root: &str, files: &Vec<String>) -> (r: Vec<bool>)
        requires
            self.wf(),
        ensures
            r@.len() == self.pkgs().len(),
            marked(r@) == self.seed_set(root@, files@),
    {
        let n = self.packages.len();
        let mut m: Vec<bool> = Vec::new();
        while m.len() < n
            invariant
                n == self.pkgs().len(),
                m@.len() <= n,
                forall|i: int| 0 <= i < m@.len() ==> !m@[i],
            decreases n - m@.len(),
        {
            m.push(false);
        }
        let mut f: usize = 0;
        while f < files.len()
            invariant
                self.wf(),
                n == self.pkgs().len(),
                m@.len() == n,
                f <= files@.len(),
                forall|i: int| #[trigger] marked(m@).contains(i) <==> exists|g: int|
                    0 <= g < f && #[trigger] self.owner(joined(root@, files@[g]@)) is Some && self.owner(joined(root@, files@[g]@))->0 as int == i,
            decreases files@.len() - f,
        {
            let ghost before = marked(m@);
            let path = join_path(root, files[f].as_str());
            match self.owner_of(path.as_str()) {
                Some(o) => {
                    m.set(o, true);
                    assert(marked(m@) =~= before.insert(o as int));
                },
                None => {
                    assert(marked(m@) =~= before);
                },
            }
            assert forall|i: int| #[trigger] marked(m@).contains(i) <==> exists|g: int|
                0 <= g < f + 1 && #[trigger] self.owner(joined(root@, files@[g]@)) is Some && self.owner(joined(root@, files@[g]@))->0 as int == i by {
                if marked(m@).contains(i) && !before.contains(i) {
                    assert(self.owner(joined(root@, files@[f as int]@))->0 as int == i);
                }
                if exists|g: int| 0 <= g < f + 1 && #[trigger] self.owner(joined(root@, files@[g]@)) is Some && self.owner(joined(root@, files@[g]@))->0 as int == i {
                    let g = choose|g: int| 0 <= g < f + 1 && #[trigger] self.owner(joined(root@, files@[g]@)) is Some && self.owner(joined(root@, files@[g]@))->0 as int == i;
                    if g < f {
                        assert(before.contains(i));
                    } else {
                        self.lemma_owner_bound(joined(root@, files@[g]@));
                    }
                }
            }
            f = f + 1;
        }
        assert(marked(m@) =~= self.seed_set(root@, files@));
        m
    }

    /// The names of the marked packages, sorted and without repeats.
    pub fn marked_names(&self, m: &Vec<bool>) -> (r: Vec<String>)
        requires
            m@.len() == self.pkgs().len(),
        ensures
            strictly_sorted(views(r@)),
            views(r@).to_set() == self.names_of(marked(m@)),
    {
        let mut r: Vec<String> = Vec::new();
        let mut i: usize = 0;
        while i < m.len()
            invariant
                m@.len() == self.pkgs().len(),
                i <= m@.len(),
                strictly_sorted(views(r@)),
                forall|t: Seq<char>| views(r@).contains(t) <==> exists|k: int|
                    0 <= k < i && #[trigger] m@[k] && self.pkgs()[k].name@ == t,
            decreases m@.len() - i,
        {
            if m[i] {
                insert_sorted(&mut r, self.packages[i].name.clone());
            }
            i = i + 1;
        }
        assert forall|t: Seq<char>| views(r@).to_set().contains(t) <==> self.names_of(marked(m@)).contains(t) by {
            if views(r@).contains(t) {
                let k = choose|k: int| 0 <= k < i && #[trigger] m@[k] && self.pkgs()[k].name@ == t;
                assert(marked(m@).contains(k));
            }
            if self.names_of(marked(m@)).contains(t) {
                let k = choose|k: int| #[trigger] marked(m@).contains(k) && 0 <= k < self.pkgs().len() && self.pkgs()[k].name@ == t;
                assert(m@[k]);
            }
        }
        assert(views(r@).to_set() =~= self.names_of(marked(m@)));
        r
    }

    /// The names of the packages that `files` affect, read from `root`:
    /// their owners, and every package that depends on an affected one,
    /// sorted and without repeats.
    pub fn affected_packages(&self, root: &str, files: &Vec<String>) -> (r: Vec<String>)
        requires
            self.wf(),
        ensures
            strictly_sorted(views(r@)),
            views(r@).to_set() == self.affected(root@, files@),
    {
        let seeds = self.seed_marks(root, files);
        let closed = self.propagate(seeds);
        self.marked_names(&closed)
    }

    /// With no changed file, no package is affected.
    pub proof fn lemma_no_changes_no_effect(self, root: Seq<char>)
        ensures
            self.affected(root, Seq::empty()) == Set::<Seq<char>>::empty(),
    {
        let none = Set::<int>::empty();
        assert(self.seed_set(root, Seq::empty()) =~= none);
        assert forall|j: int| 0 <= j < self.pkgs().len() implies !#[trigger] self.dep_hit(j, none) by {}
        assert(self.closed_under(none));
        assert(self.closure(none) =~= none);
        assert(self.affected(root, Seq::empty()) =~= Set::<Seq<char>>::empty());
    }

    /// The package that owns a changed file is affected.
    pub proof fn lemma_owner_is_affected(self, root: Seq<char>, files: Seq<String>, f: int)
        requires
            self.wf(),
            0 <= f < files.len(),
            self.owner(joined(root, files[f]@)) is Some,
        ensures
            self.affected(root, files).contains(
                self.pkgs()[self.owner(joined(root, files[f]@))->0 as int].name@,
            ),
    {
        let p = self.owner(joined(root, files[f]@))->0 as int;
        self.lemma_owner_bound(joined(root, files[f]@));
        let seeds = self.seed_set(root, files);
        assert(seeds.contains(p));
        assert(self.closure(seeds).contains(p));
    }

    /// Closure keeps the inclusion of seed sets.
    pub proof fn lemma_closure_monotone(self, a: Set<int>, b: Set<int>)
        requires
            a.subset_of(b),
        ensures
            self.closure(a).subset_of(self.closure(b)),
    {
        assert forall|i: int| self.closure(a).contains(i) implies self.closure(b).contains(i) by {
            assert forall|s: Set<int>| b.subset_of(s) && #[trigger] self.closed_under(s) implies s.contains(i) by {
                assert(a.subset_of(s));
            }
        }
    }

    /// One more changed file never takes a package out of the affected set.
    pub proof fn lemma_affected_monotone(self, root: Seq<char>, files: Seq<String>, extra: String)
        ensures
            self.affected(root, files).subset_of(self.affected(root, files.push(extra))),
    {
        let a = self.seed_set(root, files);
        let b = self.seed_set(root, files.push(extra));
        assert forall|i: int| a.contains(i) implies b.contains(i) by {
            let f = choose|f: int| 0 <= f < files.len() && #[trigger] self.owner(joined(root, files[f]@)) is Some
                && self.owner(joined(root, files[f]@))->0 as int == i;
            assert(files.push(extra)[f] == files[f]);
        }
        self.lemma_closure_monotone(a, b);
    }

    /// The closure is closed: a package that depends on an affected one has
    /// its owner affected too.
    pub proof fn lemma_closure_is_closed(self, seeds: Set<int>)
        requires
            self.wf(),
        ensures
            self.closed_under(self.closure(seeds)),
    {
        let c = self.closure(seeds);
        assert forall|j: int|
            0 <= j < self.pkgs().len() && #[trigger] self.dep_hit(j, c) && self.owner(self.dir(j)) is Some
            implies c.contains(self.owner(self.dir(j))->0 as int) by {
            assert(c.subset_of(c));
            self.lemma_step(seeds, c, j);
        }
    }

    /// Closing a closure again changes nothing.
    pub proof fn lemma_closure_idempotent(self, seeds: Set<int>)
        requires
            self.wf(),
        ensures
            self.closure(self.closure(seeds)) == self.closure(seeds),
    {
        let c = self.closure(seeds);
        self.lemma_closure_is_closed(seeds);
        assert forall|i: int| c.contains(i) implies self.closure(c).contains(i) by {
            assert forall|s: Set<int>| c.subset_of(s) && #[trigger] self.closed_under(s) implies s.contains(i) by {}
        }
        assert forall|i: int| self.closure(c).contains(i) implies c.contains(i) by {
            assert(self.closed_under(c));
        }
        assert(self.closure(c) =~= c);
    }

    /// The excluded names and the included ones together are all the names
    /// of the workspace, and share none.
    pub proof fn lemma_exclude_partition(self, included: Set<Seq<char>>)
        requires
            included.subset_of(universe(self.pkgs())),
        ensures
            excluded(self.pkgs(), included).union(included) == universe(self.pkgs()),
            excluded(self.pkgs(), included).intersect(included) == Set::<Seq<char>>::empty(),
    {
        assert(excluded(self.pkgs(), included).union(included) =~= universe(self.pkgs()));
        assert(excluded(self.pkgs(), included).intersect(included) =~= Set::<Seq<char>>::empty());
    }

    /// The affected names are names of the workspace, so they and the
    /// excluded ones are all of its names.
    pub proof fn lemma_affected_within_universe(self, root: Seq<char>, files: Seq<String>)
        ensures
            self.affected(root, files).subset_of(universe(self.pkgs())),
    {
        let c = self.closure(self.seed_set(root, files));
        assert forall|t: Seq<char>| self.affected(root, files).contains(t) implies universe(self.pkgs()).contains(t) by {
            let i = choose|i: int| #[trigger] c.contains(i) && 0 <= i < self.pkgs().len() && self.pkgs()[i].name@ == t;
        }
    }

    /// The owner of a path is the package with the deepest directory that
    /// holds it; a path that no directory holds has no owner.
    pub proof fn lemma_owner_is_deepest(self, p: Seq<char>)
        requires
            self.wf(),
        ensures
            match self.owner(p) {
                Some(i) => {
                    &&& (i as int) < self.pkgs().len()
                    &&& has_prefix(dir_key(p), dir_key(self.dir(i as int)))
                    &&& forall|j: int| 0 <= j < self.pkgs().len() && has_prefix(dir_key(p), #[trigger] dir_key(self.dir(j)))
                        ==> dir_key(self.dir(j)).len() <= dir_key(self.dir(i as int)).len()
                },
                None => forall|j: int| 0 <= j < self.pkgs().len() ==> !has_prefix(dir_key(p), #[trigger] dir_key(self.dir(j))),
            },
    {
        let m = self.entries();
        let q = dir_key(p);
        self.lemma_owner_bound(p);
        if exists|k: Seq<char>| longest_key(m, q, k) {
            let c = choose|k: Seq<char>| longest_key(m, q, k);
            assert(m.dom().contains(c));
            assert forall|j: int| 0 <= j < self.pkgs().len() && has_prefix(q, #[trigger] dir_key(self.dir(j)))
                implies dir_key(self.dir(j)).len() <= dir_key(self.dir(m[c] as int)).len() by {
                assert(m.dom().contains(dir_key(self.packages@[j].directory@)));
            }
        } else {
            assert forall|j: int| 0 <= j < self.pkgs().len() implies !has_prefix(q, #[trigger] dir_key(self.dir(j))) by {
                let k = dir_key(self.packages@[j].directory@);
                assert(m.dom().contains(k));
                if has_prefix(q, k) {
                    self.lemma_some_longest(q, k);
                }
            }
        }
    }

    /// Where a key begins `q`, some key is the longest that does.
    proof fn lemma_some_longest(self, q: Seq<char>, k: Seq<char>)
        requires
            self.entries().dom().contains(k),
            has_prefix(q, k),
        ensures
            exists|c: Seq<char>| longest_key(self.entries(), q, c),
        decreases q.len() - k.len(),
    {
        let m = self.entries();
        if !longest_key(m, q, k) {
            let k2 = choose|k2: Seq<char>| m.dom().contains(k2) && has_prefix(q, k2) && k2.len() > k.len();
            self.lemma_some_longest(q, k2);
        }
    }

    /// Position of the package that owns `path`.
    pub fn owner_of(&self, path: &str) -> (r: Option<usize>)
        requires
            self.wf(),
        ensures
            r == self.owner(path@),
            r is Some ==> r->0 < self.pkgs().len(),
    {
        let key = directory_key(path);
        proof {
            self.lemma_owner_bound(path@);
        }
        ancestor(&self.index, key.as_str())
    }
}

} // verus!
