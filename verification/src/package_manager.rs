//! A package manager's state as relations: installed packages
//! `(package, version)`, dependencies `(package, dependency,
//! required_version)` and explicitly installed packages `(package)`.
use vstd::prelude::*;
use crate::graph::{contains_key, push_unique, views, Key};

verus! {

broadcast use vstd::seq_lib::group_seq_properties;

/// An installed package.
#[derive(Clone, Debug, PartialEq, Eq)]
pub struct Installed {
    pub package: String,
    pub version: String,
}

/// A dependency of a package on another, at a version.
#[derive(Clone, Debug, PartialEq, Eq)]
pub struct Dependency {
    pub package: String,
    pub dependency: String,
    pub required_version: String,
}

/// A dependency of an installed package on a package not installed.
#[derive(Clone, Debug, PartialEq, Eq)]
pub struct UnmetDependency {
    pub package: String,
    pub version: String,
    pub dependency: String,
    pub required_version: String,
}

impl View for UnmetDependency {
    type V = (Seq<char>, Seq<char>, Seq<char>, Seq<char>);

    open spec fn view(&self) -> Self::V {
        (self.package@, self.version@, self.dependency@, self.required_version@)
    }
}

impl Key for UnmetDependency {
    fn same(&self, other: &Self) -> (b: bool) {
        self.package == other.package && self.version == other.version && self.dependency
            == other.dependency && self.required_version == other.required_version
    }

    fn duplicate(&self) -> (c: Self) {
        UnmetDependency {
            package: self.package.clone(),
            version: self.version.clone(),
            dependency: self.dependency.clone(),
            required_version: self.required_version.clone(),
        }
    }
}

/// The package manager's relations.
pub struct RelationalPackageManager {
    pub installed: Vec<Installed>,
    pub dependencies: Vec<Dependency>,
    pub explicitly_installed: Vec<String>,
}

/// Some installed package is named `name`.
pub open spec fn is_installed(installed: Seq<Installed>, name: Seq<char>) -> bool {
    exists|i: int| 0 <= i < installed.len() && #[trigger] installed[i].package@ == name
}

/// Dependency `j` belongs to an installed package.
pub open spec fn is_active(installed: Seq<Installed>, deps: Seq<Dependency>, j: int) -> bool {
    0 <= j < deps.len() && is_installed(installed, deps[j].package@)
}

/// An installed package needs `name` at version `version`.
pub open spec fn requires_version(
    installed: Seq<Installed>,
    deps: Seq<Dependency>,
    name: Seq<char>,
    version: Seq<char>,
) -> bool {
    exists|j: int|
        #[trigger] is_active(installed, deps, j) && deps[j].dependency@ == name && deps[j].required_version@
            == version
}

/// An installed package needs `name`.
pub open spec fn is_required(installed: Seq<Installed>, deps: Seq<Dependency>, name: Seq<char>) -> bool {
    exists|j: int| #[trigger] is_active(installed, deps, j) && deps[j].dependency@ == name
}

/// Installed entry `i` has dependency `j`, on a package not installed.
pub open spec fn unmet(installed: Seq<Installed>, deps: Seq<Dependency>, i: int, j: int) -> bool {
    &&& 0 <= i < installed.len()
    &&& 0 <= j < deps.len()
    &&& installed[i].package@ == deps[j].package@
    &&& !is_installed(installed, deps[j].dependency@)
}

/// The unmet dependency that entries `i` and `j` make.
pub open spec fn unmet_view(installed: Seq<Installed>, deps: Seq<Dependency>, i: int, j: int) -> (
    Seq<char>,
    Seq<char>,
    Seq<char>,
    Seq<char>,
) {
    (installed[i].package@, installed[i].version@, deps[j].dependency@, deps[j].required_version@)
}

impl RelationalPackageManager {
    /// A package manager with nothing installed.
    pub fn new() -> (pm: Self)
        ensures
            pm.installed@.len() == 0,
            pm.dependencies@.len() == 0,
            pm.explicitly_installed@.len() == 0,
    {
        RelationalPackageManager {
            installed: Vec::new(),
            dependencies: Vec::new(),
            explicitly_installed: Vec::new(),
        }
    }

    /// Whether a package of that name is installed.
    fn installed_name(&self, name: &String) -> (b: bool)
        ensures
            b == is_installed(self.installed@, name@),
    {
        let mut i: usize = 0;
        while i < self.installed.len()
            invariant
                i <= self.installed@.len(),
                forall|k: int| 0 <= k < i ==> self.installed@[k].package@ != name@,
            decreases self.installed@.len() - i,
        {
            if self.installed[i].package == *name {
                return true;
            }
            i = i + 1;
        }
        false
    }

    /// The `(dependency, required_version)` pairs of installed packages, each once.
    fn requirements(&self) -> (reqs: Vec<(String, String)>)
        ensures
            views(reqs@).no_duplicates(),
            forall|n: Seq<char>, v: Seq<char>|
                #[trigger] views(reqs@).contains((n, v)) <==> requires_version(
                    self.installed@,
                    self.dependencies@,
                    n,
                    v,
                ),
    {
        let ghost inst = self.installed@;
        let ghost deps = self.dependencies@;
        let mut reqs: Vec<(String, String)> = Vec::new();
        let mut j: usize = 0;
        while j < self.dependencies.len()
            invariant
                inst == self.installed@,
                deps == self.dependencies@,
                j <= deps.len(),
                views(reqs@).no_duplicates(),
                forall|n: Seq<char>, v: Seq<char>|
                    #[trigger] views(reqs@).contains((n, v)) <==> exists|k: int|
                        #![trigger deps[k]]
                        0 <= k < j && is_active(inst, deps, k) && deps[k].dependency@ == n
                            && deps[k].required_version@ == v,
            decreases deps.len() - j,
        {
            let d = &self.dependencies[j];
            let ghost before = views(reqs@);
            if self.installed_name(&d.package) {
                push_unique(&mut reqs, (d.dependency.clone(), d.required_version.clone()));
            }
            proof {
                assert forall|n: Seq<char>, v: Seq<char>|
                    #[trigger] views(reqs@).contains((n, v)) <==> exists|k: int|
                        #![trigger deps[k]]
                        0 <= k < j + 1 && is_active(inst, deps, k) && deps[k].dependency@ == n
                            && deps[k].required_version@ == v by {
                    if exists|k: int|
                        #![trigger deps[k]]
                        0 <= k < j + 1 && is_active(inst, deps, k) && deps[k].dependency@ == n
                            && deps[k].required_version@ == v {
                        let k = choose|k: int|
                            #![trigger deps[k]]
                            0 <= k < j + 1 && is_active(inst, deps, k) && deps[k].dependency@ == n
                                && deps[k].required_version@ == v;
                        if k < j {
                            assert(before.contains((n, v)));
                        }
                    }
                }
            }
            j = j + 1;
        }
        proof {
            assert forall|n: Seq<char>, v: Seq<char>|
                #[trigger] views(reqs@).contains((n, v)) <==> requires_version(inst, deps, n, v) by {
                if requires_version(inst, deps, n, v) {
                    let k = choose|k: int|
                        #[trigger] is_active(inst, deps, k) && deps[k].dependency@ == n
                            && deps[k].required_version@ == v;
                    assert(deps[k] == deps[k]);
                }
            }
        }
        reqs
    }

    /// The dependencies of installed packages on packages not installed,
    /// each once.
    pub fn find_unmet_dependencies(&self) -> (out: Vec<UnmetDependency>)
        ensures
            views(out@).no_duplicates(),
            forall|q: (Seq<char>, Seq<char>, Seq<char>, Seq<char>)|
                #[trigger] views(out@).contains(q) <==> exists|i: int, j: int|
                    unmet(self.installed@, self.dependencies@, i, j) && q == unmet_view(
                        self.installed@,
                        self.dependencies@,
                        i,
                        j,
                    ),
    {
        let ghost inst = self.installed@;
        let ghost deps = self.dependencies@;
        let mut out: Vec<UnmetDependency> = Vec::new();
        let mut i: usize = 0;
        while i < self.installed.len()
            invariant
                inst == self.installed@,
                deps == self.dependencies@,
                i <= inst.len(),
                views(out@).no_duplicates(),
                forall|q: (Seq<char>, Seq<char>, Seq<char>, Seq<char>)|
                    #[trigger] views(out@).contains(q) <==> exists|a: int, b: int|
                        a < i && unmet(inst, deps, a, b) && q == unmet_view(inst, deps, a, b),
            decreases inst.len() - i,
        {
            let mut j: usize = 0;
            while j < self.dependencies.len()
                invariant
                    inst == self.installed@,
                    deps == self.dependencies@,
                    i < inst.len(),
                    j <= deps.len(),
                    views(out@).no_duplicates(),
                    forall|q: (Seq<char>, Seq<char>, Seq<char>, Seq<char>)|
                        #[trigger] views(out@).contains(q) <==> exists|a: int, b: int|
                            (a < i || (a == i && b < j)) && unmet(inst, deps, a, b) && q == unmet_view(
                                inst,
                                deps,
                                a,
                                b,
                            ),
                decreases deps.len() - j,
            {
                let ghost before = views(out@);
                let p = &self.installed[i];
                let d = &self.dependencies[j];
                if p.package == d.package && !self.installed_name(&d.dependency) {
                    let u = UnmetDependency {
                        package: p.package.clone(),
                        version: p.version.clone(),
                        dependency: d.dependency.clone(),
                        required_version: d.required_version.clone(),
                    };
                    assert(u@ == unmet_view(inst, deps, i as int, j as int));
                    push_unique(&mut out, u);
                }
                proof {
                    assert forall|q: (Seq<char>, Seq<char>, Seq<char>, Seq<char>)|
                        #[trigger] views(out@).contains(q) <==> exists|a: int, b: int|
                            (a < i || (a == i && b < j + 1)) && unmet(inst, deps, a, b) && q
                                == unmet_view(inst, deps, a, b) by {
                        if exists|a: int, b: int|
                            (a < i || (a == i && b < j + 1)) && unmet(inst, deps, a, b) && q
                                == unmet_view(inst, deps, a, b) {
                            let (a, b) = choose|a: int, b: int|
                                (a < i || (a == i && b < j + 1)) && unmet(inst, deps, a, b) && q
                                    == unmet_view(inst, deps, a, b);
                            if !(a == i && b == j) {
                                assert(before.contains(q));
                            }
                        }
                    }
                }
                j = j + 1;
            }
            i = i + 1;
        }
        out
    }

    /// The installed packages that were not installed explicitly and that no
    /// installed package needs, each once.
    pub fn find_orphans(&self) -> (out: Vec<String>)
        ensures
            views(out@).no_duplicates(),
            forall|n: Seq<char>|
                #[trigger] views(out@).contains(n) <==> (is_installed(self.installed@, n)
                    && !views(self.explicitly_installed@).contains(n) && !is_required(
                    self.installed@,
                    self.dependencies@,
                    n,
                )),
    {
        let ghost inst = self.installed@;
        let ghost deps = self.dependencies@;
        let reqs = self.requirements();
        let mut out: Vec<String> = Vec::new();
        let mut i: usize = 0;
        while i < self.installed.len()
            invariant
                inst == self.installed@,
                deps == self.dependencies@,
                i <= inst.len(),
                views(out@).no_duplicates(),
                forall|n: Seq<char>, v: Seq<char>|
                    #[trigger] views(reqs@).contains((n, v)) <==> requires_version(inst, deps, n, v),
                forall|n: Seq<char>|
                    #[trigger] views(out@).contains(n) <==> ((exists|k: int|
                        0 <= k < i && #[trigger] inst[k].package@ == n) && !views(
                        self.explicitly_installed@,
                    ).contains(n) && !is_required(inst, deps, n)),
            decreases inst.len() - i,
        {
            let name = &self.installed[i].package;
            let ghost before = views(out@);
            let explicit = contains_key(&self.explicitly_installed, name);
            let mut needed = false;
            let mut r: usize = 0;
            while r < reqs.len()
                invariant
                    r <= reqs@.len(),
                    needed == exists|x: int| 0 <= x < r && #[trigger] reqs@[x].0@ == name@,
                decreases reqs@.len() - r,
            {
                if reqs[r].0 == *name {
                    needed = true;
                }
                r = r + 1;
            }
            proof {
                assert(needed == is_required(inst, deps, name@)) by {
                    if needed {
                        let x = choose|x: int| 0 <= x < reqs@.len() && #[trigger] reqs@[x].0@ == name@;
                        assert(views(reqs@)[x] == (name@, reqs@[x].1@));
                        assert(views(reqs@).contains((name@, reqs@[x].1@)));
                        let k = choose|k: int|
                            #[trigger] is_active(inst, deps, k) && deps[k].dependency@ == name@
                                && deps[k].required_version@ == reqs@[x].1@;
                        assert(is_active(inst, deps, k));
                    }
                    if is_required(inst, deps, name@) {
                        let k = choose|k: int| #[trigger] is_active(inst, deps, k) && deps[k].dependency@ == name@;
                        assert(requires_version(inst, deps, name@, deps[k].required_version@));
                        assert(views(reqs@).contains((name@, deps[k].required_version@)));
                        let x = choose|x: int| 0 <= x < views(reqs@).len() && views(reqs@)[x] == (name@, deps[k].required_version@);
                        assert(reqs@[x].0@ == name@);
                    }
                }
            }
            if !explicit && !needed {
                push_unique(&mut out, name.clone());
            }
            proof {
                assert forall|n: Seq<char>|
                    #[trigger] views(out@).contains(n) <==> ((exists|k: int|
                        0 <= k < i + 1 && #[trigger] inst[k].package@ == n) && !views(
                        self.explicitly_installed@,
                    ).contains(n) && !is_required(inst, deps, n)) by {
                    if exists|k: int| 0 <= k < i + 1 && #[trigger] inst[k].package@ == n {
                        let k = choose|k: int| 0 <= k < i + 1 && #[trigger] inst[k].package@ == n;
                        if k < i {
                            assert(exists|k2: int| 0 <= k2 < i && #[trigger] inst[k2].package@ == n);
                        }
                    }
                    if views(out@).contains(n) && n != name@ {
                        assert(before.contains(n));
                    }
                }
            }
            i = i + 1;
        }
        out
    }

    /// The packages that installed packages need at two different versions,
    /// each once.
    pub fn find_conflicts(&self) -> (out: Vec<String>)
        ensures
            views(out@).no_duplicates(),
            forall|n: Seq<char>|
                #[trigger] views(out@).contains(n) <==> exists|v1: Seq<char>, v2: Seq<char>|
                    v1 != v2 && requires_version(self.installed@, self.dependencies@, n, v1)
                        && requires_version(self.installed@, self.dependencies@, n, v2),
    {
        let ghost inst = self.installed@;
        let ghost deps = self.dependencies@;
        let reqs = self.requirements();
        let ghost rv = views(reqs@);
        let mut out: Vec<String> = Vec::new();
        let mut a: usize = 0;
        while a < reqs.len()
            invariant
                rv == views(reqs@),
                a <= reqs@.len(),
                views(out@).no_duplicates(),
                forall|x: int, y: int|
                    #![trigger rv[x], rv[y]]
                    0 <= x < a && 0 <= y < rv.len() && rv[x].0 == rv[y].0 && rv[x].1 != rv[y].1 ==> views(out@).contains(rv[x].0),
                forall|n: Seq<char>|
                    #[trigger] views(out@).contains(n) ==> exists|x: int, y: int|
                        #![trigger rv[x], rv[y]]
                        0 <= x < rv.len() && 0 <= y < rv.len() && rv[x].0 == n && rv[y].0 == n && rv[x].1 != rv[y].1,
            decreases reqs@.len() - a,
        {
            let mut b: usize = 0;
            while b < reqs.len()
                invariant
                    rv == views(reqs@),
                    a < reqs@.len(),
                    b <= reqs@.len(),
                    views(out@).no_duplicates(),
                    forall|x: int, y: int|
                        #![trigger rv[x], rv[y]]
                        ((0 <= x < a && 0 <= y < rv.len()) || (x == a && 0 <= y < b)) && rv[x].0 == rv[y].0 && rv[x].1 != rv[y].1 ==> views(out@).contains(rv[x].0),
                    forall|n: Seq<char>|
                        #[trigger] views(out@).contains(n) ==> exists|x: int, y: int|
                            #![trigger rv[x], rv[y]]
                            0 <= x < rv.len() && 0 <= y < rv.len() && rv[x].0 == n && rv[y].0 == n && rv[x].1 != rv[y].1,
                decreases reqs@.len() - b,
            {
                assert(rv[a as int] == (reqs@[a as int].0@, reqs@[a as int].1@));
                assert(rv[b as int] == (reqs@[b as int].0@, reqs@[b as int].1@));
                if reqs[a].0 == reqs[b].0 && reqs[a].1 != reqs[b].1 {
                    push_unique(&mut out, reqs[a].0.clone());
                }
                b = b + 1;
            }
            a = a + 1;
        }
        proof {
            assert forall|n: Seq<char>|
                #[trigger] views(out@).contains(n) <==> exists|v1: Seq<char>, v2: Seq<char>|
                    v1 != v2 && requires_version(inst, deps, n, v1) && requires_version(inst, deps, n, v2) by {
                if views(out@).contains(n) {
                    let (x, y) = choose|x: int, y: int|
                        #![trigger rv[x], rv[y]]
                        0 <= x < rv.len() && 0 <= y < rv.len() && rv[x].0 == n && rv[y].0 == n && rv[x].1 != rv[y].1;
                    assert(rv.contains(rv[x]) && rv.contains(rv[y]));
                    assert(rv.contains((n, rv[x].1)));
                    assert(rv.contains((n, rv[y].1)));
                }
                if exists|v1: Seq<char>, v2: Seq<char>|
                    v1 != v2 && requires_version(inst, deps, n, v1) && requires_version(inst, deps, n, v2) {
                    let (v1, v2) = choose|v1: Seq<char>, v2: Seq<char>|
                        v1 != v2 && requires_version(inst, deps, n, v1) && requires_version(inst, deps, n, v2);
                    assert(rv.contains((n, v1)));
                    assert(rv.contains((n, v2)));
                    let x = choose|x: int| 0 <= x < rv.len() && rv[x] == (n, v1);
                    let y = choose|y: int| 0 <= y < rv.len() && rv[y] == (n, v2);
                    assert(rv[x].0 == rv[y].0 && rv[x].1 != rv[y].1);
                }
            }
        }
        out
    }
}

impl Default for RelationalPackageManager {
    fn default() -> (pm: Self)
        ensures
            pm.installed@.len() == 0,
            pm.dependencies@.len() == 0,
            pm.explicitly_installed@.len() == 0,
    {
        Self::new()
    }
}

} // verus!
