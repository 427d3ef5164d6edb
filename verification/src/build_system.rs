//! Staleness of build targets: a target is stale when some file it depends
//! on, directly or through other targets, was modified after it.
use vstd::prelude::*;
use crate::graph::{contains_key, edge_views, reachable_from, reaches, reached_from, views};

verus! {

broadcast use vstd::seq_lib::group_seq_properties;

/// A file and the time it was last modified.
#[derive(Clone, Debug, PartialEq, Eq)]
pub struct FileStamp {
    pub file: String,
    pub modified_at: i64,
}

/// The files and the `(target, source)` dependencies between them.
pub struct BuildSystem {
    pub files: Vec<FileStamp>,
    /// `(target, source)` pairs.
    pub dependencies: Vec<(String, String)>,
}

/// Entry `i` names a target that depends, directly or not, on the file of
/// entry `j`, and was modified before it.
pub open spec fn older_than_dependency(
    deps: Seq<(Seq<char>, Seq<char>)>,
    files: Seq<FileStamp>,
    i: int,
    j: int,
) -> bool {
    &&& 0 <= i < files.len()
    &&& 0 <= j < files.len()
    &&& reaches(deps, files[i].file@, files[j].file@)
    &&& files[i].modified_at < files[j].modified_at
}

/// `target` is stale: one of its entries is older than a dependency.
pub open spec fn is_stale(
    deps: Seq<(Seq<char>, Seq<char>)>,
    files: Seq<FileStamp>,
    target: Seq<char>,
) -> bool {
    exists|i: int, j: int|
        #![trigger files[i], files[j]]
        files[i].file@ == target && older_than_dependency(deps, files, i, j)
}

impl BuildSystem {
    /// A build system over the given relations.
    pub fn new(files: Vec<FileStamp>, dependencies: Vec<(String, String)>) -> (b: Self)
        ensures
            b.files == files,
            b.dependencies == dependencies,
    {
        BuildSystem { files, dependencies }
    }

    /// Whether entry `i` is older than some file it depends on.
    #[verifier::rlimit(40)]
    fn entry_is_stale(&self, i: usize) -> (stale: bool)
        requires
            i < self.files@.len(),
        ensures
            stale == exists|j: int|
                #![trigger self.files@[j]]
                older_than_dependency(edge_views(self.dependencies@), self.files@, i as int, j),
    {
        let ghost es = edge_views(self.dependencies@);
        let start = self.files[i].file.clone();
        let mut starts: Vec<String> = Vec::new();
        starts.push(start);
        let below = reachable_from(&self.dependencies, &starts);
        proof {
            assert(views(starts@) == seq![self.files@[i as int].file@]);
            assert forall|b: Seq<char>| views(below@).contains(b) <==> reaches(
                es,
                self.files@[i as int].file@,
                b,
            ) by {
                if reaches(es, self.files@[i as int].file@, b) {
                    assert(views(starts@).contains(self.files@[i as int].file@));
                }
                if reached_from(es, views(starts@), b) {
                    let a = choose|a: Seq<char>| #[trigger] views(starts@).contains(a) && reaches(es, a, b);
                    assert(views(starts@)[0] == a);
                }
            }
        }
        let mut j: usize = 0;
        while j < self.files.len()
            invariant
                i < self.files@.len(),
                j <= self.files@.len(),
                es == edge_views(self.dependencies@),
                forall|b: Seq<char>| views(below@).contains(b) <==> reaches(
                    es,
                    self.files@[i as int].file@,
                    b,
                ),
                forall|k: int|
                    #![trigger self.files@[k]]
                    0 <= k < j ==> !older_than_dependency(es, self.files@, i as int, k),
            decreases self.files@.len() - j,
        {
            if self.files[i].modified_at < self.files[j].modified_at && contains_key(
                &below,
                &self.files[j].file,
            ) {
                assert(older_than_dependency(es, self.files@, i as int, j as int));
                return true;
            }
            j = j + 1;
        }
        false
    }

    /// The stale targets, each once.
    pub fn compute_stale_targets(&self) -> (stale: Vec<String>)
        ensures
            views(stale@).no_duplicates(),
            forall|t: Seq<char>|
                views(stale@).contains(t) <==> is_stale(
                    edge_views(self.dependencies@),
                    self.files@,
                    t,
                ),
    {
        let ghost es = edge_views(self.dependencies@);
        let mut stale: Vec<String> = Vec::new();
        let mut i: usize = 0;
        while i < self.files.len()
            invariant
                i <= self.files@.len(),
                es == edge_views(self.dependencies@),
                views(stale@).no_duplicates(),
                forall|t: Seq<char>|
                    views(stale@).contains(t) <==> exists|a: int, b: int|
                        #![trigger self.files@[a], self.files@[b]]
                        a < i && self.files@[a].file@ == t && older_than_dependency(
                            es,
                            self.files@,
                            a,
                            b,
                        ),
            decreases self.files@.len() - i,
        {
            let ghost before = views(stale@);
            let hit = self.entry_is_stale(i);
            if hit && !contains_key(&stale, &self.files[i].file) {
                let name = self.files[i].file.clone();
                stale.push(name);
                proof {
                    assert(views(stale@) == before.push(self.files@[i as int].file@));
                    assert forall|x: int, y: int|
                        0 <= x < y < views(stale@).len() implies views(stale@)[x] != views(
                            stale@,
                        )[y] by {
                        if y == views(stale@).len() - 1 {
                            assert(before.contains(before[x]));
                        } else {
                            assert(before[x] != before[y]);
                        }
                    }
                }
            }
            proof {
                assert forall|t: Seq<char>|
                    views(stale@).contains(t) <==> exists|a: int, b: int|
                        #![trigger self.files@[a], self.files@[b]]
                        a < i + 1 && self.files@[a].file@ == t && older_than_dependency(
                            es,
                            self.files@,
                            a,
                            b,
                        ) by {
                    if t == self.files@[i as int].file@ && hit {
                        let b = choose|b: int|
                            #![trigger self.files@[b]]
                            older_than_dependency(es, self.files@, i as int, b);
                        assert(self.files@[i as int] == self.files@[i as int]);
                        assert(self.files@[b] == self.files@[b]);
                    }
                    if exists|a: int, b: int|
                        #![trigger self.files@[a], self.files@[b]]
                        a < i + 1 && self.files@[a].file@ == t && older_than_dependency(
                            es,
                            self.files@,
                            a,
                            b,
                        ) {
                        let (a, b) = choose|a: int, b: int|
                            #![trigger self.files@[a], self.files@[b]]
                            a < i + 1 && self.files@[a].file@ == t && older_than_dependency(
                                es,
                                self.files@,
                                a,
                                b,
                            );
                        if a == i {
                            assert(hit);
                        } else {
                            assert(before.contains(t));
                        }
                    }
                }
            }
            i = i + 1;
        }
        proof {
            assert forall|t: Seq<char>|
                views(stale@).contains(t) <==> is_stale(es, self.files@, t) by {
                if is_stale(es, self.files@, t) {
                    let (a, b) = choose|a: int, b: int|
                        #![trigger self.files@[a], self.files@[b]]
                        self.files@[a].file@ == t && older_than_dependency(es, self.files@, a, b);
                    assert(a < i);
                }
            }
        }
        stale
    }
}

} // verus!
