//! Migrations: versioned snapshots.
//!
//! A [`Migrator`] records, for one type, the type paths it was known under
//! and one step per version. Upgrading a value saved at some version runs
//! the steps of that version and of every later one, in ascending version
//! order: the first step reads the saved value, each later one transforms
//! the result of the previous step.

pub mod backcompat;

use vstd::prelude::*;

use crate::version::{
    Precedence,
    SemVer,
    semver_order,
};

pub use self::backcompat::{
    SnapshotVersion,
    VersionError,
};

verus! {

/// Defines a migration upgrade flow for a type: the type paths it was known
/// under, and a step `S` for each version.
pub struct Migrator<S> {
    type_paths: Vec<String>,
    versions: Vec<SemVer>,
    steps: Vec<S>,
}

/// Finds the index of a text among strings.
fn position_of_text(texts: &Vec<String>, text: &str) -> (r: Option<usize>)
    ensures
        match r {
            Some(i) => i < texts@.len() && texts@[i as int]@ == text@,
            None => forall|i: int| 0 <= i < texts@.len() ==> texts@[i]@ != text@,
        },
{
    let probe = text.to_owned();
    let mut i: usize = 0;
    while i < texts.len()
        invariant
            i <= texts@.len(),
            probe@ == text@,
            forall|j: int| 0 <= j < i ==> texts@[j]@ != text@,
        decreases texts@.len() - i,
    {
        if texts[i] == probe {
            return Some(i);
        }
        i = i + 1;
    }
    None
}

/// Finds the position of a version among versions.
fn position_of_version(versions: &Vec<SemVer>, version: &SemVer) -> (r: Option<usize>)
    ensures
        match r {
            Some(i) => i < versions@.len() && versions@[i as int]@ == version@,
            None => forall|i: int| 0 <= i < versions@.len() ==> versions@[i]@ != version@,
        },
{
    let mut i: usize = 0;
    while i < versions.len()
        invariant
            i <= versions@.len(),
            forall|j: int| 0 <= j < i ==> versions@[j]@ != version@,
        decreases versions@.len() - i,
    {
        if versions[i].compare(version) == Precedence::Equal {
            return Some(i);
        }
        i = i + 1;
    }
    None
}

impl<S> Migrator<S> {
    #[verifier::type_invariant]
    spec fn wf(&self) -> bool {
        &&& self.versions@.len() == self.steps@.len()
        &&& forall|i: int, j: int|
            0 <= i < self.versions@.len() && 0 <= j < self.versions@.len() && i != j
                ==> self.versions@[i]@ != self.versions@[j]@
    }

    /// The type paths the migrated type was known under.
    pub closed spec fn type_paths(&self) -> Seq<Seq<char>> {
        self.type_paths@.map_values(|p: String| p@)
    }

    /// The versions that have a step, in the order they were first added.
    pub closed spec fn versions(&self) -> Seq<(u64, u64, u64, Seq<char>, Seq<char>)> {
        self.versions@.map_values(|v: SemVer| v@)
    }

    /// The steps, at the same positions as their versions.
    pub closed spec fn steps(&self) -> Seq<S> {
        self.steps@
    }

    /// No version has two steps.
    pub open spec fn versions_distinct(&self) -> bool {
        &&& self.versions().len() == self.steps().len()
        &&& forall|i: int, j: int|
            0 <= i < self.versions().len() && 0 <= j < self.versions().len() && i != j
                ==> self.versions()[i] != self.versions()[j]
    }

    /// A migrator with a single step: `step` for `version` of the type known
    /// under `type_path`.
    pub fn new(version: SemVer, type_path: String, step: S) -> (r: Migrator<S>)
        ensures
            r.type_paths() == seq![type_path@],
            r.versions() == seq![version@],
            r.steps() == seq![step],
            r.versions_distinct(),
    {
        let mut type_paths: Vec<String> = Vec::new();
        type_paths.push(type_path);
        let mut versions: Vec<SemVer> = Vec::new();
        versions.push(version);
        let mut steps: Vec<S> = Vec::new();
        steps.push(step);
        let r = Migrator { type_paths, versions, steps };
        assert(r.type_paths() =~= seq![type_path@]);
        assert(r.versions() =~= seq![version@]);
        r
    }

    /// Defines a migration step for `version` of the type known under
    /// `type_path`.
    ///
    /// The type path is recorded unless it already is; a step already
    /// defined for the same version is replaced, else the step is added.
    pub fn version(self, version: SemVer, type_path: String, step: S) -> (r: Migrator<S>)
        ensures
            r.type_paths() == (if self.type_paths().contains(type_path@) {
                self.type_paths()
            } else {
                self.type_paths().push(type_path@)
            }),
            match self.versions().index_of_first(version@) {
                Some(i) => r.versions() == self.versions() && r.steps() == self.steps().update(
                    i,
                    step,
                ),
                None => r.versions() == self.versions().push(version@) && r.steps()
                    == self.steps().push(step),
            },
            r.versions_distinct(),
    {
        proof {
            use_type_invariant(&self);
        }
        let Migrator { mut type_paths, mut versions, mut steps } = self;
        let ghost old_paths = type_paths@;
        let ghost old_versions = versions@;
        let ghost old_steps = steps@;
        match position_of_text(&type_paths, type_path.as_str()) {
            Some(_) => {
                proof {
                    let k = choose|k: int| 0 <= k < old_paths.len() && old_paths[k]@ == type_path@;
                    assert(old_paths.map_values(|p: String| p@)[k] == type_path@);
                }
            },
            None => {
                type_paths.push(type_path);
                proof {
                    assert(!old_paths.map_values(|p: String| p@).contains(type_path@));
                    assert(type_paths@.map_values(|p: String| p@) =~= old_paths.map_values(
                        |p: String| p@,
                    ).push(type_path@));
                }
            },
        }
        let ghost views = old_versions.map_values(|v: SemVer| v@);
        proof {
            assert forall|j: int| 0 <= j < views.len() implies views[j] == old_versions[j]@ by {}
        }
        match position_of_version(&versions, &version) {
            Some(k) => {
                steps.set(k, step);
                proof {
                    assert(views[k as int] == version@);
                    views.index_of_first_ensures(version@);
                    let f = views.index_of_first(version@);
                    assert(f is Some);
                    let fi = f->0;
                    assert(views[fi] == version@);
                    if fi != k {
                        assert(old_versions[fi]@ == old_versions[k as int]@);
                    }
                }
            },
            None => {
                proof {
                    assert(!views.contains(version@));
                    views.index_of_first_ensures(version@);
                    assert(versions@.push(version).map_values(|v: SemVer| v@) =~= views.push(
                        version@,
                    ));
                }
                versions.push(version);
                steps.push(step);
                proof {
                    assert forall|a: int, b: int|
                        0 <= a < versions@.len() && 0 <= b < versions@.len() && a != b
                            implies versions@[a]@ != versions@[b]@ by {
                        if a == old_versions.len() {
                            assert(versions@[b] == old_versions[b]);
                        } else if b == old_versions.len() {
                            assert(versions@[a] == old_versions[a]);
                        }
                    }
                }
            },
        }
        let r = Migrator { type_paths, versions, steps };
        proof {
            assert(r.steps() == steps@);
        }
        r
    }

    /// Returns `true` if the migrator can migrate a value saved under the
    /// given type path.
    pub fn matches(&self, type_path: &str) -> (r: bool)
        ensures
            r == self.type_paths().contains(type_path@),
    {
        match position_of_text(&self.type_paths, type_path) {
            Some(i) => {
                assert(self.type_paths()[i as int] == type_path@);
                true
            },
            None => {
                assert(forall|j: int|
                    0 <= j < self.type_paths().len() ==> self.type_paths()[j] != type_path@);
                false
            },
        }
    }

    /// Returns the step stored for exactly the given version.
    pub fn registration(&self, version: &SemVer) -> (r: Option<&S>)
        ensures
            match r {
                Some(s) => exists|i: int|
                    0 <= i < self.versions().len() && self.versions()[i] == version@
                        && self.steps()[i] == *s,
                None => !self.versions().contains(version@),
            },
    {
        proof {
            use_type_invariant(self);
        }
        match position_of_version(&self.versions, version) {
            Some(i) => {
                assert(self.versions()[i as int] == version@);
                Some(&self.steps[i])
            },
            None => {
                assert forall|j: int| 0 <= j < self.versions().len() implies self.versions()[j]
                    != version@ by {
                    assert(self.versions()[j] == self.versions@[j]@);
                }
                None
            },
        }
    }

    /// Returns the latest version that has a step.
    pub fn latest_version(&self) -> (r: Option<&SemVer>)
        ensures
            r is None <==> self.versions().len() == 0,
            r matches Some(v) ==> self.versions().contains(v@) && forall|i: int|
                0 <= i < self.versions().len() && self.versions()[i] != v@ ==> semver_order(
                    self.versions()[i],
                    v@,
                ) == Precedence::Less,
    {
        proof {
            use_type_invariant(self);
        }
        let n = self.versions.len();
        if n == 0 {
            return None;
        }
        let mut best: usize = 0;
        let mut i: usize = 1;
        while i < n
            invariant
                n == self.versions@.len(),
                1 <= i <= n,
                best < i,
                forall|a: int, b: int|
                    0 <= a < n && 0 <= b < n && a != b ==> self.versions@[a]@
                        != self.versions@[b]@,
                forall|j: int|
                    0 <= j < i && j != best ==> semver_order(
                        self.versions@[j]@,
                        self.versions@[best as int]@,
                    ) == Precedence::Less,
            decreases n - i,
        {
            let p = self.versions[best].compare(&self.versions[i]);
            if p == Precedence::Less {
                proof {
                    assert forall|j: int| 0 <= j < i + 1 && j != i implies semver_order(
                        self.versions@[j]@,
                        self.versions@[i as int]@,
                    ) == Precedence::Less by {
                        if j != best {
                            assert(semver_order(self.versions@[j]@, self.versions@[best as int]@)
                                == Precedence::Less);
                        }
                    }
                }
                best = i;
            } else {
                assert(p == Precedence::Greater);
            }
            i = i + 1;
        }
        proof {
            assert(self.versions()[best as int] == self.versions@[best as int]@);
        }
        Some(&self.versions[best])
    }

    /// The positions of the steps that upgrade a value saved at `from`: every
    /// step whose version is at or after `from`, in ascending version order.
    pub fn migration_plan(&self, from: &SemVer) -> (r: Vec<usize>)
        ensures
            forall|k: int|
                0 <= k < r@.len() ==> r@[k] < self.versions().len() && semver_order(
                    self.versions()[r@[k] as int],
                    from@,
                ) != Precedence::Less,
            forall|i: int|
                0 <= i < self.versions().len() && semver_order(self.versions()[i], from@)
                    != Precedence::Less ==> r@.contains(i as usize),
            forall|a: int, b: int|
                0 <= a < b < r@.len() ==> semver_order(
                    self.versions()[r@[a] as int],
                    self.versions()[r@[b] as int],
                ) == Precedence::Less,
            forall|a: int, b: int| 0 <= a < b < r@.len() ==> r@[a] != r@[b],
    {
        proof {
            use_type_invariant(self);
        }
        let n = self.versions.len();
        let ghost vs = self.versions();
        let mut plan: Vec<usize> = Vec::new();
        let mut i: usize = 0;
        while i < n
            invariant
                n == vs.len(),
                vs == self.versions(),
                i <= n,
                forall|a: int, b: int| 0 <= a < n && 0 <= b < n && a != b ==> vs[a] != vs[b],
                forall|k: int|
                    0 <= k < plan@.len() ==> plan@[k] < i && semver_order(
                        vs[plan@[k] as int],
                        from@,
                    ) != Precedence::Less,
                forall|j: int|
                    0 <= j < i && semver_order(vs[j], from@) != Precedence::Less
                        ==> plan@.contains(j as usize),
                forall|a: int, b: int|
                    0 <= a < b < plan@.len() ==> semver_order(
                        vs[plan@[a] as int],
                        vs[plan@[b] as int],
                    ) == Precedence::Less,
                forall|a: int, b: int| 0 <= a < b < plan@.len() ==> plan@[a] != plan@[b],
            decreases n - i,
        {
            assert(vs[i as int] == self.versions@[i as int]@);
            if self.versions[i].at_least(from) {
                let mut k: usize = plan.len();
                while k > 0
                    invariant
                        n == vs.len(),
                        vs == self.versions(),
                        i < n,
                        k <= plan@.len(),
                        forall|a: int, b: int|
                            0 <= a < n && 0 <= b < n && a != b ==> vs[a] != vs[b],
                        forall|q: int| 0 <= q < plan@.len() ==> plan@[q] < i,
                        forall|a: int, b: int|
                            0 <= a < b < plan@.len() ==> semver_order(
                                vs[plan@[a] as int],
                                vs[plan@[b] as int],
                            ) == Precedence::Less,
                        forall|q: int|
                            k <= q < plan@.len() ==> semver_order(
                                vs[i as int],
                                vs[plan@[q] as int],
                            ) == Precedence::Less,
                    ensures
                        k <= plan@.len(),
                        forall|q: int|
                            k <= q < plan@.len() ==> semver_order(
                                vs[i as int],
                                vs[plan@[q] as int],
                            ) == Precedence::Less,
                        forall|q: int|
                            0 <= q < k ==> semver_order(vs[plan@[q] as int], vs[i as int])
                                == Precedence::Less,
                    decreases k,
                {
                    let idx = plan[k - 1];
                    assert(vs[idx as int] == self.versions@[idx as int]@);
                    let p = self.versions[idx].compare(&self.versions[i]);
                    if p == Precedence::Greater {
                        k = k - 1;
                    } else {
                        proof {
                            assert(idx != i);
                            assert(p == Precedence::Less);
                            assert forall|q: int| 0 <= q < k implies semver_order(
                                vs[plan@[q] as int],
                                vs[i as int],
                            ) == Precedence::Less by {
                                if q < k - 1 {
                                    assert(semver_order(vs[plan@[q] as int], vs[idx as int])
                                        == Precedence::Less);
                                }
                            }
                        }
                        break;
                    }
                }
                let ghost before = plan@;
                plan.insert(k, i);
                proof {
                    assert(plan@ == before.insert(k as int, i));
                    assert forall|a: int, b: int| 0 <= a < b < plan@.len() implies semver_order(
                        vs[plan@[a] as int],
                        vs[plan@[b] as int],
                    ) == Precedence::Less by {
                        if b < k {
                        } else if b == k {
                        } else if a < k {
                            assert(semver_order(vs[before[a] as int], vs[i as int])
                                == Precedence::Less);
                            assert(semver_order(vs[i as int], vs[before[b - 1] as int])
                                == Precedence::Less);
                        } else if a == k {
                        } else {
                        }
                    }
                    assert forall|j: int|
                        0 <= j < i + 1 && semver_order(vs[j], from@) != Precedence::Less
                            implies plan@.contains(j as usize) by {
                        if j < i {
                            let q = choose|q: int| 0 <= q < before.len() && before[q] == j as usize;
                            if q < k {
                                assert(plan@[q] == j as usize);
                            } else {
                                assert(plan@[q + 1] == j as usize);
                            }
                        } else {
                            assert(plan@[k as int] == i);
                        }
                    }
                }
            }
            i = i + 1;
        }
        plan
    }

    /// The step at a position given by [`Migrator::migration_plan`], with
    /// its version.
    pub fn step_at(&self, index: usize) -> (r: (&SemVer, &S))
        requires
            index < self.versions().len(),
        ensures
            r.0@ == self.versions()[index as int],
            r.1 == self.steps()[index as int],
    {
        proof {
            use_type_invariant(self);
        }
        (&self.versions[index], &self.steps[index])
    }
}

} // verus!
