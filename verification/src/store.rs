//! The in-memory store: a two-level mapping from project names to sample
//! names to paths, all byte strings.
//!
//! The store is represented as an association vector of projects, each
//! holding an association vector of `(sample, path)` pairs.  Its
//! mathematical view is the nested map obtained by inserting every pair;
//! well-formedness says the keys are unique on each level, so the vector
//! and the map agree entry for entry.

use vstd::prelude::*;
use crate::bytes::bytes_eq;
use crate::db_key;
use crate::db_key_vec;

verus! {

/// One project: its name and its `(sample, path)` pairs.
pub struct ProjectEntry {
    pub name: Vec<u8>,
    pub samples: Vec<(Vec<u8>, Vec<u8>)>,
}

/// The full two-level mapping.
pub struct Store {
    pub projects: Vec<ProjectEntry>,
}

/// The map described by an association list of `(sample, path)` pairs.
pub open spec fn samples_map(s: Seq<(Vec<u8>, Vec<u8>)>) -> Map<Seq<u8>, Seq<u8>>
    decreases s.len(),
{
    if s.len() == 0 {
        Map::empty()
    } else {
        samples_map(s.drop_last()).insert(s.last().0@, s.last().1@)
    }
}

/// The nested map described by an association list of projects.
pub open spec fn projects_map(s: Seq<ProjectEntry>) -> Map<Seq<u8>, Map<Seq<u8>, Seq<u8>>>
    decreases s.len(),
{
    if s.len() == 0 {
        Map::empty()
    } else {
        projects_map(s.drop_last()).insert(s.last().name@, samples_map(s.last().samples@))
    }
}

/// Sample names are unique within one project's pairs.
pub open spec fn uniq_samples(s: Seq<(Vec<u8>, Vec<u8>)>) -> bool {
    forall|i: int, j: int| 0 <= i < j < s.len() ==> s[i].0@ != s[j].0@
}

/// Project names are unique and every project's sample names are unique.
pub open spec fn wf_projects(s: Seq<ProjectEntry>) -> bool {
    &&& forall|i: int, j: int| 0 <= i < j < s.len() ==> s[i].name@ != s[j].name@
    &&& forall|i: int| 0 <= i < s.len() ==> uniq_samples(#[trigger] s[i].samples@)
}

impl View for Store {
    type V = Map<Seq<u8>, Map<Seq<u8>, Seq<u8>>>;

    open spec fn view(&self) -> Map<Seq<u8>, Map<Seq<u8>, Seq<u8>>> {
        projects_map(self.projects@)
    }
}

impl Store {
    /// The representation invariant: unique keys on both levels.
    pub open spec fn wf(&self) -> bool {
        wf_projects(self.projects@)
    }

    /// An empty store.
    pub fn new() -> (r: Store)
        ensures
            r.wf(),
            r@ == Map::<Seq<u8>, Map<Seq<u8>, Seq<u8>>>::empty(),
    {
        Store { projects: Vec::new() }
    }
}

/// A key is in the sample map exactly when some pair carries it.
pub proof fn lemma_samples_contains(s: Seq<(Vec<u8>, Vec<u8>)>, k: Seq<u8>)
    ensures
        samples_map(s).contains_key(k) <==> exists|i: int| 0 <= i < s.len() && s[i].0@ == k,
    decreases s.len(),
{
    if s.len() > 0 {
        lemma_samples_contains(s.drop_last(), k);
        if s.last().0@ == k {
            assert(s[s.len() - 1].0@ == k);
        } else if samples_map(s.drop_last()).contains_key(k) {
            let i = choose|i: int| 0 <= i < s.drop_last().len() && s.drop_last()[i].0@ == k;
            assert(s[i].0@ == k);
        } else if exists|i: int| 0 <= i < s.len() && s[i].0@ == k {
            let i = choose|i: int| 0 <= i < s.len() && s[i].0@ == k;
            assert(s.drop_last()[i].0@ == k);
        }
    }
}

/// With unique sample names, the map's value at a pair's key is that pair's path.
pub proof fn lemma_samples_value(s: Seq<(Vec<u8>, Vec<u8>)>, i: int)
    requires
        uniq_samples(s),
        0 <= i < s.len(),
    ensures
        samples_map(s).contains_key(s[i].0@),
        samples_map(s)[s[i].0@] == s[i].1@,
    decreases s.len(),
{
    if i == s.len() - 1 {
    } else {
        assert(uniq_samples(s.drop_last()));
        assert(s.drop_last()[i] == s[i]);
        lemma_samples_value(s.drop_last(), i);
        assert(s[i].0@ != s.last().0@);
    }
}

/// A name is in the project map exactly when some project carries it.
pub proof fn lemma_projects_contains(s: Seq<ProjectEntry>, k: Seq<u8>)
    ensures
        projects_map(s).contains_key(k) <==> exists|i: int| 0 <= i < s.len() && s[i].name@ == k,
    decreases s.len(),
{
    if s.len() > 0 {
        lemma_projects_contains(s.drop_last(), k);
        if s.last().name@ == k {
            assert(s[s.len() - 1].name@ == k);
        } else if projects_map(s.drop_last()).contains_key(k) {
            let i = choose|i: int| 0 <= i < s.drop_last().len() && s.drop_last()[i].name@ == k;
            assert(s[i].name@ == k);
        } else if exists|i: int| 0 <= i < s.len() && s[i].name@ == k {
            let i = choose|i: int| 0 <= i < s.len() && s[i].name@ == k;
            assert(s.drop_last()[i].name@ == k);
        }
    }
}

/// With unique project names, the map's value at a project's name is that
/// project's sample map.
pub proof fn lemma_projects_value(s: Seq<ProjectEntry>, i: int)
    requires
        forall|a: int, b: int| 0 <= a < b < s.len() ==> s[a].name@ != s[b].name@,
        0 <= i < s.len(),
    ensures
        projects_map(s).contains_key(s[i].name@),
        projects_map(s)[s[i].name@] == samples_map(s[i].samples@),
    decreases s.len(),
{
    if i == s.len() - 1 {
    } else {
        assert(s.drop_last()[i] == s[i]);
        lemma_projects_value(s.drop_last(), i);
        assert(s[i].name@ != s.last().name@);
    }
}

/// Finds the index of a key in an association list of `(sample, path)` pairs.
pub fn find_sample(s: &Vec<(Vec<u8>, Vec<u8>)>, k: &Vec<u8>) -> (r: Option<usize>)
    ensures
        match r {
            Some(i) => i < s@.len() && s@[i as int].0@ == k@,
            None => forall|i: int| 0 <= i < s@.len() ==> s@[i].0@ != k@,
        },
{
    let mut i: usize = 0;
    while i < s.len()
        invariant
            i <= s@.len(),
            forall|j: int| 0 <= j < i ==> s@[j].0@ != k@,
        decreases s@.len() - i,
    {
        if bytes_eq(&s[i].0, k) {
            return Some(i);
        }
        i += 1;
    }
    None
}

/// Finds the index of a project by name.
pub fn find_project(s: &Vec<ProjectEntry>, k: &Vec<u8>) -> (r: Option<usize>)
    ensures
        match r {
            Some(i) => i < s@.len() && s@[i as int].name@ == k@,
            None => forall|i: int| 0 <= i < s@.len() ==> s@[i].name@ != k@,
        },
{
    let mut i: usize = 0;
    while i < s.len()
        invariant
            i <= s@.len(),
            forall|j: int| 0 <= j < i ==> s@[j].name@ != k@,
        decreases s@.len() - i,
    {
        if bytes_eq(&s[i].name, k) {
            return Some(i);
        }
        i += 1;
    }
    None
}

/// The three possible answers of a two-level lookup.
pub enum Lookup {
    /// Both keys present; carries the stored path.
    Found(Vec<u8>),
    /// The project is not in the store.
    NoProject,
    /// The project exists but has no such sample.
    NoSample,
}

impl Store {
    /// Looks up `project` / `sample`, distinguishing which level failed.
    pub fn lookup(&self, project: &Vec<u8>, sample: &Vec<u8>) -> (r: Lookup)
        requires
            self.wf(),
        ensures
            match r {
                Lookup::Found(v) => self@.contains_key(project@)
                    && self@[project@].contains_key(sample@)
                    && v@ == self@[project@][sample@],
                Lookup::NoProject => !self@.contains_key(project@),
                Lookup::NoSample => self@.contains_key(project@)
                    && !self@[project@].contains_key(sample@),
            },
    {
        match find_project(&self.projects, project) {
            None => {
                proof {
                    lemma_projects_contains(self.projects@, project@);
                }
                Lookup::NoProject
            },
            Some(i) => {
                proof {
                    lemma_projects_value(self.projects@, i as int);
                }
                match find_sample(&self.projects[i].samples, sample) {
                    None => {
                        proof {
                            lemma_samples_contains(self.projects@[i as int].samples@, sample@);
                        }
                        Lookup::NoSample
                    },
                    Some(j) => {
                        proof {
                            lemma_samples_value(self.projects@[i as int].samples@, j as int);
                        }
                        let v = clone_bytes(&self.projects[i].samples[j].1);
                        Lookup::Found(v)
                    },
                }
            },
        }
    }
}

/// Replacing a pair's path replaces that key's value in the map.
proof fn lemma_samples_update(s: Seq<(Vec<u8>, Vec<u8>)>, i: int, x: (Vec<u8>, Vec<u8>))
    requires
        uniq_samples(s),
        0 <= i < s.len(),
        x.0@ == s[i].0@,
    ensures
        samples_map(s.update(i, x)) =~= samples_map(s).insert(x.0@, x.1@),
    decreases s.len(),
{
    let t = s.update(i, x);
    if i == s.len() - 1 {
        assert(t.drop_last() =~= s.drop_last());
        assert(t.last() == x);
    } else {
        assert(t.drop_last() =~= s.drop_last().update(i, x));
        assert(uniq_samples(s.drop_last()));
        assert(s.drop_last()[i] == s[i]);
        lemma_samples_update(s.drop_last(), i, x);
        assert(t.last() == s.last());
        assert(x.0@ != s.last().0@);
    }
}

/// Appending a fresh pair inserts that key into the map.
pub proof fn lemma_samples_push(s: Seq<(Vec<u8>, Vec<u8>)>, x: (Vec<u8>, Vec<u8>))
    ensures
        samples_map(s.push(x)) =~= samples_map(s).insert(x.0@, x.1@),
{
    assert(s.push(x).drop_last() =~= s);
    assert(s.push(x).last() == x);
}

/// Removing a pair removes that key from the map.
proof fn lemma_samples_remove(s: Seq<(Vec<u8>, Vec<u8>)>, i: int)
    requires
        uniq_samples(s),
        0 <= i < s.len(),
    ensures
        samples_map(s.remove(i)) =~= samples_map(s).remove(s[i].0@),
    decreases s.len(),
{
    let k = s[i].0@;
    if i == s.len() - 1 {
        assert(s.remove(i) =~= s.drop_last());
        lemma_samples_contains(s.drop_last(), k);
        assert(forall|j: int| 0 <= j < s.drop_last().len() ==> s.drop_last()[j] == s[j]);
        assert(!samples_map(s.drop_last()).contains_key(k));
        assert(samples_map(s.drop_last()) =~= samples_map(s.drop_last()).insert(k, s[i].1@).remove(k));
    } else {
        let t = s.remove(i);
        assert(t.drop_last() =~= s.drop_last().remove(i));
        assert(t.last() == s.last());
        assert(uniq_samples(s.drop_last()));
        assert(s.drop_last()[i] == s[i]);
        lemma_samples_remove(s.drop_last(), i);
        assert(k != s.last().0@);
    }
}

/// Replacing one project's entry replaces its name's value in the map.
proof fn lemma_projects_update(s: Seq<ProjectEntry>, i: int, x: ProjectEntry)
    requires
        forall|a: int, b: int| 0 <= a < b < s.len() ==> s[a].name@ != s[b].name@,
        0 <= i < s.len(),
        x.name@ == s[i].name@,
    ensures
        projects_map(s.update(i, x)) =~= projects_map(s).insert(x.name@, samples_map(x.samples@)),
    decreases s.len(),
{
    let t = s.update(i, x);
    if i == s.len() - 1 {
        assert(t.drop_last() =~= s.drop_last());
        assert(t.last() == x);
    } else {
        assert(t.drop_last() =~= s.drop_last().update(i, x));
        assert(s.drop_last()[i] == s[i]);
        lemma_projects_update(s.drop_last(), i, x);
        assert(t.last() == s.last());
        assert(x.name@ != s.last().name@);
    }
}

/// Appending a fresh project inserts its name into the map.
pub proof fn lemma_projects_push(s: Seq<ProjectEntry>, x: ProjectEntry)
    ensures
        projects_map(s.push(x)) =~= projects_map(s).insert(x.name@, samples_map(x.samples@)),
{
    assert(s.push(x).drop_last() =~= s);
    assert(s.push(x).last() == x);
}

/// Removing a project removes its name from the map.
proof fn lemma_projects_remove(s: Seq<ProjectEntry>, i: int)
    requires
        forall|a: int, b: int| 0 <= a < b < s.len() ==> s[a].name@ != s[b].name@,
        0 <= i < s.len(),
    ensures
        projects_map(s.remove(i)) =~= projects_map(s).remove(s[i].name@),
    decreases s.len(),
{
    let k = s[i].name@;
    if i == s.len() - 1 {
        assert(s.remove(i) =~= s.drop_last());
        lemma_projects_contains(s.drop_last(), k);
        assert(forall|j: int| 0 <= j < s.drop_last().len() ==> s.drop_last()[j] == s[j]);
        assert(!projects_map(s.drop_last()).contains_key(k));
        assert(projects_map(s.drop_last()) =~= projects_map(s.drop_last()).insert(
            k,
            samples_map(s[i].samples@),
        ).remove(k));
    } else {
        let t = s.remove(i);
        assert(t.drop_last() =~= s.drop_last().remove(i));
        assert(t.last() == s.last());
        assert(s.drop_last()[i] == s[i]);
        lemma_projects_remove(s.drop_last(), i);
        assert(k != s.last().name@);
    }
}

/// The inner map stored for `project`, or the empty map when the project is
/// absent.  `set` inserts into this map.
pub open spec fn inner_or_empty(
    m: Map<Seq<u8>, Map<Seq<u8>, Seq<u8>>>,
    project: Seq<u8>,
) -> Map<Seq<u8>, Seq<u8>> {
    if m.contains_key(project) {
        m[project]
    } else {
        Map::empty()
    }
}

impl Store {
    /// Inserts (or overwrites) `path` under `sample` within `project`,
    /// creating the project if it does not yet exist.
    pub fn set(&mut self, project: Vec<u8>, sample: Vec<u8>, path: Vec<u8>)
        requires
            old(self).wf(),
        ensures
            final(self).wf(),
            final(self)@ == old(self)@.insert(
                project@,
                inner_or_empty(old(self)@, project@).insert(sample@, path@),
            ),
    {
        match find_project(&self.projects, &project) {
            None => {
                proof {
                    lemma_projects_contains(self.projects@, project@);
                }
                let mut samples: Vec<(Vec<u8>, Vec<u8>)> = Vec::new();
                samples.push((sample, path));
                let ghost pre = self.projects@;
                let entry = ProjectEntry { name: project, samples };
                proof {
                    lemma_projects_push(pre, entry);
                    assert(samples_map(entry.samples@.drop_last()) =~= Map::<Seq<u8>, Seq<u8>>::empty());
                }
                self.projects.push(entry);
                proof {
                    assert(final(self)@ =~= old(self)@.insert(
                        project@,
                        inner_or_empty(old(self)@, project@).insert(sample@, path@),
                    ));
                    assert(forall|j: int| 0 <= j < pre.len() ==> final(self).projects@[j] == pre[j]);
                }
            },
            Some(i) => {
                proof {
                    lemma_projects_value(self.projects@, i as int);
                }
                let ghost pre = self.projects@;
                let entry = &mut self.projects[i];
                let ghost pre_entry = *entry;
                match find_sample(&entry.samples, &sample) {
                    None => {
                        proof {
                            lemma_samples_contains(pre_entry.samples@, sample@);
                            lemma_samples_push(pre_entry.samples@, (sample, path));
                        }
                        entry.samples.push((sample, path));
                    },
                    Some(j) => {
                        let new_key = clone_bytes(&entry.samples[j].0);
                        entry.samples[j] = (new_key, path);
                        proof {
                            let x = entry.samples@[j as int];
                            assert(entry.samples@ == pre_entry.samples@.update(j as int, x));
                            lemma_samples_update(pre_entry.samples@, j as int, x);
                        }
                    },
                }
                proof {
                    assert(final(entry).name@ == pre[i as int].name@);
                    assert(samples_map(final(entry).samples@) =~= samples_map(
                        pre_entry.samples@,
                    ).insert(sample@, path@));
                    lemma_projects_update(pre, i as int, *final(entry));
                    assert(uniq_samples(final(entry).samples@));
                    assert(final(self)@ =~= old(self)@.insert(
                        project@,
                        inner_or_empty(old(self)@, project@).insert(sample@, path@),
                    ));
                }
            },
        }
    }

    /// Removes `project` entirely.  Returns whether it was present.
    pub fn delete_project(&mut self, project: &Vec<u8>) -> (removed: bool)
        requires
            old(self).wf(),
        ensures
            final(self).wf(),
            removed == old(self)@.contains_key(project@),
            final(self)@ == old(self)@.remove(project@),
    {
        match find_project(&self.projects, project) {
            None => {
                proof {
                    lemma_projects_contains(self.projects@, project@);
                    assert(final(self)@ =~= old(self)@.remove(project@));
                }
                false
            },
            Some(i) => {
                proof {
                    lemma_projects_contains(self.projects@, project@);
                    lemma_projects_remove(self.projects@, i as int);
                    assert(forall|j: int|
                        0 <= j < self.projects@.remove(i as int).len() ==> self.projects@.remove(
                            i as int,
                        )[j] == (if j < i { self.projects@[j] } else { self.projects@[j + 1] }));
                }
                self.projects.remove(i);
                true
            },
        }
    }

    /// Removes `sample` from `project`'s entries; absent samples are
    /// ignored.  Returns whether the project itself was present.
    pub fn delete_sample(&mut self, project: &Vec<u8>, sample: &Vec<u8>) -> (project_found: bool)
        requires
            old(self).wf(),
        ensures
            final(self).wf(),
            project_found == old(self)@.contains_key(project@),
            final(self)@ == if old(self)@.contains_key(project@) {
                old(self)@.insert(project@, old(self)@[project@].remove(sample@))
            } else {
                old(self)@
            },
    {
        match find_project(&self.projects, project) {
            None => {
                proof {
                    lemma_projects_contains(self.projects@, project@);
                }
                false
            },
            Some(i) => {
                proof {
                    lemma_projects_contains(self.projects@, project@);
                    lemma_projects_value(self.projects@, i as int);
                }
                let ghost pre = self.projects@;
                let entry = &mut self.projects[i];
                let ghost pre_entry = *entry;
                match find_sample(&entry.samples, sample) {
                    None => {
                        proof {
                            lemma_samples_contains(pre_entry.samples@, sample@);
                            assert(samples_map(pre_entry.samples@) =~= samples_map(
                                pre_entry.samples@,
                            ).remove(sample@));
                            lemma_projects_update(pre, i as int, *final(entry));
                            assert(final(self)@ =~= old(self)@.insert(
                                project@,
                                old(self)@[project@].remove(sample@),
                            ));
                        }
                    },
                    Some(j) => {
                        proof {
                            lemma_samples_remove(pre_entry.samples@, j as int);
                            assert(forall|a: int|
                                0 <= a < pre_entry.samples@.remove(j as int).len()
                                    ==> pre_entry.samples@.remove(j as int)[a] == (if a < j {
                                    pre_entry.samples@[a]
                                } else {
                                    pre_entry.samples@[a + 1]
                                }));
                        }
                        entry.samples.remove(j);
                        proof {
                            assert(uniq_samples(final(entry).samples@));
                            lemma_projects_update(pre, i as int, *final(entry));
                            assert(final(self)@ =~= old(self)@.insert(
                                project@,
                                old(self)@[project@].remove(sample@),
                            ));
                        }
                    },
                }
                true
            },
        }
    }
}

/// Every output entry names a real non-reserved stored pair.
pub open spec fn listing_sound(
    r: Seq<(Vec<u8>, Vec<u8>, Vec<u8>)>,
    m: Map<Seq<u8>, Map<Seq<u8>, Seq<u8>>>,
) -> bool {
    forall|k: int|
        0 <= k < r.len() ==> (#[trigger] r[k]).0@ != db_key() && m.contains_key(r[k].0@)
            && m[r[k].0@].contains_key(r[k].1@) && m[r[k].0@][r[k].1@] == r[k].2@
}

/// Every non-reserved stored pair appears among the output entries.
pub open spec fn listing_complete(
    r: Seq<(Vec<u8>, Vec<u8>, Vec<u8>)>,
    m: Map<Seq<u8>, Map<Seq<u8>, Seq<u8>>>,
) -> bool {
    forall|p: Seq<u8>, s: Seq<u8>|
        m.contains_key(p) && p != db_key() && #[trigger] m[p].contains_key(s) ==> exists|k: int|
            0 <= k < r.len() && (#[trigger] r[k]).0@ == p && r[k].1@ == s
}

/// No `(project, sample)` pair appears twice among the output entries.
pub open spec fn listing_distinct(r: Seq<(Vec<u8>, Vec<u8>, Vec<u8>)>) -> bool {
    forall|k1: int, k2: int|
        0 <= k1 < k2 < r.len() ==> !((#[trigger] r[k1]).0@ == (#[trigger] r[k2]).0@ && r[k1].1@
            == r[k2].1@)
}

impl Store {
    /// Every stored `(project, sample, path)` triple except the reserved
    /// `DB` project: one output entry per stored pair, no duplicates.
    pub fn list(&self) -> (r: Vec<(Vec<u8>, Vec<u8>, Vec<u8>)>)
        requires
            self.wf(),
        ensures
            listing_sound(r@, self@),
            listing_complete(r@, self@),
            listing_distinct(r@),
    {
        let ghost ps = self.projects@;
        let db = db_key_vec();
        let mut r: Vec<(Vec<u8>, Vec<u8>, Vec<u8>)> = Vec::new();
        let mut i: usize = 0;
        while i < self.projects.len()
            invariant
                self.wf(),
                ps == self.projects@,
                db@ == db_key(),
                i <= ps.len(),
                listing_sound(r@, self@),
                listing_distinct(r@),
                forall|k: int|
                    0 <= k < r@.len() ==> exists|a: int|
                        0 <= a < i && (#[trigger] r@[k]).0@ == ps[a].name@,
                forall|a: int, s: Seq<u8>|
                    0 <= a < i && ps[a].name@ != db_key() && #[trigger] samples_map(
                        ps[a].samples@,
                    ).contains_key(s) ==> exists|k: int|
                        0 <= k < r@.len() && (#[trigger] r@[k]).0@ == ps[a].name@ && r@[k].1@ == s,
            decreases ps.len() - i,
        {
            if !bytes_eq(&self.projects[i].name, &db) {
                proof {
                    lemma_projects_value(ps, i as int);
                }
                let mut j: usize = 0;
                while j < self.projects[i].samples.len()
                    invariant
                        self.wf(),
                        ps == self.projects@,
                        db@ == db_key(),
                        i < ps.len(),
                        j <= ps[i as int].samples@.len(),
                        ps[i as int].name@ != db_key(),
                        self@.contains_key(ps[i as int].name@),
                        self@[ps[i as int].name@] == samples_map(ps[i as int].samples@),
                        listing_sound(r@, self@),
                        listing_distinct(r@),
                        forall|k: int|
                            0 <= k < r@.len() ==> exists|a: int|
                                0 <= a <= i && (#[trigger] r@[k]).0@ == ps[a].name@,
                        forall|a: int, s: Seq<u8>|
                            0 <= a < i && ps[a].name@ != db_key() && #[trigger] samples_map(
                                ps[a].samples@,
                            ).contains_key(s) ==> exists|k: int|
                                0 <= k < r@.len() && (#[trigger] r@[k]).0@ == ps[a].name@
                                    && r@[k].1@ == s,
                        forall|k: int|
                            0 <= k < r@.len() && (#[trigger] r@[k]).0@ == ps[i as int].name@
                                ==> exists|b: int|
                                0 <= b < j && r@[k].1@ == ps[i as int].samples@[b].0@,
                        forall|b: int|
                            0 <= b < j ==> exists|k: int|
                                0 <= k < r@.len() && (#[trigger] r@[k]).0@ == ps[i as int].name@
                                    && r@[k].1@ == (#[trigger] ps[i as int].samples@[b]).0@,
                    decreases ps[i as int].samples@.len() - j,
                {
                    let p = clone_bytes(&self.projects[i].name);
                    let s = clone_bytes(&self.projects[i].samples[j].0);
                    let v = clone_bytes(&self.projects[i].samples[j].1);
                    proof {
                        lemma_samples_value(ps[i as int].samples@, j as int);
                    }
                    let ghost r_old = r@;
                    r.push((p, s, v));
                    proof {
                        let ghost rn = r_old.len() as int;
                        assert(forall|k: int| 0 <= k < rn ==> r@[k] == r_old[k]);
                        assert(r@[rn].0@ == ps[i as int].name@ && r@[rn].1@ == ps[
                            i as int].samples@[j as int].0@ && r@[rn].2@ == ps[
                            i as int].samples@[j as int].1@);
                        assert forall|k: int|
                            0 <= k < r@.len() && (#[trigger] r@[k]).0@ == ps[i as int].name@
                        implies exists|b: int|
                            0 <= b < j + 1 && r@[k].1@ == ps[i as int].samples@[b].0@ by {
                            if k < rn {
                                let b = choose|b: int|
                                    0 <= b < j && r_old[k].1@ == ps[i as int].samples@[b].0@;
                                assert(0 <= b < j + 1 && r@[k].1@ == ps[i as int].samples@[b].0@);
                            } else {
                                assert(r@[k].1@ == ps[i as int].samples@[j as int].0@);
                            }
                        }
                        assert forall|k1: int, k2: int| 0 <= k1 < k2 < r@.len() implies !((
                        #[trigger] r@[k1]).0@ == (#[trigger] r@[k2]).0@ && r@[k1].1@
                            == r@[k2].1@) by {
                            if k2 == rn {
                                if r@[k1].0@ == ps[i as int].name@ {
                                    let b = choose|b: int|
                                        0 <= b < j && r_old[k1].1@ == ps[i as int].samples@[b].0@;
                                    assert(ps[i as int].samples@[b].0@ != ps[
                                        i as int].samples@[j as int].0@);
                                }
                            }
                        }
                        assert forall|a: int, s2: Seq<u8>|
                            0 <= a < i && ps[a].name@ != db_key() && #[trigger] samples_map(
                                ps[a].samples@,
                            ).contains_key(s2)
                        implies exists|k: int|
                            0 <= k < r@.len() && (#[trigger] r@[k]).0@ == ps[a].name@ && r@[k].1@
                                == s2 by {
                            let k = choose|k: int|
                                0 <= k < r_old.len() && (#[trigger] r_old[k]).0@ == ps[a].name@
                                    && r_old[k].1@ == s2;
                            assert(0 <= k < r@.len() && r@[k].0@ == ps[a].name@ && r@[k].1@ == s2);
                        }
                        assert forall|b: int| 0 <= b < j + 1 implies exists|k: int|
                            0 <= k < r@.len() && (#[trigger] r@[k]).0@ == ps[i as int].name@
                                && r@[k].1@ == (#[trigger] ps[i as int].samples@[b]).0@ by {
                            if b < j {
                                let k = choose|k: int|
                                    0 <= k < r_old.len() && (#[trigger] r_old[k]).0@ == ps[
                                        i as int].name@ && r_old[k].1@ == ps[
                                        i as int].samples@[b].0@;
                                assert(0 <= k < r@.len() && r@[k].0@ == ps[i as int].name@
                                    && r@[k].1@ == ps[i as int].samples@[b].0@);
                            } else {
                                assert(0 <= rn < r@.len() && r@[rn].0@ == ps[i as int].name@
                                    && r@[rn].1@ == ps[i as int].samples@[b].0@);
                            }
                        }
                    }
                    j += 1;
                }
                proof {
                    assert forall|a: int, s: Seq<u8>|
                        0 <= a < i + 1 && ps[a].name@ != db_key() && #[trigger] samples_map(
                            ps[a].samples@,
                        ).contains_key(s)
                    implies exists|k: int|
                        0 <= k < r@.len() && (#[trigger] r@[k]).0@ == ps[a].name@ && r@[k].1@
                            == s by {
                        if a == i {
                            lemma_samples_contains(ps[a].samples@, s);
                            let b = choose|b: int|
                                0 <= b < ps[a].samples@.len() && ps[a].samples@[b].0@ == s;
                            assert(exists|k: int|
                                0 <= k < r@.len() && (#[trigger] r@[k]).0@ == ps[i as int].name@
                                    && r@[k].1@ == (ps[i as int].samples@[b]).0@);
                        }
                    }
                }
            } else {
                proof {
                    assert forall|a: int, s: Seq<u8>|
                        0 <= a < i + 1 && ps[a].name@ != db_key() && #[trigger] samples_map(
                            ps[a].samples@,
                        ).contains_key(s)
                    implies exists|k: int|
                        0 <= k < r@.len() && (#[trigger] r@[k]).0@ == ps[a].name@ && r@[k].1@
                            == s by {
                        assert(a < i || ps[a].name@ == db_key());
                    }
                }
            }
            i += 1;
        }
        proof {
            assert forall|p: Seq<u8>, s: Seq<u8>|
                self@.contains_key(p) && p != db_key() && #[trigger] self@[p].contains_key(s)
            implies exists|k: int|
                0 <= k < r@.len() && (#[trigger] r@[k]).0@ == p && r@[k].1@ == s by {
                lemma_projects_contains(ps, p);
                let a = choose|a: int| 0 <= a < ps.len() && ps[a].name@ == p;
                lemma_projects_value(ps, a);
            }
        }
        r
    }
}

/// Every entry of `m1` stands identically in `m2`.
pub open spec fn inner_submap(m1: Map<Seq<u8>, Seq<u8>>, m2: Map<Seq<u8>, Seq<u8>>) -> bool {
    forall|k: Seq<u8>| #[trigger] m1.contains_key(k) ==> m2.contains_key(k) && m2[k] == m1[k]
}

/// Every project of `m1` stands identically in `m2`.
pub open spec fn store_submap(
    m1: Map<Seq<u8>, Map<Seq<u8>, Seq<u8>>>,
    m2: Map<Seq<u8>, Map<Seq<u8>, Seq<u8>>>,
) -> bool {
    forall|p: Seq<u8>| #[trigger] m1.contains_key(p) ==> m2.contains_key(p) && m2[p] == m1[p]
}

/// Mutual containment of sample maps is equality.
pub proof fn lemma_inner_submap_antisym(m1: Map<Seq<u8>, Seq<u8>>, m2: Map<Seq<u8>, Seq<u8>>)
    requires
        inner_submap(m1, m2),
        inner_submap(m2, m1),
    ensures
        m1 == m2,
{
    assert(m1.dom() =~= m2.dom());
    assert(m1 =~= m2);
}

/// Mutual containment of stores is equality.
pub proof fn lemma_store_submap_antisym(
    m1: Map<Seq<u8>, Map<Seq<u8>, Seq<u8>>>,
    m2: Map<Seq<u8>, Map<Seq<u8>, Seq<u8>>>,
)
    requires
        store_submap(m1, m2),
        store_submap(m2, m1),
    ensures
        m1 == m2,
{
    assert(m1.dom() =~= m2.dom());
    assert(m1 =~= m2);
}

/// Whether every entry of `a`'s map also stands in `b`'s map.
fn inner_leq(a: &Vec<(Vec<u8>, Vec<u8>)>, b: &Vec<(Vec<u8>, Vec<u8>)>) -> (r: bool)
    requires
        uniq_samples(a@),
        uniq_samples(b@),
    ensures
        r == inner_submap(samples_map(a@), samples_map(b@)),
{
    let mut i: usize = 0;
    while i < a.len()
        invariant
            uniq_samples(a@),
            uniq_samples(b@),
            i <= a@.len(),
            forall|j: int|
                0 <= j < i ==> samples_map(b@).contains_key((#[trigger] a@[j]).0@)
                    && samples_map(b@)[a@[j].0@] == a@[j].1@,
        decreases a@.len() - i,
    {
        proof {
            lemma_samples_value(a@, i as int);
        }
        match find_sample(b, &a[i].0) {
            None => {
                proof {
                    lemma_samples_contains(b@, a@[i as int].0@);
                    assert(samples_map(a@).contains_key(a@[i as int].0@) && !samples_map(
                        b@,
                    ).contains_key(a@[i as int].0@));
                }
                return false;
            },
            Some(j) => {
                proof {
                    lemma_samples_value(b@, j as int);
                }
                if !bytes_eq(&b[j].1, &a[i].1) {
                    proof {
                        assert(samples_map(a@).contains_key(a@[i as int].0@) && samples_map(
                            b@,
                        )[a@[i as int].0@] != samples_map(a@)[a@[i as int].0@]);
                    }
                    return false;
                }
            },
        }
        i += 1;
    }
    proof {
        assert forall|k: Seq<u8>| #[trigger] samples_map(a@).contains_key(k) implies samples_map(
            b@,
        ).contains_key(k) && samples_map(b@)[k] == samples_map(a@)[k] by {
            lemma_samples_contains(a@, k);
            let j = choose|j: int| 0 <= j < a@.len() && a@[j].0@ == k;
            lemma_samples_value(a@, j);
        }
    }
    true
}

/// Decides equality of two sample maps.
fn inner_eq(a: &Vec<(Vec<u8>, Vec<u8>)>, b: &Vec<(Vec<u8>, Vec<u8>)>) -> (r: bool)
    requires
        uniq_samples(a@),
        uniq_samples(b@),
    ensures
        r == (samples_map(a@) == samples_map(b@)),
{
    let ab = inner_leq(a, b);
    let ba = inner_leq(b, a);
    if ab && ba {
        proof {
            lemma_inner_submap_antisym(samples_map(a@), samples_map(b@));
        }
        true
    } else {
        false
    }
}

impl Store {
    /// Decides whether two stores hold the identical mapping.
    pub fn same_mapping(&self, other: &Store) -> (r: bool)
        requires
            self.wf(),
            other.wf(),
        ensures
            r == (self@ == other@),
    {
        let ab = self.mapping_leq(other);
        let ba = other.mapping_leq(self);
        if ab && ba {
            proof {
                lemma_store_submap_antisym(self@, other@);
            }
            true
        } else {
            false
        }
    }

    /// Whether every project of `self` stands identically in `other`.
    fn mapping_leq(&self, other: &Store) -> (r: bool)
        requires
            self.wf(),
            other.wf(),
        ensures
            r == store_submap(self@, other@),
    {
        let mut i: usize = 0;
        while i < self.projects.len()
            invariant
                self.wf(),
                other.wf(),
                i <= self.projects@.len(),
                forall|j: int|
                    0 <= j < i ==> other@.contains_key((#[trigger] self.projects@[j]).name@)
                        && other@[self.projects@[j].name@] == samples_map(
                        self.projects@[j].samples@,
                    ),
            decreases self.projects@.len() - i,
        {
            proof {
                lemma_projects_value(self.projects@, i as int);
            }
            match find_project(&other.projects, &self.projects[i].name) {
                None => {
                    proof {
                        lemma_projects_contains(other.projects@, self.projects@[i as int].name@);
                        assert(self@.contains_key(self.projects@[i as int].name@)
                            && !other@.contains_key(self.projects@[i as int].name@));
                    }
                    return false;
                },
                Some(j) => {
                    proof {
                        lemma_projects_value(other.projects@, j as int);
                    }
                    if !inner_eq(&self.projects[i].samples, &other.projects[j].samples) {
                        proof {
                            assert(self@.contains_key(self.projects@[i as int].name@) && other@[
                                self.projects@[i as int].name@] != self@[
                                self.projects@[i as int].name@]);
                        }
                        return false;
                    }
                },
            }
            i += 1;
        }
        proof {
            assert forall|p: Seq<u8>| #[trigger] self@.contains_key(p) implies other@.contains_key(
                p,
            ) && other@[p] == self@[p] by {
                lemma_projects_contains(self.projects@, p);
                let j = choose|j: int|
                    0 <= j < self.projects@.len() && self.projects@[j].name@ == p;
                lemma_projects_value(self.projects@, j);
            }
        }
        true
    }
}

impl Store {
    /// Whether a project of this name is stored.
    pub fn contains_project(&self, project: &Vec<u8>) -> (r: bool)
        ensures
            r == self@.contains_key(project@),
    {
        proof {
            lemma_projects_contains(self.projects@, project@);
        }
        match find_project(&self.projects, project) {
            Some(_) => true,
            None => false,
        }
    }
}

/// Inserts (or overwrites) one `(sample, path)` pair in an association list.
pub fn samples_insert(samples: &mut Vec<(Vec<u8>, Vec<u8>)>, key: Vec<u8>, val: Vec<u8>)
    requires
        uniq_samples(old(samples)@),
    ensures
        uniq_samples(final(samples)@),
        samples_map(final(samples)@) == samples_map(old(samples)@).insert(key@, val@),
{
    match find_sample(samples, &key) {
        None => {
            proof {
                lemma_samples_contains(samples@, key@);
                lemma_samples_push(samples@, (key, val));
            }
            samples.push((key, val));
        },
        Some(j) => {
            let ghost pre = samples@;
            samples[j] = (key, val);
            proof {
                let x = samples@[j as int];
                assert(samples@ == pre.update(j as int, x));
                lemma_samples_update(pre, j as int, x);
            }
        },
    }
}

/// Inserts (or overwrites) one whole project in an association list.
pub fn projects_insert(projects: &mut Vec<ProjectEntry>, name: Vec<u8>, samples: Vec<(Vec<u8>, Vec<u8>)>)
    requires
        wf_projects(old(projects)@),
        uniq_samples(samples@),
    ensures
        wf_projects(final(projects)@),
        projects_map(final(projects)@) == projects_map(old(projects)@).insert(
            name@,
            samples_map(samples@),
        ),
{
    match find_project(projects, &name) {
        None => {
            proof {
                lemma_projects_contains(projects@, name@);
            }
            let entry = ProjectEntry { name, samples };
            proof {
                lemma_projects_push(projects@, entry);
            }
            projects.push(entry);
            proof {
                assert(forall|j: int|
                    0 <= j < old(projects)@.len() ==> final(projects)@[j] == old(projects)@[j]);
            }
        },
        Some(j) => {
            let ghost pre = projects@;
            projects[j] = ProjectEntry { name, samples };
            proof {
                let x = projects@[j as int];
                assert(projects@ == pre.update(j as int, x));
                lemma_projects_update(pre, j as int, x);
            }
        },
    }
}

impl Store {
    /// Records the backing file's path under the reserved `DB` project and
    /// `DB` sample, as done before every save.
    pub fn set_db_entry(&mut self, path: Vec<u8>)
        requires
            old(self).wf(),
        ensures
            final(self).wf(),
            final(self)@ == old(self)@.insert(
                db_key(),
                inner_or_empty(old(self)@, db_key()).insert(db_key(), path@),
            ),
    {
        let p = db_key_vec();
        let s = db_key_vec();
        self.set(p, s, path);
    }
}

/// After the backing file's path is recorded, looking up `DB` / `DB`
/// yields exactly that path, whatever else the store holds.
pub proof fn lemma_db_entry_lookup(m: Map<Seq<u8>, Map<Seq<u8>, Seq<u8>>>, path: Seq<u8>)
    ensures
        ({
            let m2 = m.insert(db_key(), inner_or_empty(m, db_key()).insert(db_key(), path));
            m2.contains_key(db_key()) && m2[db_key()].contains_key(db_key())
                && m2[db_key()][db_key()] == path
        }),
{
}

/// Copies a byte vector.
pub fn clone_bytes(v: &Vec<u8>) -> (r: Vec<u8>)
    ensures
        r@ == v@,
{
    let mut r: Vec<u8> = Vec::new();
    let mut i: usize = 0;
    while i < v.len()
        invariant
            i <= v@.len(),
            r@ =~= v@.subrange(0, i as int),
        decreases v@.len() - i,
    {
        r.push(v[i]);
        i += 1;
    }
    proof {
        assert(r@ =~= v@);
    }
    r
}

} // verus!
