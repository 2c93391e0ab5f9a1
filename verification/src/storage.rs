//! In-memory storage of study metadata and trials.
use vstd::prelude::*;

use crate::error::{StorageError, StudyMetadata};
use crate::trial::Trial;

verus! {

/// Trial numbers strictly increase along `trials`.
pub open spec fn sorted_by_number(trials: Seq<Trial>) -> bool {
    forall|i: int, j: int| 0 <= i < j < trials.len() ==> trials[i].number < trials[j].number
}

/// Position of the first trial numbered `>= number` in a sorted sequence.
pub open spec fn lower_bound(trials: Seq<Trial>, number: usize) -> int
    decreases trials.len(),
{
    if trials.len() == 0 {
        0
    } else if trials.last().number < number {
        trials.len() as int
    } else {
        lower_bound(trials.drop_last(), number)
    }
}

/// `trials` with `trial` saved into it: the trial of the same number is
/// replaced, or else `trial` is inserted where its number keeps the order.
pub open spec fn upsert(trials: Seq<Trial>, trial: Trial) -> Seq<Trial> {
    let p = lower_bound(trials, trial.number);
    if p < trials.len() && trials[p].number == trial.number {
        trials.update(p, trial)
    } else {
        trials.insert(p, trial)
    }
}

/// In a sorted sequence, the lower bound splits the trials numbered below
/// `number` from the others.
pub proof fn lemma_lower_bound(trials: Seq<Trial>, number: usize)
    requires
        sorted_by_number(trials),
    ensures
        0 <= lower_bound(trials, number) <= trials.len(),
        forall|i: int| 0 <= i < lower_bound(trials, number) ==> #[trigger] trials[i].number < number,
        forall|i: int|
            lower_bound(trials, number) <= i < trials.len() ==> #[trigger] trials[i].number
                >= number,
    decreases trials.len(),
{
    if trials.len() > 0 {
        let init = trials.drop_last();
        lemma_lower_bound(init, number);
        let lb = lower_bound(trials, number);
        assert forall|i: int| 0 <= i < lb implies #[trigger] trials[i].number < number by {
            if i < trials.len() - 1 {
                assert(trials[i] == init[i]);
                if trials.last().number < number {
                    assert(trials[i].number < trials[trials.len() - 1].number);
                }
            }
        }
        assert forall|i: int| lb <= i < trials.len() implies #[trigger] trials[i].number
            >= number by {
            if i < trials.len() - 1 {
                assert(trials[i] == init[i]);
            }
        }
    }
}

/// Saving keeps a sorted sequence sorted.
pub proof fn lemma_upsert_sorted(trials: Seq<Trial>, trial: Trial)
    requires
        sorted_by_number(trials),
    ensures
        sorted_by_number(upsert(trials, trial)),
{
    lemma_lower_bound(trials, trial.number);
}


/// One study's trials.
#[derive(Debug)]
struct StudyTrials {
    name: String,
    trials: Vec<Trial>,
}

/// No two entries share a study name.
spec fn names_distinct(s: Seq<StudyTrials>) -> bool {
    forall|i: int, j: int|
        0 <= i < s.len() && 0 <= j < s.len() && i != j ==> #[trigger] s[i].name@
            != #[trigger] s[j].name@
}

/// No two metadata entries share a study name.
pub open spec fn meta_names_distinct(s: Seq<StudyMetadata>) -> bool {
    forall|i: int, j: int|
        0 <= i < s.len() && 0 <= j < s.len() && i != j ==> #[trigger] s[i].study_name@
            != #[trigger] s[j].study_name@
}

/// The trials of the entry named `name` (empty if there is none).
spec fn trials_of(s: Seq<StudyTrials>, name: Seq<char>) -> Seq<Trial> {
    if exists|k: int| 0 <= k < s.len() && #[trigger] s[k].name@ == name {
        s[choose|k: int| 0 <= k < s.len() && #[trigger] s[k].name@ == name].trials@
    } else {
        Seq::empty()
    }
}

/// The metadata entry named `name`, if there is one.
pub open spec fn meta_of(s: Seq<StudyMetadata>, name: Seq<char>) -> Option<StudyMetadata> {
    if exists|k: int| 0 <= k < s.len() && #[trigger] s[k].study_name@ == name {
        Some(s[choose|k: int| 0 <= k < s.len() && #[trigger] s[k].study_name@ == name])
    } else {
        None
    }
}

proof fn lemma_trials_of_at(s: Seq<StudyTrials>, name: Seq<char>, k: int)
    requires
        names_distinct(s),
        0 <= k < s.len(),
        s[k].name@ == name,
    ensures
        trials_of(s, name) == s[k].trials@,
{
    let c = choose|c: int| 0 <= c < s.len() && #[trigger] s[c].name@ == name;
    if c != k {
        assert(s[c].name@ != s[k].name@);
    }
}

proof fn lemma_meta_of_at(s: Seq<StudyMetadata>, name: Seq<char>, k: int)
    requires
        meta_names_distinct(s),
        0 <= k < s.len(),
        s[k].study_name@ == name,
    ensures
        meta_of(s, name) == Some(s[k]),
{
    let c = choose|c: int| 0 <= c < s.len() && #[trigger] s[c].study_name@ == name;
    if c != k {
        assert(s[c].study_name@ != s[k].study_name@);
    }
}

/// After replacing or appending the entry named `target` (and keeping every
/// other entry at its place), the trials of every other study are unchanged.
proof fn lemma_trials_others(new: Seq<StudyTrials>, old: Seq<StudyTrials>, target: Seq<char>)
    requires
        names_distinct(new),
        names_distinct(old),
        old.len() <= new.len() <= old.len() + 1,
        forall|i: int|
            0 <= i < new.len() ==> (#[trigger] new[i]).name@ == target || (i < old.len()
                && new[i] == old[i]),
        forall|i: int|
            0 <= i < old.len() && old[i].name@ != target ==> #[trigger] new[i] == old[i],
    ensures
        forall|name: Seq<char>|
            name != target ==> #[trigger] trials_of(new, name) == trials_of(old, name),
{
    assert forall|name: Seq<char>| name != target implies #[trigger] trials_of(new, name)
        == trials_of(old, name) by {
        if exists|c: int| 0 <= c < old.len() && #[trigger] old[c].name@ == name {
            let c = choose|c: int| 0 <= c < old.len() && #[trigger] old[c].name@ == name;
            lemma_trials_of_at(old, name, c);
            assert(new[c] == old[c]);
            lemma_trials_of_at(new, name, c);
        } else {
            assert forall|c: int| 0 <= c < new.len() implies #[trigger] new[c].name@ != name by {
                if new[c].name@ != target {
                    assert(old[c].name@ != name);
                }
            }
        }
    }
}

/// The metadata analogue of `lemma_trials_others`.
proof fn lemma_meta_others(new: Seq<StudyMetadata>, old: Seq<StudyMetadata>, target: Seq<char>)
    requires
        meta_names_distinct(new),
        meta_names_distinct(old),
        old.len() <= new.len() <= old.len() + 1,
        forall|i: int|
            0 <= i < new.len() ==> (#[trigger] new[i]).study_name@ == target || (i < old.len()
                && new[i] == old[i]),
        forall|i: int|
            0 <= i < old.len() && old[i].study_name@ != target ==> #[trigger] new[i] == old[i],
    ensures
        forall|name: Seq<char>|
            name != target ==> #[trigger] meta_of(new, name) == meta_of(old, name),
{
    assert forall|name: Seq<char>| name != target implies #[trigger] meta_of(new, name) == meta_of(
        old,
        name,
    ) by {
        if exists|c: int| 0 <= c < old.len() && #[trigger] old[c].study_name@ == name {
            let c = choose|c: int| 0 <= c < old.len() && #[trigger] old[c].study_name@ == name;
            lemma_meta_of_at(old, name, c);
            assert(new[c] == old[c]);
            lemma_meta_of_at(new, name, c);
        } else {
            assert forall|c: int| 0 <= c < new.len() implies #[trigger] new[c].study_name@
                != name by {
                if new[c].study_name@ != target {
                    assert(old[c].study_name@ != name);
                }
            }
        }
    }
}

/// In-memory storage: each study's trials ordered by trial number, plus each
/// study's metadata. Fast and dependency-free, but lost when the process
/// exits.
#[derive(Debug)]
pub struct InMemoryStorage {
    studies: Vec<StudyTrials>,
    meta: Vec<StudyMetadata>,
}

impl InMemoryStorage {
    /// Study names are unique, every study's trials are sorted by number, and
    /// metadata names are unique.
    pub closed spec fn wf(&self) -> bool {
        &&& names_distinct(self.studies@)
        &&& forall|i: int|
            0 <= i < self.studies@.len() ==> sorted_by_number(#[trigger] self.studies@[i].trials@)
        &&& meta_names_distinct(self.meta@)
    }

    /// The trials stored for the study named `name`, in number order (empty
    /// for an unknown study).
    pub closed spec fn trials_spec(&self, name: Seq<char>) -> Seq<Trial> {
        trials_of(self.studies@, name)
    }

    /// The metadata stored for the study named `name`.
    pub closed spec fn meta_spec(&self, name: Seq<char>) -> Option<StudyMetadata> {
        meta_of(self.meta@, name)
    }

    /// Every study's stored trials are sorted by number.
    pub proof fn lemma_trials_sorted(&self, name: Seq<char>)
        requires
            self.wf(),
        ensures
            sorted_by_number(self.trials_spec(name)),
    {
        if exists|k: int| 0 <= k < self.studies@.len() && #[trigger] self.studies@[k].name@ == name {
            let k = choose|k: int|
                0 <= k < self.studies@.len() && #[trigger] self.studies@[k].name@ == name;
            assert(sorted_by_number(self.studies@[k].trials@));
        }
    }

    /// An empty storage.
    pub fn new() -> (r: InMemoryStorage)
        ensures
            r.wf(),
            forall|name: Seq<char>| #[trigger] r.trials_spec(name) == Seq::<Trial>::empty(),
            forall|name: Seq<char>| #[trigger] r.meta_spec(name) is None,
    {
        InMemoryStorage { studies: Vec::new(), meta: Vec::new() }
    }

    /// Index of the study named `name`.
    fn find_study(&self, name: &String) -> (r: Option<usize>)
        ensures
            r is None ==> forall|k: int|
                0 <= k < self.studies@.len() ==> #[trigger] self.studies@[k].name@ != name@,
            r matches Some(k) ==> k < self.studies@.len() && self.studies@[k as int].name@
                == name@,
    {
        let mut k: usize = 0;
        while k < self.studies.len()
            invariant
                k <= self.studies.len(),
                forall|j: int| 0 <= j < k ==> #[trigger] self.studies@[j].name@ != name@,
            decreases self.studies.len() - k,
        {
            if self.studies[k].name == *name {
                return Some(k);
            }
            k = k + 1;
        }
        None
    }

    /// Inserts or updates a trial of the study named `study_name`, keyed by
    /// its number.
    pub fn save_trial(&mut self, study_name: &str, trial: Trial) -> (r: Result<(), StorageError>)
        requires
            old(self).wf(),
        ensures
            final(self).wf(),
            r is Ok,
            final(self).trials_spec(study_name@) == upsert(
                old(self).trials_spec(study_name@),
                trial,
            ),
            forall|name: Seq<char>|
                name != study_name@ ==> #[trigger] final(self).trials_spec(name) == old(
                    self,
                ).trials_spec(name),
            forall|name: Seq<char>| #[trigger]
                final(self).meta_spec(name) == old(self).meta_spec(name),
    {
        let key = study_name.to_owned();
        let ghost old_studies = self.studies@;
        match self.find_study(&key) {
            None => {
                let mut trials: Vec<Trial> = Vec::new();
                trials.push(trial);
                self.studies.push(StudyTrials { name: key, trials });
                proof {
                    let n = self.studies@.len() - 1;
                    assert(names_distinct(self.studies@)) by {
                        assert forall|i: int, j: int|
                            0 <= i < self.studies@.len() && 0 <= j < self.studies@.len() && i
                                != j implies #[trigger] self.studies@[i].name@
                            != #[trigger] self.studies@[j].name@ by {
                            if i != n && j != n {
                                assert(old_studies[i].name@ != old_studies[j].name@);
                            }
                        }
                    }
                    assert(lower_bound(Seq::<Trial>::empty(), trial.number) == 0);
                    assert(upsert(Seq::<Trial>::empty(), trial) =~= seq![trial]);
                    assert(self.studies@[n].trials@ =~= seq![trial]);
                    lemma_trials_of_at(self.studies@, study_name@, n);
                    lemma_trials_others(self.studies@, old_studies, study_name@);
                }
            },
            Some(k) => {
                let mut entry = self.studies.remove(k);
                let ghost before = entry.trials@;
                proof {
                    assert(before == old_studies[k as int].trials@);
                    assert(sorted_by_number(old_studies[k as int].trials@));
                    lemma_trials_of_at(old_studies, study_name@, k as int);
                }
                let mut p: usize = 0;
                while p < entry.trials.len() && entry.trials[p].number < trial.number
                    invariant
                        p <= entry.trials.len(),
                        entry.trials@ == before,
                        sorted_by_number(before),
                        forall|j: int| 0 <= j < p ==> #[trigger] before[j].number < trial.number,
                    decreases entry.trials.len() - p,
                {
                    p = p + 1;
                }
                proof {
                    lemma_lower_bound(before, trial.number);
                    assert(p == lower_bound(before, trial.number)) by {
                        let lb = lower_bound(before, trial.number);
                        if p < lb {
                            assert(before[p as int].number < trial.number);
                        } else if p > lb {
                            assert(before[lb].number >= trial.number);
                        }
                    }
                    lemma_upsert_sorted(before, trial);
                }
                if p < entry.trials.len() && entry.trials[p].number == trial.number {
                    entry.trials.set(p, trial);
                } else {
                    entry.trials.insert(p, trial);
                }
                assert(entry.trials@ == upsert(before, trial));
                self.studies.insert(k, entry);
                proof {
                    assert(self.studies@ =~= old_studies.update(k as int, self.studies@[k as int]));
                    assert(names_distinct(self.studies@)) by {
                        assert forall|i: int, j: int|
                            0 <= i < self.studies@.len() && 0 <= j < self.studies@.len() && i
                                != j implies #[trigger] self.studies@[i].name@
                            != #[trigger] self.studies@[j].name@ by {
                            assert(old_studies[i].name@ != old_studies[j].name@);
                        }
                    }
                    lemma_trials_of_at(self.studies@, study_name@, k as int);
                    lemma_trials_others(self.studies@, old_studies, study_name@);
                }
            },
        }
        Ok(())
    }

    /// All trials of the study named `study_name`, in trial-number order; an
    /// unknown study has none.
    pub fn load_trials<'a>(&'a self, study_name: &str) -> (r: Result<&'a [Trial], StorageError>)
        requires
            self.wf(),
        ensures
            r is Ok,
            r.unwrap()@ == self.trials_spec(study_name@),
            sorted_by_number(r.unwrap()@),
    {
        proof {
            self.lemma_trials_sorted(study_name@);
        }
        let key = study_name.to_owned();
        match self.find_study(&key) {
            Some(k) => {
                proof {
                    lemma_trials_of_at(self.studies@, study_name@, k as int);
                }
                Ok(self.studies[k].trials.as_slice())
            },
            None => {
                let empty: &[Trial] = &[];
                assert(empty@ =~= Seq::<Trial>::empty());
                Ok(empty)
            },
        }
    }

    /// Inserts or updates the metadata of `meta.study_name`.
    pub fn save_study_metadata(&mut self, meta: StudyMetadata) -> (r: Result<(), StorageError>)
        requires
            old(self).wf(),
        ensures
            final(self).wf(),
            r is Ok,
            final(self).meta_spec(meta.study_name@) == Some(meta),
            forall|name: Seq<char>|
                name != meta.study_name@ ==> #[trigger] final(self).meta_spec(name) == old(
                    self,
                ).meta_spec(name),
            forall|name: Seq<char>| #[trigger]
                final(self).trials_spec(name) == old(self).trials_spec(name),
    {
        let ghost old_meta = self.meta@;
        let ghost target = meta.study_name@;
        let mut k: usize = 0;
        while k < self.meta.len()
            invariant
                k <= self.meta.len(),
                self.meta@ == old_meta,
                self.studies == old(self).studies,
                old(self).wf(),
                old_meta == old(self).meta@,
                forall|j: int| 0 <= j < k ==> #[trigger] self.meta@[j].study_name@ != target,
                target == meta.study_name@,
            decreases self.meta.len() - k,
        {
            if self.meta[k].study_name == meta.study_name {
                self.meta.set(k, meta);
                proof {
                    assert(meta_names_distinct(self.meta@)) by {
                        assert forall|i: int, j: int|
                            0 <= i < self.meta@.len() && 0 <= j < self.meta@.len() && i
                                != j implies #[trigger] self.meta@[i].study_name@
                            != #[trigger] self.meta@[j].study_name@ by {
                            assert(old_meta[i].study_name@ != old_meta[j].study_name@);
                        }
                    }
                    lemma_meta_of_at(self.meta@, target, k as int);
                    lemma_meta_others(self.meta@, old_meta, target);
                }
                return Ok(());
            }
            k = k + 1;
        }
        self.meta.push(meta);
        proof {
            let n = self.meta@.len() - 1;
            assert(meta_names_distinct(self.meta@)) by {
                assert forall|i: int, j: int|
                    0 <= i < self.meta@.len() && 0 <= j < self.meta@.len() && i
                        != j implies #[trigger] self.meta@[i].study_name@
                    != #[trigger] self.meta@[j].study_name@ by {
                    if i != n && j != n {
                        assert(old_meta[i].study_name@ != old_meta[j].study_name@);
                    }
                }
            }
            lemma_meta_of_at(self.meta@, target, n);
            lemma_meta_others(self.meta@, old_meta, target);
        }
        Ok(())
    }

    /// The metadata of the study named `study_name`, or `None` if the study is
    /// unknown.
    pub fn load_study_metadata(&self, study_name: &str) -> (r: Result<
        Option<StudyMetadata>,
        StorageError,
    >)
        requires
            self.wf(),
        ensures
            r is Ok,
            r.unwrap() == self.meta_spec(study_name@),
    {
        let key = study_name.to_owned();
        let mut k: usize = 0;
        while k < self.meta.len()
            invariant
                k <= self.meta.len(),
                key@ == study_name@,
                self.wf(),
                forall|j: int| 0 <= j < k ==> #[trigger] self.meta@[j].study_name@ != study_name@,
            decreases self.meta.len() - k,
        {
            if self.meta[k].study_name == key {
                let m = StudyMetadata {
                    study_name: self.meta[k].study_name.clone(),
                    direction: self.meta[k].direction,
                };
                proof {
                    lemma_meta_of_at(self.meta@, study_name@, k as int);
                }
                return Ok(Some(m));
            }
            k = k + 1;
        }
        Ok(None)
    }
}

} // verus!
