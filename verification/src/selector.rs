//! The target selector: which jobs a target identifier activates, and the
//! discovery listing of every declared target across a document chain.
use vstd::prelude::*;
use crate::model::{Document, JobView};
use crate::resolver::path_contains;

verus! {

/// Whether a target activates a job: the job bears the target's name, or
/// its stage is the target.
pub open spec fn selects(j: JobView, target: Seq<char>) -> bool {
    j.name == target || j.stage == Some(target)
}

/// The names of the activated jobs among those from index `i` on, in
/// declaration order, each at most once (a job activated both by name and
/// by stage is still one job).
pub open spec fn select_from(jobs: Seq<JobView>, target: Seq<char>, i: int) -> Seq<Seq<char>>
    decreases jobs.len() - i,
    when 0 <= i <= jobs.len()
{
    if i >= jobs.len() {
        Seq::empty()
    } else if selects(jobs[i], target) {
        seq![jobs[i].name] + select_from(jobs, target, i + 1)
    } else {
        select_from(jobs, target, i + 1)
    }
}

/// The names of every job the target activates, in declaration order.
pub open spec fn spec_select(jobs: Seq<JobView>, target: Seq<char>) -> Seq<Seq<char>> {
    select_from(jobs, target, 0)
}

/// Selects the jobs a target activates: those whose name equals the
/// target, and those whose stage equals it, in declaration order. An
/// unmatched target selects nothing.
pub fn select(doc: &Document, target: &String) -> (r: Vec<String>)
    ensures
        r.deep_view() == spec_select(doc.jobs_view(), target@),
{
    let n = doc.jobs.len();
    let mut out: Vec<String> = Vec::new();
    proof {
        assert(out.deep_view() =~= Seq::<Seq<char>>::empty());
        assert(Seq::<Seq<char>>::empty() + spec_select(doc.jobs_view(), target@) =~= spec_select(
            doc.jobs_view(),
            target@,
        ));
    }
    let mut i: usize = 0;
    while i < n
        invariant
            n == doc.jobs@.len(),
            0 <= i <= n,
            spec_select(doc.jobs_view(), target@) == out.deep_view() + select_from(
                doc.jobs_view(),
                target@,
                i as int,
            ),
        decreases n - i,
    {
        let ghost out0 = out.deep_view();
        let job = &doc.jobs[i];
        let by_name = job.name == *target;
        let by_stage = match &job.stage {
            Some(s) => *s == *target,
            None => false,
        };
        proof {
            assert(doc.jobs_view()[i as int] == doc.jobs@[i as int]@);
            assert((by_name || by_stage) == selects(doc.jobs_view()[i as int], target@));
        }
        if by_name || by_stage {
            out.push(job.name.clone());
            proof {
                assert(out.deep_view() =~= out0.push(doc.jobs_view()[i as int].name));
                assert(out0.push(doc.jobs_view()[i as int].name) + select_from(
                    doc.jobs_view(),
                    target@,
                    i + 1 as int,
                ) =~= out0 + select_from(doc.jobs_view(), target@, i as int));
            }
        }
        i = i + 1;
    }
    proof {
        assert(out.deep_view() + Seq::<Seq<char>>::empty() =~= out.deep_view());
    }
    out
}

/// The names of a job list, in declaration order.
pub open spec fn job_names(jobs: Seq<JobView>) -> Seq<Seq<char>> {
    jobs.map_values(|j: JobView| j.name)
}

/// `acc` extended with the names from index `i` on that it does not hold
/// yet, in their order.
pub open spec fn dedup_append(acc: Seq<Seq<char>>, names: Seq<Seq<char>>, i: int) -> Seq<Seq<char>>
    decreases names.len() - i,
    when 0 <= i <= names.len()
{
    if i >= names.len() {
        acc
    } else if acc.contains(names[i]) {
        dedup_append(acc, names, i + 1)
    } else {
        dedup_append(acc.push(names[i]), names, i + 1)
    }
}

/// The discovery listing: `acc` extended with every job name of this
/// document and then, transitively, of its parents, first occurrence kept,
/// duplicates skipped.
pub open spec fn spec_discover(doc: Document, acc: Seq<Seq<char>>) -> Seq<Seq<char>>
    decreases doc,
{
    let here = dedup_append(acc, job_names(doc.jobs_view()), 0);
    match doc.parent {
        Some(p) => spec_discover(*p, here),
        None => here,
    }
}

/// Appends to `results` every job name of the document and of its parent
/// chain that is not already listed, in document order, parents after the
/// document that includes them.
pub fn collect_job_names(doc: &Document, results: &mut Vec<String>)
    ensures
        final(results).deep_view() == spec_discover(*doc, old(results).deep_view()),
    decreases *doc,
{
    let ghost names = job_names(doc.jobs_view());
    let n = doc.jobs.len();
    let mut i: usize = 0;
    while i < n
        invariant
            n == doc.jobs@.len(),
            names == job_names(doc.jobs_view()),
            0 <= i <= n,
            dedup_append(old(results).deep_view(), names, 0) == dedup_append(
                results.deep_view(),
                names,
                i as int,
            ),
        decreases n - i,
    {
        let ghost acc0 = results.deep_view();
        proof {
            assert(names[i as int] == doc.jobs_view()[i as int].name);
        }
        let job = &doc.jobs[i];
        if !path_contains(results, &job.name) {
            results.push(job.name.clone());
            proof {
                assert(results.deep_view() =~= acc0.push(names[i as int]));
            }
        }
        i = i + 1;
    }
    match &doc.parent {
        Some(p) => {
            collect_job_names(p, results);
        },
        None => {},
    }
}

} // verus!
