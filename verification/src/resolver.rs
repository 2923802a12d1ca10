//! The inheritance resolver: merges variables along `extends` chains with
//! the documented precedence (global < grandparent < parent < job, and among
//! listed parents last wins), resolves the command lists by the reverse
//! fallback search, and detects unknown or cyclic `extends` references.
use vstd::prelude::*;
use vstd::set_lib::lemma_len_subset;
use crate::model::{Document, JobRecord, JobView, ResolvedJob, ResolvedView, ResolveError};
use crate::vars::VarMap;

verus! {

/// The index of the first job with the given name, at or after `i`.
pub open spec fn job_idx(jobs: Seq<JobView>, name: Seq<char>, i: int) -> Option<int>
    decreases jobs.len() - i,
    when 0 <= i <= jobs.len()
{
    if i >= jobs.len() {
        None
    } else if jobs[i].name == name {
        Some(i)
    } else {
        job_idx(jobs, name, i + 1)
    }
}

/// The first job with the given name, if any.
pub open spec fn find_job(jobs: Seq<JobView>, name: Seq<char>) -> Option<JobView> {
    match job_idx(jobs, name, 0) {
        Some(k) => Some(jobs[k]),
        None => None,
    }
}

/// Whether some job has the given name.
pub open spec fn has_job(jobs: Seq<JobView>, name: Seq<char>) -> bool {
    find_job(jobs, name) is Some
}

pub proof fn lemma_job_idx(jobs: Seq<JobView>, name: Seq<char>, i: int)
    requires
        0 <= i <= jobs.len(),
    ensures
        match job_idx(jobs, name, i) {
            Some(k) => i <= k < jobs.len() && jobs[k].name == name && forall|m: int|
                i <= m < k ==> (#[trigger] jobs[m]).name != name,
            None => forall|m: int| i <= m < jobs.len() ==> (#[trigger] jobs[m]).name != name,
        },
    decreases jobs.len() - i,
{
    if i < jobs.len() && jobs[i].name != name {
        lemma_job_idx(jobs, name, i + 1);
    }
}

/// A resolution path: the jobs currently being resolved, outermost first.
/// Each entry names a declared job and no job appears twice.
pub open spec fn path_ok(jobs: Seq<JobView>, path: Seq<Seq<char>>) -> bool {
    &&& path.no_duplicates()
    &&& forall|k: int| 0 <= k < path.len() ==> has_job(jobs, #[trigger] path[k])
}

/// A resolution path can never be longer than the job list itself: its
/// entries are distinct names of declared jobs.
pub proof fn lemma_path_len(jobs: Seq<JobView>, path: Seq<Seq<char>>)
    requires
        path_ok(jobs, path),
    ensures
        path.len() <= jobs.len(),
{
    let names = jobs.map_values(|j: JobView| j.name);
    assert forall|k: int| 0 <= k < path.len() implies names.to_set().contains(
        #[trigger] path[k],
    ) by {
        lemma_job_idx(jobs, path[k], 0);
        let m = job_idx(jobs, path[k], 0)->Some_0;
        assert(names[m] == path[k]);
    }
    assert(path.to_set().subset_of(names.to_set()));
    path.unique_seq_to_set();
    names.lemma_cardinality_of_set();
    broadcast use vstd::seq_lib::seq_to_set_is_finite;

    lemma_len_subset(path.to_set(), names.to_set());
}

/// Extending a well-formed path with a declared job not yet on it keeps it
/// well-formed.
pub proof fn lemma_path_push(jobs: Seq<JobView>, path: Seq<Seq<char>>, name: Seq<char>)
    requires
        path_ok(jobs, path),
        !path.contains(name),
        has_job(jobs, name),
    ensures
        path_ok(jobs, path.push(name)),
        path.push(name).len() <= jobs.len(),
{
    let p2 = path.push(name);
    assert(p2.no_duplicates()) by {
        assert(forall|k: int| 0 <= k < path.len() ==> p2[k] == path[k]);
        assert(p2[path.len() as int] == name);
    }
    assert(forall|k: int| 0 <= k < path.len() ==> p2[k] == path[k]);
    lemma_path_len(jobs, p2);
}

/// The merged variables of the job's ancestors and of the job itself, along
/// a resolution path: the parents' merge (earlier-listed parents first, so a
/// later parent overrides an earlier one), overlaid by the job's own
/// declarations. An undeclared name yields `UnknownJob`; a name already on
/// the path yields `CyclicExtends`.
pub open spec fn spec_merge_vars(
    jobs: Seq<JobView>,
    name: Seq<char>,
    path: Seq<Seq<char>>,
) -> Result<Map<Seq<char>, Seq<char>>, ResolveError>
    decreases jobs.len() - path.len(), 0int, 0int,
    when path_ok(jobs, path)
{
    if path.contains(name) {
        Err(ResolveError::CyclicExtends)
    } else {
        match find_job(jobs, name) {
            None => Err(ResolveError::UnknownJob),
            Some(j) => {
                proof {
                    lemma_path_push(jobs, path, name);
                }
                match spec_merge_parents(jobs, j.extends, 0, path.push(name)) {
                    Err(e) => Err(e),
                    Ok(m) => Ok(m.union_prefer_right(j.variables)),
                }
            },
        }
    }
}

/// The merge of the parents listed from index `i` on: each parent is
/// resolved recursively, and the merge of the later parents is overlaid on
/// it, so that the last listed parent wins on conflicting keys.
pub open spec fn spec_merge_parents(
    jobs: Seq<JobView>,
    parents: Seq<Seq<char>>,
    i: int,
    path: Seq<Seq<char>>,
) -> Result<Map<Seq<char>, Seq<char>>, ResolveError>
    decreases jobs.len() - path.len(), 1int, parents.len() - i,
    when path_ok(jobs, path) && 0 <= i <= parents.len()
{
    if i >= parents.len() {
        Ok(Map::empty())
    } else {
        proof {
            lemma_path_len(jobs, path);
        }
        match spec_merge_vars(jobs, parents[i], path) {
            Err(e) => Err(e),
            Ok(mi) => match spec_merge_parents(jobs, parents, i + 1, path) {
                Err(e) => Err(e),
                Ok(rest) => Ok(mi.union_prefer_right(rest)),
            },
        }
    }
}

/// The declared command list of a job: the before-commands or the main
/// commands.
pub open spec fn declared_list(j: JobView, before: bool) -> Option<Seq<Seq<char>>> {
    if before {
        j.before_script
    } else {
        j.script
    }
}

/// The fallback search for a command list: a job's own declaration wins,
/// even a declared empty one; otherwise the listed parents are searched in
/// reverse declaration order, recursively, and the first declaration found
/// is taken. An undeclared or revisited name yields nothing (the variable
/// merge has already rejected such documents).
pub open spec fn spec_find_list(
    jobs: Seq<JobView>,
    name: Seq<char>,
    before: bool,
    path: Seq<Seq<char>>,
) -> Option<Seq<Seq<char>>>
    decreases jobs.len() - path.len(), 0int, 0int,
    when path_ok(jobs, path)
{
    if path.contains(name) {
        None
    } else {
        match find_job(jobs, name) {
            None => None,
            Some(j) => match declared_list(j, before) {
                Some(l) => Some(l),
                None => {
                    proof {
                        lemma_path_push(jobs, path, name);
                    }
                    spec_find_list_parents(
                        jobs,
                        j.extends,
                        j.extends.len() - 1,
                        before,
                        path.push(name),
                    )
                },
            },
        }
    }
}

/// The reverse search over the parents listed up to index `i`: the parent at
/// `i` is tried first, earlier-listed parents only if it yields nothing.
pub open spec fn spec_find_list_parents(
    jobs: Seq<JobView>,
    parents: Seq<Seq<char>>,
    i: int,
    before: bool,
    path: Seq<Seq<char>>,
) -> Option<Seq<Seq<char>>>
    decreases jobs.len() - path.len(), 1int, i + 1,
    when path_ok(jobs, path) && i < parents.len()
{
    if i < 0 {
        None
    } else {
        proof {
            lemma_path_len(jobs, path);
        }
        match spec_find_list(jobs, parents[i], before, path) {
            Some(l) => Some(l),
            None => spec_find_list_parents(jobs, parents, i - 1, before, path),
        }
    }
}

/// The effective command list of a job: what the fallback search finds, or
/// the empty list when no ancestor declares one.
pub open spec fn spec_effective_list(jobs: Seq<JobView>, name: Seq<char>, before: bool) -> Seq<
    Seq<char>,
> {
    match spec_find_list(jobs, name, before, Seq::empty()) {
        Some(l) => l,
        None => Seq::empty(),
    }
}

/// The whole resolution of one job: the merged variables overlaid on the
/// global variables, and the two effective command lists.
pub open spec fn spec_resolve(
    jobs: Seq<JobView>,
    globals: Map<Seq<char>, Seq<char>>,
    name: Seq<char>,
) -> Result<ResolvedView, ResolveError> {
    match spec_merge_vars(jobs, name, Seq::empty()) {
        Err(e) => Err(e),
        Ok(m) => Ok(
            ResolvedView {
                vars: globals.union_prefer_right(m),
                before: spec_effective_list(jobs, name, true),
                script: spec_effective_list(jobs, name, false),
            },
        ),
    }
}

/// A job with no `extends` resolves to the global variables overlaid by its
/// own declarations alone: inheritance contributes nothing.
pub proof fn lemma_no_extends_vars(
    jobs: Seq<JobView>,
    globals: Map<Seq<char>, Seq<char>>,
    name: Seq<char>,
    j: JobView,
)
    requires
        find_job(jobs, name) == Some(j),
        j.extends.len() == 0,
    ensures
        spec_merge_vars(jobs, name, Seq::empty()) == Ok::<_, ResolveError>(j.variables),
        spec_resolve(jobs, globals, name) matches Ok(rv) && rv.vars == globals.union_prefer_right(
            j.variables,
        ),
{
    let p0 = Seq::<Seq<char>>::empty();
    assert(path_ok(jobs, p0));
    assert(!p0.contains(name));
    lemma_path_push(jobs, p0, name);
    let p1 = p0.push(name);
    assert(spec_merge_parents(jobs, j.extends, 0, p1) == Ok::<_, ResolveError>(
        Map::<Seq<char>, Seq<char>>::empty(),
    ));
    assert(Map::<Seq<char>, Seq<char>>::empty().union_prefer_right(j.variables) =~= j.variables);
}

/// Precedence along a chain `a extends [b]`, `b extends [c]`: a key
/// declared in `c` reaches `a`'s effective variables; a redeclaration in
/// `b` overrides `c`'s value; `a`'s own declaration overrides both.
pub proof fn lemma_chain_precedence(
    jobs: Seq<JobView>,
    globals: Map<Seq<char>, Seq<char>>,
    a: Seq<char>,
    b: Seq<char>,
    c: Seq<char>,
    ja: JobView,
    jb: JobView,
    jc: JobView,
    key: Seq<char>,
)
    requires
        find_job(jobs, a) == Some(ja),
        ja.extends == seq![b],
        find_job(jobs, b) == Some(jb),
        jb.extends == seq![c],
        find_job(jobs, c) == Some(jc),
        jc.extends.len() == 0,
        a != b,
        a != c,
        b != c,
    ensures
        spec_resolve(jobs, globals, a) matches Ok(rv) && ({
            &&& jc.variables.contains_key(key) ==> rv.vars.contains_key(key)
            &&& ja.variables.contains_key(key) ==> rv.vars[key] == ja.variables[key]
            &&& !ja.variables.contains_key(key) && jb.variables.contains_key(key) ==> rv.vars[key]
                == jb.variables[key]
            &&& !ja.variables.contains_key(key) && !jb.variables.contains_key(key)
                && jc.variables.contains_key(key) ==> rv.vars[key] == jc.variables[key]
        }),
{
    let p0 = Seq::<Seq<char>>::empty();
    assert(path_ok(jobs, p0));
    assert(!p0.contains(a));
    lemma_path_push(jobs, p0, a);
    let p1 = p0.push(a);
    assert(!p1.contains(b)) by {
        assert(forall|i: int| 0 <= i < p1.len() ==> p1[i] == a);
    }
    lemma_path_push(jobs, p1, b);
    let p2 = p1.push(b);
    assert(!p2.contains(c)) by {
        assert(p2[0] == a);
        assert(p2[1] == b);
        assert(forall|i: int| 0 <= i < p2.len() ==> p2[i] == a || p2[i] == b);
    }
    lemma_path_push(jobs, p2, c);
    let p3 = p2.push(c);
    assert(spec_merge_parents(jobs, jc.extends, 0, p3) == Ok::<_, ResolveError>(
        Map::<Seq<char>, Seq<char>>::empty(),
    ));
    assert(Map::<Seq<char>, Seq<char>>::empty().union_prefer_right(jc.variables)
        =~= jc.variables);
    assert(spec_merge_vars(jobs, c, p2) == Ok::<_, ResolveError>(jc.variables));
    assert(spec_merge_parents(jobs, jb.extends, 1, p2) == Ok::<_, ResolveError>(
        Map::<Seq<char>, Seq<char>>::empty(),
    ));
    assert(jc.variables.union_prefer_right(Map::<Seq<char>, Seq<char>>::empty())
        =~= jc.variables);
    assert(spec_merge_parents(jobs, jb.extends, 0, p2) == Ok::<_, ResolveError>(jc.variables));
    let mb = jc.variables.union_prefer_right(jb.variables);
    assert(spec_merge_vars(jobs, b, p1) == Ok::<_, ResolveError>(mb));
    assert(spec_merge_parents(jobs, ja.extends, 1, p1) == Ok::<_, ResolveError>(
        Map::<Seq<char>, Seq<char>>::empty(),
    ));
    assert(mb.union_prefer_right(Map::<Seq<char>, Seq<char>>::empty()) =~= mb);
    assert(spec_merge_parents(jobs, ja.extends, 0, p1) == Ok::<_, ResolveError>(mb));
    let ma = mb.union_prefer_right(ja.variables);
    assert(spec_merge_vars(jobs, a, p0) == Ok::<_, ResolveError>(ma));
}

/// A two-job `extends` cycle is detected as `CyclicExtends`; the recursive
/// definitions themselves terminate on every input, so detection never
/// loops.
pub proof fn lemma_cycle_detected(
    jobs: Seq<JobView>,
    globals: Map<Seq<char>, Seq<char>>,
    a: Seq<char>,
    b: Seq<char>,
    ja: JobView,
    jb: JobView,
)
    requires
        find_job(jobs, a) == Some(ja),
        ja.extends == seq![b],
        find_job(jobs, b) == Some(jb),
        jb.extends == seq![a],
        a != b,
    ensures
        spec_resolve(jobs, globals, a) == Err::<ResolvedView, ResolveError>(
            ResolveError::CyclicExtends,
        ),
{
    let p0 = Seq::<Seq<char>>::empty();
    assert(path_ok(jobs, p0));
    assert(!p0.contains(a));
    lemma_path_push(jobs, p0, a);
    let p1 = p0.push(a);
    assert(!p1.contains(b)) by {
        assert(forall|i: int| 0 <= i < p1.len() ==> p1[i] == a);
    }
    lemma_path_push(jobs, p1, b);
    let p2 = p1.push(b);
    assert(p2.contains(a)) by {
        assert(p2[0] == a);
    }
    assert(spec_merge_vars(jobs, a, p2) == Err::<Map<Seq<char>, Seq<char>>, ResolveError>(
        ResolveError::CyclicExtends,
    ));
    assert(spec_merge_parents(jobs, jb.extends, 0, p2) == Err::<
        Map<Seq<char>, Seq<char>>,
        ResolveError,
    >(ResolveError::CyclicExtends));
    assert(spec_merge_vars(jobs, b, p1) == Err::<Map<Seq<char>, Seq<char>>, ResolveError>(
        ResolveError::CyclicExtends,
    ));
    assert(spec_merge_parents(jobs, ja.extends, 0, p1) == Err::<
        Map<Seq<char>, Seq<char>>,
        ResolveError,
    >(ResolveError::CyclicExtends));
    assert(spec_merge_vars(jobs, a, p0) == Err::<Map<Seq<char>, Seq<char>>, ResolveError>(
        ResolveError::CyclicExtends,
    ));
}

/// A cycle closed only transitively — `a extends [b]`, `b extends [c]`,
/// `c extends [a]` — is detected as `CyclicExtends` too.
pub proof fn lemma_transitive_cycle_detected(
    jobs: Seq<JobView>,
    globals: Map<Seq<char>, Seq<char>>,
    a: Seq<char>,
    b: Seq<char>,
    c: Seq<char>,
    ja: JobView,
    jb: JobView,
    jc: JobView,
)
    requires
        find_job(jobs, a) == Some(ja),
        ja.extends == seq![b],
        find_job(jobs, b) == Some(jb),
        jb.extends == seq![c],
        find_job(jobs, c) == Some(jc),
        jc.extends == seq![a],
        a != b,
        a != c,
        b != c,
    ensures
        spec_resolve(jobs, globals, a) == Err::<ResolvedView, ResolveError>(
            ResolveError::CyclicExtends,
        ),
{
    let p0 = Seq::<Seq<char>>::empty();
    assert(path_ok(jobs, p0));
    assert(!p0.contains(a));
    lemma_path_push(jobs, p0, a);
    let p1 = p0.push(a);
    assert(!p1.contains(b)) by {
        assert(forall|i: int| 0 <= i < p1.len() ==> p1[i] == a);
    }
    lemma_path_push(jobs, p1, b);
    let p2 = p1.push(b);
    assert(!p2.contains(c)) by {
        assert(p2[0] == a);
        assert(p2[1] == b);
        assert(forall|i: int| 0 <= i < p2.len() ==> p2[i] == a || p2[i] == b);
    }
    lemma_path_push(jobs, p2, c);
    let p3 = p2.push(c);
    assert(p3.contains(a)) by {
        assert(p3[0] == a);
    }
    assert(spec_merge_vars(jobs, a, p3) == Err::<Map<Seq<char>, Seq<char>>, ResolveError>(
        ResolveError::CyclicExtends,
    ));
    assert(spec_merge_parents(jobs, jc.extends, 0, p3) == Err::<
        Map<Seq<char>, Seq<char>>,
        ResolveError,
    >(ResolveError::CyclicExtends));
    assert(spec_merge_vars(jobs, c, p2) == Err::<Map<Seq<char>, Seq<char>>, ResolveError>(
        ResolveError::CyclicExtends,
    ));
    assert(spec_merge_parents(jobs, jb.extends, 0, p2) == Err::<
        Map<Seq<char>, Seq<char>>,
        ResolveError,
    >(ResolveError::CyclicExtends));
    assert(spec_merge_vars(jobs, b, p1) == Err::<Map<Seq<char>, Seq<char>>, ResolveError>(
        ResolveError::CyclicExtends,
    ));
    assert(spec_merge_parents(jobs, ja.extends, 0, p1) == Err::<
        Map<Seq<char>, Seq<char>>,
        ResolveError,
    >(ResolveError::CyclicExtends));
    assert(spec_merge_vars(jobs, a, p0) == Err::<Map<Seq<char>, Seq<char>>, ResolveError>(
        ResolveError::CyclicExtends,
    ));
}

/// An `extends` walk: each entry names a declared job whose `extends` list
/// holds the next entry.
pub open spec fn is_walk(jobs: Seq<JobView>, w: Seq<Seq<char>>) -> bool {
    forall|i: int|
        0 <= i < w.len() - 1 ==> ((#[trigger] find_job(jobs, w[i])) matches Some(j)
            && j.extends.contains(w[i + 1]))
}

/// When the merge of the parents from index `i` on succeeds, the merge of
/// each of those parents succeeded.
proof fn lemma_merge_parents_all_ok(
    jobs: Seq<JobView>,
    parents: Seq<Seq<char>>,
    i: int,
    path: Seq<Seq<char>>,
)
    requires
        path_ok(jobs, path),
        0 <= i <= parents.len(),
        spec_merge_parents(jobs, parents, i, path) is Ok,
    ensures
        forall|k: int|
            i <= k < parents.len() ==> spec_merge_vars(jobs, #[trigger] parents[k], path) is Ok,
    decreases jobs.len() - path.len(), 1int, parents.len() - i,
{
    lemma_path_len(jobs, path);
    if i < parents.len() {
        lemma_merge_parents_all_ok(jobs, parents, i + 1, path);
    }
}

/// From a job whose variable merge succeeds, no `extends` walk leads back
/// to the job itself or to any job on the current resolution path.
pub proof fn lemma_ok_walk_avoids_path(
    jobs: Seq<JobView>,
    path: Seq<Seq<char>>,
    w: Seq<Seq<char>>,
)
    requires
        path_ok(jobs, path),
        w.len() >= 1,
        is_walk(jobs, w),
        spec_merge_vars(jobs, w[0], path) is Ok,
    ensures
        forall|i: int| 1 <= i < w.len() ==> #[trigger] w[i] != w[0] && !path.contains(w[i]),
    decreases w.len(),
{
    let n = w[0];
    assert(!path.contains(n));
    assert(find_job(jobs, n) is Some);
    let j = find_job(jobs, n)->Some_0;
    lemma_path_push(jobs, path, n);
    let p1 = path.push(n);
    assert(p1.contains(n)) by {
        assert(p1[path.len() as int] == n);
    }
    assert(spec_merge_parents(jobs, j.extends, 0, p1) is Ok);
    lemma_merge_parents_all_ok(jobs, j.extends, 0, p1);
    if w.len() >= 2 {
        let p = w[1];
        assert(find_job(jobs, w[0]) matches Some(jj) && jj.extends.contains(w[1]));
        let k = choose|k: int| 0 <= k < j.extends.len() && j.extends[k] == p;
        assert(spec_merge_vars(jobs, j.extends[k], p1) is Ok);
        assert(spec_merge_vars(jobs, p, p1) is Ok);
        assert(!p1.contains(p));
        let w2 = w.subrange(1, w.len() as int);
        assert(is_walk(jobs, w2)) by {
            assert forall|i: int|
                0 <= i < w2.len() - 1 implies (#[trigger] find_job(jobs, w2[i])) matches Some(jj)
                && jj.extends.contains(w2[i + 1]) by {
                assert(w2[i] == w[i + 1]);
                assert(w2[i + 1] == w[i + 2]);
                assert(find_job(jobs, w[i + 1]) matches Some(jj) && jj.extends.contains(w[i + 2]));
            }
        }
        assert(w2[0] == p);
        lemma_ok_walk_avoids_path(jobs, p1, w2);
        assert forall|i: int| 1 <= i < w.len() implies #[trigger] w[i] != n && !path.contains(
            w[i],
        ) by {
            if i == 1 {
                assert(w[i] == p);
                assert(path.contains(p) ==> p1.contains(p)) by {
                    if path.contains(p) {
                        let m = choose|m: int| 0 <= m < path.len() && path[m] == p;
                        assert(p1[m] == p);
                    }
                }
            } else {
                assert(w[i] == w2[i - 1]);
                assert(w2[i - 1] != w2[0] && !p1.contains(w2[i - 1]));
                assert(w[i] != n);
                assert(path.contains(w[i]) ==> p1.contains(w[i])) by {
                    if path.contains(w[i]) {
                        let m = choose|m: int| 0 <= m < path.len() && path[m] == w[i];
                        assert(p1[m] == w[i]);
                    }
                }
            }
        }
    }
}

/// A job that an `extends` walk leads back to — directly or through any
/// number of intermediaries — can never be resolved: resolution reports an
/// error, and (the recursion being well-founded) it cannot loop forever
/// either.
pub proof fn lemma_cyclic_walk_never_resolves(
    jobs: Seq<JobView>,
    globals: Map<Seq<char>, Seq<char>>,
    w: Seq<Seq<char>>,
)
    requires
        w.len() >= 2,
        is_walk(jobs, w),
        w[0] == w[w.len() - 1],
    ensures
        spec_resolve(jobs, globals, w[0]) is Err,
{
    let p0 = Seq::<Seq<char>>::empty();
    assert(path_ok(jobs, p0));
    if spec_merge_vars(jobs, w[0], p0) is Ok {
        lemma_ok_walk_avoids_path(jobs, p0, w);
        assert(w[w.len() - 1] != w[0]);
        assert(false);
    }
}

/// A job's own command-list declaration is the effective list — even a
/// declared-empty one, which therefore suppresses anything an ancestor
/// declares: inheritance is not consulted.
pub proof fn lemma_declared_list_wins(
    jobs: Seq<JobView>,
    name: Seq<char>,
    j: JobView,
    before: bool,
    l: Seq<Seq<char>>,
)
    requires
        find_job(jobs, name) == Some(j),
        declared_list(j, before) == Some(l),
    ensures
        spec_find_list(jobs, name, before, Seq::empty()) == Some(l),
        spec_effective_list(jobs, name, before) == l,
{
    let p0 = Seq::<Seq<char>>::empty();
    assert(path_ok(jobs, p0));
    assert(!p0.contains(name));
}

/// A job that declares its main commands as the empty list has the empty
/// effective list, whatever its ancestors declare.
pub proof fn lemma_declared_empty_script(jobs: Seq<JobView>, name: Seq<char>, j: JobView)
    requires
        find_job(jobs, name) == Some(j),
        j.script == Some(Seq::<Seq<char>>::empty()),
    ensures
        spec_effective_list(jobs, name, false) == Seq::<Seq<char>>::empty(),
{
    lemma_declared_list_wins(jobs, name, j, false, Seq::empty());
}

/// The fallback order over two parents `[p, q]`, neither of which extends
/// further: the last-listed parent `q` is searched first, `p` only when
/// `q` declares nothing, and the search yields nothing when neither does.
pub proof fn lemma_two_parent_fallback(
    jobs: Seq<JobView>,
    name: Seq<char>,
    j: JobView,
    p: Seq<char>,
    q: Seq<char>,
    jp: JobView,
    jq: JobView,
    before: bool,
)
    requires
        find_job(jobs, name) == Some(j),
        j.extends == seq![p, q],
        declared_list(j, before) is None,
        find_job(jobs, p) == Some(jp),
        jp.extends.len() == 0,
        find_job(jobs, q) == Some(jq),
        jq.extends.len() == 0,
        name != p,
        name != q,
    ensures
        declared_list(jq, before) matches Some(l) ==> spec_find_list(
            jobs,
            name,
            before,
            Seq::empty(),
        ) == Some(l),
        declared_list(jq, before) is None ==> (declared_list(jp, before) matches Some(l)
            ==> spec_find_list(jobs, name, before, Seq::empty()) == Some(l)),
        declared_list(jq, before) is None && declared_list(jp, before) is None ==> spec_find_list(
            jobs,
            name,
            before,
            Seq::empty(),
        ) is None,
{
    let p0 = Seq::<Seq<char>>::empty();
    assert(path_ok(jobs, p0));
    assert(!p0.contains(name));
    lemma_path_push(jobs, p0, name);
    let p1 = p0.push(name);
    assert(!p1.contains(q) && !p1.contains(p)) by {
        assert(forall|i: int| 0 <= i < p1.len() ==> p1[i] == name);
    }
    assert(j.extends[1] == q);
    assert(j.extends[0] == p);
    if declared_list(jq, before) is None {
        lemma_path_push(jobs, p1, q);
        assert(spec_find_list_parents(jobs, jq.extends, -1, before, p1.push(q)) is None);
        assert(spec_find_list(jobs, q, before, p1) is None);
        assert(spec_find_list_parents(jobs, j.extends, 1, before, p1) == spec_find_list_parents(
            jobs,
            j.extends,
            0,
            before,
            p1,
        ));
        match declared_list(jp, before) {
            Some(lp) => {
                assert(spec_find_list(jobs, p, before, p1) == Some(lp));
                assert(spec_find_list_parents(jobs, j.extends, 0, before, p1) == Some(lp));
                assert(spec_find_list(jobs, name, before, p0) == Some(lp));
            },
            None => {
                lemma_path_push(jobs, p1, p);
                assert(spec_find_list_parents(jobs, jp.extends, -1, before, p1.push(p)) is None);
                assert(spec_find_list(jobs, p, before, p1) is None);
                assert(spec_find_list_parents(jobs, j.extends, -1, before, p1) is None);
                assert(spec_find_list_parents(jobs, j.extends, 0, before, p1) is None);
                assert(spec_find_list(jobs, name, before, p0) is None);
            },
        }
    }
}

/// No variable is ever removed by resolution: every key of the global
/// variables is still bound in a resolved job's effective variables (its
/// value possibly overridden, never dropped).
pub proof fn lemma_globals_preserved(
    jobs: Seq<JobView>,
    globals: Map<Seq<char>, Seq<char>>,
    name: Seq<char>,
)
    ensures
        spec_resolve(jobs, globals, name) matches Ok(rv) ==> forall|k: Seq<char>|
            globals.contains_key(k) ==> #[trigger] rv.vars.contains_key(k),
{
}

/// A found command list is exactly one ancestor's declaration: the search
/// never splices lines from two jobs together.
pub proof fn lemma_list_from_one_declarer(
    jobs: Seq<JobView>,
    name: Seq<char>,
    before: bool,
    path: Seq<Seq<char>>,
)
    requires
        path_ok(jobs, path),
    ensures
        spec_find_list(jobs, name, before, path) matches Some(l) ==> exists|j: JobView|
            #[trigger] jobs.contains(j) && declared_list(j, before) == Some(l),
    decreases jobs.len() - path.len(), 0int, 0int,
{
    lemma_path_len(jobs, path);
    if !path.contains(name) {
        match find_job(jobs, name) {
            None => {},
            Some(j) => {
                lemma_job_idx(jobs, name, 0);
                let k = job_idx(jobs, name, 0)->Some_0;
                assert(jobs[k] == j);
                assert(jobs.contains(j));
                match declared_list(j, before) {
                    Some(l) => {},
                    None => {
                        lemma_path_push(jobs, path, name);
                        lemma_list_parents_from_one_declarer(
                            jobs,
                            j.extends,
                            j.extends.len() - 1,
                            before,
                            path.push(name),
                        );
                    },
                }
            },
        }
    }
}

/// The parents' reverse search yields, when it yields at all, exactly one
/// ancestor's declaration.
pub proof fn lemma_list_parents_from_one_declarer(
    jobs: Seq<JobView>,
    parents: Seq<Seq<char>>,
    i: int,
    before: bool,
    path: Seq<Seq<char>>,
)
    requires
        path_ok(jobs, path),
        i < parents.len(),
    ensures
        spec_find_list_parents(jobs, parents, i, before, path) matches Some(l) ==> exists|
            j: JobView,
        | #[trigger] jobs.contains(j) && declared_list(j, before) == Some(l),
    decreases jobs.len() - path.len(), 1int, i + 1,
{
    lemma_path_len(jobs, path);
    if i >= 0 {
        match spec_find_list(jobs, parents[i], before, path) {
            Some(l) => {
                lemma_list_from_one_declarer(jobs, parents[i], before, path);
            },
            None => {
                lemma_list_parents_from_one_declarer(jobs, parents, i - 1, before, path);
            },
        }
    }
}

/// The mathematical content of a variable-merge result.
pub open spec fn vm_res_view(r: Result<VarMap, ResolveError>) -> Result<
    Map<Seq<char>, Seq<char>>,
    ResolveError,
> {
    match r {
        Ok(m) => Ok(m@),
        Err(e) => Err(e),
    }
}

/// The mathematical content of an optional command list.
pub open spec fn olist_view(r: Option<Vec<String>>) -> Option<Seq<Seq<char>>> {
    match r {
        Some(v) => Some(v.deep_view()),
        None => None,
    }
}

/// The mathematical content of a resolution result.
pub open spec fn resolved_res_view(r: Result<ResolvedJob, ResolveError>) -> Result<
    ResolvedView,
    ResolveError,
> {
    match r {
        Ok(x) => Ok(x@),
        Err(e) => Err(e),
    }
}

/// An element-wise copy of a list of strings.
fn clone_strings(v: &Vec<String>) -> (r: Vec<String>)
    ensures
        r@ == v@,
{
    let n = v.len();
    let mut out: Vec<String> = Vec::new();
    let mut i: usize = 0;
    while i < n
        invariant
            n == v@.len(),
            0 <= i <= n,
            out@ == v@.take(i as int),
        decreases n - i,
    {
        out.push(v[i].clone());
        proof {
            assert(v@.take(i + 1 as int) =~= v@.take(i as int).push(v@[i as int]));
        }
        i = i + 1;
    }
    proof {
        assert(v@.take(n as int) =~= v@);
    }
    out
}

/// Whether a list of names already holds a name.
pub(crate) fn path_contains(path: &Vec<String>, name: &String) -> (r: bool)
    ensures
        r == path.deep_view().contains(name@),
{
    let n = path.len();
    let mut i: usize = 0;
    while i < n
        invariant
            n == path@.len(),
            0 <= i <= n,
            forall|j: int| 0 <= j < i ==> path.deep_view()[j] != name@,
        decreases n - i,
    {
        if path[i] == *name {
            proof {
                assert(path.deep_view()[i as int] == name@);
            }
            return true;
        }
        i = i + 1;
    }
    proof {
        assert(forall|j: int| 0 <= j < path.deep_view().len() ==> path.deep_view()[j] != name@);
    }
    false
}

impl Document {
    /// The first job with the given name, if the document declares one.
    pub fn lookup_job(&self, name: &String) -> (r: Option<&JobRecord>)
        ensures
            match r {
                Some(j) => find_job(self.jobs_view(), name@) == Some(j@) && exists|k: int|
                    0 <= k < self.jobs@.len() && *j == #[trigger] self.jobs@[k],
                None => find_job(self.jobs_view(), name@) is None,
            },
    {
        let n = self.jobs.len();
        let mut i: usize = 0;
        while i < n
            invariant
                n == self.jobs@.len(),
                0 <= i <= n,
                job_idx(self.jobs_view(), name@, 0) == job_idx(self.jobs_view(), name@, i as int),
            decreases n - i,
        {
            if self.jobs[i].name == *name {
                proof {
                    assert(self.jobs_view()[i as int].name == name@);
                    assert(job_idx(self.jobs_view(), name@, i as int) == Some(i as int));
                }
                return Some(&self.jobs[i]);
            }
            proof {
                assert(self.jobs_view()[i as int].name != name@);
            }
            i = i + 1;
        }
        None
    }
}

/// Merges the variables of a job and its ancestors, as `spec_merge_vars`
/// states.
fn merge_vars_rec(doc: &Document, name: &String, path: &Vec<String>) -> (r: Result<
    VarMap,
    ResolveError,
>)
    requires
        doc.wf(),
        path_ok(doc.jobs_view(), path.deep_view()),
    ensures
        vm_res_view(r) == spec_merge_vars(doc.jobs_view(), name@, path.deep_view()),
        r matches Ok(m) ==> m.wf(),
    decreases doc.jobs@.len() - path@.len(), 0int, 0int,
{
    proof {
        lemma_path_len(doc.jobs_view(), path.deep_view());
    }
    if path_contains(path, name) {
        return Err(ResolveError::CyclicExtends);
    }
    match doc.lookup_job(name) {
        None => Err(ResolveError::UnknownJob),
        Some(job) => {
            proof {
                let k = choose|k: int| 0 <= k < doc.jobs@.len() && *job == #[trigger] doc.jobs@[k];
                assert(doc.jobs@[k].variables.wf());
            }
            let mut path2 = clone_strings(path);
            path2.push(name.clone());
            proof {
                assert(path2.deep_view() =~= path.deep_view().push(name@));
                lemma_path_push(doc.jobs_view(), path.deep_view(), name@);
            }
            match merge_parents_rec(doc, &job.extends, 0, &path2) {
                Err(e) => Err(e),
                Ok(m) => {
                    let mut acc = m;
                    acc.overlay(&job.variables);
                    Ok(acc)
                },
            }
        },
    }
}

/// Merges the parents listed from index `i` on, as `spec_merge_parents`
/// states.
fn merge_parents_rec(doc: &Document, parents: &Vec<String>, i: usize, path: &Vec<String>) -> (r:
    Result<VarMap, ResolveError>)
    requires
        doc.wf(),
        path_ok(doc.jobs_view(), path.deep_view()),
        i <= parents@.len(),
    ensures
        vm_res_view(r) == spec_merge_parents(
            doc.jobs_view(),
            parents.deep_view(),
            i as int,
            path.deep_view(),
        ),
        r matches Ok(m) ==> m.wf(),
    decreases doc.jobs@.len() - path@.len(), 1int, parents@.len() - i,
{
    proof {
        lemma_path_len(doc.jobs_view(), path.deep_view());
    }
    if i >= parents.len() {
        Ok(VarMap::new())
    } else {
        match merge_vars_rec(doc, &parents[i], path) {
            Err(e) => Err(e),
            Ok(mi) => match merge_parents_rec(doc, parents, i + 1, path) {
                Err(e) => Err(e),
                Ok(rest) => {
                    let mut acc = mi;
                    acc.overlay(&rest);
                    Ok(acc)
                },
            },
        }
    }
}

/// Searches for a command list, as `spec_find_list` states.
fn find_list_rec(doc: &Document, name: &String, before: bool, path: &Vec<String>) -> (r: Option<
    Vec<String>,
>)
    requires
        doc.wf(),
        path_ok(doc.jobs_view(), path.deep_view()),
    ensures
        olist_view(r) == spec_find_list(doc.jobs_view(), name@, before, path.deep_view()),
    decreases doc.jobs@.len() - path@.len(), 0int, 0int,
{
    proof {
        lemma_path_len(doc.jobs_view(), path.deep_view());
    }
    if path_contains(path, name) {
        return None;
    }
    match doc.lookup_job(name) {
        None => None,
        Some(job) => {
            let declared = if before {
                &job.before_script
            } else {
                &job.script
            };
            match declared {
                Some(l) => Some(clone_strings(l)),
                None => {
                    let mut path2 = clone_strings(path);
                    path2.push(name.clone());
                    proof {
                        assert(path2.deep_view() =~= path.deep_view().push(name@));
                        lemma_path_push(doc.jobs_view(), path.deep_view(), name@);
                    }
                    find_list_parents_rec(doc, &job.extends, job.extends.len(), before, &path2)
                },
            }
        },
    }
}

/// Searches the `remaining` first-listed parents, last of them first, as
/// `spec_find_list_parents` states.
fn find_list_parents_rec(
    doc: &Document,
    parents: &Vec<String>,
    remaining: usize,
    before: bool,
    path: &Vec<String>,
) -> (r: Option<Vec<String>>)
    requires
        doc.wf(),
        path_ok(doc.jobs_view(), path.deep_view()),
        remaining <= parents@.len(),
    ensures
        olist_view(r) == spec_find_list_parents(
            doc.jobs_view(),
            parents.deep_view(),
            remaining as int - 1,
            before,
            path.deep_view(),
        ),
    decreases doc.jobs@.len() - path@.len(), 1int, remaining,
{
    proof {
        lemma_path_len(doc.jobs_view(), path.deep_view());
    }
    if remaining == 0 {
        None
    } else {
        let i = remaining - 1;
        match find_list_rec(doc, &parents[i], before, path) {
            Some(l) => Some(l),
            None => find_list_parents_rec(doc, parents, i, before, path),
        }
    }
}

/// Resolves one job of the document: its effective variables under the
/// documented precedence, and its two effective command lists. Fails with
/// `UnknownJob` when the name, or an `extends` reference reached from it,
/// names no declared job, and with `CyclicExtends` when following `extends`
/// revisits a job on the resolution path.
pub fn resolve(doc: &Document, job_name: &String) -> (r: Result<ResolvedJob, ResolveError>)
    requires
        doc.wf(),
    ensures
        resolved_res_view(r) == spec_resolve(doc.jobs_view(), doc.global_variables@, job_name@),
        r matches Ok(rj) ==> rj.effective_variables.wf(),
{
    let path: Vec<String> = Vec::new();
    proof {
        assert(path.deep_view() =~= Seq::<Seq<char>>::empty());
    }
    match merge_vars_rec(doc, job_name, &path) {
        Err(e) => Err(e),
        Ok(m) => {
            let mut vars = doc.global_variables.duplicate();
            vars.overlay(&m);
            let before = match find_list_rec(doc, job_name, true, &path) {
                Some(l) => l,
                None => {
                    let v: Vec<String> = Vec::new();
                    proof {
                        assert(v.deep_view() =~= Seq::<Seq<char>>::empty());
                    }
                    v
                },
            };
            let script = match find_list_rec(doc, job_name, false, &path) {
                Some(l) => l,
                None => {
                    let v: Vec<String> = Vec::new();
                    proof {
                        assert(v.deep_view() =~= Seq::<Seq<char>>::empty());
                    }
                    v
                },
            };
            Ok(
                ResolvedJob {
                    effective_variables: vars,
                    effective_before_script: before,
                    effective_script: script,
                },
            )
        },
    }
}

/// The before-commands that apply to a job, if any ancestor declares them:
/// the job's own declaration, or the reverse fallback search over its
/// parents.
pub fn get_before_script(doc: &Document, job_name: &String) -> (r: Option<Vec<String>>)
    requires
        doc.wf(),
    ensures
        olist_view(r) == spec_find_list(doc.jobs_view(), job_name@, true, Seq::empty()),
{
    let path: Vec<String> = Vec::new();
    proof {
        assert(path.deep_view() =~= Seq::<Seq<char>>::empty());
    }
    find_list_rec(doc, job_name, true, &path)
}

/// The main commands that apply to a job, if any ancestor declares them.
pub fn get_script(doc: &Document, job_name: &String) -> (r: Option<Vec<String>>)
    requires
        doc.wf(),
    ensures
        olist_view(r) == spec_find_list(doc.jobs_view(), job_name@, false, Seq::empty()),
{
    let path: Vec<String> = Vec::new();
    proof {
        assert(path.deep_view() =~= Seq::<Seq<char>>::empty());
    }
    find_list_rec(doc, job_name, false, &path)
}

} // verus!
