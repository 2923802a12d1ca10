//! The execution driver's pure part: assembles the environment a job runs
//! under and expands its command lines, in order, ready for a process
//! spawner to execute one after the other.
use vstd::prelude::*;
use crate::expand::{expand, spec_expand};
use crate::model::{Document, ResolvedJob, ResolvedView, ResolveError};
use crate::resolver::{resolve, resolved_res_view, spec_resolve};
use crate::vars::VarMap;

verus! {

/// Everything needed to run one job: the environment handed to every
/// spawned command, and the expanded command lines, before-commands first,
/// in declared order.
pub struct JobPlan {
    pub env: VarMap,
    pub lines: Vec<String>,
}

/// Expands each source line against the lookup mapping and appends the
/// results, in order.
fn append_expanded(lines: &mut Vec<String>, src: &Vec<String>, lookup: &VarMap)
    requires
        lookup.wf(),
    ensures
        final(lines).deep_view() == old(lines).deep_view() + src.deep_view().map_values(
            |l: Seq<char>| spec_expand(l, lookup@),
        ),
{
    let ghost base = lines.deep_view();
    let ghost f = |l: Seq<char>| spec_expand(l, lookup@);
    let n = src.len();
    let mut i: usize = 0;
    while i < n
        invariant
            lookup.wf(),
            n == src@.len(),
            0 <= i <= n,
            lines.deep_view() == base + src.deep_view().take(i as int).map_values(f),
            f == (|l: Seq<char>| spec_expand(l, lookup@)),
        decreases n - i,
    {
        let ghost dv0 = lines.deep_view();
        let expanded = expand(src[i].as_str(), lookup);
        lines.push(expanded);
        proof {
            assert(lines.deep_view() =~= dv0.push(f(src.deep_view()[i as int])));
            assert(src.deep_view().take(i + 1 as int).map_values(f) =~= src.deep_view().take(
                i as int,
            ).map_values(f).push(f(src.deep_view()[i as int])));
            assert(dv0.push(f(src.deep_view()[i as int])) =~= base + src.deep_view().take(
                i + 1 as int,
            ).map_values(f));
        }
        i = i + 1;
    }
    proof {
        assert(src.deep_view().take(n as int) =~= src.deep_view());
    }
}

/// Plans one job of the document. The environment overlays, in increasing
/// precedence, the runner's predefined variables, the document's global
/// variables, and the job's effective variables; each command line is
/// expanded against that environment, falling back to the ambient process
/// environment for names it does not bind. Resolution failures pass
/// through unchanged.
pub fn plan_job(doc: &Document, job_name: &String, predefined: &VarMap, ambient: &VarMap) -> (r:
    Result<JobPlan, ResolveError>)
    requires
        doc.wf(),
        predefined.wf(),
        ambient.wf(),
    ensures
        ({
            let s = spec_resolve(doc.jobs_view(), doc.global_variables@, job_name@);
            match r {
                Ok(p) => s matches Ok(rv) && ({
                    let env = predefined@.union_prefer_right(
                        doc.global_variables@,
                    ).union_prefer_right(rv.vars);
                    let lookup = ambient@.union_prefer_right(env);
                    &&& p.env@ == env
                    &&& p.env.wf()
                    &&& p.lines.deep_view() == (rv.before + rv.script).map_values(
                        |l: Seq<char>| spec_expand(l, lookup),
                    )
                }),
                Err(e) => s == Err::<ResolvedView, ResolveError>(e),
            }
        }),
{
    match resolve(doc, job_name) {
        Err(e) => Err(e),
        Ok(rj) => {
            let mut env = predefined.duplicate();
            env.overlay(&doc.global_variables);
            env.overlay(&rj.effective_variables);
            let mut lookup = ambient.duplicate();
            lookup.overlay(&env);
            let mut lines: Vec<String> = Vec::new();
            proof {
                assert(lines.deep_view() =~= Seq::<Seq<char>>::empty());
            }
            append_expanded(&mut lines, &rj.effective_before_script, &lookup);
            append_expanded(&mut lines, &rj.effective_script, &lookup);
            proof {
                let rv = resolved_res_view(Ok::<ResolvedJob, ResolveError>(rj))->Ok_0;
                let f = |l: Seq<char>| spec_expand(l, lookup@);
                assert(Seq::<Seq<char>>::empty() + rv.before.map_values(f) =~= rv.before.map_values(
                    f,
                ));
                assert((rv.before + rv.script).map_values(f) =~= rv.before.map_values(f)
                    + rv.script.map_values(f));
            }
            Ok(JobPlan { env, lines })
        },
    }
}

} // verus!
