//! The raw record model: one job as declared in the document, and the whole
//! document, together with their mathematical views.
use vstd::prelude::*;
use crate::vars::VarMap;

verus! {

/// One job as declared in the document. An absent command list means "not
/// declared here", distinct from a declared empty list; `extends` names the
/// parents in declaration order.
pub struct JobRecord {
    pub name: String,
    pub stage: Option<String>,
    pub before_script: Option<Vec<String>>,
    pub script: Option<Vec<String>>,
    pub variables: VarMap,
    pub extends: Vec<String>,
}

/// The mathematical content of a job record.
pub struct JobView {
    pub name: Seq<char>,
    pub stage: Option<Seq<char>>,
    pub before_script: Option<Seq<Seq<char>>>,
    pub script: Option<Seq<Seq<char>>>,
    pub variables: Map<Seq<char>, Seq<char>>,
    pub extends: Seq<Seq<char>>,
}

impl View for JobRecord {
    type V = JobView;

    open spec fn view(&self) -> JobView {
        JobView {
            name: self.name@,
            stage: self.stage.deep_view(),
            before_script: self.before_script.deep_view(),
            script: self.script.deep_view(),
            variables: self.variables@,
            extends: self.extends.deep_view(),
        }
    }
}

impl DeepView for JobRecord {
    type V = JobView;

    open spec fn deep_view(&self) -> JobView {
        self.view()
    }
}

/// The whole configuration: global variables and the jobs in declaration
/// order. `parent` is a secondary document consulted only when listing the
/// available targets, never during variable merging.
pub struct Document {
    pub global_variables: VarMap,
    pub jobs: Vec<JobRecord>,
    pub parent: Option<Box<Document>>,
}

/// Well-formed job lists: every name is non-empty, none is the reserved key
/// of the global-variables section, and names are pairwise distinct.
pub open spec fn jobs_wf(jobs: Seq<JobView>) -> bool {
    &&& forall|i: int|
        0 <= i < jobs.len() ==> (#[trigger] jobs[i].name).len() > 0 && jobs[i].name != "variables"@
    &&& forall|i: int, j: int| 0 <= i < j < jobs.len() ==> jobs[i].name != jobs[j].name
}

impl Document {
    /// The views of the jobs, in declaration order.
    pub open spec fn jobs_view(&self) -> Seq<JobView> {
        self.jobs.deep_view()
    }

    /// Well-formedness of this document's own content (the parent link is
    /// not constrained: it serves only target discovery).
    pub open spec fn wf(&self) -> bool {
        &&& self.global_variables.wf()
        &&& jobs_wf(self.jobs_view())
        &&& forall|i: int|
            0 <= i < self.jobs@.len() ==> (#[trigger] self.jobs@[i]).variables.wf()
    }
}

/// The engine's output for one job: inheritance fully resolved, absence of a
/// command list resolved to the empty list.
pub struct ResolvedJob {
    pub effective_variables: VarMap,
    pub effective_before_script: Vec<String>,
    pub effective_script: Vec<String>,
}

/// The mathematical content of a resolved job.
pub struct ResolvedView {
    pub vars: Map<Seq<char>, Seq<char>>,
    pub before: Seq<Seq<char>>,
    pub script: Seq<Seq<char>>,
}

impl View for ResolvedJob {
    type V = ResolvedView;

    open spec fn view(&self) -> ResolvedView {
        ResolvedView {
            vars: self.effective_variables@,
            before: self.effective_before_script.deep_view(),
            script: self.effective_script.deep_view(),
        }
    }
}

/// Why resolving a job failed.
#[derive(Clone, Copy, PartialEq, Eq, Structural, Debug)]
pub enum ResolveError {
    /// A target or an `extends` reference names no declared job.
    UnknownJob,
    /// Following `extends` revisited a job already on the resolution path.
    CyclicExtends,
}

} // verus!
