use hamster::driver::plan_job;
use hamster::model::{Document, JobRecord, ResolveError};
use hamster::resolver::{get_before_script, get_script, resolve};
use hamster::selector::{collect_job_names, select};
use hamster::vars::VarMap;

fn vm(pairs: &[(&str, &str)]) -> VarMap {
    let mut m = VarMap::new();
    for (k, v) in pairs {
        m.insert(k.to_string(), v.to_string());
    }
    m
}

fn job(name: &str) -> JobRecord {
    JobRecord {
        name: name.to_string(),
        stage: None,
        before_script: None,
        script: None,
        variables: VarMap::new(),
        extends: Vec::new(),
    }
}

fn strings(xs: &[&str]) -> Vec<String> {
    xs.iter().map(|x| x.to_string()).collect()
}

fn doc(globals: VarMap, jobs: Vec<JobRecord>) -> Document {
    Document {
        global_variables: globals,
        jobs,
        parent: None,
    }
}

fn lookup<'a>(m: &'a VarMap, key: &str) -> Option<&'a String> {
    m.get(&key.to_string())
}

#[test]
fn hello() {
    let mut print_hello = job("print_hello");
    print_hello.stage = Some("primary_stage".to_string());
    print_hello.before_script = Some(strings(&["echo Some setup here"]));
    print_hello.script = Some(strings(&["echo hello"]));
    let d = doc(
        vm(&[("GLOBAL_VAR", "this GLOBAL_VAR should mostly always be set.")]),
        vec![print_hello],
    );
    let plan = plan_job(&d, &"print_hello".to_string(), &VarMap::new(), &VarMap::new()).unwrap();
    assert_eq!(plan.lines, strings(&["echo Some setup here", "echo hello"]));
    assert_eq!(
        lookup(&plan.env, "GLOBAL_VAR").unwrap(),
        "this GLOBAL_VAR should mostly always be set."
    );
}

#[test]
fn goodbye_with_variable() {
    let mut print_goodbye = job("print_goodbye");
    print_goodbye.stage = Some("primary_stage".to_string());
    print_goodbye.variables = vm(&[("GOODBYE", "tara")]);
    print_goodbye.script = Some(strings(&["echo $GOODBYE a bit", "echo $GLOBAL_VAR is set?"]));
    let d = doc(
        vm(&[("GLOBAL_VAR", "this GLOBAL_VAR should mostly always be set.")]),
        vec![print_goodbye],
    );
    let plan = plan_job(&d, &"print_goodbye".to_string(), &VarMap::new(), &VarMap::new()).unwrap();
    assert_eq!(
        plan.lines,
        strings(&[
            "echo tara a bit",
            "echo this GLOBAL_VAR should mostly always be set. is set?"
        ])
    );
}

#[test]
fn all_in_stage_run() {
    let mut print_hello = job("print_hello");
    print_hello.stage = Some("primary_stage".to_string());
    print_hello.script = Some(strings(&["echo hello"]));
    let mut print_goodbye = job("print_goodbye");
    print_goodbye.stage = Some("primary_stage".to_string());
    print_goodbye.script = Some(strings(&["echo goodbye"]));
    let mut other = job("other");
    other.script = Some(strings(&["echo other"]));
    let d = doc(VarMap::new(), vec![print_hello, print_goodbye, other]);
    let selected = select(&d, &"primary_stage".to_string());
    assert_eq!(selected, strings(&["print_hello", "print_goodbye"]));
}

#[test]
fn no_extends_overlays_globals_with_own() {
    let mut j = job("build");
    j.variables = vm(&[("A", "own"), ("B", "own")]);
    let d = doc(vm(&[("A", "global"), ("C", "global")]), vec![j]);
    let r = resolve(&d, &"build".to_string()).unwrap();
    assert_eq!(lookup(&r.effective_variables, "A").unwrap(), "own");
    assert_eq!(lookup(&r.effective_variables, "B").unwrap(), "own");
    assert_eq!(lookup(&r.effective_variables, "C").unwrap(), "global");
}

#[test]
fn chain_precedence_innermost_redeclaration_wins() {
    let mut a = job("a");
    a.extends = strings(&["b"]);
    a.variables = vm(&[("IN_A", "a")]);
    let mut b = job("b");
    b.extends = strings(&["c"]);
    b.variables = vm(&[("IN_A", "b"), ("IN_B", "b")]);
    let mut c = job("c");
    c.variables = vm(&[("IN_A", "c"), ("IN_B", "c"), ("IN_C", "c")]);
    let d = doc(VarMap::new(), vec![a, b, c]);
    let r = resolve(&d, &"a".to_string()).unwrap();
    assert_eq!(lookup(&r.effective_variables, "IN_A").unwrap(), "a");
    assert_eq!(lookup(&r.effective_variables, "IN_B").unwrap(), "b");
    assert_eq!(lookup(&r.effective_variables, "IN_C").unwrap(), "c");
}

#[test]
fn sibling_parents_last_listed_wins() {
    let mut j = job("j");
    j.extends = strings(&["p", "q"]);
    let mut p = job("p");
    p.variables = vm(&[("X", "from p"), ("ONLY_P", "p")]);
    let mut q = job("q");
    q.variables = vm(&[("X", "from q")]);
    let d = doc(VarMap::new(), vec![j, p, q]);
    let r = resolve(&d, &"j".to_string()).unwrap();
    assert_eq!(lookup(&r.effective_variables, "X").unwrap(), "from q");
    assert_eq!(lookup(&r.effective_variables, "ONLY_P").unwrap(), "p");
}

#[test]
fn cycle_is_detected() {
    let mut a = job("a");
    a.extends = strings(&["b"]);
    let mut b = job("b");
    b.extends = strings(&["a"]);
    let d = doc(VarMap::new(), vec![a, b]);
    assert!(matches!(
        resolve(&d, &"a".to_string()),
        Err(ResolveError::CyclicExtends)
    ));
}

#[test]
fn transitive_cycle_is_detected() {
    let mut a = job("a");
    a.extends = strings(&["b"]);
    let mut b = job("b");
    b.extends = strings(&["c"]);
    let mut c = job("c");
    c.extends = strings(&["a"]);
    let d = doc(VarMap::new(), vec![a, b, c]);
    assert!(matches!(
        resolve(&d, &"a".to_string()),
        Err(ResolveError::CyclicExtends)
    ));
}

#[test]
fn diamond_inheritance_is_no_cycle() {
    let mut top = job("top");
    top.extends = strings(&["left", "right"]);
    let mut left = job("left");
    left.extends = strings(&["base"]);
    left.variables = vm(&[("SIDE", "left")]);
    let mut right = job("right");
    right.extends = strings(&["base"]);
    right.variables = vm(&[("SIDE", "right")]);
    let mut base = job("base");
    base.variables = vm(&[("ROOT", "base")]);
    let d = doc(VarMap::new(), vec![top, left, right, base]);
    let r = resolve(&d, &"top".to_string()).unwrap();
    assert_eq!(lookup(&r.effective_variables, "SIDE").unwrap(), "right");
    assert_eq!(lookup(&r.effective_variables, "ROOT").unwrap(), "base");
}

#[test]
fn self_cycle_is_detected() {
    let mut a = job("a");
    a.extends = strings(&["a"]);
    let d = doc(VarMap::new(), vec![a]);
    assert!(matches!(
        resolve(&d, &"a".to_string()),
        Err(ResolveError::CyclicExtends)
    ));
}

#[test]
fn unknown_target_is_reported() {
    let d = doc(VarMap::new(), vec![job("known")]);
    assert!(matches!(
        resolve(&d, &"missing".to_string()),
        Err(ResolveError::UnknownJob)
    ));
}

#[test]
fn dangling_extends_is_unknown_job() {
    let mut a = job("a");
    a.extends = strings(&["ghost"]);
    let d = doc(VarMap::new(), vec![a]);
    assert!(matches!(
        resolve(&d, &"a".to_string()),
        Err(ResolveError::UnknownJob)
    ));
}

#[test]
fn declared_empty_script_suppresses_inherited() {
    let mut child = job("child");
    child.extends = strings(&["parent"]);
    child.script = Some(Vec::new());
    let mut parent = job("parent");
    parent.script = Some(strings(&["echo from parent"]));
    let d = doc(VarMap::new(), vec![child, parent]);
    let r = resolve(&d, &"child".to_string()).unwrap();
    assert!(r.effective_script.is_empty());
    assert_eq!(get_script(&d, &"child".to_string()), Some(Vec::new()));
}

#[test]
fn fallback_searches_last_listed_parent_first() {
    let mut j = job("j");
    j.extends = strings(&["p", "q"]);
    let mut p = job("p");
    p.script = Some(strings(&["echo p"]));
    let mut q = job("q");
    q.script = Some(strings(&["echo q"]));
    let d = doc(VarMap::new(), vec![j, p, q]);
    let r = resolve(&d, &"j".to_string()).unwrap();
    assert_eq!(r.effective_script, strings(&["echo q"]));
}

#[test]
fn fallback_takes_earlier_parent_when_later_is_silent() {
    let mut j = job("j");
    j.extends = strings(&["p", "q"]);
    let mut p = job("p");
    p.script = Some(strings(&["echo p"]));
    let q = job("q");
    let d = doc(VarMap::new(), vec![j, p, q]);
    let r = resolve(&d, &"j".to_string()).unwrap();
    assert_eq!(r.effective_script, strings(&["echo p"]));
    assert!(r.effective_before_script.is_empty());
    assert_eq!(get_before_script(&d, &"j".to_string()), None);
}

#[test]
fn fallback_reaches_grandparent_through_silent_parent() {
    let mut j = job("j");
    j.extends = strings(&["mid"]);
    let mut mid = job("mid");
    mid.extends = strings(&["root"]);
    let mut root = job("root");
    root.before_script = Some(strings(&["echo setup"]));
    root.script = Some(strings(&["echo root"]));
    let d = doc(VarMap::new(), vec![j, mid, root]);
    let r = resolve(&d, &"j".to_string()).unwrap();
    assert_eq!(r.effective_before_script, strings(&["echo setup"]));
    assert_eq!(r.effective_script, strings(&["echo root"]));
}

#[test]
fn select_by_name_and_stage_each_job_once() {
    let mut one = job("one");
    one.stage = Some("test".to_string());
    let mut two = job("two");
    two.stage = Some("test".to_string());
    let mut named_test = job("test");
    named_test.stage = Some("deploy".to_string());
    let d = doc(VarMap::new(), vec![one, two, named_test]);
    let selected = select(&d, &"test".to_string());
    assert_eq!(selected, strings(&["one", "two", "test"]));
}

#[test]
fn select_unmatched_target_is_empty() {
    let mut one = job("one");
    one.stage = Some("test".to_string());
    let d = doc(VarMap::new(), vec![one]);
    assert!(select(&d, &"nothing".to_string()).is_empty());
}

#[test]
fn end_to_end_single_expanded_line() {
    let mut print_hello = job("print_hello");
    print_hello.script = Some(strings(&["echo $GREETING"]));
    let d = doc(vm(&[("GREETING", "hi")]), vec![print_hello]);
    let plan = plan_job(&d, &"print_hello".to_string(), &VarMap::new(), &VarMap::new()).unwrap();
    assert_eq!(plan.lines, strings(&["echo hi"]));
    assert_eq!(lookup(&plan.env, "GREETING").unwrap(), "hi");
}

#[test]
fn plan_precedence_predefined_below_globals_below_job() {
    let mut j = job("j");
    j.variables = vm(&[("LEVEL", "job")]);
    let d = doc(vm(&[("LEVEL", "global"), ("G", "g")]), vec![j]);
    let predefined = vm(&[("LEVEL", "predefined"), ("CI_JOB_NAME", "local_job")]);
    let plan = plan_job(&d, &"j".to_string(), &predefined, &VarMap::new()).unwrap();
    assert_eq!(lookup(&plan.env, "LEVEL").unwrap(), "job");
    assert_eq!(lookup(&plan.env, "G").unwrap(), "g");
    assert_eq!(lookup(&plan.env, "CI_JOB_NAME").unwrap(), "local_job");
}

#[test]
fn plan_falls_back_to_ambient_environment() {
    let mut j = job("j");
    j.script = Some(strings(&["echo $HOMEISH and $G"]));
    let d = doc(vm(&[("G", "g")]), vec![j]);
    let ambient = vm(&[("HOMEISH", "/home/me"), ("G", "shadowed")]);
    let plan = plan_job(&d, &"j".to_string(), &VarMap::new(), &ambient).unwrap();
    assert_eq!(plan.lines, strings(&["echo /home/me and g"]));
    assert!(lookup(&plan.env, "HOMEISH").is_none());
}

#[test]
fn discovery_lists_parents_after_child_without_duplicates() {
    let parent = doc(VarMap::new(), vec![job("shared"), job("deep")]);
    let mut d = doc(VarMap::new(), vec![job("top"), job("shared")]);
    d.parent = Some(Box::new(parent));
    let mut results: Vec<String> = Vec::new();
    collect_job_names(&d, &mut results);
    assert_eq!(results, strings(&["top", "shared", "deep"]));
}

#[test]
fn var_map_insert_overrides_and_keeps_other_keys() {
    let mut m = vm(&[("A", "1"), ("B", "2")]);
    m.insert("A".to_string(), "3".to_string());
    assert_eq!(lookup(&m, "A").unwrap(), "3");
    assert_eq!(lookup(&m, "B").unwrap(), "2");
    assert!(lookup(&m, "C").is_none());
    let mut other = vm(&[("B", "20"), ("C", "30")]);
    other.overlay(&m);
    assert_eq!(lookup(&other, "A").unwrap(), "3");
    assert_eq!(lookup(&other, "B").unwrap(), "2");
    assert_eq!(lookup(&other, "C").unwrap(), "30");
}
