use hamster::expand::expand;
use hamster::vars::VarMap;

fn vm(pairs: &[(&str, &str)]) -> VarMap {
    let mut m = VarMap::new();
    for (k, v) in pairs {
        m.insert(k.to_string(), v.to_string());
    }
    m
}

#[test]
fn bound_brace_and_unbound_plain_reference() {
    let vars = vm(&[("NAME", "x")]);
    assert_eq!(expand("echo ${NAME}-$MISSING", &vars), "echo x-");
}

#[test]
fn plain_reference_substitutes_value() {
    let vars = vm(&[("GREETING", "hi")]);
    assert_eq!(expand("echo $GREETING", &vars), "echo hi");
}

#[test]
fn unbound_reference_becomes_empty() {
    let vars = VarMap::new();
    assert_eq!(expand("a ${GONE} b $ALSO_GONE c", &vars), "a  b  c");
}

#[test]
fn non_reference_text_passes_through() {
    let vars = vm(&[("A", "1")]);
    assert_eq!(expand("no references here", &vars), "no references here");
}

#[test]
fn name_run_ends_at_non_name_character() {
    let vars = vm(&[("VAR", "v"), ("VAR2", "w")]);
    assert_eq!(expand("$VAR.txt $VAR2_x", &vars), "v.txt ");
    assert_eq!(expand("$VAR2!", &vars), "w!");
}

#[test]
fn unterminated_brace_stays_literal() {
    let vars = vm(&[("A", "1")]);
    assert_eq!(expand("echo ${A", &vars), "echo ${A");
}

#[test]
fn braces_without_a_name_stay_literal() {
    let vars = vm(&[("A", "1")]);
    assert_eq!(expand("echo ${} and ${no-name}", &vars), "echo ${} and ${no-name}");
}

#[test]
fn lone_and_trailing_dollar_stay_literal() {
    let vars = vm(&[("A", "1")]);
    assert_eq!(expand("cost: 5$ and $-flag and end$", &vars), "cost: 5$ and $-flag and end$");
}

#[test]
fn adjacent_references_concatenate() {
    let vars = vm(&[("A", "left"), ("B", "right")]);
    assert_eq!(expand("${A}${B}", &vars), "leftright");
    assert_eq!(expand("$A$B", &vars), "leftright");
}

#[test]
fn underscore_and_digits_in_names() {
    let vars = vm(&[("_X1", "ok")]);
    assert_eq!(expand("${_X1}=$_X1", &vars), "ok=ok");
}

#[test]
fn value_is_not_reexpanded() {
    let vars = vm(&[("A", "$B"), ("B", "never")]);
    assert_eq!(expand("$A", &vars), "$B");
}
