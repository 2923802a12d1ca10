//! The variable expander: substitutes shell-style `$NAME` and `${NAME}`
//! references inside one string from a supplied mapping. An unbound name
//! expands to the empty string; malformed syntax passes through as literal
//! text; everything else is copied unchanged.
use vstd::prelude::*;
use vstd::string::StrSliceExecFns;
use vstd::string::StringExecFns;
use crate::vars::VarMap;

verus! {

/// A character that may open a variable name: a letter or an underscore.
pub open spec fn is_name_start(c: char) -> bool {
    (('a' as u32) <= (c as u32) && (c as u32) <= ('z' as u32)) || (('A' as u32) <= (c as u32) && (c
        as u32) <= ('Z' as u32)) || c == '_'
}

/// A character that may continue a variable name: a letter, a digit or an
/// underscore.
pub open spec fn is_name_char(c: char) -> bool {
    is_name_start(c) || (('0' as u32) <= (c as u32) && (c as u32) <= ('9' as u32))
}

/// A well-formed variable name: non-empty, name characters throughout.
pub open spec fn valid_name(s: Seq<char>) -> bool {
    s.len() > 0 && forall|k: int| 0 <= k < s.len() ==> is_name_char(#[trigger] s[k])
}

/// The first position at or after `i` that does not continue a name.
pub open spec fn name_end(s: Seq<char>, i: int) -> int
    decreases s.len() - i,
    when 0 <= i <= s.len()
{
    if i >= s.len() {
        i
    } else if is_name_char(s[i]) {
        name_end(s, i + 1)
    } else {
        i
    }
}

pub proof fn lemma_name_end(s: Seq<char>, i: int)
    requires
        0 <= i <= s.len(),
    ensures
        i <= name_end(s, i) <= s.len(),
    decreases s.len() - i,
{
    if i < s.len() && is_name_char(s[i]) {
        lemma_name_end(s, i + 1);
    }
}

/// The position of the first closing brace at or after `i`, if any.
pub open spec fn close_idx(s: Seq<char>, i: int) -> Option<int>
    decreases s.len() - i,
    when 0 <= i <= s.len()
{
    if i >= s.len() {
        None
    } else if s[i] == '}' {
        Some(i)
    } else {
        close_idx(s, i + 1)
    }
}

pub proof fn lemma_close_idx(s: Seq<char>, i: int)
    requires
        0 <= i <= s.len(),
    ensures
        match close_idx(s, i) {
            Some(j) => i <= j < s.len() && s[j] == '}',
            None => true,
        },
    decreases s.len() - i,
{
    if i < s.len() && s[i] != '}' {
        lemma_close_idx(s, i + 1);
    }
}

/// What a reference to `name` expands to: the bound value, or the empty
/// string when the name is unbound.
pub open spec fn lookup_or_empty(m: Map<Seq<char>, Seq<char>>, name: Seq<char>) -> Seq<char> {
    if m.contains_key(name) {
        m[name]
    } else {
        Seq::empty()
    }
}

/// The expansion of the text from position `i` on. A `${NAME}` or `$NAME`
/// reference becomes the bound value or the empty string; a `${` without a
/// closing brace leaves the rest literal; braces around something other
/// than a name pass through literally; a `$` followed by neither brace nor
/// name stands for itself; any other character is copied.
pub open spec fn spec_expand_from(s: Seq<char>, m: Map<Seq<char>, Seq<char>>, i: int) -> Seq<char>
    decreases s.len() - i,
    when 0 <= i <= s.len()
{
    if i >= s.len() {
        Seq::empty()
    } else if s[i] == '$' {
        if i + 1 < s.len() && s[i + 1] == '{' {
            proof {
                lemma_close_idx(s, i + 2);
            }
            match close_idx(s, i + 2) {
                None => s.subrange(i, s.len() as int),
                Some(j) => if valid_name(s.subrange(i + 2, j)) {
                    lookup_or_empty(m, s.subrange(i + 2, j)) + spec_expand_from(s, m, j + 1)
                } else {
                    s.subrange(i, j + 1) + spec_expand_from(s, m, j + 1)
                },
            }
        } else if i + 1 < s.len() && is_name_start(s[i + 1]) {
            proof {
                lemma_name_end(s, i + 1);
            }
            let j = name_end(s, i + 1);
            lookup_or_empty(m, s.subrange(i + 1, j)) + spec_expand_from(s, m, j)
        } else {
            seq!['$'] + spec_expand_from(s, m, i + 1)
        }
    } else {
        seq![s[i]] + spec_expand_from(s, m, i + 1)
    }
}

/// The expansion of a whole text.
pub open spec fn spec_expand(s: Seq<char>, m: Map<Seq<char>, Seq<char>>) -> Seq<char> {
    spec_expand_from(s, m, 0)
}

proof fn lemma_literal_from(s: Seq<char>, m: Map<Seq<char>, Seq<char>>, i: int)
    requires
        0 <= i <= s.len(),
        forall|k: int| i <= k < s.len() ==> #[trigger] s[k] != '$',
    ensures
        spec_expand_from(s, m, i) == s.subrange(i, s.len() as int),
    decreases s.len() - i,
{
    if i >= s.len() {
        assert(s.subrange(i, s.len() as int) =~= Seq::<char>::empty());
    } else {
        lemma_literal_from(s, m, i + 1);
        assert(seq![s[i]] + s.subrange(i + 1, s.len() as int) =~= s.subrange(i, s.len() as int));
    }
}

/// Text holding no dollar sign carries no variable reference and expands
/// to itself, whatever the mapping binds.
pub proof fn lemma_no_references_unchanged(s: Seq<char>, m: Map<Seq<char>, Seq<char>>)
    requires
        forall|k: int| 0 <= k < s.len() ==> #[trigger] s[k] != '$',
    ensures
        spec_expand(s, m) == s,
{
    lemma_literal_from(s, m, 0);
    assert(s.subrange(0, s.len() as int) =~= s);
}

fn is_name_start_ch(c: char) -> (r: bool)
    ensures
        r == is_name_start(c),
{
    (('a' as u32) <= (c as u32) && (c as u32) <= ('z' as u32)) || (('A' as u32) <= (c as u32) && (c
        as u32) <= ('Z' as u32)) || c == '_'
}

fn is_name_char_ch(c: char) -> (r: bool)
    ensures
        r == is_name_char(c),
{
    is_name_start_ch(c) || (('0' as u32) <= (c as u32) && (c as u32) <= ('9' as u32))
}

/// The end of the name run beginning at `from`.
fn scan_name_end(s: &str, from: usize) -> (j: usize)
    requires
        from <= s@.len(),
    ensures
        j == name_end(s@, from as int),
        from <= j <= s@.len(),
{
    let n = s.unicode_len();
    let mut j = from;
    while j < n
        invariant
            n == s@.len(),
            from <= j <= n,
            name_end(s@, from as int) == name_end(s@, j as int),
        decreases n - j,
    {
        if !is_name_char_ch(s.get_char(j)) {
            return j;
        }
        j = j + 1;
    }
    j
}

/// The first closing brace at or after `from`.
fn scan_close(s: &str, from: usize) -> (r: Option<usize>)
    requires
        from <= s@.len(),
    ensures
        match r {
            Some(j) => close_idx(s@, from as int) == Some(j as int) && from <= j < s@.len(),
            None => close_idx(s@, from as int) is None,
        },
{
    let n = s.unicode_len();
    let mut j = from;
    while j < n
        invariant
            n == s@.len(),
            from <= j <= n,
            close_idx(s@, from as int) == close_idx(s@, j as int),
        decreases n - j,
    {
        if s.get_char(j) == '}' {
            return Some(j);
        }
        j = j + 1;
    }
    None
}

/// Whether every character in `[a, b)` may continue a name.
fn all_name_chars(s: &str, a: usize, b: usize) -> (r: bool)
    requires
        a <= b <= s@.len(),
    ensures
        r == forall|k: int| a <= k < b ==> is_name_char(#[trigger] s@[k]),
{
    let mut k = a;
    while k < b
        invariant
            a <= k <= b <= s@.len(),
            forall|m: int| a <= m < k ==> is_name_char(#[trigger] s@[m]),
        decreases b - k,
    {
        if !is_name_char_ch(s.get_char(k)) {
            return false;
        }
        k = k + 1;
    }
    true
}

/// Appends what a reference to the name in `s[a..b)` stands for: the bound
/// value, or nothing when the name is unbound.
fn append_lookup(out: &mut String, s: &str, a: usize, b: usize, vars: &VarMap)
    requires
        vars.wf(),
        a <= b <= s@.len(),
    ensures
        final(out)@ == old(out)@ + lookup_or_empty(vars@, s@.subrange(a as int, b as int)),
{
    let name = s.substring_char(a, b);
    let name_string = name.to_owned();
    match vars.get(&name_string) {
        Some(v) => {
            out.append(v.as_str());
        },
        None => {
            proof {
                assert(old(out)@ + Seq::<char>::empty() =~= old(out)@);
            }
        },
    }
}

/// Expands every variable reference in the text from the mapping, as
/// `spec_expand` states: bound names become their values, unbound names the
/// empty string, everything else is copied through unchanged.
pub fn expand(text: &str, vars: &VarMap) -> (r: String)
    requires
        vars.wf(),
    ensures
        r@ == spec_expand(text@, vars@),
{
    let ghost m = vars@;
    let n = text.unicode_len();
    let mut out = String::new();
    let mut i: usize = 0;
    while i < n
        invariant
            vars.wf(),
            m == vars@,
            n == text@.len(),
            0 <= i <= n,
            spec_expand_from(text@, m, 0) == out@ + spec_expand_from(text@, m, i as int),
        decreases n - i,
    {
        let ghost out0 = out@;
        let c = text.get_char(i);
        if c == '$' && i + 1 < n {
            let c1 = text.get_char(i + 1);
            if c1 == '{' {
                match scan_close(text, i + 2) {
                    None => {
                        let rest = text.substring_char(i, n);
                        out.append(rest);
                        proof {
                            assert(spec_expand_from(text@, m, i as int) == text@.subrange(
                                i as int,
                                n as int,
                            ));
                            assert(out@ + spec_expand_from(text@, m, n as int) =~= out0
                                + spec_expand_from(text@, m, i as int));
                        }
                        i = n;
                    },
                    Some(j) => {
                        let ghost name_spec = text@.subrange(i + 2 as int, j as int);
                        let is_valid = j > i + 2 && all_name_chars(text, i + 2, j);
                        proof {
                            if is_valid {
                                assert forall|k: int| 0 <= k < name_spec.len() implies is_name_char(
                                    #[trigger] name_spec[k],
                                ) by {
                                    assert(name_spec[k] == text@[i + 2 + k]);
                                }
                                assert(valid_name(name_spec));
                            } else if valid_name(name_spec) {
                                assert(j > i + 2);
                                assert forall|k: int| i + 2 <= k < j implies is_name_char(
                                    #[trigger] text@[k],
                                ) by {
                                    assert(text@[k] == name_spec[k - (i + 2)]);
                                }
                                assert(false);
                            }
                        }
                        if is_valid {
                            append_lookup(&mut out, text, i + 2, j, vars);
                            proof {
                                assert(spec_expand_from(text@, m, i as int) == lookup_or_empty(
                                    m,
                                    name_spec,
                                ) + spec_expand_from(text@, m, j + 1 as int));
                                assert(out@ + spec_expand_from(text@, m, j + 1 as int) =~= out0
                                    + spec_expand_from(text@, m, i as int));
                            }
                        } else {
                            let lit = text.substring_char(i, j + 1);
                            out.append(lit);
                            proof {
                                assert(spec_expand_from(text@, m, i as int) == text@.subrange(
                                    i as int,
                                    j + 1 as int,
                                ) + spec_expand_from(text@, m, j + 1 as int));
                                assert(out@ + spec_expand_from(text@, m, j + 1 as int) =~= out0
                                    + spec_expand_from(text@, m, i as int));
                            }
                        }
                        i = j + 1;
                    },
                }
            } else if is_name_start_ch(c1) {
                let j = scan_name_end(text, i + 1);
                proof {
                    assert(j >= i + 1) by {
                        lemma_name_end(text@, i + 1 as int);
                    }
                }
                append_lookup(&mut out, text, i + 1, j, vars);
                proof {
                    assert(spec_expand_from(text@, m, i as int) == lookup_or_empty(
                        m,
                        text@.subrange(i + 1 as int, j as int),
                    ) + spec_expand_from(text@, m, j as int));
                    assert(out@ + spec_expand_from(text@, m, j as int) =~= out0
                        + spec_expand_from(text@, m, i as int));
                }
                i = j;
            } else {
                out.append("$");
                proof {
                    reveal_strlit("$");
                    assert("$"@ =~= seq!['$']);
                    assert(spec_expand_from(text@, m, i as int) == seq!['$'] + spec_expand_from(
                        text@,
                        m,
                        i + 1 as int,
                    ));
                    assert(out@ + spec_expand_from(text@, m, i + 1 as int) =~= out0
                        + spec_expand_from(text@, m, i as int));
                }
                i = i + 1;
            }
        } else {
            let lit = text.substring_char(i, i + 1);
            out.append(lit);
            proof {
                assert(text@.subrange(i as int, i + 1 as int) =~= seq![text@[i as int]]);
                assert(spec_expand_from(text@, m, i as int) == seq![text@[i as int]]
                    + spec_expand_from(text@, m, i + 1 as int));
                assert(out@ + spec_expand_from(text@, m, i + 1 as int) =~= out0
                    + spec_expand_from(text@, m, i as int));
            }
            i = i + 1;
        }
    }
    proof {
        assert(out@ + spec_expand_from(text@, m, n as int) =~= out@);
    }
    out
}

} // verus!
