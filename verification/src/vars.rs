//! CSS custom properties.

use crate::model::{ClassInfoView, ClassMap, VarMap};
use crate::table::{has_name, lemma_put, lemma_row_of, lookup, put, Table};
use crate::text::{
    chars_of, find_from, index_from, lines, split_lines, string_of, texts, trim, trimmed,
};
use vstd::prelude::*;
use vstd::slice::slice_subrange;
use vstd::string::StringExecFns;

verus! {

/// The rows of a table of custom properties.
pub type VarRows = Seq<(Seq<char>, Seq<char>)>;

/// The text without the semicolons it ends with.
pub open spec fn without_semicolons(s: Seq<char>) -> Seq<char>
    decreases s.len(),
{
    if s.len() > 0 && s.last() == ';' {
        without_semicolons(s.drop_last())
    } else {
        s
    }
}

/// The custom property that a line of declarations defines: its name and its value. A line defines
/// one if it begins with `--` and has a value behind its first colon.
pub open spec fn defined_var(line: Seq<char>) -> Option<(Seq<char>, Seq<char>)> {
    let t = trim(without_semicolons(trim(line)));
    if t.len() >= 2 && t[0] == '-' && t[1] == '-' {
        let rest = t.skip(2);
        let colon = index_from(rest, ':', 0);
        if colon < rest.len() && trim(rest.skip(colon + 1)).len() > 0 {
            Some(("--"@ + trim(rest.take(colon)), trim(rest.skip(colon + 1))))
        } else {
            None
        }
    } else {
        None
    }
}

/// The table with a custom property added, unless it holds one of that name already.
pub open spec fn add_var(vars: VarRows, var: Option<(Seq<char>, Seq<char>)>) -> VarRows {
    match var {
        Some(v) => if has_name(vars, v.0) {
            vars
        } else {
            vars.push(v)
        },
        None => vars,
    }
}

/// The table after the first `k` lines of declarations.
pub open spec fn vars_of_lines(vars: VarRows, lines: Seq<Seq<char>>, k: int) -> VarRows
    decreases k,
{
    if k <= 0 {
        vars
    } else {
        add_var(vars_of_lines(vars, lines, k - 1), defined_var(lines[k - 1]))
    }
}

/// The table after the first `k` rules.
pub open spec fn vars_of_rules(rules: Seq<ClassInfoView>, k: int) -> VarRows
    decreases k,
{
    if k <= 0 {
        seq![]
    } else {
        let all = lines(rules[k - 1].properties);
        vars_of_lines(vars_of_rules(rules, k - 1), all, all.len() as int)
    }
}

/// The custom properties that a list of rules defines, whatever their selectors. Where several
/// define the same one, the first counts.
pub open spec fn class_map_vars(rules: Seq<ClassInfoView>) -> VarRows {
    vars_of_rules(rules, rules.len() as int)
}

/// Length of a text without the semicolons it ends with.
fn len_without_semicolons(chars: &[char]) -> (r: usize)
    ensures
        r <= chars@.len(),
        chars@.take(r as int) == without_semicolons(chars@),
{
    let mut n: usize = chars.len();
    proof {
        assert(chars@.take(n as int) =~= chars@);
    }
    while n > 0 && chars[n - 1] == ';'
        invariant
            n <= chars@.len(),
            without_semicolons(chars@) == without_semicolons(chars@.take(n as int)),
        decreases n,
    {
        proof {
            assert(chars@.take(n as int).drop_last() =~= chars@.take(n - 1));
        }
        n = n - 1;
    }
    n
}

/// The custom property that a line of declarations defines.
pub fn read_var(line: &str) -> (r: Option<(String, String)>)
    ensures
        r is Some == (defined_var(line@) is Some),
        r is Some ==> ((r->0).0@, (r->0).1@) == defined_var(line@)->0,
{
    let chars = chars_of(line);
    let outer = trimmed(chars.as_slice());
    let n: usize = len_without_semicolons(outer);
    let t = trimmed(slice_subrange(outer, 0, n));
    proof {
        assert(outer@.subrange(0, n as int) =~= outer@.take(n as int));
    }
    if t.len() < 2 || t[0] != '-' || t[1] != '-' {
        return None;
    }
    let rest = slice_subrange(t, 2, t.len());
    proof {
        assert(rest@ =~= t@.skip(2));
    }
    let colon: usize = find_from(rest, ':', 0);
    if colon >= rest.len() {
        return None;
    }
    let name = trimmed(slice_subrange(rest, 0, colon));
    let value = trimmed(slice_subrange(rest, colon + 1, rest.len()));
    proof {
        assert(rest@.subrange(0, colon as int) =~= rest@.take(colon as int));
        assert(rest@.subrange(colon + 1, rest@.len() as int) =~= rest@.skip(colon + 1));
    }
    if value.len() == 0 {
        return None;
    }
    let mut full = "--".to_owned();
    full.append(string_of(name).as_str());
    Some((full, string_of(value)))
}

/// Adds the custom properties that a block of declarations defines.
pub fn add_vars(properties: &str, vars: &mut VarMap)
    ensures
        final(vars)@ == vars_of_lines(
            old(vars)@,
            lines(properties@),
            lines(properties@).len() as int,
        ),
{
    let all = split_lines(properties);
    let n: usize = all.len();
    let mut k: usize = 0;
    while k < n
        invariant
            k <= n,
            n == all@.len(),
            vars@ == vars_of_lines(old(vars)@, texts(all@), k as int),
        decreases n - k,
    {
        let ghost before = vars@;
        if let Some((name, value)) = read_var(all[k].as_str()) {
            if !vars.contains(name.as_str()) {
                proof {
                    lemma_row_of(before, name@);
                }
                vars.insert(name, value);
            }
        }
        k = k + 1;
    }
}

/// Collects the custom properties that the rules of a class map define.
pub fn refresh_var_map(class_map: &ClassMap) -> (r: VarMap)
    ensures
        r@ == class_map_vars(class_map.rules()),
{
    let mut vars: VarMap = Table::new();
    let rules = class_map.all_rules();
    let n: usize = rules.len();
    let mut k: usize = 0;
    while k < n
        invariant
            k <= n,
            n == rules@.len(),
            rules.deep_view() == class_map.rules(),
            vars@ == vars_of_rules(class_map.rules(), k as int),
        decreases n - k,
    {
        proof {
            assert(rules.deep_view()[k as int] == rules@[k as int].deep_view());
        }
        add_vars(rules[k].properties.as_str(), &mut vars);
        k = k + 1;
    }
    vars
}

/// A custom property keeps the value that was found first, and a new one is found again.
pub proof fn law_first_value_counts(
    vars: VarRows,
    var: (Seq<char>, Seq<char>),
    name: Seq<char>,
)
    ensures
        lookup(vars, name) is Some ==> lookup(add_var(vars, Some(var)), name) == lookup(vars, name),
        lookup(vars, var.0) is None ==> lookup(add_var(vars, Some(var)), var.0) == Some(var.1),
{
    lemma_row_of(vars, name);
    lemma_row_of(vars, var.0);
    let after = add_var(vars, Some(var));
    if !has_name(vars, var.0) {
        assert(after == put(vars, var.0, var.1));
        lemma_put(vars, var.0, var.1);
    }
}

} // verus!
