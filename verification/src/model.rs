//! The class map and the other tables that the analysis keeps.

use crate::table::{
    append_all, distinct_names, has_name, items_for, lemma_append_all, list_at, lookup,
    no_empty_list, put, Table,
};
use vstd::prelude::*;

verus! {

/// One definition of a class or an identifier in a style sheet.
#[derive(Debug)]
pub struct ClassInfo {
    pub properties: String,
    pub selector: String,
    pub media_query: Option<String>,
    pub layer: Option<String>,
    pub source_file: String,
    pub source_path: String,
    pub definition_line: u32,
}

/// What a `ClassInfo` says.
#[verifier::ext_equal]
pub ghost struct ClassInfoView {
    pub properties: Seq<char>,
    pub selector: Seq<char>,
    pub media_query: Option<Seq<char>>,
    pub layer: Option<Seq<char>>,
    pub source_file: Seq<char>,
    pub source_path: Seq<char>,
    pub definition_line: u32,
}

/// The text of an optional string.
pub open spec fn opt_text(s: Option<String>) -> Option<Seq<char>> {
    match s {
        Some(s) => Some(s@),
        None => None,
    }
}

impl DeepView for ClassInfo {
    type V = ClassInfoView;

    open spec fn deep_view(&self) -> ClassInfoView {
        ClassInfoView {
            properties: self.properties@,
            selector: self.selector@,
            media_query: opt_text(self.media_query),
            layer: opt_text(self.layer),
            source_file: self.source_file@,
            source_path: self.source_path@,
            definition_line: self.definition_line,
        }
    }
}

/// A copy of an optional string.
pub fn clone_opt(s: &Option<String>) -> (r: Option<String>)
    ensures
        r == *s,
{
    match s {
        Some(t) => Some(t.clone()),
        None => None,
    }
}

impl Clone for ClassInfo {
    fn clone(&self) -> (r: Self)
        ensures
            r == *self,
    {
        ClassInfo {
            properties: self.properties.clone(),
            selector: self.selector.clone(),
            media_query: clone_opt(&self.media_query),
            layer: clone_opt(&self.layer),
            source_file: self.source_file.clone(),
            source_path: self.source_path.clone(),
            definition_line: self.definition_line,
        }
    }
}

/// What the style sheets define: class and identifier names with their definitions in order of
/// appearance, and all rules in the order in which they were read, also those whose selectors name
/// no class and no identifier. An identifier's name keeps its `#`; a class name has no dot.
pub struct ClassMap {
    names: Table<Vec<ClassInfo>>,
    rules: Vec<ClassInfo>,
}

impl View for ClassMap {
    type V = ClassRows;

    /// The names with their definitions.
    closed spec fn view(&self) -> ClassRows {
        self.names@
    }
}

impl ClassMap {
    /// All rules, in the order in which they were read.
    pub closed spec fn rules(&self) -> Seq<ClassInfoView> {
        self.rules.deep_view()
    }

    /// The map of no style sheet.
    pub fn new() -> (r: ClassMap)
        ensures
            r@ == Seq::<(Seq<char>, Seq<ClassInfoView>)>::empty(),
            r.rules() == Seq::<ClassInfoView>::empty(),
    {
        let r = ClassMap { names: Table::new(), rules: Vec::new() };
        proof {
            assert(r.rules() =~= Seq::<ClassInfoView>::empty());
        }
        r
    }

    /// How many names there are.
    pub fn len(&self) -> (r: usize)
        ensures
            r == self@.len(),
    {
        self.names.len()
    }

    /// The name with number `i`.
    pub fn name_at(&self, i: usize) -> (r: &String)
        requires
            i < self@.len(),
        ensures
            r@ == self@[i as int].0,
    {
        self.names.name_at(i)
    }

    /// The definitions of the name with number `i`.
    pub fn value_at(&self, i: usize) -> (r: &Vec<ClassInfo>)
        requires
            i < self@.len(),
        ensures
            r.deep_view() == self@[i as int].1,
    {
        self.names.value_at(i)
    }

    /// Whether the map has a name.
    pub fn contains(&self, name: &str) -> (r: bool)
        ensures
            r == has_name(self@, name@),
    {
        self.names.contains(name)
    }

    /// The definitions of a name.
    pub fn get(&self, name: &str) -> (r: Option<&Vec<ClassInfo>>)
        ensures
            r is Some == has_name(self@, name@),
            r is Some == (lookup(self@, name@) is Some),
            r is Some ==> (r->0).deep_view() == lookup(self@, name@)->0,
    {
        self.names.get(name)
    }

    /// Adds a definition of a name.
    pub fn append(&mut self, name: String, info: ClassInfo)
        ensures
            final(self)@ == put(
                old(self)@,
                name@,
                list_at(old(self)@, name@).push(info.deep_view()),
            ),
            final(self).rules() == old(self).rules(),
    {
        self.names.append(name, info);
    }

    /// Adds a name with its definitions.
    pub(crate) fn push_row(&mut self, name: String, infos: Vec<ClassInfo>)
        ensures
            final(self)@ == old(self)@.push((name@, infos.deep_view())),
            final(self).rules() == old(self).rules(),
    {
        self.names.push_row(name, infos);
    }

    /// Adds a rule.
    pub fn add_rule(&mut self, info: ClassInfo)
        ensures
            final(self)@ == old(self)@,
            final(self).rules() == old(self).rules().push(info.deep_view()),
    {
        let ghost before = self.rules();
        self.rules.push(info);
        proof {
            assert(self.rules() =~= before.push(info.deep_view()));
        }
    }

    /// All rules, in the order in which they were read.
    pub fn all_rules(&self) -> (r: &Vec<ClassInfo>)
        ensures
            r.deep_view() == self.rules(),
    {
        &self.rules
    }

    /// Takes other rules in place of those it has.
    pub(crate) fn set_rules(&mut self, rules: Vec<ClassInfo>)
        ensures
            final(self)@ == old(self)@,
            final(self).rules() == rules.deep_view(),
    {
        self.rules = rules;
    }
}

/// CSS custom properties: `--name` and its value.
pub type VarMap = Table<String>;

/// Open documents: the address of each and its text.
pub type DocumentMap = Table<String>;

/// A definition of an animation.
#[derive(Debug)]
pub struct KeyframeInfo {
    pub source_file: String,
    pub source_path: String,
    pub definition_line: u32,
}

/// What a `KeyframeInfo` says.
#[verifier::ext_equal]
pub ghost struct KeyframeInfoView {
    pub source_file: Seq<char>,
    pub source_path: Seq<char>,
    pub definition_line: u32,
}

impl DeepView for KeyframeInfo {
    type V = KeyframeInfoView;

    open spec fn deep_view(&self) -> KeyframeInfoView {
        KeyframeInfoView {
            source_file: self.source_file@,
            source_path: self.source_path@,
            definition_line: self.definition_line,
        }
    }
}

impl Clone for KeyframeInfo {
    fn clone(&self) -> (r: Self)
        ensures
            r == *self,
    {
        KeyframeInfo {
            source_file: self.source_file.clone(),
            source_path: self.source_path.clone(),
            definition_line: self.definition_line,
        }
    }
}

/// Animation names with their definition.
pub type KeyframesMap = Table<KeyframeInfo>;

/// The rows of a class map.
pub type ClassRows = Seq<(Seq<char>, Seq<ClassInfoView>)>;

/// The definitions of a name; none if the map does not have the name.
pub open spec fn definitions(rows: ClassRows, name: Seq<char>) -> Seq<ClassInfoView> {
    list_at(rows, name)
}

/// The map with a list of definitions added one after another, each behind those that its name
/// already has.
pub open spec fn add_definitions(
    rows: ClassRows,
    added: Seq<(Seq<char>, ClassInfoView)>,
) -> ClassRows {
    append_all(rows, added)
}

/// The map holds each name once, and only names that have a definition.
pub open spec fn class_map_inv(rows: ClassRows) -> bool {
    distinct_names(rows) && no_empty_list(rows)
}

/// Adding definitions keeps the map's invariant.
pub proof fn law_adding_keeps_invariant(rows: ClassRows, added: Seq<(Seq<char>, ClassInfoView)>)
    requires
        class_map_inv(rows),
    ensures
        class_map_inv(add_definitions(rows, added)),
{
    lemma_append_all(rows, added, seq![]);
}

/// Every definition is kept: a name has the definitions it had before, followed by the new ones in
/// order.
pub proof fn law_all_definitions_kept(
    rows: ClassRows,
    added: Seq<(Seq<char>, ClassInfoView)>,
    name: Seq<char>,
)
    ensures
        definitions(add_definitions(rows, added), name) == definitions(rows, name) + items_for(
            added,
            name,
        ),
{
    lemma_append_all(rows, added, name);
}

/// A copy of a list of definitions.
pub fn clone_infos(infos: &Vec<ClassInfo>) -> (r: Vec<ClassInfo>)
    ensures
        r@ == infos@,
        r.deep_view() == infos.deep_view(),
{
    let mut r: Vec<ClassInfo> = Vec::new();
    let n: usize = infos.len();
    let mut i: usize = 0;
    while i < n
        invariant
            i <= n,
            n == infos@.len(),
            r@ == infos@.take(i as int),
        decreases n - i,
    {
        r.push(infos[i].clone());
        proof {
            assert(infos@.take(i + 1) =~= infos@.take(i as int).push(infos@[i as int]));
        }
        i = i + 1;
    }
    proof {
        assert(r@ =~= infos@);
        assert(r.deep_view() =~= infos.deep_view());
    }
    r
}

} // verus!
