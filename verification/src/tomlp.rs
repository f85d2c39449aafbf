//! The adapter between the library's files and the `tomlplus-syntax` crate.
//!
//! A parsed document is a tree of values with annotations on some of its keys.
//! This module holds that tree as plain data, turns every error that the parser
//! or the annotation validator reports into a failure, builds the annotations
//! of generated files, and reads typed fields out of a tree.

use crate::scan::{
    bounds, brace_at, calm, flat_bounds, in_shape, in_value, is_calm, is_sound, is_tame,
    lemma_quiet_end, lemma_quiet_step, lemma_string_run, lemma_tame_run, level, machine_free,
    names_outside, quiet, scan, settled, start, step, whole, within, Bounds, Content, Place,
};
use crate::strmap::{map_of, rising, StrMap};
use crate::text::{
    among, chars_of, is_white, join, joined, same, split, split_on, string_of, texts,
};
use std::collections::BTreeMap;
use vstd::multiset::Multiset;
use vstd::prelude::*;

verus! {

/// A value of a document.
#[derive(Debug, PartialEq, Eq)]
pub enum Tree {
    Text(String),
    Int(i64),
    /// The number as it is displayed.
    Float(String),
    Bool(bool),
    Null,
    List(Vec<Tree>),
    Dict(Vec<(String, Tree)>),
}

/// What a tree says.
pub enum TreeModel {
    Text(Seq<char>),
    Int(int),
    Float(Seq<char>),
    Bool(bool),
    Null,
    List(Seq<TreeModel>),
    Dict(Seq<(Seq<char>, TreeModel)>),
}

/// What a tree says.
pub open spec fn tree_model(t: Tree) -> TreeModel
    decreases t,
{
    match t {
        Tree::Text(s) => TreeModel::Text(s@),
        Tree::Int(n) => TreeModel::Int(n as int),
        Tree::Float(s) => TreeModel::Float(s@),
        Tree::Bool(b) => TreeModel::Bool(b),
        Tree::Null => TreeModel::Null,
        Tree::List(v) => TreeModel::List(list_model(v@)),
        Tree::Dict(v) => TreeModel::Dict(dict_model(v@)),
    }
}

/// What the items of a list say.
pub open spec fn list_model(s: Seq<Tree>) -> Seq<TreeModel>
    decreases s,
{
    if s.len() == 0 {
        Seq::empty()
    } else {
        list_model(s.drop_last()).push(tree_model(s.last()))
    }
}

/// What the entries of a dict say.
pub open spec fn dict_model(s: Seq<(String, Tree)>) -> Seq<(Seq<char>, TreeModel)>
    decreases s,
{
    if s.len() == 0 {
        Seq::empty()
    } else {
        dict_model(s.drop_last()).push((s.last().0@, tree_model(s.last().1)))
    }
}

impl View for Tree {
    type V = TreeModel;

    open spec fn view(&self) -> TreeModel {
        tree_model(*self)
    }
}

/// The model of a list, item by item.
pub proof fn lemma_list_model(s: Seq<Tree>)
    ensures
        list_model(s).len() == s.len(),
        forall|i: int| 0 <= i < s.len() ==> #[trigger] list_model(s)[i] == tree_model(s[i]),
    decreases s,
{
    if s.len() > 0 {
        lemma_list_model(s.drop_last());
    }
}

/// The model of a dict, entry by entry.
pub proof fn lemma_dict_model(s: Seq<(String, Tree)>)
    ensures
        dict_model(s).len() == s.len(),
        forall|i: int|
            0 <= i < s.len() ==> #[trigger] dict_model(s)[i] == (s[i].0@, tree_model(s[i].1)),
    decreases s,
{
    if s.len() > 0 {
        lemma_dict_model(s.drop_last());
    }
}

/// The value at `key`.
pub open spec fn entry(d: Seq<(Seq<char>, TreeModel)>, key: Seq<char>) -> Option<TreeModel>
    decreases d.len(),
{
    if d.len() == 0 {
        None
    } else if d.last().0 == key {
        Some(d.last().1)
    } else {
        entry(d.drop_last(), key)
    }
}

/// The value at `key`, where the tree is a dict that has one.
pub open spec fn field(t: TreeModel, key: Seq<char>) -> Option<TreeModel> {
    match t {
        TreeModel::Dict(d) => entry(d, key),
        _ => None,
    }
}

/// The tree has a text at `key`.
pub open spec fn has_text(t: TreeModel, key: Seq<char>) -> bool {
    field(t, key) matches Some(TreeModel::Text(_))
}

/// The name of the value's type.
pub open spec fn kind_name(t: TreeModel) -> Seq<char> {
    match t {
        TreeModel::Text(_) => "string"@,
        TreeModel::Int(_) => "int"@,
        TreeModel::Float(_) => "float"@,
        TreeModel::Bool(_) => "bool"@,
        TreeModel::Null => "null"@,
        TreeModel::List(_) => "list"@,
        TreeModel::Dict(_) => "dict"@,
    }
}

impl Tree {
    /// The name of the value's type.
    pub fn kind(&self) -> (r: String)
        ensures
            r@ == kind_name(self@),
    {
        match self {
            Tree::Text(_) => "string".to_owned(),
            Tree::Int(_) => "int".to_owned(),
            Tree::Float(_) => "float".to_owned(),
            Tree::Bool(_) => "bool".to_owned(),
            Tree::Null => "null".to_owned(),
            Tree::List(_) => "list".to_owned(),
            Tree::Dict(_) => "dict".to_owned(),
        }
    }

    /// The value at `key`, where the tree is a dict that has one.
    pub fn get(&self, key: &str) -> (r: Option<&Tree>)
        ensures
            match r {
                Some(t) => field(self@, key@) == Some(t@),
                None => field(self@, key@) is None,
            },
    {
        match self {
            Tree::Dict(v) => {
                let mut i: usize = v.len();
                assert(v@.take(i as int) =~= v@);
                while i > 0
                    invariant
                        i <= v.len(),
                        self@ == TreeModel::Dict(dict_model(v@)),
                        entry(dict_model(v@.take(i as int)), key@) == entry(dict_model(v@), key@),
                    decreases i,
                {
                    let e = &v[i - 1];
                    assert(v@.take(i as int).drop_last() =~= v@.take(i - 1));
                    assert(dict_model(v@.take(i as int)).drop_last() =~= dict_model(
                        v@.take(i - 1),
                    ));
                    if same(e.0.as_str(), key) {
                        return Some(&e.1);
                    }
                    i = i - 1;
                }
                assert(dict_model(v@.take(0)).len() == 0);
                None
            },
            _ => None,
        }
    }
}

/// The argument of an annotation.
#[derive(Debug, PartialEq, Eq)]
pub enum NoteArg {
    Flag,
    Text(String),
    Int(i64),
    /// The number as it is displayed.
    Float(String),
    List(Vec<String>),
}

/// An `@name: arg` line on a key.
#[derive(Debug, PartialEq, Eq)]
pub struct Note {
    pub name: String,
    pub arg: NoteArg,
}

/// What the argument of an annotation says.
pub enum ArgModel {
    Flag,
    Text(Seq<char>),
    Int(int),
    Float(Seq<char>),
    List(Seq<Seq<char>>),
}

/// What an annotation says.
pub struct NoteModel {
    pub name: Seq<char>,
    pub arg: ArgModel,
}

impl View for Note {
    type V = NoteModel;

    open spec fn view(&self) -> NoteModel {
        NoteModel {
            name: self.name@,
            arg: match self.arg {
                NoteArg::Flag => ArgModel::Flag,
                NoteArg::Text(s) => ArgModel::Text(s@),
                NoteArg::Int(n) => ArgModel::Int(n as int),
                NoteArg::Float(s) => ArgModel::Float(s@),
                NoteArg::List(v) => ArgModel::List(texts(v@)),
            },
        }
    }
}

/// What a list of annotations says.
pub open spec fn notes(v: Seq<Note>) -> Seq<NoteModel> {
    Seq::new(v.len(), |i: int| v[i]@)
}

/// A document: its values, and the annotations on its keys by dotted path.
#[derive(Debug, PartialEq, Eq)]
pub struct Doc {
    pub config: Tree,
    pub meta: Vec<(String, Vec<Note>)>,
}

/// What a document says.
#[verifier::ext_equal]
pub struct DocModel {
    pub config: TreeModel,
    pub meta: Map<Seq<char>, Seq<NoteModel>>,
}

/// What the annotations say, key by key.
pub open spec fn meta_pairs(v: Seq<(String, Vec<Note>)>) -> Seq<
    (Seq<char>, Seq<NoteModel>),
> {
    Seq::new(v.len(), |i: int| (v[i].0@, notes(v[i].1@)))
}

impl View for Doc {
    type V = DocModel;

    open spec fn view(&self) -> DocModel {
        DocModel { config: self.config@, meta: map_of(meta_pairs(self.meta@)) }
    }
}

/// How grave a finding is.
#[derive(Debug, Clone, Copy, PartialEq, Eq, Structural)]
pub enum Severity {
    Error,
    Warning,
    Info,
    Hint,
}

/// Something that the parser or the validator has to say about a document.
#[derive(Debug, PartialEq, Eq)]
pub struct Finding {
    pub severity: Severity,
    pub message: String,
}

/// What a finding says.
pub struct FindingModel {
    pub severity: Severity,
    pub message: Seq<char>,
}

impl View for Finding {
    type V = FindingModel;

    open spec fn view(&self) -> FindingModel {
        FindingModel { severity: self.severity, message: self.message@ }
    }
}

/// What a list of findings says.
pub open spec fn findings(v: Seq<Finding>) -> Seq<FindingModel> {
    Seq::new(v.len(), |i: int| v[i]@)
}

/// What the parser makes of a source text.
#[derive(Debug, PartialEq, Eq)]
pub struct Parsed {
    pub doc: Doc,
    pub diagnostics: Vec<Finding>,
}

/// What a parser's result says.
#[verifier::ext_equal]
pub struct ParsedModel {
    pub doc: DocModel,
    pub diagnostics: Seq<FindingModel>,
}

impl View for Parsed {
    type V = ParsedModel;

    open spec fn view(&self) -> ParsedModel {
        ParsedModel { doc: self.doc@, diagnostics: findings(self.diagnostics@) }
    }
}

/// The messages of the errors among `v`, in order.
pub open spec fn errors(v: Seq<FindingModel>) -> Seq<Seq<char>>
    decreases v.len(),
{
    if v.len() == 0 {
        Seq::empty()
    } else if v.last().severity == Severity::Error {
        errors(v.drop_last()).push(v.last().message)
    } else {
        errors(v.drop_last())
    }
}

// ---- what a document may hold so that it reads back ----

/// A letter, a digit, `_` or `-`.
pub open spec fn is_key_char(c: char) -> bool {
    ('a' <= c && c <= 'z') || ('A' <= c && c <= 'Z') || ('0' <= c && c <= '9') || c == '_' || c
        == '-'
}

/// A key that needs no quotes.
pub open spec fn bare_key(k: Seq<char>) -> bool {
    k.len() > 0 && forall|i: int| 0 <= i < k.len() ==> is_key_char(#[trigger] k[i])
}

/// The keys at the top of a table are bare.
pub open spec fn bare_keys(t: TreeModel) -> bool {
    t matches TreeModel::Dict(d) && forall|i: int| 0 <= i < d.len() ==> bare_key((#[trigger] d[i]).0)
}

/// A sign of arithmetic.
pub open spec fn is_sign(c: char) -> bool {
    c == '+' || c == '-' || c == '*' || c == '/'
}

/// How a character changes the depth of brackets.
pub open spec fn bracket(c: char) -> int {
    if c == '(' || c == '[' || c == '{' {
        1
    } else if c == ')' || c == ']' || c == '}' {
        -1
    } else {
        0
    }
}

/// How the parser stands where it cuts an expression at its signs. It takes
/// every double quote for one that starts or ends a string, also an escaped one.
pub struct Cutter {
    /// Within a string.
    pub quoted: bool,
    /// The depth of the brackets outside of strings.
    pub depth: int,
    /// A sign stood outside of strings and brackets.
    pub cut: bool,
}

/// Before the first character.
pub open spec fn uncut() -> Cutter {
    Cutter { quoted: false, depth: 0, cut: false }
}

/// After one more character.
pub open spec fn after_char(r: Cutter, c: char) -> Cutter {
    if c == '"' {
        Cutter { quoted: !r.quoted, ..r }
    } else if r.quoted {
        r
    } else if is_sign(c) {
        Cutter { cut: r.cut || r.depth == 0, ..r }
    } else {
        Cutter { depth: r.depth + bracket(c), ..r }
    }
}

/// After a text.
pub open spec fn after_text(r: Cutter, s: Seq<char>) -> Cutter
    decreases s.len(),
{
    if s.len() == 0 {
        r
    } else {
        after_char(after_text(r, s.drop_last()), s.last())
    }
}

/// After a value as `dumps` writes it on one line.
pub open spec fn after_value(r: Cutter, t: TreeModel) -> Cutter
    decreases t,
{
    match t {
        TreeModel::Text(s) => after_char(after_text(after_char(r, '"'), s), '"'),
        TreeModel::Int(n) => if n < 0 {
            after_char(r, '-')
        } else {
            r
        },
        TreeModel::List(s) => after_char(after_items(after_char(r, '['), s), ']'),
        TreeModel::Dict(d) => after_char(after_entries(after_char(r, '{'), d), '}'),
        _ => r,
    }
}

/// After the items of a list.
pub open spec fn after_items(r: Cutter, s: Seq<TreeModel>) -> Cutter
    decreases s,
{
    if s.len() == 0 {
        r
    } else {
        after_value(after_items(r, s.drop_last()), s.last())
    }
}

/// After the entries of a table.
pub open spec fn after_entries(r: Cutter, d: Seq<(Seq<char>, TreeModel)>) -> Cutter
    decreases d,
{
    if d.len() == 0 {
        r
    } else {
        after_value(after_text(after_entries(r, d.drop_last()), d.last().0), d.last().1)
    }
}

/// The parser takes the value for one piece. A sign before an integer is part of
/// it.
pub open spec fn one_piece(t: TreeModel) -> bool {
    t is Int || !after_value(uncut(), t).cut
}

/// The depth of the brackets after `s`.
pub open spec fn depth(s: Seq<char>) -> int
    decreases s.len(),
{
    if s.len() == 0 {
        0
    } else {
        depth(s.drop_last()) + bracket(s.last())
    }
}

/// A key that can stand in a table on one line: its brackets match, none of them
/// is escaped, and what else would end it does not occur.
pub open spec fn inline_key(k: Seq<char>) -> bool {
    &&& forall|i: int|
        0 <= i < k.len() ==> #[trigger] k[i] != '"' && k[i] != '=' && k[i] != ',' && k[i] != '#'
            && k[i] != '\n'
    &&& forall|i: int| 0 < i < k.len() && bracket(#[trigger] k[i]) != 0 ==> k[i - 1] != '\\'
    &&& k.len() > 0 ==> !is_white(k[0]) && !is_white(k.last())
    &&& forall|n: int| 0 <= n <= k.len() ==> depth(#[trigger] k.take(n)) >= 0
    &&& depth(k) == 0
}

/// A value on one line that the parser takes for one piece, as it does each
/// value in it.
pub open spec fn readable(t: TreeModel) -> bool
    decreases t,
{
    &&& one_piece(t)
    &&& match t {
        TreeModel::Text(_) => true,
        TreeModel::Int(n) => i64::MIN < n <= i64::MAX,
        TreeModel::Float(_) => false,
        TreeModel::Bool(_) => true,
        TreeModel::Null => true,
        TreeModel::List(s) => readable_items(s),
        TreeModel::Dict(d) => rising(d) && readable_entries(d),
    }
}

/// Every item is readable.
pub open spec fn readable_items(s: Seq<TreeModel>) -> bool
    decreases s,
{
    s.len() == 0 || (readable_items(s.drop_last()) && readable(s.last()))
}

/// Every entry is readable.
pub open spec fn readable_entries(d: Seq<(Seq<char>, TreeModel)>) -> bool
    decreases d,
{
    d.len() == 0 || (readable_entries(d.drop_last()) && inline_key(d.last().0) && readable(
        d.last().1,
    ))
}

/// A value that is readable where it stands. `lines` tells how many levels of
/// tables from it on have their entries on lines of their own.
pub open spec fn printable_tree(t: TreeModel, lines: nat) -> bool
    decreases t,
{
    if t is Dict && lines > 0 {
        rising(t->Dict_0) && printable_dict(t->Dict_0, (lines - 1) as nat)
    } else {
        readable(t)
    }
}

/// Every entry stands on a line of its own, under a bare key, and is readable.
pub open spec fn printable_dict(d: Seq<(Seq<char>, TreeModel)>, lines: nat) -> bool
    decreases d,
{
    d.len() == 0 || (printable_dict(d.drop_last(), lines) && bare_key(d.last().0)
        && printable_tree(d.last().1, lines))
}

/// An ASCII text.
pub open spec fn ascii(s: Seq<char>) -> bool {
    forall|i: int| 0 <= i < s.len() ==> (#[trigger] s[i] as int) < 128
}

/// Every text and key is ASCII.
pub open spec fn ascii_tree(t: TreeModel) -> bool
    decreases t,
{
    match t {
        TreeModel::Text(s) => ascii(s),
        TreeModel::List(s) => ascii_items(s),
        TreeModel::Dict(d) => ascii_entries(d),
        _ => true,
    }
}

/// Every item is ASCII.
pub open spec fn ascii_items(s: Seq<TreeModel>) -> bool
    decreases s,
{
    s.len() == 0 || (ascii_items(s.drop_last()) && ascii_tree(s.last()))
}

/// Every entry is ASCII.
pub open spec fn ascii_entries(d: Seq<(Seq<char>, TreeModel)>) -> bool
    decreases d,
{
    d.len() == 0 || (ascii_entries(d.drop_last()) && ascii(d.last().0) && ascii_tree(d.last().1))
}

/// The text holds no double quote.
pub open spec fn unquoted(s: Seq<char>) -> bool {
    forall|i: int| 0 <= i < s.len() ==> #[trigger] s[i] != '"'
}

proof fn lemma_in_string(r: Cutter, s: Seq<char>)
    requires
        r.quoted,
        unquoted(s),
    ensures
        after_text(r, s) == r,
    decreases s.len(),
{
    if s.len() > 0 {
        lemma_in_string(r, s.drop_last());
        assert(s.last() == s[s.len() - 1]);
    }
}

proof fn lemma_in_brackets(r: Cutter, k: Seq<char>)
    requires
        !r.quoted,
        r.depth > 0,
        unquoted(k),
        forall|n: int| 0 <= n <= k.len() ==> depth(#[trigger] k.take(n)) >= 0,
    ensures
        after_text(r, k) == (Cutter { depth: r.depth + depth(k), ..r }),
    decreases k.len(),
{
    if k.len() > 0 {
        let t = k.drop_last();
        assert forall|n: int| 0 <= n <= t.len() implies depth(#[trigger] t.take(n)) >= 0 by {
            assert(t.take(n) =~= k.take(n));
        }
        assert(unquoted(t)) by {
            assert forall|i: int| 0 <= i < t.len() implies #[trigger] t[i] != '"' by {
                assert(t[i] == k[i]);
            }
        }
        lemma_in_brackets(r, t);
        assert(t.take(t.len() as int) =~= t);
        assert(k.last() == k[k.len() - 1]);
    }
}

/// A text without double quotes is readable, and changes nothing for what stands
/// beside it.
pub proof fn lemma_unquoted_text(r: Cutter, s: Seq<char>)
    requires
        unquoted(s),
    ensures
        !r.quoted ==> after_value(r, TreeModel::Text(s)) == r,
        readable(TreeModel::Text(s)),
{
    if !r.quoted {
        lemma_in_string(after_char(r, '"'), s);
    }
    lemma_in_string(after_char(uncut(), '"'), s);
}

/// A list of texts without double quotes is readable.
pub proof fn law_unquoted_list_is_readable(s: Seq<TreeModel>)
    requires
        forall|i: int|
            0 <= i < s.len() ==> (#[trigger] s[i] matches TreeModel::Text(x) && unquoted(x)),
    ensures
        readable(TreeModel::List(s)),
{
    lemma_unquoted_items(after_char(uncut(), '['), s);
}

proof fn lemma_unquoted_items(r: Cutter, s: Seq<TreeModel>)
    requires
        !r.quoted,
        forall|i: int|
            0 <= i < s.len() ==> (#[trigger] s[i] matches TreeModel::Text(x) && unquoted(x)),
    ensures
        after_items(r, s) == r,
        readable_items(s),
    decreases s.len(),
{
    if s.len() > 0 {
        let t = s.drop_last();
        assert forall|i: int| 0 <= i < t.len() implies (#[trigger] t[i] matches TreeModel::Text(x)
            && unquoted(x)) by {
            assert(t[i] == s[i]);
        }
        lemma_unquoted_items(r, t);
        assert(s.last() == s[s.len() - 1]);
        lemma_unquoted_text(r, s.last()->Text_0);
    }
}

/// A table of texts without double quotes is readable.
pub proof fn law_unquoted_table_is_readable(d: Seq<(Seq<char>, TreeModel)>)
    requires
        rising(d),
        forall|i: int|
            0 <= i < d.len() ==> inline_key((#[trigger] d[i]).0) && (
            d[i].1 matches TreeModel::Text(x) && unquoted(x)),
    ensures
        readable(TreeModel::Dict(d)),
{
    lemma_unquoted_entries(after_char(uncut(), '{'), d);
}

proof fn lemma_unquoted_entries(r: Cutter, d: Seq<(Seq<char>, TreeModel)>)
    requires
        !r.quoted,
        r.depth > 0,
        forall|i: int|
            0 <= i < d.len() ==> inline_key((#[trigger] d[i]).0) && (
            d[i].1 matches TreeModel::Text(x) && unquoted(x)),
    ensures
        after_entries(r, d) == r,
        readable_entries(d),
    decreases d.len(),
{
    if d.len() > 0 {
        let t = d.drop_last();
        assert forall|i: int| 0 <= i < t.len() implies inline_key((#[trigger] t[i]).0) && (
        t[i].1 matches TreeModel::Text(x) && unquoted(x)) by {
            assert(t[i] == d[i]);
        }
        lemma_unquoted_entries(r, t);
        assert(d.last() == d[d.len() - 1]);
        lemma_in_brackets(r, d.last().0);
        lemma_unquoted_text(r, d.last().1->Text_0);
    }
}

/// The pattern that a name has to match.
pub open spec fn name_pattern() -> Seq<char> {
    "[A-Za-z0-9._-]+"@
}

/// `@required`, `@type: string`, `@minlen: 1` and `@pattern` of a name.
pub open spec fn name_rules() -> Seq<NoteModel> {
    seq![
        NoteModel { name: "required"@, arg: ArgModel::Flag },
        NoteModel { name: "type"@, arg: ArgModel::Text("string"@) },
        NoteModel { name: "minlen"@, arg: ArgModel::Int(1) },
        NoteModel { name: "pattern"@, arg: ArgModel::Text(name_pattern()) },
    ]
}

/// `@required` and `@type: string`.
pub open spec fn version_rules() -> Seq<NoteModel> {
    seq![
        NoteModel { name: "required"@, arg: ArgModel::Flag },
        NoteModel { name: "type"@, arg: ArgModel::Text("string"@) },
    ]
}

/// No annotations.
pub open spec fn no_rules() -> Map<Seq<char>, Seq<NoteModel>> {
    Map::empty()
}

/// The annotations of a document that has a name and a version.
pub open spec fn head_rules() -> Map<Seq<char>, Seq<NoteModel>> {
    no_rules().insert("name"@, name_rules()).insert(
        "version"@,
        version_rules(),
    )
}

/// A letter, a digit, `.`, `_` or `-`.
pub open spec fn is_name_char(c: char) -> bool {
    is_key_char(c) || c == '.'
}

/// A text that matches the pattern of names.
pub open spec fn well_named(n: Seq<char>) -> bool {
    n.len() > 0 && forall|i: int| 0 <= i < n.len() ==> is_name_char(#[trigger] n[i])
}

/// A document of which the parser takes each value for one piece, with no
/// annotations or those of a name and a version. The entries of the document, of
/// its sections and of the tables in them stand on lines of their own.
pub open spec fn firm(m: DocModel) -> bool {
    &&& m.config is Dict
    &&& printable_tree(m.config, 3)
    &&& m.meta == no_rules() || m.meta == head_rules()
}

/// A document that the parser reads back as it was written: it is firm and
/// ASCII, has no section called `vars`, and where it has the annotations of a
/// name and a version, these are there as texts.
pub open spec fn printable(m: DocModel) -> bool {
    &&& firm(m)
    &&& ascii_tree(m.config)
    &&& !(field(m.config, "vars"@) matches Some(TreeModel::Dict(_)))
    &&& m.meta == no_rules() || (has_text(m.config, "name"@) && has_text(m.config, "version"@))
}

/// The name carries the rules of names and breaks them.
pub open spec fn name_broken(m: DocModel) -> bool {
    &&& m.meta.contains_key("name"@)
    &&& m.meta["name"@] == name_rules()
    &&& field(m.config, "name"@) matches Some(TreeModel::Text(n)) && !well_named(n)
}

/// The version carries the rules of versions and is empty.
pub open spec fn version_broken(m: DocModel) -> bool {
    &&& m.meta.contains_key("version"@)
    &&& m.meta["version"@] == version_rules()
    &&& field(m.config, "version"@) matches Some(TreeModel::Text(v)) && v.len() == 0
}

/// There are no rules, or only those of a name and a version, which both meet.
pub open spec fn rules_met(m: DocModel) -> bool {
    ||| m.meta == no_rules()
    ||| {
        &&& m.meta == head_rules()
        &&& field(m.config, "name"@) matches Some(TreeModel::Text(n)) && well_named(n)
        &&& field(m.config, "version"@) matches Some(TreeModel::Text(v)) && v.len() > 0
    }
}

/// A value that stands on one line whatever its texts hold: a text, or a list
/// of tables of texts.
pub open spec fn flat(t: TreeModel) -> bool {
    match t {
        TreeModel::Text(_) => true,
        TreeModel::List(s) => forall|i: int| 0 <= i < s.len() ==> flat_table(#[trigger] s[i]),
        _ => false,
    }
}

/// A table of texts with bare keys.
pub open spec fn flat_table(t: TreeModel) -> bool {
    t matches TreeModel::Dict(d) && forall|i: int|
        0 <= i < d.len() ==> bare_key((#[trigger] d[i]).0) && d[i].1 is Text
}

/// A document that starts with flat values under bare keys, a name among them
/// that carries the rules of names, and goes on with sections of any content.
pub open spec fn named_head(m: DocModel) -> bool {
    &&& m.config matches TreeModel::Dict(d) && rising(d) && forall|i: int|
        0 <= i < d.len() ==> bare_key((#[trigger] d[i]).0) && (d[i].1 is Dict || flat(d[i].1))
    &&& has_text(m.config, "name"@)
    &&& m.meta == head_rules()
}

/// What reads back from a document with a named head: unless the parser
/// reports an error or the name is no text any more, the rules of the name
/// stand, and a well-formed name is the one that was written.
pub open spec fn head_kept(m: DocModel, p: ParsedModel) -> bool {
    errors(p.diagnostics).len() == 0 && field(p.doc.config, "name"@) is Some && field(
        p.doc.config,
        "name"@,
    )->0 is Text ==> {
        &&& p.doc.meta.contains_key("name"@)
        &&& p.doc.meta["name"@] == name_rules()
        &&& well_named(field(p.doc.config, "name"@)->0->Text_0) ==> field(m.config, "name"@)
            == field(p.doc.config, "name"@)
    }
}

/// A key that is short or has no `-`.
pub open spec fn mild_key(k: Seq<char>) -> bool {
    bare_key(k) && (k.len() <= 9 || !k.contains('-'))
}

/// An ASCII value of at most `depth` levels that holds no number and no double
/// quote, under mild keys.
pub open spec fn mild_tree(t: TreeModel, depth: nat) -> bool
    decreases t,
{
    match t {
        TreeModel::Text(s) => ascii(s) && !s.contains('"'),
        TreeModel::Int(_) => false,
        TreeModel::Float(_) => false,
        TreeModel::Bool(_) => true,
        TreeModel::Null => true,
        TreeModel::List(s) => depth > 0 && mild_list(s, (depth - 1) as nat),
        TreeModel::Dict(d) => depth > 0 && mild_dict(d, (depth - 1) as nat),
    }
}

/// Every item is mild.
pub open spec fn mild_list(s: Seq<TreeModel>, depth: nat) -> bool
    decreases s,
{
    s.len() == 0 || (mild_list(s.drop_last(), depth) && mild_tree(s.last(), depth))
}

/// Every entry is mild.
pub open spec fn mild_dict(d: Seq<(Seq<char>, TreeModel)>, depth: nat) -> bool
    decreases d,
{
    d.len() == 0 || (mild_dict(d.drop_last(), depth) && mild_key(d.last().0) && mild_tree(
        d.last().1,
        depth,
    ))
}

/// How many values a value is made of.
pub open spec fn tree_size(t: TreeModel) -> nat
    decreases t,
{
    match t {
        TreeModel::List(s) => 1 + list_size(s),
        TreeModel::Dict(d) => 1 + dict_size(d),
        _ => 1,
    }
}

/// How many values the items are made of.
pub open spec fn list_size(s: Seq<TreeModel>) -> nat
    decreases s,
{
    if s.len() == 0 {
        0
    } else {
        list_size(s.drop_last()) + tree_size(s.last())
    }
}

/// How many values the entries are made of.
pub open spec fn dict_size(d: Seq<(Seq<char>, TreeModel)>) -> nat
    decreases d,
{
    if d.len() == 0 {
        0
    } else {
        dict_size(d.drop_last()) + tree_size(d.last().1)
    }
}

/// An ASCII document without numbers and double quotes, of few levels and not too many
/// values, with no annotations or those of a name and a version.
pub open spec fn mild(m: DocModel) -> bool {
    &&& m.config is Dict
    &&& mild_tree(m.config, 8)
    &&& tree_size(m.config) <= 0x100_0000
    &&& m.meta == no_rules() || m.meta == head_rules()
}

/// How many levels a document has at most, so that functions that call
/// themselves for each level come back.
pub const MAX_LEVELS: usize = 600;

/// A value of at most `levels` levels of lists and tables.
pub open spec fn shallow(t: TreeModel, levels: nat) -> bool
    decreases levels,
{
    match t {
        TreeModel::List(s) => levels > 0 && forall|i: int|
            0 <= i < s.len() ==> shallow(#[trigger] s[i], (levels - 1) as nat),
        TreeModel::Dict(d) => levels > 0 && forall|i: int|
            0 <= i < d.len() ==> shallow((#[trigger] d[i]).1, (levels - 1) as nat),
        _ => true,
    }
}

/// The argument of the last annotation called `type`.
pub open spec fn last_type(v: Seq<NoteModel>) -> Option<ArgModel>
    decreases v.len(),
{
    if v.len() == 0 {
        None
    } else if v.last().name == "type"@ {
        Some(v.last().arg)
    } else {
        last_type(v.drop_last())
    }
}

/// The value at the end of a path of keys.
pub open spec fn value_at(t: TreeModel, path: Seq<Seq<char>>) -> Option<TreeModel>
    decreases path.len(),
{
    if path.len() == 0 {
        Some(t)
    } else {
        match value_at(t, path.drop_last()) {
            Some(u) => field(u, path.last()),
            None => None,
        }
    }
}

/// The annotations make the value a duration, and it is a text that ends in
/// another character than an ASCII one.
pub open spec fn is_ill_timed(t: TreeModel, key: Seq<char>, v: Seq<NoteModel>) -> bool {
    &&& last_type(v) == Some(ArgModel::Text("duration"@))
    &&& value_at(t, split(key, '.')) matches Some(TreeModel::Text(s)) && s.len() > 0 && (s.last()
        as int) >= 128
}

/// Some key is to be a duration and is a text that ends in another character
/// than an ASCII one.
pub open spec fn ill_timed(m: DocModel) -> bool {
    exists|k: Seq<char>| #[trigger]
        m.meta.contains_key(k) && is_ill_timed(m.config, k, m.meta[k])
}

/// `p` is the only thing that the parser can make of `source`.
pub open spec fn sole_parse(source: Seq<char>, p: ParsedModel) -> bool {
    forall|q: ParsedModel| #[trigger] parses_to(source, q) ==> q == p
}

// ---- the outside crate ----

/// A runtime value of `tomlplus-syntax`.
#[verifier::external_type_specification]
#[verifier::external_body]
pub struct ExValue(tomlplus_syntax::Value);

/// An annotation of `tomlplus-syntax`.
#[verifier::external_type_specification]
#[verifier::external_body]
pub struct ExAnnotation(tomlplus_syntax::Annotation);

/// A diagnostic of `tomlplus-syntax`.
#[verifier::external_type_specification]
#[verifier::external_body]
pub struct ExDiagnostic(tomlplus_syntax::Diagnostic);

/// `p` is something that `tomlplus_syntax::parse` can make of `source`. The
/// parser reads environment variables, the clock and the process where the
/// source names them, so that one source may have many results.
pub uninterp spec fn parses_to(source: Seq<char>, p: ParsedModel) -> bool;

/// The text that `tomlplus_syntax::dumper::dumps` makes of a document.
pub uninterp spec fn dumped(m: DocModel) -> Seq<char>;

/// What `tomlplus_syntax::validate` reports of a document, in no fixed order:
/// it walks the annotations by a hash map.
pub uninterp spec fn violations(m: DocModel) -> Multiset<FindingModel>;

/// The plain form of a value.
#[verifier::external_body]
fn value_in(v: &tomlplus_syntax::Value) -> Tree {
    match v {
        tomlplus_syntax::Value::String(s) => Tree::Text(s.clone()),
        tomlplus_syntax::Value::Integer(n) => Tree::Int(*n),
        tomlplus_syntax::Value::Float(x) => Tree::Float(x.to_string()),
        tomlplus_syntax::Value::Bool(b) => Tree::Bool(*b),
        tomlplus_syntax::Value::Null => Tree::Null,
        tomlplus_syntax::Value::Array(a) => Tree::List(a.iter().map(value_in).collect()),
        tomlplus_syntax::Value::Dict(d) => {
            Tree::Dict(d.iter().map(|(k, x)| (k.clone(), value_in(x))).collect())
        },
    }
}

/// The value of a plain form.
#[verifier::external_body]
fn value_out(t: &Tree) -> tomlplus_syntax::Value {
    match t {
        Tree::Text(s) => tomlplus_syntax::Value::String(s.clone()),
        Tree::Int(n) => tomlplus_syntax::Value::Integer(*n),
        Tree::Float(x) => tomlplus_syntax::Value::Float(x.parse().unwrap_or_default()),
        Tree::Bool(b) => tomlplus_syntax::Value::Bool(*b),
        Tree::Null => tomlplus_syntax::Value::Null,
        Tree::List(a) => tomlplus_syntax::Value::Array(a.iter().map(value_out).collect()),
        Tree::Dict(d) => {
            let m: BTreeMap<_, _> = d.iter().map(|(k, x)| (k.clone(), value_out(x))).collect();
            tomlplus_syntax::Value::Dict(m)
        },
    }
}

/// The plain form of an annotation.
#[verifier::external_body]
fn note_in(a: &tomlplus_syntax::Annotation) -> Note {
    let arg = match &a.arg {
        tomlplus_syntax::AnnotationArg::None => NoteArg::Flag,
        tomlplus_syntax::AnnotationArg::String(s) => NoteArg::Text(s.clone()),
        tomlplus_syntax::AnnotationArg::Int(n) => NoteArg::Int(*n),
        tomlplus_syntax::AnnotationArg::Float(x) => NoteArg::Float(x.to_string()),
        tomlplus_syntax::AnnotationArg::List(v) => NoteArg::List(v.clone()),
    };
    Note { name: a.name.clone(), arg }
}

/// The annotation of a plain form; it carries no place in a source.
#[verifier::external_body]
fn note_out(a: &Note) -> tomlplus_syntax::Annotation {
    let arg = match &a.arg {
        NoteArg::Flag => tomlplus_syntax::AnnotationArg::None,
        NoteArg::Text(s) => tomlplus_syntax::AnnotationArg::String(s.clone()),
        NoteArg::Int(n) => tomlplus_syntax::AnnotationArg::Int(*n),
        NoteArg::Float(x) => {
            tomlplus_syntax::AnnotationArg::Float(x.parse().unwrap_or_default())
        },
        NoteArg::List(v) => tomlplus_syntax::AnnotationArg::List(v.clone()),
    };
    let (name, span) = (a.name.clone(), tomlplus_syntax::Span::DUMMY);
    let list_item_spans = Vec::new();
    tomlplus_syntax::Annotation { name, arg, span, name_span: span, arg_span: None, list_item_spans }
}

/// The plain form of a diagnostic.
#[verifier::external_body]
fn finding_in(d: &tomlplus_syntax::Diagnostic) -> Finding {
    let severity = match d.severity {
        tomlplus_syntax::Severity::Error => Severity::Error,
        tomlplus_syntax::Severity::Warning => Severity::Warning,
        tomlplus_syntax::Severity::Info => Severity::Info,
        tomlplus_syntax::Severity::Hint => Severity::Hint,
    };
    Finding { severity, message: d.message.clone() }
}

/// `tomlplus_syntax::parse`. What it makes of a source is left to its
/// documentation, but for a few facts. A printable document that `dumps` wrote
/// reads back as itself, without diagnostics. A document with a named head that
/// `dumps` wrote reads back with its name as it was, or with one that is not
/// well-formed, or not at all. A source that refers to nothing outside of it has
/// one result, and so has one that `dumps` wrote of a firm document. The parser
/// computes with 64-bit integers, calls itself for each level of a value, takes
/// characters outside of ASCII apart at each level, escapes a list that it puts
/// into a text, and asserts that what it reads does not end before it starts. A
/// calm source makes none of this fail, and what it spells has few levels.
#[verifier::external_body]
pub(crate) fn parse(source: &str) -> (r: Parsed)
    requires
        calm(source@),
    ensures
        parses_to(source@, r@),
        settled(source@) ==> sole_parse(source@, r@),
        forall|m: DocModel| #[trigger] dumped(m) == source@ && firm(m) ==> sole_parse(source@, r@),
        r@.doc.config is Dict,
        shallow(r@.doc.config, MAX_LEVELS as nat),
        forall|m: DocModel| #[trigger] dumped(m) == source@ && printable(m) ==> r@.doc == m
            && r@.diagnostics.len() == 0,
        forall|m: DocModel| #[trigger] dumped(m) == source@ && named_head(m) ==> head_kept(m, r@),
{
    let d = tomlplus_syntax::parse(source);
    let meta = d.meta.iter();
    let doc = Doc {
        config: value_in(&tomlplus_syntax::Value::Dict(d.config)),
        meta: meta.map(|(k, v)| (k.clone(), v.iter().map(note_in).collect())).collect(),
    };
    Parsed { doc, diagnostics: d.diagnostics.iter().map(finding_in).collect() }
}

/// `p` is something that `tomlplus_syntax::parser::parse_with_env` can make of
/// `source` where `vars` are the environment variables. The clock and the
/// process can still come in.
pub uninterp spec fn evaluates_to(
    source: Seq<char>,
    vars: Map<Seq<char>, Seq<char>>,
    p: ParsedModel,
) -> bool;

/// A letter, a digit or `_`.
pub open spec fn is_var_char(c: char) -> bool {
    ('a' <= c && c <= 'z') || ('A' <= c && c <= 'Z') || ('0' <= c && c <= '9') || c == '_'
}

/// The name of an environment variable.
pub open spec fn var_name(n: Seq<char>) -> bool {
    n.len() > 0 && forall|i: int| 0 <= i < n.len() ==> is_var_char(#[trigger] n[i])
}

/// An ASCII text that needs no escapes between quotes.
pub open spec fn plain_literal(s: Seq<char>) -> bool {
    forall|i: int|
        0 <= i < s.len() ==> (#[trigger] s[i] as int) < 128 && s[i] != '"' && s[i] != '\\' && s[i]
            != '\n' && s[i] != '\r'
}

/// A reference to the environment variable `name`.
pub open spec fn env_ref(name: Seq<char>) -> Seq<char> {
    "$ENV."@ + name
}

/// A reference to the environment variable `name` with a default.
pub open spec fn env_ref_or(name: Seq<char>, default: Seq<char>) -> Seq<char> {
    "$ENV."@ + name + " ?? \""@ + default + "\""@
}

/// A source that gives the value of `expr` to one key.
pub open spec fn value_source(expr: Seq<char>) -> Seq<char> {
    "__v = "@ + expr
}

/// `p` is the only thing that the parser can make of `source` with these
/// variables.
pub open spec fn sole_evaluation(
    source: Seq<char>,
    vars: Map<Seq<char>, Seq<char>>,
    p: ParsedModel,
) -> bool {
    forall|q: ParsedModel| #[trigger] evaluates_to(source, vars, q) ==> q == p
}

/// The value that `value_source` gives, where the parser reported nothing.
pub open spec fn sole_value(p: ParsedModel) -> Option<TreeModel> {
    if p.diagnostics.len() == 0 {
        field(p.doc.config, "__v"@)
    } else {
        None
    }
}

/// The value of `key`.
pub fn lookup(vars: &StrMap<String>, key: &str) -> (r: Option<String>)
    ensures
        match r {
            Some(s) => vars@.contains_key(key@) && s@ == vars@[key@],
            None => !vars@.contains_key(key@),
        },
{
    match vars.get(key) {
        Some(s) => Some(s.clone()),
        None => None,
    }
}

/// The source that gives one key the value of a variable, with or without a
/// default, is calm.
pub proof fn lemma_refs_are_calm(name: Seq<char>, default: Seq<char>)
    requires
        var_name(name),
        plain_literal(default),
    ensures
        calm(value_source(env_ref(name))),
        calm(value_source(env_ref_or(name, default))),
{
    lemma_ref_is_sound(name, default, None);
    lemma_ref_is_sound(name, default, Some(start().known));
}

proof fn lemma_ref_is_sound(name: Seq<char>, default: Seq<char>, given: Option<Bounds>)
    requires
        var_name(name),
        plain_literal(default),
        flat_bounds(given),
    ensures
        is_sound(whole(value_source(env_ref(name)), given)),
        whole(value_source(env_ref(name)), given).known == start().known,
        is_sound(whole(value_source(env_ref_or(name, default)), given)),
        whole(value_source(env_ref_or(name, default)), given).known == start().known,
{
    reveal_strlit("__v = ");
    reveal_strlit("$ENV.");
    reveal_strlit(" ?? \"");
    reveal_strlit("\"");
    let a = value_source(env_ref(name));
    let n = 11 + name.len() as int;
    assert forall|i: int| 6 <= i < n implies is_tame(#[trigger] a[i]) || a[i] == '.' || a[i]
        == '$' by {
        if i >= 11 {
            assert(a[i] == name[i - 11]);
        }
    }
    lemma_key_read(a, given);
    lemma_tame_run(a, 6, n, given);
    lemma_quiet_end(scan(a, n, given), given);
    let b = value_source(env_ref_or(name, default));
    assert forall|i: int| 0 <= i < n implies b[i] == a[i] by {}
    assert forall|i: int| 6 <= i < n + 1 implies is_tame(#[trigger] b[i]) || b[i] == ' ' || b[i]
        == '.' || b[i] == '$' by {
        if i < n {
            assert(b[i] == a[i]);
        }
    }
    lemma_key_read(b, given);
    lemma_tame_run(b, 6, n + 1, given);
    assert(b[n] == ' ' && b[n + 1] == '?' && b[n + 2] == '?' && b[n + 3] == ' ' && b[n + 4] == '"');
    lemma_quiet_at(b, n + 2, given);
    lemma_quiet_at(b, n + 3, given);
    lemma_quiet_at(b, n + 4, given);
    lemma_quote_at(b, n + 5, given);
    let end: int = (n + 5 + default.len()) as int;
    assert forall|i: int| n + 5 <= i < end implies #[trigger] b[i] != '"' && b[i] != '\\' && b[i]
        != '\n' by {
        assert(b[i] == default[i - n - 5]);
    }
    lemma_string_run(b, n + 5, end, given);
    assert(b[end] == '"' && b.len() == end + 1);
    lemma_quote_at(b, end + 1, given);
    lemma_quiet_end(scan(b, end + 1, given), given);
}

proof fn lemma_key_read(s: Seq<char>, given: Option<Bounds>)
    requires
        s.len() > 6,
        s[0] == '_' && s[1] == '_' && s[2] == 'v' && s[3] == ' ' && s[4] == '=' && s[5] == ' ',
        flat_bounds(given),
    ensures
        quiet(scan(s, 6, given)),
        scan(s, 6, given).value.asked == 0,
{
    reveal(step);
    reveal_with_fuel(scan, 6);
    let t = scan(s, 5, given);
    assert(scan(s, 1, given).line.place == Place::Bare);
    assert(scan(s, 2, given).line.place == Place::Bare);
    assert(scan(s, 3, given).line.place == Place::Bare);
    assert(scan(s, 4, given).line.place == Place::After);
    assert(quiet(t) && t.value.asked == 0);
    lemma_quiet_at(s, 6, given);
}

proof fn lemma_quiet_at(s: Seq<char>, n: int, given: Option<Bounds>)
    requires
        0 < n <= s.len(),
        quiet(scan(s, n - 1, given)),
        s[n - 1] == ' ' || (s[n - 1] == '?' && scan(s, n - 1, given).value.asked < 2),
        flat_bounds(given),
    ensures
        quiet(scan(s, n, given)),
        scan(s, n, given).value.asked == scan(s, n - 1, given).value.asked + (if s[n - 1] == '?' {
            1int
        } else {
            0
        }),
{
    lemma_quiet_step(
        scan(s, n - 1, given),
        s[n - 1],
        brace_at(s, n),
        names_outside(s, n - 1),
        given,
    );
}

/// A quote starts or ends a string.
proof fn lemma_quote_at(s: Seq<char>, n: int, given: Option<Bounds>)
    requires
        0 < n <= s.len(),
        s[n - 1] == '"',
        quiet(scan(s, n - 1, given)) || within(scan(s, n - 1, given)),
    ensures
        quiet(scan(s, n - 1, given)) ==> within(scan(s, n, given)),
        within(scan(s, n - 1, given)) ==> quiet(scan(s, n, given)),
{
    reveal(step);
    let t = scan(s, n - 1, given);
    let v = in_shape(t.value, t.line, '"');
    assert(v == (Content { weight: v.weight, ..t.value }));
    assert(level(in_value(v, '"', bounds(t, given))) == 0);
}

/// `tomlplus_syntax::parser::parse_with_env`, with `vars` for the environment.
/// Of what it makes of a source, this is stated: a reference to a variable has
/// the variable's value, or null where it is not set, and one with a default
/// has the variable's value, or the default. A source that names no built-in
/// variable of the clock, the process or the machine has one result. A calm
/// source makes neither the integers nor the calls of the parser overflow, nor
/// what it builds grow without measure.
#[verifier::external_body]
pub(crate) fn parse_with_vars(source: &str, vars: &StrMap<String>) -> (r: Parsed)
    requires
        calm(source@),
    ensures
        evaluates_to(source@, vars@, r@),
        machine_free(source@) ==> sole_evaluation(source@, vars@, r@),
        r@.doc.config is Dict,
        forall|name: Seq<char>| #[trigger] var_name(name) && source@ == value_source(env_ref(name))
            ==> sole_value(r@) == Some(if vars@.contains_key(name) {
            TreeModel::Text(vars@[name])
        } else {
            TreeModel::Null
        }),
        forall|name: Seq<char>, default: Seq<char>| #[trigger] var_name(name) && #[trigger] plain_literal(
            default,
        ) && source@ == value_source(env_ref_or(name, default)) ==> sole_value(r@) == Some(
            if vars@.contains_key(name) {
                TreeModel::Text(vars@[name])
            } else {
                TreeModel::Text(default)
            },
        ),
{
    let d = tomlplus_syntax::parser::parse_with_env(source, &|k: &str| lookup(vars, k));
    let meta = d.meta.iter();
    let doc = Doc {
        config: value_in(&tomlplus_syntax::Value::Dict(d.config)),
        meta: meta.map(|(k, v)| (k.clone(), v.iter().map(note_in).collect())).collect(),
    };
    Parsed { doc, diagnostics: d.diagnostics.iter().map(finding_in).collect() }
}

/// `tomlplus_syntax::validate`: what the annotations of a document find in its
/// values. Of the rules that generated files carry: a text under the rules of
/// names that is not well-formed is an error, so is an empty text under the
/// rules of versions, and nothing is reported where both are as they should be
/// and no other key has annotations. A duration is cut before its last byte,
/// which panics within a character.
#[verifier::external_body]
pub(crate) fn validate(doc: &Doc) -> (r: Vec<Finding>)
    requires
        doc@.config is Dict,
        shallow(doc@.config, MAX_LEVELS as nat),
        !ill_timed(doc@),
    ensures
        findings(r@).to_multiset() == violations(doc@),
        name_broken(doc@) ==> errors(findings(r@)).len() > 0,
        version_broken(doc@) ==> errors(findings(r@)).len() > 0,
        rules_met(doc@) ==> r@.len() == 0,
{
    let mut d = tomlplus_syntax::Document::default();
    if let tomlplus_syntax::Value::Dict(c) = value_out(&doc.config) {
        d.config = c;
    }
    let meta = doc.meta.iter();
    d.meta = meta.map(|(k, v)| (k.clone(), v.iter().map(note_out).collect())).collect();
    tomlplus_syntax::validate(&d).iter().map(finding_in).collect()
}

/// `tomlplus_syntax::dumper::dumps`: the text of a document. Where the keys at
/// its top are bare, the text does not start with a byte-order mark. The text of
/// a mild document is calm, and its dollar signs stand in strings.
#[verifier::external_body]
pub fn dump(doc: &Doc) -> (r: String)
    requires
        doc@.config is Dict,
        shallow(doc@.config, MAX_LEVELS as nat),
    ensures
        r@ == dumped(doc@),
        bare_keys(doc@.config) ==> unmarked(r@) == r@,
        mild(doc@) ==> calm(r@) && settled(r@),
{
    let mut d = tomlplus_syntax::Document::default();
    if let tomlplus_syntax::Value::Dict(c) = value_out(&doc.config) {
        d.config = c;
    }
    let meta = doc.meta.iter();
    d.meta = meta.map(|(k, v)| (k.clone(), v.iter().map(note_out).collect())).collect();
    tomlplus_syntax::dumper::dumps(&d)
}

// ---- annotations of generated files ----

/// An annotation.
pub fn ann(name: &str, arg: NoteArg) -> (r: Note)
    ensures
        r.name@ == name@,
        r.arg == arg,
{
    Note { name: name.to_owned(), arg }
}

/// `@required`.
pub fn required() -> (r: Note)
    ensures
        r@ == (NoteModel { name: "required"@, arg: ArgModel::Flag }),
{
    ann("required", NoteArg::Flag)
}

/// `@type: <name>`.
pub fn typed(kind: &str) -> (r: Note)
    ensures
        r@ == (NoteModel { name: "type"@, arg: ArgModel::Text(kind@) }),
{
    ann("type", NoteArg::Text(kind.to_owned()))
}

/// `@minlen: <n>`.
pub fn minlen(n: i64) -> (r: Note)
    ensures
        r@ == (NoteModel { name: "minlen"@, arg: ArgModel::Int(n as int) }),
{
    ann("minlen", NoteArg::Int(n))
}

/// `@pattern: <regex>`. A regex that starts with `[` and ends with `]` would
/// read back as a list.
pub fn pattern(regex: &str) -> (r: Note)
    ensures
        r@ == (NoteModel { name: "pattern"@, arg: ArgModel::Text(regex@) }),
{
    ann("pattern", NoteArg::Text(regex.to_owned()))
}

// ---- strict parsing ----

/// What a value should have been.
#[derive(Debug, Clone, Copy, PartialEq, Eq, Structural)]
pub enum Wanted {
    Array,
    Table,
    Text,
    /// A list whose entries are texts.
    Texts,
}

/// Why a source cannot be read.
#[derive(Debug, PartialEq, Eq)]
pub enum ReadError {
    /// The parser or the validator reported these errors.
    Invalid { messages: Vec<String> },
    /// A key is not there.
    Missing { key: String },
    /// A key holds another type than a text.
    NotText { key: String, found: String },
    /// A value is not what it should be.
    Misfit { what: String, wanted: Wanted },
    /// A text is not one of those allowed.
    NotAllowed { what: String, found: String },
    /// An env's entry is no table.
    EntryKind { name: String, found: String },
    /// An env's entry has no path.
    EntryPath { name: String },
    /// Numbers are too large, values nested too deeply, or the brackets of an
    /// annotation blank.
    TooLarge,
    /// A text that is to be a duration ends in a character that no duration
    /// ends in.
    NoDuration,
}

/// What a read error says.
#[verifier::ext_equal]
pub enum ErrorModel {
    Invalid { messages: Seq<Seq<char>> },
    Missing { key: Seq<char> },
    NotText { key: Seq<char>, found: Seq<char> },
    Misfit { what: Seq<char>, wanted: Wanted },
    NotAllowed { what: Seq<char>, found: Seq<char> },
    EntryKind { name: Seq<char>, found: Seq<char> },
    EntryPath { name: Seq<char> },
    TooLarge,
    NoDuration,
}

impl View for ReadError {
    type V = ErrorModel;

    open spec fn view(&self) -> ErrorModel {
        match *self {
            ReadError::Invalid { messages } => ErrorModel::Invalid { messages: texts(messages@) },
            ReadError::Missing { key } => ErrorModel::Missing { key: key@ },
            ReadError::NotText { key, found } => ErrorModel::NotText { key: key@, found: found@ },
            ReadError::Misfit { what, wanted } => ErrorModel::Misfit { what: what@, wanted },
            ReadError::NotAllowed { what, found } => ErrorModel::NotAllowed {
                what: what@,
                found: found@,
            },
            ReadError::EntryKind { name, found } => ErrorModel::EntryKind {
                name: name@,
                found: found@,
            },
            ReadError::EntryPath { name } => ErrorModel::EntryPath { name: name@ },
            ReadError::TooLarge => ErrorModel::TooLarge,
            ReadError::NoDuration => ErrorModel::NoDuration,
        }
    }
}

/// The text of a read error in the file at `path`.
pub open spec fn error_text(e: ErrorModel, path: Seq<char>) -> Seq<char> {
    match e {
        ErrorModel::Invalid { messages } => "invalid TOML+ in "@ + path + ":\n  - "@ + joined(
            messages,
            "\n  - "@,
        ),
        ErrorModel::Missing { key } => path + ": missing required key `"@ + key + "`"@,
        ErrorModel::NotText { key, found } => path + ": key `"@ + key
            + "` must be a string, found "@ + found,
        ErrorModel::Misfit { what, wanted } => path + ": "@ + what + (match wanted {
            Wanted::Array => " must be an array"@,
            Wanted::Table => " must be a table"@,
            Wanted::Text => " must be a string"@,
            Wanted::Texts => " entries must be strings"@,
        }),
        ErrorModel::NotAllowed { what, found } => path + ": "@ + what
            + " must be no, on-failure or always, found `"@ + found + "`"@,
        ErrorModel::EntryKind { name, found } => path + ": envs."@ + name
            + " must be a table, found "@ + found,
        ErrorModel::EntryPath { name } => path + ": envs."@ + name
            + " is missing a string `path`"@,
        ErrorModel::TooLarge => path
            + ": numbers are too large, values nested too deeply or annotations blank"@,
        ErrorModel::NoDuration => path + ": a duration must end in s, m, h or d"@,
    }
}

impl ReadError {
    /// The text of the error in the file at `path`.
    pub fn message(&self, path: &str) -> (r: String)
        ensures
            r@ == error_text(self@, path@),
    {
        match self {
            ReadError::Invalid { messages } => {
                let mut r = "invalid TOML+ in ".to_owned();
                r.push_str(path);
                r.push_str(":\n  - ");
                r.push_str(join(messages, "\n  - ").as_str());
                r
            },
            ReadError::Missing { key } => {
                let mut r = path.to_owned();
                r.push_str(": missing required key `");
                r.push_str(key.as_str());
                r.push_str("`");
                r
            },
            ReadError::NotText { key, found } => {
                let mut r = path.to_owned();
                r.push_str(": key `");
                r.push_str(key.as_str());
                r.push_str("` must be a string, found ");
                r.push_str(found.as_str());
                r
            },
            ReadError::Misfit { what, wanted } => {
                let mut r = path.to_owned();
                r.push_str(": ");
                r.push_str(what.as_str());
                match wanted {
                    Wanted::Array => r.push_str(" must be an array"),
                    Wanted::Table => r.push_str(" must be a table"),
                    Wanted::Text => r.push_str(" must be a string"),
                    Wanted::Texts => r.push_str(" entries must be strings"),
                }
                r
            },
            ReadError::NotAllowed { what, found } => {
                let mut r = path.to_owned();
                r.push_str(": ");
                r.push_str(what.as_str());
                r.push_str(" must be no, on-failure or always, found `");
                r.push_str(found.as_str());
                r.push_str("`");
                r
            },
            ReadError::EntryKind { name, found } => {
                let mut r = path.to_owned();
                r.push_str(": envs.");
                r.push_str(name.as_str());
                r.push_str(" must be a table, found ");
                r.push_str(found.as_str());
                r
            },
            ReadError::EntryPath { name } => {
                let mut r = path.to_owned();
                r.push_str(": envs.");
                r.push_str(name.as_str());
                r.push_str(" is missing a string `path`");
                r
            },
            ReadError::TooLarge => {
                let mut r = path.to_owned();
                r.push_str(": numbers are too large, values nested too deeply or annotations blank");
                r
            },
            ReadError::NoDuration => {
                let mut r = path.to_owned();
                r.push_str(": a duration must end in s, m, h or d");
                r
            },
        }
    }
}

/// `s` without the byte-order mark at its start, if it has one.
pub open spec fn unmarked(s: Seq<char>) -> Seq<char> {
    if s.len() > 0 && s[0] == '\u{feff}' {
        s.drop_first()
    } else {
        s
    }
}

/// `s` with each run of equal neighbours reduced to one.
pub open spec fn deduped(s: Seq<Seq<char>>) -> Seq<Seq<char>>
    decreases s.len(),
{
    if s.len() == 0 {
        s
    } else if s.len() > 1 && s[s.len() - 1] == s[s.len() - 2] {
        deduped(s.drop_last())
    } else {
        deduped(s.drop_last()).push(s.last())
    }
}

/// What the errors of the parser and of the validator make of a document.
pub open spec fn checked(p: ParsedModel, found: Seq<FindingModel>) -> Result<
    DocModel,
    ErrorModel,
> {
    let all = errors(p.diagnostics + found);
    if all.len() > 0 {
        Err(ErrorModel::Invalid { messages: deduped(all) })
    } else {
        Ok(p.doc)
    }
}

/// `x` is what the parser's result comes to, whatever the order in which the
/// validator reports. A document that cannot be validated is an error.
pub open spec fn concludes(p: ParsedModel, x: Result<DocModel, ErrorModel>) -> bool {
    if ill_timed(p.doc) {
        x == Err::<DocModel, ErrorModel>(ErrorModel::NoDuration)
    } else {
        exists|found: Seq<FindingModel>| #[trigger]
            found.to_multiset() == violations(p.doc) && x == checked(p, found)
    }
}

/// `x` is what strict parsing can make of `source`.
pub open spec fn reads_as(source: Seq<char>, x: Result<DocModel, ErrorModel>) -> bool {
    if !calm(unmarked(source)) {
        x == Err::<DocModel, ErrorModel>(ErrorModel::TooLarge)
    } else {
        exists|p: ParsedModel| #[trigger] parses_to(unmarked(source), p) && concludes(p, x)
    }
}

/// `x` is what strict parsing makes of `source`, whatever the parser makes of
/// it: the same document, or no document.
pub open spec fn reads_only_as(source: Seq<char>, x: Result<DocModel, ErrorModel>) -> bool {
    forall|y: Result<DocModel, ErrorModel>| #[trigger]
        reads_as(source, y) ==> (y is Ok <==> x is Ok) && (x is Ok ==> y == x)
}

/// The model of a result.
pub open spec fn outcome<T: View, E: View>(r: Result<T, E>) -> Result<T::V, E::V> {
    match r {
        Ok(t) => Ok(t@),
        Err(e) => Err(e@),
    }
}

/// Collect the messages of the errors among `found`, leaving out one that
/// equals the one before it.
fn gather(messages: &mut Vec<String>, found: &Vec<Finding>, Ghost(before): Ghost<Seq<FindingModel>>)
    requires
        texts(old(messages)@) == deduped(errors(before)),
    ensures
        texts(final(messages)@) == deduped(errors(before + findings(found@))),
{
    let mut i: usize = 0;
    assert(before + findings(found@).take(0) =~= before);
    while i < found.len()
        invariant
            i <= found.len(),
            texts(messages@) == deduped(errors(before + findings(found@).take(i as int))),
        decreases found.len() - i,
    {
        let f = &found[i];
        let ghost old_all = errors(before + findings(found@).take(i as int));
        proof {
            let now = before + findings(found@).take(i + 1);
            assert(now.drop_last() =~= before + findings(found@).take(i as int));
            assert(now.last() == f@);
        }
        if let Severity::Error = f.severity {
            let ghost old_messages = messages@;
            let n = messages.len();
            let ghost all = old_all.push(f@.message);
            proof {
                assert(all.drop_last() =~= old_all);
                lemma_deduped_last(old_all);
                assert(texts(old_messages).len() == n);
            }
            if n > 0 && same(messages[n - 1].as_str(), f.message.as_str()) {
                assert(texts(messages@).last() == f@.message);
            } else {
                messages.push(f.message.clone());
                proof {
                    assert(texts(messages@) =~= texts(old_messages).push(f@.message));
                    if n > 0 {
                        assert(texts(old_messages).last() == old_messages[n - 1]@);
                    }
                }
            }
        }
        i = i + 1;
    }
    assert(findings(found@).take(found@.len() as int) =~= findings(found@));
}

proof fn lemma_deduped_last(s: Seq<Seq<char>>)
    ensures
        s.len() > 0 ==> deduped(s).len() > 0 && deduped(s).last() == s.last(),
        s.len() == 0 ==> deduped(s).len() == 0,
    decreases s.len(),
{
    if s.len() > 1 {
        lemma_deduped_last(s.drop_last());
    }
}

/// The document, unless the parser or the validator reported an error of it.
pub fn check(parsed: Parsed, found: &Vec<Finding>) -> (r: Result<Doc, ReadError>)
    ensures
        outcome(r) == checked(parsed@, findings(found@)),
{
    let mut messages: Vec<String> = Vec::new();
    proof {
        assert(errors(Seq::<FindingModel>::empty()) =~= Seq::<Seq<char>>::empty());
        assert(texts(messages@) =~= Seq::<Seq<char>>::empty());
    }
    gather(&mut messages, &parsed.diagnostics, Ghost(Seq::empty()));
    assert(Seq::<FindingModel>::empty() + parsed@.diagnostics =~= parsed@.diagnostics);
    gather(&mut messages, found, Ghost(parsed@.diagnostics));
    proof {
        lemma_deduped_last(errors(parsed@.diagnostics + findings(found@)));
        assert(texts(messages@).len() == messages@.len());
    }
    if messages.len() > 0 {
        return Err(ReadError::Invalid { messages });
    }
    Ok(parsed.doc)
}

fn type_of(v: &Vec<Note>) -> (r: Option<&NoteArg>)
    ensures
        match r {
            Some(a) => exists|n: Note| #[trigger] n@.arg == last_type(notes(v@))->0 && n.arg == *a
                && last_type(notes(v@)) is Some,
            None => last_type(notes(v@)) is None,
        },
{
    let ghost all = notes(v@);
    let mut i: usize = v.len();
    assert(all.take(i as int) =~= all);
    while i > 0
        invariant
            i <= v.len(),
            all == notes(v@),
            last_type(all.take(i as int)) == last_type(all),
        decreases i,
    {
        let a = &v[i - 1];
        proof {
            assert(all.take(i as int).drop_last() =~= all.take(i - 1));
            assert(all.take(i as int).last() == a@);
        }
        if same(a.name.as_str(), "type") {
            assert(a@.arg == last_type(all)->0);
            return Some(&a.arg);
        }
        i = i - 1;
    }
    None
}

/// The value at the end of a path of keys.
fn find_value<'a>(t: &'a Tree, path: &Vec<String>) -> (r: Option<&'a Tree>)
    ensures
        match r {
            Some(u) => value_at(t@, texts(path@)) == Some(u@),
            None => value_at(t@, texts(path@)) is None,
        },
{
    let ghost all = texts(path@);
    let mut at: Option<&Tree> = Some(t);
    let mut i: usize = 0;
    while i < path.len()
        invariant
            i <= path.len(),
            all == texts(path@),
            match at {
                Some(u) => value_at(t@, all.take(i as int)) == Some(u@),
                None => value_at(t@, all.take(i as int)) is None,
            },
        decreases path.len() - i,
    {
        proof {
            assert(all.take(i + 1).drop_last() =~= all.take(i as int));
            assert(all.take(i + 1).last() == path@[i as int]@);
        }
        at = match at {
            Some(u) => u.get(path[i].as_str()),
            None => None,
        };
        i = i + 1;
    }
    assert(all.take(all.len() as int) =~= all);
    at
}

fn ends_beyond_ascii(s: &str) -> (r: bool)
    ensures
        r == (s@.len() > 0 && (s@.last() as int) >= 128),
{
    let v = chars_of(s);
    v.len() > 0 && v[v.len() - 1] > '\u{7f}'
}

fn entry_ill_timed(config: &Tree, key: &str, v: &Vec<Note>) -> (r: bool)
    ensures
        r == is_ill_timed(config@, key@, notes(v@)),
{
    let timed = match type_of(v) {
        Some(NoteArg::Text(t)) => same(t.as_str(), "duration"),
        _ => false,
    };
    if !timed {
        return false;
    }
    match find_value(config, &split_on(key, '.')) {
        Some(Tree::Text(s)) => ends_beyond_ascii(s.as_str()),
        _ => false,
    }
}

/// Whether some key is to be a duration and is a text that ends in another
/// character than an ASCII one.
fn has_ill_timed(doc: &Doc) -> (r: bool)
    ensures
        r == ill_timed(doc@),
{
    let ghost all = meta_pairs(doc.meta@);
    let mut i: usize = doc.meta.len();
    let mut done: Vec<String> = Vec::new();
    proof {
        assert(all.take(i as int) =~= all);
        assert(texts(done@) =~= Seq::<Seq<char>>::empty());
    }
    while i > 0
        invariant
            i <= doc.meta.len(),
            all == meta_pairs(doc.meta@),
            doc@.meta == map_of(all),
            forall|k: Seq<char>| #[trigger]
                texts(done@).contains(k) ==> doc@.meta.contains_key(k) && !is_ill_timed(
                    doc@.config,
                    k,
                    doc@.meta[k],
                ),
            forall|k: Seq<char>|
                !texts(done@).contains(k) ==> (#[trigger] doc@.meta.contains_key(k) == map_of(
                    all.take(i as int),
                ).contains_key(k)) && doc@.meta[k] == map_of(all.take(i as int))[k],
        decreases i,
    {
        let e = &doc.meta[i - 1];
        let ghost before = texts(done@);
        proof {
            assert(all.take(i as int).drop_last() =~= all.take(i - 1));
            assert(all.take(i as int).last() == (e.0@, notes(e.1@)));
            assert(map_of(all.take(i as int)) == map_of(all.take(i - 1)).insert(
                e.0@,
                notes(e.1@),
            ));
        }
        if !among(&done, e.0.as_str()) {
            proof {
                let k = e.0@;
                assert(!texts(done@).contains(k));
                assert(map_of(all.take(i as int)).contains_key(k));
                assert(doc@.meta.contains_key(k) == map_of(all.take(i as int)).contains_key(k));
                assert(doc@.meta[k] == map_of(all.take(i as int))[k]);
            }
            if entry_ill_timed(&doc.config, e.0.as_str(), &e.1) {
                return true;
            }
            done.push(e.0.clone());
            assert(texts(done@) =~= before.push(e.0@));
            assert(texts(done@)[before.len() as int] == e.0@);
        }
        proof {
            assert forall|k: Seq<char>| #[trigger] texts(done@).contains(k) <==> before.contains(k)
                || k == e.0@ by {
                if before.contains(k) {
                    let j = choose|j: int| 0 <= j < before.len() && before[j] == k;
                    assert(texts(done@)[j] == k);
                }
            }
            assert forall|k: Seq<char>| !texts(done@).contains(k) implies (
            #[trigger] doc@.meta.contains_key(k) == map_of(all.take(i - 1)).contains_key(k))
                && doc@.meta[k] == map_of(all.take(i - 1))[k] by {
                assert(!before.contains(k) && k != e.0@);
                assert(doc@.meta.contains_key(k) == map_of(all.take(i as int)).contains_key(k));
            }
        }
        i = i - 1;
    }
    false
}

/// Without annotations, or with those of a name and a version, nothing is a
/// duration.
proof fn lemma_well_timed(m: DocModel)
    ensures
        m.meta == no_rules() || m.meta == head_rules() ==> !ill_timed(m),
{
    reveal_strlit("type");
    reveal_strlit("required");
    reveal_strlit("minlen");
    reveal_strlit("pattern");
    reveal_strlit("string");
    reveal_strlit("duration");
    let string = Some(ArgModel::Text("string"@));
    assert("string"@.len() != "duration"@.len());
    assert("type"@.len() != "minlen"@.len() && "type"@.len() != "pattern"@.len());
    let n = name_rules();
    assert(last_type(n) == string) by {
        assert(n.last().name == "pattern"@);
        assert(n.drop_last().last().name == "minlen"@);
        assert(n.drop_last().drop_last().last().name == "type"@);
        reveal_with_fuel(last_type, 4);
    }
    let v = version_rules();
    assert(v.last().name == "type"@);
    assert(last_type(v) == string);
    if m.meta == head_rules() && ill_timed(m) {
        let k = choose|k: Seq<char>| #[trigger]
            m.meta.contains_key(k) && is_ill_timed(m.config, k, m.meta[k]);
        assert(m.meta[k] == n || m.meta[k] == v);
    }
}

/// Whether there are errors among findings does not depend on their order.
proof fn lemma_same_errors(a: Seq<FindingModel>, b: Seq<FindingModel>)
    requires
        a.to_multiset() == b.to_multiset(),
        errors(a).len() > 0,
    ensures
        errors(b).len() > 0,
{
    lemma_error_found(a);
    let i = choose|i: int| 0 <= i < a.len() && (#[trigger] a[i]).severity == Severity::Error;
    broadcast use vstd::seq_lib::group_to_multiset_ensures;

    assert(a.contains(a[i]));
    assert(b.to_multiset().contains(a[i]));
    assert(b.contains(a[i]));
    let j = choose|j: int| 0 <= j < b.len() && b[j] == a[i];
    assert(b[j].severity == Severity::Error);
    lemma_error_found(b);
}

proof fn lemma_error_found(v: Seq<FindingModel>)
    ensures
        errors(v).len() > 0 <==> exists|i: int|
            0 <= i < v.len() && (#[trigger] v[i]).severity == Severity::Error,
    decreases v.len(),
{
    if v.len() > 0 {
        let w = v.drop_last();
        lemma_error_found(w);
        assert(v.last() == v[v.len() - 1]);
        if errors(w).len() > 0 {
            let i = choose|i: int| 0 <= i < w.len() && (#[trigger] w[i]).severity == Severity::Error;
            assert(v[i].severity == Severity::Error);
        }
        if exists|i: int| 0 <= i < v.len() && (#[trigger] v[i]).severity == Severity::Error {
            let i = choose|i: int| 0 <= i < v.len() && (#[trigger] v[i]).severity == Severity::Error;
            if i < w.len() {
                assert(w[i].severity == Severity::Error);
            }
        }
    }
}

proof fn lemma_same_verdict(source: Seq<char>, p: ParsedModel, found: Seq<FindingModel>)
    requires
        calm(unmarked(source)),
        sole_parse(unmarked(source), p),
        !ill_timed(p.doc),
        found.to_multiset() == violations(p.doc),
    ensures
        reads_only_as(source, checked(p, found)),
{
    let x = checked(p, found);
    assert forall|y: Result<DocModel, ErrorModel>| #[trigger] reads_as(source, y) implies (y is Ok
        <==> x is Ok) && (x is Ok ==> y == x) by {
        let q = choose|q: ParsedModel| #[trigger]
            parses_to(unmarked(source), q) && concludes(q, y);
        assert(q == p);
        let other = choose|f: Seq<FindingModel>| #[trigger]
            f.to_multiset() == violations(p.doc) && y == checked(p, f);
        lemma_errors_add(p.diagnostics, found);
        lemma_errors_add(p.diagnostics, other);
        if errors(found).len() > 0 {
            lemma_same_errors(found, other);
        }
        if errors(other).len() > 0 {
            lemma_same_errors(other, found);
        }
    }
}

/// Parse a source, taking every error that the parser or the annotation
/// validator reports for a failure. A byte-order mark at the start is ignored.
/// A source that the parser cannot hold, and a document that the validator
/// cannot, is a failure too.
///
/// What `dump` wrote reads back, where it is calm: a printable document whose
/// name and version are as their rules say comes back as it was, and one whose
/// name is not well-formed does not come back.
pub fn parse_strict(source: &str) -> (r: Result<Doc, ReadError>)
    ensures
        reads_as(source@, outcome(r)),
        settled(unmarked(source@)) ==> reads_only_as(source@, outcome(r)),
        forall|m: DocModel| #[trigger]
            dumped(m) == unmarked(source@) && firm(m) ==> reads_only_as(source@, outcome(r)),
        forall|m: DocModel| #[trigger]
            dumped(m) == unmarked(source@) && calm(dumped(m)) && printable(m) && rules_met(m)
                ==> outcome(r) == Ok::<DocModel, ErrorModel>(m),
        forall|m: DocModel| #[trigger]
            dumped(m) == unmarked(source@) && printable(m) && (name_broken(m) || version_broken(m))
                ==> r is Err,
        forall|m: DocModel| #[trigger]
            dumped(m) == unmarked(source@) && named_head(m) && name_broken(m) ==> (r matches Ok(d)
                ==> !has_text(d@.config, "name"@)),
        r matches Ok(d) ==> d@.config is Dict,
{
    let c = chars_of(source);
    let start: usize = if c.len() > 0 && c[0] == '\u{feff}' {
        1
    } else {
        0
    };
    let text = string_of(&c, start, c.len());
    assert(text@ =~= unmarked(source@));
    if !is_calm(text.as_str()) {
        return Err(ReadError::TooLarge);
    }
    let parsed = parse(text.as_str());
    let ghost p = parsed@;
    proof {
        lemma_well_timed(p.doc);
    }
    if has_ill_timed(&parsed.doc) {
        assert(parses_to(unmarked(source@), p) && concludes(
            p,
            Err::<DocModel, ErrorModel>(ErrorModel::NoDuration),
        ));
        return Err(ReadError::NoDuration);
    }
    let found = validate(&parsed.doc);
    let ghost fs = findings(found@);
    proof {
        lemma_errors_add(p.diagnostics, fs);
        assert(fs.to_multiset() == violations(p.doc));
        assert(parses_to(unmarked(source@), p) && concludes(p, checked(p, fs)));
        if p.diagnostics.len() == 0 {
            assert(errors(p.diagnostics).len() == 0);
        }
        if fs.len() == 0 {
            assert(errors(fs).len() == 0);
        }
        if sole_parse(unmarked(source@), p) {
            lemma_same_verdict(source@, p, fs);
        }
    }
    let r = check(parsed, &found);
    r
}

/// The errors of two lists are those of the first, then those of the second.
pub proof fn lemma_errors_add(a: Seq<FindingModel>, b: Seq<FindingModel>)
    ensures
        errors(a + b) == errors(a) + errors(b),
    decreases b.len(),
{
    if b.len() > 0 {
        lemma_errors_add(a, b.drop_last());
        assert((a + b).drop_last() =~= a + b.drop_last());
        assert(errors(a + b) =~= errors(a) + errors(b));
    } else {
        assert(a + b =~= a);
        assert(errors(a) + errors(b) =~= errors(a));
    }
}

// ---- typed fields ----

/// The text at `key`, which has to be there.
pub open spec fn required_text(t: TreeModel, key: Seq<char>) -> Result<Seq<char>, ErrorModel> {
    match field(t, key) {
        Some(TreeModel::Text(s)) => Ok(s),
        Some(other) => Err(ErrorModel::NotText { key, found: kind_name(other) }),
        None => Err(ErrorModel::Missing { key }),
    }
}

/// The text at `key`, if there is a value other than null.
pub open spec fn optional_text(t: TreeModel, key: Seq<char>) -> Result<
    Option<Seq<char>>,
    ErrorModel,
> {
    match field(t, key) {
        Some(TreeModel::Text(s)) => Ok(Some(s)),
        Some(TreeModel::Null) => Ok(None),
        Some(other) => Err(ErrorModel::NotText { key, found: kind_name(other) }),
        None => Ok(None),
    }
}

/// A required text field.
pub fn req_str(config: &Tree, key: &str) -> (r: Result<String, ReadError>)
    ensures
        outcome(r) == required_text(config@, key@),
{
    match config.get(key) {
        Some(Tree::Text(s)) => Ok(s.clone()),
        Some(other) => Err(ReadError::NotText { key: key.to_owned(), found: other.kind() }),
        None => Err(ReadError::Missing { key: key.to_owned() }),
    }
}

/// An optional text field.
pub fn opt_str(config: &Tree, key: &str) -> (r: Result<Option<String>, ReadError>)
    ensures
        match r {
            Ok(Some(s)) => optional_text(config@, key@) == Ok::<_, ErrorModel>(Some(s@)),
            Ok(None) => optional_text(config@, key@) == Ok::<_, ErrorModel>(None::<Seq<char>>),
            Err(e) => optional_text(config@, key@) == Err::<Option<Seq<char>>, _>(e@),
        },
{
    match config.get(key) {
        Some(Tree::Text(s)) => Ok(Some(s.clone())),
        Some(Tree::Null) => Ok(None),
        Some(other) => Err(ReadError::NotText { key: key.to_owned(), found: other.kind() }),
        None => Ok(None),
    }
}

// ---- laws ----

/// The value of a key in a table is that of the last entry with the key; there is
/// none where no entry has it, and none in what is no table.
pub proof fn law_field(d: Seq<(Seq<char>, TreeModel)>, key: Seq<char>, i: int)
    requires
        -1 <= i < d.len(),
        i >= 0 ==> d[i].0 == key,
        forall|j: int| i < j < d.len() ==> (#[trigger] d[j]).0 != key,
    ensures
        i >= 0 ==> field(TreeModel::Dict(d), key) == Some(d[i].1),
        i == -1 ==> field(TreeModel::Dict(d), key) is None,
    decreases d.len(),
{
    if d.len() > 0 && i < d.len() - 1 {
        let t = d.drop_last();
        assert(d[d.len() - 1].0 != key);
        assert forall|j: int| i < j < t.len() implies (#[trigger] t[j]).0 != key by {
            assert(t[j] == d[j]);
        }
        law_field(t, key, i);
    }
}

/// A text that has to be there is read where it is a text, and refused where it is
/// missing or something else; one that need not be there may also be null.
pub proof fn law_text_fields(t: TreeModel, key: Seq<char>)
    ensures
        match field(t, key) {
            Some(TreeModel::Text(s)) => required_text(t, key) == Ok::<_, ErrorModel>(s)
                && optional_text(t, key) == Ok::<_, ErrorModel>(Some(s)),
            Some(TreeModel::Null) => required_text(t, key) is Err && optional_text(t, key) == Ok::<
                _,
                ErrorModel,
            >(None::<Seq<char>>),
            Some(_) => required_text(t, key) is Err && optional_text(t, key) is Err,
            None => required_text(t, key) == Err::<Seq<char>, _>(ErrorModel::Missing { key })
                && optional_text(t, key) == Ok::<_, ErrorModel>(None::<Seq<char>>),
        },
{
}

/// A finding is an error by its severity alone: one error more is one message
/// more, and any other finding none.
pub proof fn law_errors(v: Seq<FindingModel>, f: FindingModel, message: Seq<char>)
    ensures
        errors(Seq::empty()) == Seq::<Seq<char>>::empty(),
        f.severity == Severity::Error ==> errors(v.push(f)) == errors(v).push(f.message),
        f.severity != Severity::Error ==> errors(v.push(f)) == errors(v),
        errors(v).contains(message) <==> exists|i: int|
            0 <= i < v.len() && (#[trigger] v[i]).severity == Severity::Error && v[i].message
                == message,
    decreases v.len(),
{
    assert(v.push(f).drop_last() =~= v);
    if v.len() > 0 {
        let t = v.drop_last();
        law_errors(t, f, message);
        let (done, now) = (errors(t), errors(v));
        if done.contains(message) {
            let j = choose|j: int| 0 <= j < done.len() && done[j] == message;
            assert(now[j] == message);
            let i = choose|i: int|
                0 <= i < t.len() && (#[trigger] t[i]).severity == Severity::Error && t[i].message
                    == message;
            assert(v[i] == t[i]);
        }
        if v.last().severity == Severity::Error && v.last().message == message {
            assert(now[now.len() - 1] == message);
            assert(v[v.len() - 1].message == message);
        }
        if now.contains(message) && !done.contains(message) {
            let j = choose|j: int| 0 <= j < now.len() && now[j] == message;
            if j < done.len() {
                assert(done[j] == message);
            }
        }
        if exists|i: int|
            0 <= i < v.len() && (#[trigger] v[i]).severity == Severity::Error && v[i].message
                == message {
            let i = choose|i: int|
                0 <= i < v.len() && (#[trigger] v[i]).severity == Severity::Error && v[i].message
                    == message;
            if i < t.len() {
                assert(t[i] == v[i]);
            }
        }
    }
}

proof fn lemma_deduped_holds(s: Seq<Seq<char>>, x: Seq<char>)
    ensures
        deduped(s).contains(x) <==> s.contains(x),
    decreases s.len(),
{
    if s.len() > 0 {
        let t = s.drop_last();
        let (done, now) = (deduped(t), deduped(s));
        lemma_deduped_holds(t, x);
        if t.contains(x) {
            let i = choose|i: int| 0 <= i < t.len() && t[i] == x;
            assert(s[i] == x);
        }
        if s.contains(x) {
            let i = choose|i: int| 0 <= i < s.len() && s[i] == x;
            if i < t.len() {
                assert(t[i] == x);
            } else if s.len() > 1 && s[s.len() - 1] == s[s.len() - 2] {
                assert(t[t.len() - 1] == x);
            }
        }
        if done.contains(x) {
            let i = choose|i: int| 0 <= i < done.len() && done[i] == x;
            assert(now[i] == x);
        }
        if now.len() > done.len() {
            assert(now[now.len() - 1] == s.last());
            assert(s[s.len() - 1] == s.last());
        }
        if now.contains(x) && !done.contains(x) {
            let i = choose|i: int| 0 <= i < now.len() && now[i] == x;
            if i < done.len() {
                assert(done[i] == x);
            }
        }
    }
}

/// Strict reading takes a document exactly where neither the parser nor the
/// validator reports an error, and then as it is; else it tells every error.
pub proof fn law_strict_reading(p: ParsedModel, found: Seq<FindingModel>, message: Seq<char>)
    ensures
        checked(p, found) is Ok <==> (forall|i: int|
            0 <= i < p.diagnostics.len() ==> (#[trigger] p.diagnostics[i]).severity
                != Severity::Error) && (forall|i: int|
            0 <= i < found.len() ==> (#[trigger] found[i]).severity != Severity::Error),
        checked(p, found) is Ok ==> checked(p, found)->Ok_0 == p.doc,
        checked(p, found) matches Err(e) ==> (e matches ErrorModel::Invalid { messages } && (
        messages.contains(message) <==> (exists|i: int|
            0 <= i < p.diagnostics.len() && (#[trigger] p.diagnostics[i]).severity
                == Severity::Error && p.diagnostics[i].message == message) || (exists|i: int|
            0 <= i < found.len() && (#[trigger] found[i]).severity == Severity::Error
                && found[i].message == message))),
{
    let all = p.diagnostics + found;
    let f = FindingModel { severity: Severity::Error, message };
    lemma_errors_add(p.diagnostics, found);
    law_errors(all, f, message);
    law_errors(p.diagnostics, f, message);
    law_errors(found, f, message);
    lemma_deduped_holds(errors(all), message);
    if exists|i: int|
        0 <= i < p.diagnostics.len() && (#[trigger] p.diagnostics[i]).severity == Severity::Error {
        let i = choose|i: int|
            0 <= i < p.diagnostics.len() && (#[trigger] p.diagnostics[i]).severity
                == Severity::Error;
        law_errors(p.diagnostics, f, p.diagnostics[i].message);
    }
    if exists|i: int| 0 <= i < found.len() && (#[trigger] found[i]).severity == Severity::Error {
        let i = choose|i: int|
            0 <= i < found.len() && (#[trigger] found[i]).severity == Severity::Error;
        law_errors(found, f, found[i].message);
    }
    if errors(all).len() > 0 {
        let m = errors(all)[0];
        law_errors(all, f, m);
        assert(errors(all).contains(m));
        let i = choose|i: int|
            0 <= i < all.len() && (#[trigger] all[i]).severity == Severity::Error && all[i].message
                == m;
        if i < p.diagnostics.len() {
            assert(all[i] == p.diagnostics[i]);
        } else {
            assert(all[i] == found[i - p.diagnostics.len()]);
        }
    }
    assert((errors(p.diagnostics) + errors(found)).contains(message) <==> errors(
        p.diagnostics,
    ).contains(message) || errors(found).contains(message)) by {
        let (a, b) = (errors(p.diagnostics), errors(found));
        if a.contains(message) {
            let i = choose|i: int| 0 <= i < a.len() && a[i] == message;
            assert((a + b)[i] == message);
        }
        if b.contains(message) {
            let i = choose|i: int| 0 <= i < b.len() && b[i] == message;
            assert((a + b)[a.len() + i] == message);
        }
        if (a + b).contains(message) {
            let i = choose|i: int| 0 <= i < (a + b).len() && (a + b)[i] == message;
            if i < a.len() {
                assert(a[i] == message);
            } else {
                assert(b[i - a.len()] == message);
            }
        }
    }
}

/// A source that reads as a document is one of which the parser made that document
/// without an error, and in which the validator found none.
pub proof fn law_what_reads_has_no_errors(source: Seq<char>, doc: DocModel)
    requires
        reads_as(source, Ok(doc)),
    ensures
        exists|p: ParsedModel, found: Seq<FindingModel>|
            #![trigger parses_to(unmarked(source), p), found.to_multiset()]
            parses_to(unmarked(source), p) && p.doc == doc && found.to_multiset() == violations(doc)
                && (forall|i: int|
                0 <= i < p.diagnostics.len() ==> (#[trigger] p.diagnostics[i]).severity
                    != Severity::Error) && (forall|i: int|
                0 <= i < found.len() ==> (#[trigger] found[i]).severity != Severity::Error),
{
    let x = Ok::<DocModel, ErrorModel>(doc);
    let p = choose|p: ParsedModel| #[trigger]
        parses_to(unmarked(source), p) && concludes(p, x);
    let found = choose|found: Seq<FindingModel>| #[trigger]
        found.to_multiset() == violations(p.doc) && x == checked(p, found);
    law_strict_reading(p, found, Seq::empty());
}

/// A byte-order mark at the start of a source is passed over, and nothing else.
pub proof fn law_byte_order_mark(s: Seq<char>)
    ensures
        unmarked(seq!['\u{feff}'] + s) == s,
        s.len() == 0 || s[0] != '\u{feff}' ==> unmarked(s) == s,
{
    assert((seq!['\u{feff}'] + s).drop_first() =~= s);
}

/// A name is well-formed where it is made of letters, digits, dots, underscores
/// and hyphens, and there is at least one; the rules of a written name say so.
pub proof fn law_names(n: Seq<char>)
    ensures
        well_named(n) <==> n.len() > 0 && forall|i: int|
            0 <= i < n.len() ==> ('a' <= #[trigger] n[i] && n[i] <= 'z') || ('A' <= n[i] && n[i]
                <= 'Z') || ('0' <= n[i] && n[i] <= '9') || n[i] == '.' || n[i] == '_' || n[i]
                == '-',
        head_rules().contains_key("name"@),
        head_rules()["name"@].contains(
            NoteModel { name: "pattern"@, arg: ArgModel::Text("[A-Za-z0-9._-]+"@) },
        ),
        head_rules()["name"@].contains(NoteModel { name: "required"@, arg: ArgModel::Flag }),
        head_rules().contains_key("version"@),
        head_rules()["version"@].contains(NoteModel { name: "required"@, arg: ArgModel::Flag }),
{
    reveal_strlit("name");
    reveal_strlit("version");
    assert("name"@.len() != "version"@.len());
    assert(name_rules()[3] == (NoteModel {
        name: "pattern"@,
        arg: ArgModel::Text("[A-Za-z0-9._-]+"@),
    }));
    assert(name_rules()[0] == (NoteModel { name: "required"@, arg: ArgModel::Flag }));
    assert(version_rules()[0] == (NoteModel { name: "required"@, arg: ArgModel::Flag }));
}

/// What annotations and findings say is what each of them says, in order; what a
/// list or a table of a document says is what each item or entry says.
pub proof fn law_documents_say_all(
    v: Seq<Note>,
    f: Seq<Finding>,
    items: Seq<Tree>,
    entries: Seq<(String, Tree)>,
    i: int,
)
    ensures
        notes(v).len() == v.len(),
        0 <= i < v.len() ==> notes(v)[i] == v[i]@,
        findings(f).len() == f.len(),
        0 <= i < f.len() ==> findings(f)[i].severity == f[i].severity && findings(f)[i].message
            == f[i].message@,
        list_model(items).len() == items.len(),
        0 <= i < items.len() ==> list_model(items)[i] == items[i]@,
        dict_model(entries).len() == entries.len(),
        0 <= i < entries.len() ==> dict_model(entries)[i] == (entries[i].0@, entries[i].1@),
{
    lemma_list_model(items);
    lemma_dict_model(entries);
}

/// A source is refused for a reason: it cannot be held, or what the parser made of
/// it has a duration that cannot be one, or the parser or the validator reported an
/// error. A source for which neither holds is read.
pub proof fn law_refusals_have_a_reason(source: Seq<char>, x: Result<DocModel, ErrorModel>)
    requires
        reads_as(source, x),
        calm(unmarked(source)),
    ensures
        exists|p: ParsedModel|
            #![trigger parses_to(unmarked(source), p)]
            parses_to(unmarked(source), p) && (x is Err ==> ill_timed(p.doc) || (exists|i: int|
                0 <= i < p.diagnostics.len() && (#[trigger] p.diagnostics[i]).severity
                    == Severity::Error) || exists|found: Seq<FindingModel>, i: int|
                #![trigger found.to_multiset(), found[i]]
                found.to_multiset() == violations(p.doc) && 0 <= i < found.len()
                    && found[i].severity == Severity::Error) && (x matches Ok(d) ==> d == p.doc),
{
    let p = choose|p: ParsedModel| #[trigger]
        parses_to(unmarked(source), p) && concludes(p, x);
    if !ill_timed(p.doc) {
        let found = choose|found: Seq<FindingModel>| #[trigger]
            found.to_multiset() == violations(p.doc) && x == checked(p, found);
        law_strict_reading(p, found, Seq::empty());
        if x is Err && !(exists|i: int|
            0 <= i < p.diagnostics.len() && (#[trigger] p.diagnostics[i]).severity
                == Severity::Error) {
            let i = choose|i: int|
                0 <= i < found.len() && (#[trigger] found[i]).severity == Severity::Error;
            assert(found.to_multiset() == violations(p.doc) && found[i].severity
                == Severity::Error);
        }
    }
}

/// A document can be validated where none of its durations ends outside of ASCII.
pub proof fn law_durations(m: DocModel)
    requires
        ill_timed(m),
    ensures
        exists|k: Seq<char>| #[trigger]
            m.meta.contains_key(k) && (exists|i: int|
                0 <= i < m.meta[k].len() && (#[trigger] m.meta[k][i]).name == "type"@
                    && m.meta[k][i].arg == ArgModel::Text("duration"@)),
{
    let k = choose|k: Seq<char>| #[trigger]
        m.meta.contains_key(k) && is_ill_timed(m.config, k, m.meta[k]);
    lemma_last_type(m.meta[k]);
}

proof fn lemma_last_type(v: Seq<NoteModel>)
    ensures
        last_type(v) is Some ==> exists|i: int|
            0 <= i < v.len() && (#[trigger] v[i]).name == "type"@ && v[i].arg == last_type(v)->0,
    decreases v.len(),
{
    if v.len() > 0 {
        if v.last().name == "type"@ {
            assert(v[v.len() - 1].arg == last_type(v)->0);
        } else {
            lemma_last_type(v.drop_last());
            if last_type(v) is Some {
                let t = v.drop_last();
                let i = choose|i: int|
                    0 <= i < t.len() && (#[trigger] t[i]).name == "type"@ && t[i].arg == last_type(
                        t,
                    )->0;
                assert(v[i] == t[i]);
            }
        }
    }
}

/// A file that cannot be read is told by its path, with every message of the parser
/// and the validator, or the key and what is wrong with it.
pub proof fn law_read_errors_are_told(
    path: Seq<char>,
    key: Seq<char>,
    found: Seq<char>,
    messages: Seq<Seq<char>>,
)
    ensures
        error_text(ErrorModel::Invalid { messages }, path) == "invalid TOML+ in "@ + path
            + ":\n  - "@ + joined(messages, "\n  - "@),
        error_text(ErrorModel::Missing { key }, path) == path + ": missing required key `"@ + key
            + "`"@,
        error_text(ErrorModel::NotText { key, found }, path) == path + ": key `"@ + key
            + "` must be a string, found "@ + found,
        error_text(ErrorModel::Misfit { what: key, wanted: Wanted::Array }, path) == path + ": "@
            + key + " must be an array"@,
        error_text(ErrorModel::Misfit { what: key, wanted: Wanted::Table }, path) == path + ": "@
            + key + " must be a table"@,
        error_text(ErrorModel::Misfit { what: key, wanted: Wanted::Text }, path) == path + ": "@
            + key + " must be a string"@,
        error_text(ErrorModel::Misfit { what: key, wanted: Wanted::Texts }, path) == path + ": "@
            + key + " entries must be strings"@,
        error_text(ErrorModel::NotAllowed { what: key, found }, path) == path + ": "@ + key
            + " must be no, on-failure or always, found `"@ + found + "`"@,
        error_text(ErrorModel::EntryKind { name: key, found }, path) == path + ": envs."@ + key
            + " must be a table, found "@ + found,
        error_text(ErrorModel::EntryPath { name: key }, path) == path + ": envs."@ + key
            + " is missing a string `path`"@,
{
}

/// A result says what was read, or the error.
pub proof fn law_outcomes(d: Doc, e: ReadError)
    ensures
        outcome(Ok::<Doc, ReadError>(d)) == Ok::<DocModel, ErrorModel>(d@),
        outcome(Err::<Doc, ReadError>(e)) == Err::<DocModel, ErrorModel>(e@),
{
}

/// A reference to a variable is `$ENV.` and its name, of letters, digits and
/// underscores; a default stands behind it in quotes, and needs no escapes. An
/// expression is the value of one key.
pub proof fn law_references(name: Seq<char>, default: Seq<char>)
    ensures
        var_name(name) <==> name.len() > 0 && forall|i: int|
            0 <= i < name.len() ==> ('a' <= #[trigger] name[i] && name[i] <= 'z') || ('A' <= name[i]
                && name[i] <= 'Z') || ('0' <= name[i] && name[i] <= '9') || name[i] == '_',
        plain_literal(default) <==> forall|i: int|
            0 <= i < default.len() ==> (#[trigger] default[i] as int) < 128 && default[i] != '"'
                && default[i] != '\\' && default[i] != '\n' && default[i] != '\r',
        env_ref(name) == "$ENV."@ + name,
        env_ref_or(name, default) == "$ENV."@ + name + " ?? \""@ + default + "\""@,
        value_source(default) == "__v = "@ + default,
{
}

} // verus!
