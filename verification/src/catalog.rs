//! Tool catalogs: each category is an EDB database of tools whose icons
//! live in chains of a matching EDT page table.

use vstd::prelude::*;

use crate::chars::{
    chars_eq_ignore_ascii_case, chars_of, str_equal, first_match, lemma_first_match, string_from_chars, trim, trim_chars,
};
use crate::edb;
use crate::edb::bytes::le_u32;
use crate::edb::database::{
    c_string_of, field_name_of, lemma_open_records_bounded, open_database, spec_field_bytes, Database, DatabaseModel,
    FieldModel,
};
use crate::edb::table::{lemma_open_table_pages_ok, open_table, spec_read_chain, Table, TableModel};
use crate::error::{Error, ErrorModel};
use crate::gbk::gbk_decoded;

verus! {

// ---------------------------------------------------------------------------
// Packaged paths.

/// A path inside the tool package, as its components in order.
#[derive(Debug, Clone, PartialEq, Eq)]
pub struct PackagedPath {
    pub components: Vec<String>,
}

impl View for PackagedPath {
    type V = Seq<Seq<char>>;

    open spec fn view(&self) -> Seq<Seq<char>> {
        self.components@.map_values(|c: String| c@)
    }
}

/// `/` and `\` both separate path components.
pub open spec fn is_separator(c: char) -> bool {
    c == '/' || c == '\\'
}

/// `s` cut at every separator: one piece more than there are separators.
pub open spec fn split_path(s: Seq<char>) -> Seq<Seq<char>>
    decreases s.len(),
{
    if s.len() == 0 {
        seq![Seq::<char>::empty()]
    } else {
        let rest = split_path(s.drop_last());
        if is_separator(s.last()) {
            rest.push(Seq::<char>::empty())
        } else {
            rest.update(rest.len() - 1, rest.last().push(s.last()))
        }
    }
}

pub proof fn lemma_split_path_nonempty(s: Seq<char>)
    ensures
        split_path(s).len() >= 1,
    decreases s.len(),
{
    if s.len() > 0 {
        lemma_split_path_nonempty(s.drop_last());
    }
}

/// The pieces of `ps` that are not empty, in order.
pub open spec fn nonempty_parts(ps: Seq<Seq<char>>) -> Seq<Seq<char>>
    decreases ps.len(),
{
    if ps.len() == 0 {
        seq![]
    } else if ps.last().len() == 0 {
        nonempty_parts(ps.drop_last())
    } else {
        nonempty_parts(ps.drop_last()).push(ps.last())
    }
}

/// The components of a packaged path text: trimmed, cut at `/` and `\`,
/// empty components dropped.
pub open spec fn path_components(value: Seq<char>) -> Seq<Seq<char>> {
    nonempty_parts(split_path(trim(value)))
}

/// The name of the package's tool directory.
pub open spec fn tools_name() -> Seq<char> {
    seq!['t', 'o', 'o', 'l', 's']
}

/// A component that must not occur in a packaged path: `.`, `..`, or one
/// holding a drive colon or a NUL.
pub open spec fn bad_component(c: Seq<char>) -> bool {
    c == seq!['.'] || c == seq!['.', '.'] || c.contains(':') || c.contains('\0')
}

/// Where the kept components start: at the first `tools`, or at the
/// beginning when there is none.
pub open spec fn tools_start(cs: Seq<Seq<char>>) -> int {
    match first_match(cs, tools_name()) {
        Some(i) => i,
        None => 0,
    }
}

/// The components of `value` from `tools_start` on.
pub open spec fn kept_components(value: Seq<char>) -> Seq<Seq<char>> {
    let cs = path_components(value);
    cs.subrange(tools_start(cs), cs.len() as int)
}

/// What `normalize_packaged_path` makes of `value`: its components from
/// the first one named `tools` (up to ASCII case) on, or all of them when
/// none is; `None` when nothing is left or a component is unsafe.
pub open spec fn spec_normalize(value: Seq<char>) -> Option<Seq<Seq<char>>> {
    let kept = kept_components(value);
    if kept.len() == 0 || exists|i: int| 0 <= i < kept.len() && bad_component(#[trigger] kept[i]) {
        None
    } else {
        Some(kept)
    }
}

/// The components of `value`, as `path_components` gives them.
fn components_of(value: &str) -> (r: Vec<Vec<char>>)
    ensures
        r@.len() == path_components(value@).len(),
        forall|k: int| 0 <= k < r@.len() ==> #[trigger] r@[k]@ == path_components(value@)[k],
{
    let all = chars_of(value);
    let text = trim_chars(all.as_slice());
    let ghost t = text@;
    let mut parts: Vec<Vec<char>> = Vec::new();
    let mut current: Vec<char> = Vec::new();
    let mut i: usize = 0;
    while i < text.len()
        invariant
            i <= t.len(),
            t == text@,
            parts@.len() == nonempty_parts(split_path(t.take(i as int)).drop_last()).len(),
            forall|k: int|
                0 <= k < parts@.len() ==> #[trigger] parts@[k]@ == nonempty_parts(
                    split_path(t.take(i as int)).drop_last(),
                )[k],
            current@ == split_path(t.take(i as int)).last(),
        decreases t.len() - i,
    {
        let ghost before = split_path(t.take(i as int));
        proof {
            lemma_split_path_nonempty(t.take(i as int));
            assert(t.take(i + 1).drop_last() =~= t.take(i as int));
        }
        if text[i] == '/' || text[i] == '\\' {
            proof {
                assert(split_path(t.take(i + 1)).drop_last() =~= before);
                assert(before =~= before.drop_last().push(before.last()));
            }
            if current.len() > 0 {
                parts.push(current);
            }
            current = Vec::new();
        } else {
            proof {
                assert(split_path(t.take(i + 1)).drop_last() =~= before.drop_last());
            }
            current.push(text[i]);
        }
        i = i + 1;
    }
    proof {
        assert(t.take(t.len() as int) =~= t);
        lemma_split_path_nonempty(t);
        assert(split_path(t) =~= split_path(t).drop_last().push(split_path(t).last()));
    }
    if current.len() > 0 {
        parts.push(current);
    }
    parts
}

/// Whether `c` occurs in `s`.
fn has_char(s: &[char], c: char) -> (r: bool)
    ensures
        r == s@.contains(c),
{
    let mut i: usize = 0;
    while i < s.len()
        invariant
            i <= s@.len(),
            forall|j: int| 0 <= j < i ==> s@[j] != c,
        decreases s@.len() - i,
    {
        if s[i] == c {
            return true;
        }
        i = i + 1;
    }
    false
}

/// Whether `c` must not occur in a packaged path.
fn is_bad_component(c: &[char]) -> (r: bool)
    ensures
        r == bad_component(c@),
{
    let dot = c.len() == 1 && c[0] == '.';
    let dots = c.len() == 2 && c[0] == '.' && c[1] == '.';
    proof {
        if dot {
            assert(c@ =~= seq!['.']);
        }
        if dots {
            assert(c@ =~= seq!['.', '.']);
        }
    }
    dot || dots || has_char(c, ':') || has_char(c, '\0')
}

/// The first of `parts` that reads `tools` up to ASCII case.
fn first_tools(parts: &Vec<Vec<char>>, tools: &[char], Ghost(cs): Ghost<Seq<Seq<char>>>) -> (r: Option<usize>)
    requires
        parts@.len() == cs.len(),
        forall|k: int| 0 <= k < parts@.len() ==> #[trigger] parts@[k]@ == cs[k],
        tools@ == tools_name(),
    ensures
        match r {
            Some(i) => first_match(cs, tools_name()) == Some(i as int),
            None => first_match(cs, tools_name()) is None,
        },
{
    let mut i: usize = 0;
    while i < parts.len()
        invariant
            i <= parts@.len(),
            parts@.len() == cs.len(),
            forall|k: int| 0 <= k < parts@.len() ==> #[trigger] parts@[k]@ == cs[k],
            tools@ == tools_name(),
            forall|k: int| 0 <= k < i ==> !crate::chars::eq_ignore_ascii_case(#[trigger] cs[k], tools_name()),
        decreases parts@.len() - i,
    {
        if chars_eq_ignore_ascii_case(parts[i].as_slice(), tools) {
            proof {
                lemma_first_match(cs, tools_name(), i as int);
            }
            return Some(i);
        }
        i = i + 1;
    }
    proof {
        lemma_first_match(cs, tools_name(), i as int);
    }
    None
}

/// Reads a packaged tool path: trims it, accepts `/` and `\` as
/// separators, drops empty components and everything before the first
/// `tools` component, and refuses `.`, `..`, drive colons and NULs.
pub fn normalize_packaged_path(value: &str) -> (r: Result<PackagedPath, Error>)
    ensures
        match r {
            Ok(p) => spec_normalize(value@) == Some(p@),
            Err(e) => spec_normalize(value@) is None && e@ == ErrorModel::InvalidToolPath(value@),
        },
{
    let parts = components_of(value);
    let ghost cs = path_components(value@);
    let tools: Vec<char> = vec!['t', 'o', 'o', 'l', 's'];
    proof {
        assert(tools@ =~= tools_name());
    }
    let start: usize = match first_tools(&parts, tools.as_slice(), Ghost(cs)) {
        Some(i) => i,
        None => 0,
    };
    proof {
        crate::chars::lemma_first_match_facts(cs, tools_name());
    }
    let ghost kept = cs.subrange(start as int, cs.len() as int);
    if start >= parts.len() {
        proof {
            assert(kept.len() == 0);
        }
        return Err(Error::InvalidToolPath(value.to_owned()));
    }
    let mut components: Vec<String> = Vec::new();
    let mut k: usize = start;
    while k < parts.len()
        invariant
            start <= k <= parts@.len(),
            parts@.len() == cs.len(),
            forall|q: int| 0 <= q < parts@.len() ==> #[trigger] parts@[q]@ == cs[q],
            kept == cs.subrange(start as int, cs.len() as int),
            cs == path_components(value@),
            start == tools_start(cs),
            kept == kept_components(value@),
            components@.len() == k - start,
            forall|q: int| 0 <= q < components@.len() ==> #[trigger] components@[q]@ == kept[q],
            forall|q: int| 0 <= q < k - start ==> !bad_component(#[trigger] kept[q]),
        decreases parts@.len() - k,
    {
        proof {
            assert(kept[k - start] == cs[k as int]);
        }
        if is_bad_component(parts[k].as_slice()) {
            proof {
                assert(bad_component(kept[k - start]));
            }
            return Err(Error::InvalidToolPath(value.to_owned()));
        }
        components.push(string_from_chars(parts[k].as_slice()));
        k = k + 1;
    }
    let path = PackagedPath { components };
    proof {
        assert(path@ =~= kept);
    }
    Ok(path)
}

// ---------------------------------------------------------------------------
// Tools and categories.

/// How a tool is started: a packaged executable with its working
/// directory, or an action built into the launcher.
#[derive(Debug, Clone, PartialEq, Eq)]
pub enum ToolTarget {
    Executable { path: PackagedPath, working_directory: PackagedPath },
    BuiltIn { name: String },
}

/// A target as mathematics.
pub enum TargetModel {
    Executable { path: Seq<Seq<char>>, working_directory: Seq<Seq<char>> },
    BuiltIn { name: Seq<char> },
}

impl View for ToolTarget {
    type V = TargetModel;

    open spec fn view(&self) -> TargetModel {
        match self {
            ToolTarget::Executable { path, working_directory } => TargetModel::Executable {
                path: path@,
                working_directory: working_directory@,
            },
            ToolTarget::BuiltIn { name } => TargetModel::BuiltIn { name: name@ },
        }
    }
}

/// One tool of a category.
#[derive(Debug, Clone, PartialEq, Eq)]
pub struct ToolEntry {
    pub id: u32,
    pub name: String,
    pub executable_text: String,
    pub working_directory_text: String,
    pub target: ToolTarget,
    pub description: String,
    pub icon: Vec<u8>,
    pub icon_40: Vec<u8>,
    pub icon_48: Vec<u8>,
    pub normalized_name: String,
}

/// A tool as mathematics.
pub struct ToolModel {
    pub id: u32,
    pub name: Seq<char>,
    pub executable_text: Seq<char>,
    pub working_directory_text: Seq<char>,
    pub target: TargetModel,
    pub description: Seq<char>,
    pub icon: Seq<u8>,
    pub icon_40: Seq<u8>,
    pub icon_48: Seq<u8>,
    pub normalized_name: Seq<char>,
}

impl View for ToolEntry {
    type V = ToolModel;

    open spec fn view(&self) -> ToolModel {
        ToolModel {
            id: self.id,
            name: self.name@,
            executable_text: self.executable_text@,
            working_directory_text: self.working_directory_text@,
            target: self.target@,
            description: self.description@,
            icon: self.icon@,
            icon_40: self.icon_40@,
            icon_48: self.icon_48@,
            normalized_name: self.normalized_name@,
        }
    }
}

/// The models of a list of tools.
pub open spec fn tool_models(tools: Seq<ToolEntry>) -> Seq<ToolModel> {
    tools.map_values(|t: ToolEntry| t@)
}

/// A named category of tools.
#[derive(Debug, Clone, PartialEq, Eq)]
pub struct ToolCategory {
    pub name: String,
    pub tools: Vec<ToolEntry>,
}

/// A category as mathematics.
pub struct CategoryModel {
    pub name: Seq<char>,
    pub tools: Seq<ToolModel>,
}

impl View for ToolCategory {
    type V = CategoryModel;

    open spec fn view(&self) -> CategoryModel {
        CategoryModel { name: self.name@, tools: tool_models(self.tools@) }
    }
}

/// All categories of the package.
#[derive(Debug, Clone, PartialEq, Eq)]
pub struct ToolCatalog {
    pub categories: Vec<ToolCategory>,
}

/// The number of tools over all of `categories`.
pub open spec fn total_tools(categories: Seq<ToolCategory>) -> int
    decreases categories.len(),
{
    if categories.len() == 0 {
        0
    } else {
        total_tools(categories.drop_last()) + categories.last().tools@.len()
    }
}

proof fn lemma_total_tools_monotone(categories: Seq<ToolCategory>, i: int)
    requires
        0 <= i <= categories.len(),
    ensures
        total_tools(categories.take(i)) <= total_tools(categories),
    decreases categories.len() - i,
{
    if i < categories.len() {
        lemma_total_tools_monotone(categories, i + 1);
        assert(categories.take(i + 1).drop_last() =~= categories.take(i));
    } else {
        assert(categories.take(i) =~= categories);
    }
}

impl ToolCatalog {
    /// The number of tools over all categories.
    pub fn tool_count(&self) -> (n: usize)
        requires
            total_tools(self.categories@) <= usize::MAX,
        ensures
            n == total_tools(self.categories@),
    {
        let mut n: usize = 0;
        let mut i: usize = 0;
        while i < self.categories.len()
            invariant
                i <= self.categories@.len(),
                total_tools(self.categories@) <= usize::MAX,
                n == total_tools(self.categories@.take(i as int)),
            decreases self.categories@.len() - i,
        {
            proof {
                assert(self.categories@.take(i + 1).drop_last() =~= self.categories@.take(i as int));
                lemma_total_tools_monotone(self.categories@, i + 1);
            }
            n = n + self.categories[i].tools.len();
            i = i + 1;
        }
        proof {
            assert(self.categories@.take(i as int) =~= self.categories@);
        }
        n
    }
}

// ---------------------------------------------------------------------------
// Reading a category from its database and table.

/// The first field whose GBK name is `name`.
pub open spec fn field_position(fields: Seq<FieldModel>, name: Seq<char>) -> Option<int>
    decreases fields.len(),
{
    if fields.len() == 0 {
        None
    } else if field_name_of(fields[0]) == name {
        Some(0)
    } else {
        match field_position(fields.drop_first(), name) {
            Some(i) => Some(i + 1),
            None => None,
        }
    }
}

proof fn lemma_field_position(fields: Seq<FieldModel>, name: Seq<char>, i: int)
    requires
        0 <= i <= fields.len(),
        forall|j: int| 0 <= j < i ==> field_name_of(#[trigger] fields[j]) != name,
        i < fields.len() ==> field_name_of(fields[i]) == name,
    ensures
        field_position(fields, name) == (if i == fields.len() { None } else { Some(i) }),
    decreases i,
{
    if i > 0 {
        assert(field_name_of(fields[0]) != name);
        assert forall|j: int| 0 <= j < i - 1 implies field_name_of(#[trigger] fields.drop_first()[j]) != name by {
            assert(fields.drop_first()[j] == fields[j + 1]);
        }
        if i < fields.len() {
            assert(fields.drop_first()[i - 1] == fields[i]);
        }
        lemma_field_position(fields.drop_first(), name, i - 1);
    }
}

/// The position of the field a category needs, or which one is missing.
pub open spec fn spec_required(db: DatabaseModel, name: &'static str) -> Result<usize, ErrorModel> {
    match field_position(db.fields, name@) {
        Some(i) => Ok(i as usize),
        None => Err(ErrorModel::MissingToolField(name)),
    }
}

/// The positions of the fields a category reads.
pub struct ToolFields {
    pub name: usize,
    pub executable: usize,
    pub directory: usize,
    pub description: usize,
    pub icon: usize,
    pub icon_40: usize,
    pub icon_48: usize,
    pub normalized_name: usize,
}

/// The fields a category reads, looked up in this order; the first
/// missing one is the error.
pub open spec fn spec_tool_fields(db: DatabaseModel) -> Result<ToolFields, ErrorModel> {
    match spec_required(db, "工具名") {
        Err(e) => Err(e),
        Ok(name) => match spec_required(db, "路径") {
            Err(e) => Err(e),
            Ok(executable) => match spec_required(db, "目录") {
                Err(e) => Err(e),
                Ok(directory) => match spec_required(db, "说明") {
                    Err(e) => Err(e),
                    Ok(description) => match spec_required(db, "图标") {
                        Err(e) => Err(e),
                        Ok(icon) => match spec_required(db, "图标40") {
                            Err(e) => Err(e),
                            Ok(icon_40) => match spec_required(db, "图标48") {
                                Err(e) => Err(e),
                                Ok(icon_48) => match spec_required(db, "处理后的工具名") {
                                    Err(e) => Err(e),
                                    Ok(normalized_name) => Ok(
                                        ToolFields {
                                            name,
                                            executable,
                                            directory,
                                            description,
                                            icon,
                                            icon_40,
                                            icon_48,
                                            normalized_name,
                                        },
                                    ),
                                },
                            },
                        },
                    },
                },
            },
        },
    }
}

/// The GBK text of field `f` in record `k`, up to its first NUL.
pub open spec fn spec_text(db: DatabaseModel, k: int, f: usize) -> Result<Seq<char>, ErrorModel> {
    match spec_field_bytes(db, k, f as int) {
        Ok(b) => Ok(gbk_decoded(c_string_of(b)).0),
        Err(e) => Err(ErrorModel::Database(e)),
    }
}

/// The chain of `table` that the four-byte page reference in field `f` of
/// record `k` names.
pub open spec fn spec_icon(db: DatabaseModel, table: TableModel, k: int, f: usize) -> Result<Seq<u8>, ErrorModel> {
    match spec_field_bytes(db, k, f as int) {
        Err(e) => Err(ErrorModel::Database(e)),
        Ok(b) => if b.len() != 4 {
            Err(ErrorModel::Database(edb::Error::InvalidLayout("EDT page reference is not four bytes")))
        } else {
            match spec_read_chain(table, le_u32(b, 0)) {
                Ok(d) => Ok(d),
                Err(e) => Err(ErrorModel::Database(e)),
            }
        },
    }
}

/// The id in the first four bytes of record `k`.
pub open spec fn spec_record_id(db: DatabaseModel, k: int) -> Result<u32, ErrorModel> {
    if db.records[k].len() < 4 {
        Err(ErrorModel::Database(edb::Error::Truncated { expected: 4, actual: db.records[k].len() as usize }))
    } else {
        Ok(le_u32(db.records[k], 0))
    }
}

/// The directory text that marks a built-in action.
pub open spec fn built_in_marker() -> Seq<char> {
    "内置工具"@
}

/// Whether a packaged path starts with the component `tools`, exactly.
pub open spec fn starts_with_tools(p: Seq<Seq<char>>) -> bool {
    p.len() > 0 && p[0] == tools_name()
}

/// The target a tool's executable and directory texts describe: a
/// built-in action when the directory is the marker, else both paths
/// normalized, each starting at `tools`.
pub open spec fn spec_target(executable: Seq<char>, directory: Seq<char>) -> Result<TargetModel, ErrorModel> {
    if directory == built_in_marker() {
        Ok(TargetModel::BuiltIn { name: executable })
    } else {
        match spec_normalize(executable) {
            None => Err(ErrorModel::InvalidToolPath(executable)),
            Some(path) => match spec_normalize(directory) {
                None => Err(ErrorModel::InvalidToolPath(directory)),
                Some(working_directory) => if !starts_with_tools(path) || !starts_with_tools(working_directory) {
                    Err(ErrorModel::InvalidToolPath(executable))
                } else {
                    Ok(TargetModel::Executable { path, working_directory })
                },
            },
        }
    }
}

/// The tool that record `k` describes, its parts read in this order;
/// the first that fails is the error.
#[verifier::opaque]
pub open spec fn spec_tool(db: DatabaseModel, table: TableModel, f: ToolFields, k: int) -> Result<ToolModel, ErrorModel> {
    match spec_text(db, k, f.executable) {
        Err(e) => Err(e),
        Ok(executable_text) => match spec_text(db, k, f.directory) {
            Err(e) => Err(e),
            Ok(working_directory_text) => spec_tool_after_paths(db, table, f, k, executable_text, working_directory_text),
        },
    }
}

/// The rest of `spec_tool`, once the executable and directory texts are read.
pub open spec fn spec_tool_after_paths(
    db: DatabaseModel,
    table: TableModel,
    f: ToolFields,
    k: int,
    executable_text: Seq<char>,
    working_directory_text: Seq<char>,
) -> Result<ToolModel, ErrorModel> {
    match spec_target(executable_text, working_directory_text) {
        Err(e) => Err(e),
        Ok(target) => match spec_record_id(db, k) {
            Err(e) => Err(e),
            Ok(id) => match spec_text(db, k, f.name) {
                Err(e) => Err(e),
                Ok(name) => match spec_text(db, k, f.description) {
                    Err(e) => Err(e),
                    Ok(description) => match spec_icon(db, table, k, f.icon) {
                        Err(e) => Err(e),
                        Ok(icon) => match spec_icon(db, table, k, f.icon_40) {
                            Err(e) => Err(e),
                            Ok(icon_40) => match spec_icon(db, table, k, f.icon_48) {
                                Err(e) => Err(e),
                                Ok(icon_48) => match spec_text(db, k, f.normalized_name) {
                                    Err(e) => Err(e),
                                    Ok(normalized_name) => Ok(
                                        ToolModel {
                                            id,
                                            name,
                                            executable_text,
                                            working_directory_text,
                                            target,
                                            description,
                                            icon,
                                            icon_40,
                                            icon_48,
                                            normalized_name,
                                        },
                                    ),
                                },
                            },
                        },
                    },
                },
            },
        },
    }
}

/// The tools of the first `n` records, or the first record's error.
pub open spec fn spec_tools(db: DatabaseModel, table: TableModel, f: ToolFields, n: nat) -> Result<Seq<ToolModel>, ErrorModel>
    decreases n,
{
    if n == 0 {
        Ok(seq![])
    } else {
        match spec_tools(db, table, f, (n - 1) as nat) {
            Err(e) => Err(e),
            Ok(tools) => match spec_tool(db, table, f, n - 1) {
                Err(e) => Err(e),
                Ok(t) => Ok(tools.push(t)),
            },
        }
    }
}

proof fn lemma_spec_tools_err_stays(db: DatabaseModel, table: TableModel, f: ToolFields, m: nat, n: nat)
    requires
        m <= n,
        spec_tools(db, table, f, m) is Err,
    ensures
        spec_tools(db, table, f, n) == spec_tools(db, table, f, m),
    decreases n - m,
{
    if m < n {
        lemma_spec_tools_err_stays(db, table, f, m, (n - 1) as nat);
    }
}

/// What `ToolCategory::from_bytes` makes of a category's files.
pub open spec fn spec_category(
    name: Seq<char>,
    database: Seq<u8>,
    table: Seq<u8>,
    password: Seq<u8>,
) -> Result<CategoryModel, ErrorModel> {
    match open_database(database, Some(password)) {
        Err(e) => Err(ErrorModel::Database(e)),
        Ok(db) => match open_table(table, Some(password)) {
            Err(e) => Err(ErrorModel::Database(e)),
            Ok(t) => match spec_tool_fields(db) {
                Err(e) => Err(e),
                Ok(f) => match spec_tools(db, t, f, db.records.len()) {
                    Err(e) => Err(e),
                    Ok(tools) => Ok(CategoryModel { name, tools }),
                },
            },
        },
    }
}

/// The position of the field named `name`.
fn required_field(database: &Database, name: &'static str) -> (r: Result<usize, Error>)
    ensures
        match r {
            Ok(i) => spec_required(database@, name) == Ok::<usize, ErrorModel>(i),
            Err(e) => spec_required(database@, name) == Err::<usize, ErrorModel>(e@),
        },
{
    match database.field_index(name) {
        Some(i) => {
            proof {
                lemma_field_position(database@.fields, name@, i as int);
            }
            Ok(i)
        },
        None => {
            proof {
                lemma_field_position(database@.fields, name@, database@.fields.len() as int);
            }
            Err(Error::MissingToolField(name))
        },
    }
}

/// The page number stored in a four-byte field.
fn read_page_reference(bytes: &[u8]) -> (r: Result<u32, Error>)
    ensures
        match r {
            Ok(v) => bytes@.len() == 4 && v == le_u32(bytes@, 0),
            Err(e) => bytes@.len() != 4 && e@ == ErrorModel::Database(
                edb::Error::InvalidLayout("EDT page reference is not four bytes"),
            ),
        },
{
    if bytes.len() != 4 {
        return Err(Error::Database(edb::Error::InvalidLayout("EDT page reference is not four bytes")));
    }
    match crate::edb::bytes::read_u32(bytes, 0) {
        Ok(v) => Ok(v),
        Err(e) => Err(Error::Database(e)),
    }
}


/// What reading tools needs of an opened database and table: fields
/// inside records, records short enough to decode, pages that can be walked.
pub open spec fn readable(db: DatabaseModel, table: TableModel) -> bool {
    &&& crate::edb::database::fields_fit(db)
    &&& crate::edb::table::pages_ok(table)
    &&& forall|k: int| 0 <= k < db.records.len() ==> #[trigger] db.records[k].len() <= usize::MAX / 4
}

/// The positions of the fields a category reads.
fn tool_fields(database: &Database) -> (r: Result<ToolFields, Error>)
    ensures
        match r {
            Ok(f) => spec_tool_fields(database@) == Ok::<ToolFields, ErrorModel>(f),
            Err(e) => spec_tool_fields(database@) == Err::<ToolFields, ErrorModel>(e@),
        },
{
    let name = match required_field(database, "工具名") {
        Ok(i) => i,
        Err(e) => return Err(e),
    };
    let executable = match required_field(database, "路径") {
        Ok(i) => i,
        Err(e) => return Err(e),
    };
    let directory = match required_field(database, "目录") {
        Ok(i) => i,
        Err(e) => return Err(e),
    };
    let description = match required_field(database, "说明") {
        Ok(i) => i,
        Err(e) => return Err(e),
    };
    let icon = match required_field(database, "图标") {
        Ok(i) => i,
        Err(e) => return Err(e),
    };
    let icon_40 = match required_field(database, "图标40") {
        Ok(i) => i,
        Err(e) => return Err(e),
    };
    let icon_48 = match required_field(database, "图标48") {
        Ok(i) => i,
        Err(e) => return Err(e),
    };
    let normalized_name = match required_field(database, "处理后的工具名") {
        Ok(i) => i,
        Err(e) => return Err(e),
    };
    Ok(ToolFields { name, executable, directory, description, icon, icon_40, icon_48, normalized_name })
}

/// The GBK text of field `f` in record `k`.
fn read_text(database: &Database, k: usize, f: usize) -> (r: Result<String, Error>)
    requires
        crate::edb::database::fields_fit(database@),
        k < database@.records.len(),
        database@.records[k as int].len() <= usize::MAX / 4,
    ensures
        match r {
            Ok(t) => spec_text(database@, k as int, f) == Ok::<Seq<char>, ErrorModel>(t@),
            Err(e) => spec_text(database@, k as int, f) == Err::<Seq<char>, ErrorModel>(e@),
        },
{
    match database.field_text_gbk(k, f) {
        Ok(t) => Ok(t),
        Err(e) => Err(Error::Database(e)),
    }
}

/// The chain named by the page reference in field `f` of record `k`.
fn read_icon(database: &Database, table: &Table, k: usize, f: usize) -> (r: Result<Vec<u8>, Error>)
    requires
        crate::edb::database::fields_fit(database@),
        crate::edb::table::pages_ok(table@),
    ensures
        match r {
            Ok(d) => spec_icon(database@, table@, k as int, f) == Ok::<Seq<u8>, ErrorModel>(d@),
            Err(e) => spec_icon(database@, table@, k as int, f) == Err::<Seq<u8>, ErrorModel>(e@),
        },
{
    let bytes = match database.field_bytes(k, f) {
        Ok(b) => b,
        Err(e) => return Err(Error::Database(e)),
    };
    let page = match read_page_reference(bytes) {
        Ok(p) => p,
        Err(e) => return Err(e),
    };
    match table.read_chain(page) {
        Ok(d) => Ok(d),
        Err(e) => Err(Error::Database(e)),
    }
}

/// The id of record `k`.
fn read_record_id(database: &Database, k: usize) -> (r: Result<u32, Error>)
    requires
        k < database@.records.len(),
    ensures
        match r {
            Ok(v) => spec_record_id(database@, k as int) == Ok::<u32, ErrorModel>(v),
            Err(e) => spec_record_id(database@, k as int) == Err::<u32, ErrorModel>(e@),
        },
{
    match database.record_id(k) {
        Ok(v) => Ok(v),
        Err(e) => Err(Error::Database(e)),
    }
}

/// The target that a tool's executable and directory texts describe.
fn read_target(executable_text: &String, working_directory_text: &String) -> (r: Result<ToolTarget, Error>)
    ensures
        match r {
            Ok(t) => spec_target(executable_text@, working_directory_text@) == Ok::<TargetModel, ErrorModel>(t@),
            Err(e) => spec_target(executable_text@, working_directory_text@) == Err::<TargetModel, ErrorModel>(e@),
        },
{
    if str_equal(working_directory_text.as_str(), "内置工具") {
        return Ok(ToolTarget::BuiltIn { name: executable_text.clone() });
    }
    let path = match normalize_packaged_path(executable_text.as_str()) {
        Ok(p) => p,
        Err(e) => return Err(e),
    };
    let working_directory = match normalize_packaged_path(working_directory_text.as_str()) {
        Ok(p) => p,
        Err(e) => return Err(e),
    };
    if !starts_with_tools_exec(&path) || !starts_with_tools_exec(&working_directory) {
        return Err(Error::InvalidToolPath(executable_text.clone()));
    }
    Ok(ToolTarget::Executable { path, working_directory })
}

/// Whether `p` starts with the component `tools`, exactly.
fn starts_with_tools_exec(p: &PackagedPath) -> (r: bool)
    ensures
        r == starts_with_tools(p@),
{
    if p.components.len() == 0 {
        return false;
    }
    let first = chars_of(p.components[0].as_str());
    let r = first.len() == 5 && first[0] == 't' && first[1] == 'o' && first[2] == 'o' && first[3] == 'l' && first[4]
        == 's';
    proof {
        if r {
            assert(first@ =~= tools_name());
        }
        assert(p@[0] == p.components@[0]@);
    }
    r
}

/// The tool that record `k` describes.
fn read_tool(database: &Database, table: &Table, f: &ToolFields, k: usize) -> (r: Result<ToolEntry, Error>)
    requires
        readable(database@, table@),
        k < database@.records.len(),
    ensures
        match r {
            Ok(t) => spec_tool(database@, table@, *f, k as int) == Ok::<ToolModel, ErrorModel>(t@),
            Err(e) => spec_tool(database@, table@, *f, k as int) == Err::<ToolModel, ErrorModel>(e@),
        },
{
    reveal(spec_tool);
    let executable_text = match read_text(database, k, f.executable) {
        Ok(t) => t,
        Err(e) => return Err(e),
    };
    let working_directory_text = match read_text(database, k, f.directory) {
        Ok(t) => t,
        Err(e) => return Err(e),
    };
    let target = match read_target(&executable_text, &working_directory_text) {
        Ok(t) => t,
        Err(e) => return Err(e),
    };
    let id = match read_record_id(database, k) {
        Ok(v) => v,
        Err(e) => return Err(e),
    };
    let name = match read_text(database, k, f.name) {
        Ok(t) => t,
        Err(e) => return Err(e),
    };
    let description = match read_text(database, k, f.description) {
        Ok(t) => t,
        Err(e) => return Err(e),
    };
    let icon = match read_icon(database, table, k, f.icon) {
        Ok(d) => d,
        Err(e) => return Err(e),
    };
    let icon_40 = match read_icon(database, table, k, f.icon_40) {
        Ok(d) => d,
        Err(e) => return Err(e),
    };
    let icon_48 = match read_icon(database, table, k, f.icon_48) {
        Ok(d) => d,
        Err(e) => return Err(e),
    };
    let normalized_name = match read_text(database, k, f.normalized_name) {
        Ok(t) => t,
        Err(e) => return Err(e),
    };
    Ok(
        ToolEntry {
            id,
            name,
            executable_text,
            working_directory_text,
            target,
            description,
            icon,
            icon_40,
            icon_48,
            normalized_name,
        },
    )
}

impl ToolCategory {
    /// Reads a category from its EDB database and EDT table images, both
    /// opened with `password`.
    pub fn from_bytes(name: String, database_bytes: Vec<u8>, table_bytes: Vec<u8>, password: &[u8]) -> (r: Result<
        ToolCategory,
        Error,
    >)
        requires
            database_bytes@.len() <= usize::MAX / 4,
        ensures
            match r {
                Ok(c) => spec_category(name@, database_bytes@, table_bytes@, password@) == Ok::<CategoryModel, ErrorModel>(c@),
                Err(e) => spec_category(name@, database_bytes@, table_bytes@, password@) == Err::<CategoryModel, ErrorModel>(e@),
            },
    {
        let ghost db_bytes = database_bytes@;
        let ghost t_bytes = table_bytes@;
        let _table_len = table_bytes.len();
        let database = match Database::open(database_bytes, Some(password)) {
            Ok(d) => d,
            Err(e) => return Err(Error::Database(e)),
        };
        let table = match Table::open(table_bytes, Some(password)) {
            Ok(t) => t,
            Err(e) => return Err(Error::Database(e)),
        };
        proof {
            lemma_open_records_bounded(db_bytes, Some(password@));
            lemma_open_table_pages_ok(t_bytes, Some(password@));
        }
        let f = match tool_fields(&database) {
            Ok(f) => f,
            Err(e) => return Err(e),
        };
        let n = database.records().len();
        let mut tools: Vec<ToolEntry> = Vec::new();
        proof {
            assert(tool_models(tools@) =~= seq![]);
        }
        let mut k: usize = 0;
        while k < n
            invariant
                k <= n,
                n == database@.records.len(),
                readable(database@, table@),
                db_bytes == database_bytes@,
                t_bytes == table_bytes@,
                open_database(db_bytes, Some(password@)) == Ok::<DatabaseModel, edb::Error>(database@),
                open_table(t_bytes, Some(password@)) == Ok::<TableModel, edb::Error>(table@),
                spec_tool_fields(database@) == Ok::<ToolFields, ErrorModel>(f),
                spec_tools(database@, table@, f, k as nat) == Ok::<Seq<ToolModel>, ErrorModel>(tool_models(tools@)),
            decreases n - k,
        {
            let tool = match read_tool(&database, &table, &f, k) {
                Ok(t) => t,
                Err(e) => {
                    proof {
                        lemma_spec_tools_err_stays(database@, table@, f, (k + 1) as nat, n as nat);
                    }
                    return Err(e);
                },
            };
            tools.push(tool);
            proof {
                assert(tool_models(tools@) =~= spec_tools(database@, table@, f, k as nat)->Ok_0.push(tool@));
            }
            k = k + 1;
        }
        Ok(ToolCategory { name, tools })
    }
}

/// `s` cut at every separator, as `split_path` cuts it.
pub fn split_path_exec(s: &[char]) -> (r: Vec<Vec<char>>)
    ensures
        r@.len() == split_path(s@).len(),
        forall|k: int| 0 <= k < r@.len() ==> #[trigger] r@[k]@ == split_path(s@)[k],
{
    let mut parts: Vec<Vec<char>> = Vec::new();
    let mut current: Vec<char> = Vec::new();
    let mut i: usize = 0;
    while i < s.len()
        invariant
            i <= s@.len(),
            parts@.len() + 1 == split_path(s@.take(i as int)).len(),
            forall|k: int| 0 <= k < parts@.len() ==> #[trigger] parts@[k]@ == split_path(s@.take(i as int))[k],
            current@ == split_path(s@.take(i as int)).last(),
        decreases s@.len() - i,
    {
        proof {
            lemma_split_path_nonempty(s@.take(i as int));
            assert(s@.take(i + 1).drop_last() =~= s@.take(i as int));
        }
        if s[i] == '/' || s[i] == '\\' {
            parts.push(current);
            current = Vec::new();
        } else {
            current.push(s[i]);
        }
        i = i + 1;
    }
    proof {
        assert(s@.take(s@.len() as int) =~= s@);
    }
    parts.push(current);
    parts
}

/// Whether `a` and `b` hold the same characters.
pub fn chars_equal(a: &[char], b: &[char]) -> (r: bool)
    ensures
        r == (a@ == b@),
{
    if a.len() != b.len() {
        return false;
    }
    let mut i: usize = 0;
    while i < a.len()
        invariant
            i <= a@.len(),
            a@.len() == b@.len(),
            forall|k: int| 0 <= k < i ==> a@[k] == b@[k],
        decreases a@.len() - i,
    {
        if a[i] != b[i] {
            assert(a@[i as int] != b@[i as int]);
            return false;
        }
        i = i + 1;
    }
    assert(a@ =~= b@);
    true
}

/// Whether a packaged path stays inside the tool directory: it starts
/// with the component `tools` and has no `.`, `..`, drive or NUL component.
pub open spec fn stays_in_tools(p: Seq<Seq<char>>) -> bool {
    starts_with_tools(p) && forall|i: int| 0 <= i < p.len() ==> !bad_component(#[trigger] p[i])
}

/// Whether a target stays inside the tool directory: a built-in action
/// always does; an executable when its path and working directory do.
pub open spec fn target_stays_in_tools(t: TargetModel) -> bool {
    match t {
        TargetModel::Executable { path, working_directory } => stays_in_tools(path) && stays_in_tools(working_directory),
        TargetModel::BuiltIn { .. } => true,
    }
}

/// Every executable target read from a tool database stays inside the
/// tool directory, both its path and its working directory.
pub proof fn lemma_targets_stay_in_tools(executable: Seq<char>, directory: Seq<char>)
    requires
        spec_target(executable, directory) is Ok,
    ensures
        target_stays_in_tools(spec_target(executable, directory)->Ok_0),
{
}

/// Every executable tool of a category read from its files stays inside
/// the tool directory.
pub proof fn lemma_category_stays_in_tools(name: Seq<char>, database: Seq<u8>, table: Seq<u8>, password: Seq<u8>)
    requires
        spec_category(name, database, table, password) is Ok,
    ensures
        forall|k: int|
            0 <= k < spec_category(name, database, table, password)->Ok_0.tools.len() ==> target_stays_in_tools(
                (#[trigger] spec_category(name, database, table, password)->Ok_0.tools[k]).target,
            ),
{
    let db = open_database(database, Some(password))->Ok_0;
    let t = open_table(table, Some(password))->Ok_0;
    let f = spec_tool_fields(db)->Ok_0;
    lemma_tools_stay_in_tools(db, t, f, db.records.len());
}

proof fn lemma_tools_stay_in_tools(db: DatabaseModel, table: TableModel, f: ToolFields, n: nat)
    requires
        spec_tools(db, table, f, n) is Ok,
    ensures
        forall|k: int|
            0 <= k < spec_tools(db, table, f, n)->Ok_0.len() ==> target_stays_in_tools(
                (#[trigger] spec_tools(db, table, f, n)->Ok_0[k]).target,
            ),
    decreases n,
{
    if n > 0 {
        lemma_tools_stay_in_tools(db, table, f, (n - 1) as nat);
        let prev = spec_tools(db, table, f, (n - 1) as nat)->Ok_0;
        reveal(spec_tool);
        let t = spec_tool(db, table, f, n - 1)->Ok_0;
        let exe = spec_text(db, n - 1, f.executable)->Ok_0;
        let dir = spec_text(db, n - 1, f.directory)->Ok_0;
        lemma_targets_stay_in_tools(exe, dir);
        assert(t.target == spec_target(exe, dir)->Ok_0);
        assert forall|k: int| 0 <= k < prev.len() + 1 implies target_stays_in_tools((#[trigger] prev.push(t)[k]).target) by {
            if k < prev.len() {
                assert(prev.push(t)[k] == prev[k]);
            }
        }
    }
}

// ---------------------------------------------------------------------------
// Each tool holds what its record's named fields hold.

/// The GBK text, up to its first NUL, of the field named `field` in record
/// `k`, if there is such a field and the record holds it.
pub open spec fn named_text(db: DatabaseModel, k: int, field: Seq<char>) -> Option<Seq<char>> {
    match field_position(db.fields, field) {
        None => None,
        Some(i) => match spec_field_bytes(db, k, i) {
            Ok(b) => Some(gbk_decoded(c_string_of(b)).0),
            Err(_) => None,
        },
    }
}

/// The chain of `table` that the four-byte page reference in the field
/// named `field` of record `k` names, if it reads.
pub open spec fn named_chain(db: DatabaseModel, table: TableModel, k: int, field: Seq<char>) -> Option<Seq<u8>> {
    match field_position(db.fields, field) {
        None => None,
        Some(i) => match spec_field_bytes(db, k, i) {
            Ok(b) => if b.len() == 4 {
                match spec_read_chain(table, le_u32(b, 0)) {
                    Ok(d) => Some(d),
                    Err(_) => None,
                }
            } else {
                None
            },
            Err(_) => None,
        },
    }
}

/// Tool `t`, read from record `k`, holds what the record's fields hold by
/// name: its id the record's first four bytes, its texts the fields
/// `工具名`, `路径`, `目录`, `说明` and `处理后的工具名`, and its icons the
/// chains that the fields `图标`, `图标40` and `图标48` name.
pub open spec fn tool_reads_fields(db: DatabaseModel, table: TableModel, k: int, t: ToolModel) -> bool {
    &&& db.records[k].len() >= 4 && t.id == le_u32(db.records[k], 0)
    &&& named_text(db, k, "工具名"@) == Some(t.name)
    &&& named_text(db, k, "路径"@) == Some(t.executable_text)
    &&& named_text(db, k, "目录"@) == Some(t.working_directory_text)
    &&& named_text(db, k, "说明"@) == Some(t.description)
    &&& named_text(db, k, "处理后的工具名"@) == Some(t.normalized_name)
    &&& named_chain(db, table, k, "图标"@) == Some(t.icon)
    &&& named_chain(db, table, k, "图标40"@) == Some(t.icon_40)
    &&& named_chain(db, table, k, "图标48"@) == Some(t.icon_48)
}

/// Every tool of a category read from its files holds what its record's
/// fields hold by name, tool `k` from record `k`: the 40- and 48-pixel
/// icons the chains that the fields `图标40` and `图标48` name, and so on.
pub proof fn lemma_category_tools_read_their_fields(
    name: Seq<char>,
    database: Seq<u8>,
    table: Seq<u8>,
    password: Seq<u8>,
)
    requires
        spec_category(name, database, table, password) is Ok,
    ensures
        ({
            let db = open_database(database, Some(password))->Ok_0;
            let t = open_table(table, Some(password))->Ok_0;
            let tools = spec_category(name, database, table, password)->Ok_0.tools;
            &&& tools.len() == db.records.len()
            &&& forall|k: int| 0 <= k < tools.len() ==> tool_reads_fields(db, t, k, #[trigger] tools[k])
        }),
{
    let db = open_database(database, Some(password))->Ok_0;
    let t = open_table(table, Some(password))->Ok_0;
    let f = spec_tool_fields(db)->Ok_0;
    crate::edb::database::lemma_opened_well_formed(database, Some(password));
    lemma_tools_read_fields(db, t, f, db.records.len());
}

proof fn lemma_field_position_bounds(fields: Seq<FieldModel>, name: Seq<char>)
    ensures
        field_position(fields, name) matches Some(i) ==> 0 <= i < fields.len(),
    decreases fields.len(),
{
    if fields.len() > 0 {
        lemma_field_position_bounds(fields.drop_first(), name);
    }
}

proof fn lemma_tool_reads_fields(db: DatabaseModel, table: TableModel, f: ToolFields, k: int)
    requires
        spec_tool_fields(db) == Ok::<ToolFields, ErrorModel>(f),
        db.fields.len() <= u32::MAX,
        spec_tool(db, table, f, k) is Ok,
    ensures
        tool_reads_fields(db, table, k, spec_tool(db, table, f, k)->Ok_0),
{
    reveal(spec_tool);
    lemma_field_position_bounds(db.fields, "工具名"@);
    lemma_field_position_bounds(db.fields, "路径"@);
    lemma_field_position_bounds(db.fields, "目录"@);
    lemma_field_position_bounds(db.fields, "说明"@);
    lemma_field_position_bounds(db.fields, "图标"@);
    lemma_field_position_bounds(db.fields, "图标40"@);
    lemma_field_position_bounds(db.fields, "图标48"@);
    lemma_field_position_bounds(db.fields, "处理后的工具名"@);
    assert(field_position(db.fields, "工具名"@) == Some(f.name as int));
    assert(field_position(db.fields, "路径"@) == Some(f.executable as int));
    assert(field_position(db.fields, "目录"@) == Some(f.directory as int));
    assert(field_position(db.fields, "说明"@) == Some(f.description as int));
    assert(field_position(db.fields, "图标"@) == Some(f.icon as int));
    assert(field_position(db.fields, "图标40"@) == Some(f.icon_40 as int));
    assert(field_position(db.fields, "图标48"@) == Some(f.icon_48 as int));
    assert(field_position(db.fields, "处理后的工具名"@) == Some(f.normalized_name as int));
    let exe = spec_text(db, k, f.executable)->Ok_0;
    let dir = spec_text(db, k, f.directory)->Ok_0;
    assert(spec_tool(db, table, f, k) == spec_tool_after_paths(db, table, f, k, exe, dir));
    let tool = spec_tool(db, table, f, k)->Ok_0;
    assert(named_text(db, k, "路径"@) == Some(tool.executable_text));
    assert(named_text(db, k, "目录"@) == Some(tool.working_directory_text));
    assert(named_text(db, k, "工具名"@) == Some(tool.name));
    assert(named_text(db, k, "说明"@) == Some(tool.description));
    assert(named_text(db, k, "处理后的工具名"@) == Some(tool.normalized_name));
    assert(named_chain(db, table, k, "图标"@) == Some(tool.icon));
    assert(named_chain(db, table, k, "图标40"@) == Some(tool.icon_40));
    assert(named_chain(db, table, k, "图标48"@) == Some(tool.icon_48));
}

proof fn lemma_tools_read_fields(db: DatabaseModel, table: TableModel, f: ToolFields, n: nat)
    requires
        spec_tool_fields(db) == Ok::<ToolFields, ErrorModel>(f),
        spec_tools(db, table, f, n) is Ok,
        n <= db.records.len(),
        db.fields.len() <= u32::MAX,
    ensures
        spec_tools(db, table, f, n)->Ok_0.len() == n,
        forall|k: int|
            0 <= k < n ==> tool_reads_fields(db, table, k, #[trigger] spec_tools(db, table, f, n)->Ok_0[k]),
    decreases n,
{
    if n > 0 {
        lemma_tools_read_fields(db, table, f, (n - 1) as nat);
        let prev = spec_tools(db, table, f, (n - 1) as nat)->Ok_0;
        let k = n - 1;
        lemma_tool_reads_fields(db, table, f, k);
        let tool = spec_tool(db, table, f, k)->Ok_0;
        assert forall|q: int| 0 <= q < n implies tool_reads_fields(db, table, q, #[trigger] prev.push(tool)[q]) by {
            if q < prev.len() {
                assert(prev.push(tool)[q] == prev[q]);
            }
        }
    }
}

} // verus!
