//! The value types of the command surface: schema, conditions, parsed
//! commands and responses, each with a spec-level view.
use vstd::prelude::*;
use crate::strutil::views_of;
use crate::strutil::views2_of;

verus! {

/// One equality test `field = 'value'`, where `field` is a qualified
/// `table.column` name.
#[derive(Debug)]
pub struct Condition {
    pub field: String,
    pub value: String,
}

/// The view of a `Condition`.
pub struct CondV {
    pub field: Seq<char>,
    pub value: Seq<char>,
}

impl View for Condition {
    type V = CondV;

    open spec fn view(&self) -> CondV {
        CondV { field: self.field@, value: self.value@ }
    }
}

/// The views of a disjunction of conjunctions of conditions.
pub open spec fn groups_view(g: Seq<Vec<Condition>>) -> Seq<Seq<CondV>> {
    g.map_values(|v: Vec<Condition>| v@.map_values(|c: Condition| c@))
}

/// The views of an optional WHERE clause.
pub open spec fn opt_groups_view(g: Option<Vec<Vec<Condition>>>) -> Option<Seq<Seq<CondV>>> {
    match g {
        Some(gs) => Some(groups_view(gs@)),
        None => None,
    }
}

/// One table of the schema: its name and its ordered column names.
pub struct TableDef {
    pub table: String,
    pub columns: Vec<String>,
}

/// The view of a `TableDef`.
pub struct TableDefV {
    pub table: Seq<char>,
    pub columns: Seq<Seq<char>>,
}

impl View for TableDef {
    type V = TableDefV;

    open spec fn view(&self) -> TableDefV {
        TableDefV { table: self.table@, columns: views_of(self.columns@) }
    }
}

/// The immutable database layout: root name, page capacity, and the tables
/// with their ordered columns. It is loaded once and never mutated here.
pub struct Schema {
    pub name: String,
    pub tuples_limit: u64,
    pub structure: Vec<TableDef>,
}

/// The view of a `Schema`.
pub struct SchemaV {
    pub name: Seq<char>,
    pub tuples_limit: u64,
    pub structure: Seq<TableDefV>,
}

impl View for Schema {
    type V = SchemaV;

    open spec fn view(&self) -> SchemaV {
        SchemaV {
            name: self.name@,
            tuples_limit: self.tuples_limit,
            structure: self.structure@.map_values(|d: TableDef| d@),
        }
    }
}

/// A well-formed schema has a positive page capacity and distinct table
/// names.
pub open spec fn spec_schema_wf(s: SchemaV) -> bool {
    &&& s.tuples_limit >= 1
    &&& forall|i: int, j: int|
        0 <= i < j < s.structure.len() ==> s.structure[i].table != s.structure[j].table
}

impl Schema {
    pub open spec fn wf(&self) -> bool {
        spec_schema_wf(self@)
    }
}

/// The columns of the first table of that name, or `None` where the schema
/// has no such table.
pub open spec fn spec_defs_cols(defs: Seq<TableDefV>, t: Seq<char>) -> Option<Seq<Seq<char>>>
    decreases defs.len(),
{
    if defs.len() == 0 {
        None
    } else if defs[0].table == t {
        Some(defs[0].columns)
    } else {
        spec_defs_cols(defs.skip(1), t)
    }
}

/// The first match decides the lookup.
pub proof fn lemma_defs_cols_at(defs: Seq<TableDefV>, t: Seq<char>, i: int)
    requires
        0 <= i < defs.len(),
        defs[i].table == t,
        forall|j: int| 0 <= j < i ==> defs[j].table != t,
    ensures
        spec_defs_cols(defs, t) == Some(defs[i].columns),
    decreases i,
{
    if i > 0 {
        lemma_defs_cols_at(defs.skip(1), t, i - 1);
    }
}

/// No match anywhere decides the lookup too.
pub proof fn lemma_defs_cols_none(defs: Seq<TableDefV>, t: Seq<char>)
    requires
        forall|j: int| 0 <= j < defs.len() ==> defs[j].table != t,
    ensures
        spec_defs_cols(defs, t) is None,
    decreases defs.len(),
{
    if defs.len() > 0 {
        lemma_defs_cols_none(defs.skip(1), t);
    }
}

/// The ordered column names of table `t`, as the schema declares them.
pub fn schema_columns<'a>(schema: &'a Schema, t: &str) -> (r: Option<&'a Vec<String>>)
    ensures
        match r {
            Some(cs) => spec_defs_cols(schema@.structure, t@) == Some(views_of(cs@)),
            None => spec_defs_cols(schema@.structure, t@) is None,
        },
{
    let n = schema.structure.len();
    let mut i: usize = 0;
    while i < n
        invariant
            n == schema.structure@.len(),
            i <= n,
            forall|j: int| 0 <= j < i ==> schema@.structure[j].table != t@,
        decreases n - i,
    {
        if crate::strutil::str_eq(schema.structure[i].table.as_str(), t) {
            proof {
                lemma_defs_cols_at(schema@.structure, t@, i as int);
            }
            return Some(&schema.structure[i].columns);
        }
        i = i + 1;
    }
    proof {
        lemma_defs_cols_none(schema@.structure, t@);
    }
    None
}

/// A parsed command, ready for the executor.
#[derive(Debug)]
pub enum Command {
    Insert { table: String, rows: Vec<Vec<String>> },
    Delete { table: String, groups: Vec<Vec<Condition>> },
    Select { tables: Vec<String>, columns: Vec<String>, filter: Option<Vec<Vec<Condition>>> },
}

/// The view of a `Command`.
pub enum CommandV {
    Insert { table: Seq<char>, rows: Seq<Seq<Seq<char>>> },
    Delete { table: Seq<char>, groups: Seq<Seq<CondV>> },
    Select { tables: Seq<Seq<char>>, columns: Seq<Seq<char>>, filter: Option<Seq<Seq<CondV>>> },
}

impl View for Command {
    type V = CommandV;

    open spec fn view(&self) -> CommandV {
        match self {
            Command::Insert { table, rows } => CommandV::Insert {
                table: table@,
                rows: views2_of(rows@),
            },
            Command::Delete { table, groups } => CommandV::Delete {
                table: table@,
                groups: groups_view(groups@),
            },
            Command::Select { tables, columns, filter } => CommandV::Select {
                tables: views_of(tables@),
                columns: views_of(columns@),
                filter: opt_groups_view(*filter),
            },
        }
    }
}

/// What a command returns: `Success` with a row matrix for SELECT, `Success`
/// without one for INSERT and DELETE, or an error message.
pub enum DbResponse {
    Success(Option<Vec<Vec<String>>>),
    Error(String),
}

/// The view of a `DbResponse`.
pub enum RespV {
    Success(Option<Seq<Seq<Seq<char>>>>),
    Error(Seq<char>),
}

impl View for DbResponse {
    type V = RespV;

    open spec fn view(&self) -> RespV {
        match self {
            DbResponse::Success(None) => RespV::Success(None),
            DbResponse::Success(Some(m)) => RespV::Success(Some(views2_of(m@))),
            DbResponse::Error(e) => RespV::Error(e@),
        }
    }
}

} // verus!
