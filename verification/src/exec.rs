//! The query executor: condition evaluation, full-table reads as field
//! maps, the cartesian join, and the INSERT, DELETE and SELECT commands,
//! each specified by a function over the views.
use vstd::prelude::*;
use crate::map::MyHashMap;
use crate::storage::Database;
use crate::storage::PageV;
use crate::storage::Page;
use crate::storage::Table;
use crate::storage::TableV;
use crate::storage::DbV;
use crate::storage::clone_string_vec;
use crate::storage::insert_rows;
use crate::storage::spec_insert_rows;
use crate::strutil::find_char;
use crate::strutil::str_eq;
use crate::strutil::views_of;
use crate::strutil::views2_of;
use crate::types::CondV;
use crate::types::Condition;
use crate::types::DbResponse;
use crate::types::RespV;
use crate::types::Schema;
use crate::types::SchemaV;
use crate::types::groups_view;
use crate::types::spec_defs_cols;
use crate::types::schema_columns;

verus! {

/// The qualified name `table.column`.
pub open spec fn spec_qualified(tname: Seq<char>, col: Seq<char>) -> Seq<char> {
    tname + seq!['.'] + col
}

/// The field map of one row: the first `k` columns zipped with the row's
/// values under qualified names; a shorter side truncates the zip.
pub open spec fn spec_row_map_upto(
    tname: Seq<char>,
    cols: Seq<Seq<char>>,
    row: Seq<Seq<char>>,
    k: int,
) -> Map<Seq<char>, Seq<char>>
    decreases k,
{
    if k <= 0 {
        Map::empty()
    } else {
        spec_row_map_upto(tname, cols, row, k - 1).insert(
            spec_qualified(tname, cols[k - 1]),
            row[k - 1],
        )
    }
}

/// The field map of one row against a header.
pub open spec fn spec_row_map(
    tname: Seq<char>,
    cols: Seq<Seq<char>>,
    row: Seq<Seq<char>>,
) -> Map<Seq<char>, Seq<char>> {
    spec_row_map_upto(
        tname,
        cols,
        row,
        if cols.len() <= row.len() {
            cols.len() as int
        } else {
            row.len() as int
        },
    )
}

/// One condition holds when the field is present and equal.
pub open spec fn spec_cond_holds(c: CondV, m: Map<Seq<char>, Seq<char>>) -> bool {
    m.contains_key(c.field) && m[c.field] == c.value
}

/// An AND-group holds when each of its conditions holds; a row missing a
/// field fails the group.
pub open spec fn spec_group_holds(g: Seq<CondV>, m: Map<Seq<char>, Seq<char>>) -> bool {
    forall|j: int| 0 <= j < g.len() ==> spec_cond_holds(#[trigger] g[j], m)
}

/// A disjunction of conjunctions holds when some OR-group holds.
pub open spec fn spec_matches(groups: Seq<Seq<CondV>>, m: Map<Seq<char>, Seq<char>>) -> bool {
    exists|i: int| 0 <= i < groups.len() && spec_group_holds(#[trigger] groups[i], m)
}

/// Whether a field map satisfies the parsed WHERE clause: OR across the
/// outer groups, AND within each.
pub fn execute_conditions(conditions: &Vec<Vec<Condition>>, data: &MyHashMap<String>) -> (r: bool)
    requires
        data.wf(),
    ensures
        r == spec_matches(groups_view(conditions@), data@),
{
    let ng = conditions.len();
    let mut i: usize = 0;
    while i < ng
        invariant
            data.wf(),
            ng == conditions@.len(),
            i <= ng,
            forall|p: int|
                0 <= p < i ==> !spec_group_holds(#[trigger] groups_view(conditions@)[p], data@),
        decreases ng - i,
    {
        let group = &conditions[i];
        let nc = group.len();
        let mut ok = true;
        let mut j: usize = 0;
        while j < nc
            invariant
                data.wf(),
                nc == group@.len(),
                group@ == conditions@[i as int]@,
                0 <= i < conditions@.len(),
                j <= nc,
                ok ==> forall|q: int|
                    0 <= q < j ==> spec_cond_holds(
                        #[trigger] groups_view(conditions@)[i as int][q],
                        data@,
                    ),
                !ok ==> !spec_group_holds(groups_view(conditions@)[i as int], data@),
            decreases nc - j,
        {
            if ok {
                let cond = &group[j];
                proof {
                    assert(groups_view(conditions@)[i as int][j as int] == group@[j as int]@);
                }
                match data.get(&cond.field) {
                    Some(v) => {
                        if !str_eq(v.as_str(), cond.value.as_str()) {
                            ok = false;
                        }
                    },
                    None => {
                        ok = false;
                    },
                }
            }
            j = j + 1;
        }
        if ok {
            proof {
                assert(spec_group_holds(groups_view(conditions@)[i as int], data@));
            }
            return true;
        }
        i = i + 1;
    }
    false
}

/// The field map of one row, built by inserting each qualified column in
/// order.
pub fn build_row_map(tname: &str, cols: &Vec<String>, row: &Vec<String>) -> (m: MyHashMap<String>)
    ensures
        m@ == spec_row_map(tname@, views_of(cols@), views_of(row@)),
        m.wf(),
{
    let mut m: MyHashMap<String> = MyHashMap::new();
    let n = if cols.len() <= row.len() {
        cols.len()
    } else {
        row.len()
    };
    let mut k: usize = 0;
    while k < n
        invariant
            n <= cols@.len(),
            n <= row@.len(),
            k <= n,
            m@ == spec_row_map_upto(tname@, views_of(cols@), views_of(row@), k as int),
            m.wf(),
        decreases n - k,
    {
        let mut key = String::from_str(tname);
        key.append(".");
        key.append(cols[k].as_str());
        proof {
            reveal_strlit(".");
            assert("."@ =~= seq!['.']);
            assert(key@ == spec_qualified(tname@, views_of(cols@)[k as int]));
        }
        let value = row[k].clone();
        m.insert(key, value);
        k = k + 1;
    }
    m
}

/// The field maps of one page's rows.
pub open spec fn spec_page_maps(tname: Seq<char>, p: PageV) -> Seq<Map<Seq<char>, Seq<char>>> {
    p.rows.map_values(|r: Seq<Seq<char>>| spec_row_map(tname, p.header, r))
}

/// The field maps of the first `k` pages, in page order.
pub open spec fn spec_table_maps_upto(tname: Seq<char>, pages: Seq<PageV>, k: int) -> Seq<
    Map<Seq<char>, Seq<char>>,
>
    decreases k,
{
    if k <= 0 {
        Seq::empty()
    } else {
        spec_table_maps_upto(tname, pages, k - 1) + spec_page_maps(tname, pages[k - 1])
    }
}

/// The field maps of a whole table, page by page, each page's rows zipped
/// with that page's own header.
pub open spec fn spec_table_maps(tname: Seq<char>, pages: Seq<PageV>) -> Seq<
    Map<Seq<char>, Seq<char>>,
> {
    spec_table_maps_upto(tname, pages, pages.len() as int)
}

/// The views of a sequence of field maps.
pub open spec fn maps_of(v: Seq<MyHashMap<String>>) -> Seq<Map<Seq<char>, Seq<char>>> {
    v.map_values(|m: MyHashMap<String>| m@)
}

/// Read every row of every page into a field map, in page order.
pub fn read_all_table_data(t: &Table, tname: &str) -> (r: Vec<MyHashMap<String>>)
    ensures
        maps_of(r@) == spec_table_maps(tname@, t@.pages),
        forall|i: int| 0 <= i < r@.len() ==> (#[trigger] r@[i]).wf(),
{
    let mut r: Vec<MyHashMap<String>> = Vec::new();
    let np = t.pages.len();
    let mut i: usize = 0;
    while i < np
        invariant
            np == t.pages@.len(),
            i <= np,
            maps_of(r@) == spec_table_maps_upto(tname@, t@.pages, i as int),
            forall|q: int| 0 <= q < r@.len() ==> (#[trigger] r@[q]).wf(),
        decreases np - i,
    {
        let page = &t.pages[i];
        let nr = page.rows.len();
        let mut j: usize = 0;
        while j < nr
            invariant
                np == t.pages@.len(),
                0 <= i < np,
                page == &t.pages[i as int],
                nr == page.rows@.len(),
                j <= nr,
                maps_of(r@) =~= spec_table_maps_upto(tname@, t@.pages, i as int) + spec_page_maps(
                    tname@,
                    t@.pages[i as int],
                ).take(j as int),
                forall|q: int| 0 <= q < r@.len() ==> (#[trigger] r@[q]).wf(),
            decreases nr - j,
        {
            let ghost prev = maps_of(r@);
            let m = build_row_map(tname, &page.header, &page.rows[j]);
            r.push(m);
            proof {
                let aa = spec_table_maps_upto(tname@, t@.pages, i as int);
                let bb = spec_page_maps(tname@, t@.pages[i as int]);
                assert(t@.pages[i as int] == page@);
                assert(bb.len() == nr);
                assert(bb[j as int] == spec_row_map(
                    tname@,
                    page@.header,
                    views2_of(page.rows@)[j as int],
                ));
                assert(views2_of(page.rows@)[j as int] == views_of(page.rows@[j as int]@));
                assert(m@ == bb[j as int]);
                assert(maps_of(r@) =~= prev.push(m@));
                assert(prev.push(m@) =~= aa + bb.take(j + 1));
                assert(maps_of(r@) =~= aa + bb.take(j + 1));
            }
            j = j + 1;
        }
        proof {
            assert(spec_page_maps(tname@, t@.pages[i as int]).take(
                spec_page_maps(tname@, t@.pages[i as int]).len() as int,
            ) =~= spec_page_maps(tname@, t@.pages[i as int]));
            assert(maps_of(r@) =~= spec_table_maps_upto(tname@, t@.pages, i + 1));
        }
        i = i + 1;
    }
    r
}

/// The first `k` rows of `a` joined with every row of `b`: each pair merged
/// with the right side winning shared keys, though qualified keys never
/// collide across distinct tables.
pub open spec fn spec_product_upto(
    a: Seq<Map<Seq<char>, Seq<char>>>,
    b: Seq<Map<Seq<char>, Seq<char>>>,
    k: int,
) -> Seq<Map<Seq<char>, Seq<char>>>
    decreases k,
{
    if k <= 0 {
        Seq::empty()
    } else {
        spec_product_upto(a, b, k - 1) + b.map_values(
            |rb: Map<Seq<char>, Seq<char>>| a[k - 1].union_prefer_right(rb),
        )
    }
}

/// The cartesian product of two row sets, left-major.
pub open spec fn spec_product(
    a: Seq<Map<Seq<char>, Seq<char>>>,
    b: Seq<Map<Seq<char>, Seq<char>>>,
) -> Seq<Map<Seq<char>, Seq<char>>> {
    spec_product_upto(a, b, a.len() as int)
}

/// The cartesian product of two tables' rows: every pair of rows, merged.
pub fn cartesian_product(
    table1: &Vec<MyHashMap<String>>,
    table2: &Vec<MyHashMap<String>>,
) -> (r: Vec<MyHashMap<String>>)
    requires
        forall|i: int| 0 <= i < table1@.len() ==> (#[trigger] table1@[i]).wf(),
    ensures
        maps_of(r@) == spec_product(maps_of(table1@), maps_of(table2@)),
        forall|i: int| 0 <= i < r@.len() ==> (#[trigger] r@[i]).wf(),
{
    let mut r: Vec<MyHashMap<String>> = Vec::new();
    let n1 = table1.len();
    let mut i: usize = 0;
    while i < n1
        invariant
            n1 == table1@.len(),
            i <= n1,
            forall|q: int| 0 <= q < table1@.len() ==> (#[trigger] table1@[q]).wf(),
            maps_of(r@) == spec_product_upto(maps_of(table1@), maps_of(table2@), i as int),
            forall|q: int| 0 <= q < r@.len() ==> (#[trigger] r@[q]).wf(),
        decreases n1 - i,
    {
        let n2 = table2.len();
        let mut j: usize = 0;
        while j < n2
            invariant
                n1 == table1@.len(),
                0 <= i < n1,
                n2 == table2@.len(),
                j <= n2,
                forall|q: int| 0 <= q < table1@.len() ==> (#[trigger] table1@[q]).wf(),
                maps_of(r@) =~= spec_product_upto(maps_of(table1@), maps_of(table2@), i as int)
                    + maps_of(table2@).take(j as int).map_values(
                    |rb: Map<Seq<char>, Seq<char>>|
                        maps_of(table1@)[i as int].union_prefer_right(rb),
                ),
                forall|q: int| 0 <= q < r@.len() ==> (#[trigger] r@[q]).wf(),
            decreases n2 - j,
        {
            let ghost prev = maps_of(r@);
            let mut combined = table1[i].clone();
            combined.extend(table2[j].clone());
            let ghost cv = combined@;
            r.push(combined);
            proof {
                let f = |rb: Map<Seq<char>, Seq<char>>|
                    maps_of(table1@)[i as int].union_prefer_right(rb);
                assert(cv == f(maps_of(table2@)[j as int]));
                assert(maps_of(r@) =~= prev.push(cv));
                assert(maps_of(table2@).take(j + 1).map_values(f) =~= maps_of(table2@).take(
                    j as int,
                ).map_values(f).push(f(maps_of(table2@)[j as int])));
                assert(maps_of(r@) =~= spec_product_upto(maps_of(table1@), maps_of(table2@), i as int)
                    + maps_of(table2@).take(j + 1).map_values(f));
            }
            j = j + 1;
        }
        proof {
            assert(maps_of(table2@).take(maps_of(table2@).len() as int) =~= maps_of(table2@));
            assert(maps_of(r@) =~= spec_product_upto(maps_of(table1@), maps_of(table2@), i + 1));
        }
        i = i + 1;
    }
    r
}

/// The outcome of INSERT: unknown table, missing state, a locked table and
/// counter exhaustion fail fast; otherwise the batch goes in, row by row,
/// in declared order.
pub open spec fn spec_execute_insert(
    table: Seq<char>,
    rows: Seq<Seq<Seq<char>>>,
    schema: SchemaV,
    db: DbV,
) -> (RespV, DbV) {
    match spec_defs_cols(schema.structure, table) {
        None => (RespV::Error("No such table in DB"@), db),
        Some(cols) => if !db.contains_key(table) {
            (RespV::Error("Table is not initialized"@), db)
        } else if db[table].locked {
            (RespV::Error("Table is currently locked"@), db)
        } else if db[table].pk_counter + rows.len() > u64::MAX {
            (RespV::Error("Primary key sequence exhausted"@), db)
        } else {
            (
                RespV::Success(None),
                db.insert(
                    table,
                    spec_insert_rows(db[table], cols, schema.tuples_limit, rows),
                ),
            )
        },
    }
}

/// Insert a batch of rows into a table: each row is appended to the first
/// page with room under a fresh primary key. The batch is not atomic in the
/// original; here the failure cases are all checked up front.
pub fn execute_insert(
    table: &str,
    rows: &Vec<Vec<String>>,
    schema: &Schema,
    db: &mut Database,
) -> (r: DbResponse)
    requires
        old(db).wf(),
        schema.wf(),
    ensures
        final(db).wf(),
        r@ == spec_execute_insert(table@, views2_of(rows@), schema@, old(db)@).0,
        final(db)@ == spec_execute_insert(table@, views2_of(rows@), schema@, old(db)@).1,
{
    match schema_columns(schema, table) {
        None => DbResponse::Error(String::from_str("No such table in DB")),
        Some(cols) => {
            let key = String::from_str(table);
            match db.tables.get_mut(&key) {
                None => DbResponse::Error(String::from_str("Table is not initialized")),
                Some(t) => {
                    if t.locked {
                        proof {
                            assert(old(db)@.insert(table@, old(db)@[table@]) =~= old(db)@);
                        }
                        DbResponse::Error(String::from_str("Table is currently locked"))
                    } else if t.pk_counter > u64::MAX - (rows.len() as u64) {
                        proof {
                            assert(old(db)@.insert(table@, old(db)@[table@]) =~= old(db)@);
                        }
                        DbResponse::Error(String::from_str("Primary key sequence exhausted"))
                    } else {
                        insert_rows(t, cols, schema.tuples_limit, rows);
                        DbResponse::Success(None)
                    }
                },
            }
        },
    }
}

/// Whether a stored row survives DELETE: it stays when the WHERE clause
/// does not match its field map.
pub open spec fn spec_row_kept(
    table: Seq<char>,
    cols: Seq<Seq<char>>,
    groups: Seq<Seq<CondV>>,
    r: Seq<Seq<char>>,
) -> bool {
    !spec_matches(groups, spec_row_map(table, cols, r))
}

/// One page after DELETE: the header rewritten from the schema columns, the
/// surviving rows kept in their original relative order.
pub open spec fn spec_delete_page(
    p: PageV,
    table: Seq<char>,
    cols: Seq<Seq<char>>,
    groups: Seq<Seq<CondV>>,
) -> PageV {
    PageV {
        header: cols,
        rows: p.rows.filter(|r: Seq<Seq<char>>| spec_row_kept(table, cols, groups, r)),
    }
}

/// A table after DELETE: every page rewritten, counter and lock untouched.
pub open spec fn spec_delete_table(
    t: TableV,
    table: Seq<char>,
    cols: Seq<Seq<char>>,
    groups: Seq<Seq<CondV>>,
) -> TableV {
    TableV {
        pages: t.pages.map_values(|p: PageV| spec_delete_page(p, table, cols, groups)),
        pk_counter: t.pk_counter,
        locked: t.locked,
    }
}

/// The outcome of DELETE: unknown table, missing state and a locked table
/// fail fast; otherwise every page keeps exactly its non-matching rows.
pub open spec fn spec_execute_delete(
    table: Seq<char>,
    groups: Seq<Seq<CondV>>,
    schema: SchemaV,
    db: DbV,
) -> (RespV, DbV) {
    match spec_defs_cols(schema.structure, table) {
        None => (RespV::Error("No such table in DB"@), db),
        Some(cols) => if !db.contains_key(table) {
            (RespV::Error("Table is not initialized"@), db)
        } else if db[table].locked {
            (RespV::Error("Table is currently locked"@), db)
        } else {
            (
                RespV::Success(None),
                db.insert(table, spec_delete_table(db[table], table, cols, groups)),
            )
        },
    }
}

/// Delete from a table every row matching the WHERE clause: page by page,
/// each page is read, its surviving rows are rewritten under the schema
/// header, and their relative order is preserved.
pub fn execute_delete(
    table: &str,
    groups: &Vec<Vec<Condition>>,
    schema: &Schema,
    db: &mut Database,
) -> (r: DbResponse)
    requires
        old(db).wf(),
    ensures
        final(db).wf(),
        r@ == spec_execute_delete(table@, groups_view(groups@), schema@, old(db)@).0,
        final(db)@ == spec_execute_delete(table@, groups_view(groups@), schema@, old(db)@).1,
{
    match schema_columns(schema, table) {
        None => DbResponse::Error(String::from_str("No such table in DB")),
        Some(cols) => {
            let key = String::from_str(table);
            match db.tables.get_mut(&key) {
                None => DbResponse::Error(String::from_str("Table is not initialized")),
                Some(t) => {
                    if t.locked {
                        proof {
                            assert(old(db)@.insert(table@, old(db)@[table@]) =~= old(db)@);
                        }
                        DbResponse::Error(String::from_str("Table is currently locked"))
                    } else {
                        let ghost t0 = t@;
                        let ghost tablev = table@;
                        let ghost colsv = views_of(cols@);
                        let ghost groupsv = groups_view(groups@);
                        let np = t.pages.len();
                        let mut i: usize = 0;
                        while i < np
                            invariant
                                np == t@.pages.len(),
                                np == t0.pages.len(),
                                i <= np,
                                tablev == table@,
                                colsv == views_of(cols@),
                                groupsv == groups_view(groups@),
                                t@.pk_counter == t0.pk_counter,
                                t@.locked == t0.locked,
                                forall|p: int| i <= p < np ==> t@.pages[p] == t0.pages[p],
                                forall|p: int|
                                    0 <= p < i ==> t@.pages[p] == spec_delete_page(
                                        #[trigger] t0.pages[p],
                                        tablev,
                                        colsv,
                                        groupsv,
                                    ),
                            decreases np - i,
                        {
                            let ghost pg = t@.pages[i as int];
                            let nr = t.pages[i].rows.len();
                            let mut kept: Vec<Vec<String>> = Vec::new();
                            let mut j: usize = 0;
                            while j < nr
                                invariant
                                    np == t@.pages.len(),
                                    0 <= i < np,
                                    pg == t@.pages[i as int],
                                    nr == pg.rows.len(),
                                    j <= nr,
                                    tablev == table@,
                                    colsv == views_of(cols@),
                                    groupsv == groups_view(groups@),
                                    views2_of(kept@) == spec_delete_page(
                                        PageV { header: pg.header, rows: pg.rows.take(j as int) },
                                        tablev,
                                        colsv,
                                        groupsv,
                                    ).rows,
                                decreases nr - j,
                            {
                                let rowref = &t.pages[i].rows[j];
                                let m = build_row_map(table, cols, rowref);
                                let keep = !execute_conditions(groups, &m);
                                proof {
                                    assert(views_of(rowref@) == pg.rows[j as int]);
                                    assert(m@ == spec_row_map(tablev, colsv, pg.rows[j as int]));
                                    assert(keep == !spec_matches(groupsv, m@));
                                    assert(keep == spec_row_kept(
                                        tablev,
                                        colsv,
                                        groupsv,
                                        pg.rows[j as int],
                                    ));
                                }
                                if keep {
                                    kept.push(clone_string_vec(rowref));
                                }
                                proof {
                                    reveal(Seq::filter);
                                    assert(pg.rows.take(j + 1).drop_last() =~= pg.rows.take(
                                        j as int,
                                    ));
                                    assert(pg.rows.take(j + 1).last() == pg.rows[j as int]);
                                    if keep {
                                        assert(views2_of(kept@) =~= spec_delete_page(
                                            PageV { header: pg.header, rows: pg.rows.take(j as int) },
                                            tablev,
                                            colsv,
                                            groupsv,
                                        ).rows.push(pg.rows[j as int]));
                                    }
                                    assert(views2_of(kept@) == spec_delete_page(
                                        PageV { header: pg.header, rows: pg.rows.take(j + 1) },
                                        tablev,
                                        colsv,
                                        groupsv,
                                    ).rows);
                                }
                                j = j + 1;
                            }
                            let new_header = clone_string_vec(cols);
                            t.pages[i] = Page { header: new_header, rows: kept };
                            proof {
                                assert(pg.rows.take(nr as int) =~= pg.rows);
                                assert(t@.pages[i as int] =~~= spec_delete_page(
                                    t0.pages[i as int],
                                    tablev,
                                    colsv,
                                    groupsv,
                                ));
                            }
                            i = i + 1;
                        }
                        proof {
                            assert(t@ =~~= spec_delete_table(t0, tablev, colsv, groupsv));
                        }
                        DbResponse::Success(None)
                    }
                },
            }
        },
    }
}

/// Table names with later repetitions dropped, first occurrences kept in
/// order, over the first `k` names.
pub open spec fn spec_dedup_upto(ts: Seq<Seq<char>>, k: int) -> Seq<Seq<char>>
    decreases k,
{
    if k <= 0 {
        Seq::empty()
    } else {
        let a = spec_dedup_upto(ts, k - 1);
        if a.contains(ts[k - 1]) {
            a
        } else {
            a.push(ts[k - 1])
        }
    }
}

/// Table names with repetitions dropped, first occurrences kept in order.
pub open spec fn spec_dedup(ts: Seq<Seq<char>>) -> Seq<Seq<char>> {
    spec_dedup_upto(ts, ts.len() as int)
}

/// What one projected column contributes to table `t`: its column part
/// where it is qualified with `t`, nothing otherwise. An unqualified column
/// is dropped silently.
pub open spec fn spec_col_head(t: Seq<char>, col: Seq<char>) -> Seq<Seq<char>> {
    match crate::strutil::spec_find_char(col, '.') {
        Some(d) => if col.take(d) == t {
            seq![col.skip(d + 1)]
        } else {
            Seq::empty()
        },
        None => Seq::empty(),
    }
}

/// The columns projected for table `t`, among the first `k` declared.
pub open spec fn spec_cols_of_upto(t: Seq<char>, columns: Seq<Seq<char>>, k: int) -> Seq<Seq<char>>
    decreases k,
{
    if k <= 0 {
        Seq::empty()
    } else {
        spec_cols_of_upto(t, columns, k - 1) + spec_col_head(t, columns[k - 1])
    }
}

/// The columns projected for table `t`, in declared order.
pub open spec fn spec_cols_of(t: Seq<char>, columns: Seq<Seq<char>>) -> Seq<Seq<char>> {
    spec_cols_of_upto(t, columns, columns.len() as int)
}

/// The projection pairs of the first `k` deduplicated tables.
pub open spec fn spec_pairs_upto(ded: Seq<Seq<char>>, columns: Seq<Seq<char>>, k: int) -> Seq<
    (Seq<char>, Seq<char>),
>
    decreases k,
{
    if k <= 0 {
        Seq::empty()
    } else {
        spec_pairs_upto(ded, columns, k - 1) + spec_cols_of(ded[k - 1], columns).map_values(
            |c: Seq<char>| (ded[k - 1], c),
        )
    }
}

/// The full projection list: tables in FROM order without repetition, and
/// for each its declared columns in declared order.
pub open spec fn spec_proj_pairs(tables: Seq<Seq<char>>, columns: Seq<Seq<char>>) -> Seq<
    (Seq<char>, Seq<char>),
> {
    spec_pairs_upto(spec_dedup(tables), columns, spec_dedup(tables).len() as int)
}

/// One output row: for the first `k` projection pairs, the value of each
/// qualified column present in the combined row.
pub open spec fn spec_project_upto(
    pairs: Seq<(Seq<char>, Seq<char>)>,
    m: Map<Seq<char>, Seq<char>>,
    k: int,
) -> Seq<Seq<char>>
    decreases k,
{
    if k <= 0 {
        Seq::empty()
    } else {
        spec_project_upto(pairs, m, k - 1) + (if m.contains_key(
            spec_qualified(pairs[k - 1].0, pairs[k - 1].1),
        ) {
            seq![m[spec_qualified(pairs[k - 1].0, pairs[k - 1].1)]]
        } else {
            Seq::empty()
        })
    }
}

/// One output row, fully projected.
pub open spec fn spec_project_row(
    pairs: Seq<(Seq<char>, Seq<char>)>,
    m: Map<Seq<char>, Seq<char>>,
) -> Seq<Seq<char>> {
    spec_project_upto(pairs, m, pairs.len() as int)
}

/// The first `k` row sets joined left to right by cartesian product.
pub open spec fn spec_join_upto(ds: Seq<Seq<Map<Seq<char>, Seq<char>>>>, k: int) -> Seq<
    Map<Seq<char>, Seq<char>>,
>
    decreases k,
{
    if k <= 0 {
        Seq::empty()
    } else if k == 1 {
        ds[0]
    } else {
        spec_product(spec_join_upto(ds, k - 1), ds[k - 1])
    }
}

/// All row sets joined left to right.
pub open spec fn spec_join_all(ds: Seq<Seq<Map<Seq<char>, Seq<char>>>>) -> Seq<
    Map<Seq<char>, Seq<char>>,
> {
    spec_join_upto(ds, ds.len() as int)
}

/// Every FROM table is declared in the schema.
pub open spec fn spec_tables_ok(tables: Seq<Seq<char>>, schema: SchemaV) -> bool {
    forall|i: int|
        0 <= i < tables.len() ==> spec_defs_cols(schema.structure, #[trigger] tables[i]) is Some
}

/// Every FROM table exists in the database state and is unlocked.
pub open spec fn spec_tables_ready(tables: Seq<Seq<char>>, db: DbV) -> bool {
    forall|i: int|
        0 <= i < tables.len() ==> db.contains_key(#[trigger] tables[i]) && !db[tables[i]].locked
}

/// The full row sets of the FROM tables, in order.
pub open spec fn spec_datasets(tables: Seq<Seq<char>>, db: DbV) -> Seq<
    Seq<Map<Seq<char>, Seq<char>>>,
> {
    tables.map_values(|t: Seq<char>| spec_table_maps(t, db[t].pages))
}

/// The joined rows, restricted by the WHERE clause where one is present.
pub open spec fn spec_filtered(
    joined: Seq<Map<Seq<char>, Seq<char>>>,
    groups: Option<Seq<Seq<CondV>>>,
) -> Seq<Map<Seq<char>, Seq<char>>> {
    match groups {
        None => joined,
        Some(gs) => joined.filter(|m: Map<Seq<char>, Seq<char>>| spec_matches(gs, m)),
    }
}

/// The SELECT result matrix: join, filter, project.
pub open spec fn spec_select_matrix(
    tables: Seq<Seq<char>>,
    columns: Seq<Seq<char>>,
    groups: Option<Seq<Seq<CondV>>>,
    db: DbV,
) -> Seq<Seq<Seq<char>>> {
    spec_filtered(spec_join_all(spec_datasets(tables, db)), groups).map_values(
        |m: Map<Seq<char>, Seq<char>>| spec_project_row(spec_proj_pairs(tables, columns), m),
    )
}

/// The outcome of SELECT: an unknown table fails first, then a missing or
/// locked table; otherwise the matrix of projected surviving rows. An empty
/// FROM list, which the parser never produces, yields an empty matrix.
pub open spec fn spec_execute_select(
    tables: Seq<Seq<char>>,
    columns: Seq<Seq<char>>,
    groups: Option<Seq<Seq<CondV>>>,
    schema: SchemaV,
    db: DbV,
) -> RespV {
    if !spec_tables_ok(tables, schema) {
        RespV::Error("No such table in DB"@)
    } else if !spec_tables_ready(tables, db) {
        RespV::Error("One or more tables are currently locked"@)
    } else if tables.len() == 0 {
        RespV::Success(Some(Seq::empty()))
    } else {
        RespV::Success(Some(spec_select_matrix(tables, columns, groups, db)))
    }
}

/// Whether some string of the vector reads as `s`.
fn vec_contains_str(v: &Vec<String>, s: &str) -> (r: bool)
    ensures
        r == views_of(v@).contains(s@),
{
    let n = v.len();
    let mut i: usize = 0;
    while i < n
        invariant
            n == v@.len(),
            i <= n,
            forall|j: int| 0 <= j < i ==> views_of(v@)[j] != s@,
        decreases n - i,
    {
        if str_eq(v[i].as_str(), s) {
            proof {
                assert(views_of(v@)[i as int] == s@);
            }
            return true;
        }
        i = i + 1;
    }
    proof {
        assert(forall|j: int| 0 <= j < v@.len() ==> views_of(v@)[j] != s@);
    }
    false
}

/// The views of a sequence of string pairs.
pub open spec fn pair_views(v: Seq<(String, String)>) -> Seq<(Seq<char>, Seq<char>)> {
    v.map_values(|p: (String, String)| (p.0@, p.1@))
}

/// Run SELECT: read every FROM table in full, join them left to right,
/// keep the rows the WHERE clause accepts, and emit the projected columns
/// in their declared table-then-column order.
pub fn execute_select(
    tables: &Vec<String>,
    columns: &Vec<String>,
    groups: &Option<Vec<Vec<Condition>>>,
    schema: &Schema,
    db: &Database,
) -> (r: DbResponse)
    requires
        db.wf(),
    ensures
        r@ == spec_execute_select(
            views_of(tables@),
            views_of(columns@),
            crate::types::opt_groups_view(*groups),
            schema@,
            db@,
        ),
{
    let ghost tv = views_of(tables@);
    let ghost colv = views_of(columns@);
    let nt = tables.len();

    // Every FROM table must be declared in the schema.
    let mut i: usize = 0;
    while i < nt
        invariant
            nt == tables@.len(),
            i <= nt,
            tv == views_of(tables@),
            forall|j: int|
                0 <= j < i ==> spec_defs_cols(schema@.structure, #[trigger] tv[j]) is Some,
        decreases nt - i,
    {
        if schema_columns(schema, tables[i].as_str()).is_none() {
            proof {
                assert(tv[i as int] == tables@[i as int]@);
                assert(spec_defs_cols(schema@.structure, tv[i as int]) is None);
                assert(!spec_tables_ok(tv, schema@));
            }
            return DbResponse::Error(String::from_str("No such table in DB"));
        }
        i = i + 1;
    }

    // Every FROM table must exist in the state and be unlocked; read each
    // one in full.
    let mut datasets: Vec<Vec<MyHashMap<String>>> = Vec::new();
    let mut i: usize = 0;
    while i < nt
        invariant
            nt == tables@.len(),
            i <= nt,
            tv == views_of(tables@),
            db.wf(),
            spec_tables_ok(tv, schema@),
            forall|j: int|
                0 <= j < i ==> db@.contains_key(#[trigger] tv[j]) && !db@[tv[j]].locked,
            datasets@.len() == i,
            forall|j: int|
                0 <= j < i ==> maps_of(#[trigger] datasets@[j]@) == spec_datasets(tv, db@)[j],
            forall|j: int, q: int|
                0 <= j < i && 0 <= q < datasets@[j]@.len() ==> (#[trigger] datasets@[j]@[q]).wf(),
        decreases nt - i,
    {
        match db.tables.get(&tables[i]) {
            None => {
                proof {
                    assert(tv[i as int] == tables@[i as int]@);
                    assert(!db@.contains_key(tv[i as int]));
                    assert(!spec_tables_ready(tv, db@));
                }
                return DbResponse::Error(
                    String::from_str("One or more tables are currently locked"),
                );
            },
            Some(t) => {
                if t.locked {
                    proof {
                        assert(tv[i as int] == tables@[i as int]@);
                        assert(db@[tv[i as int]].locked);
                        assert(!spec_tables_ready(tv, db@));
                    }
                    return DbResponse::Error(
                        String::from_str("One or more tables are currently locked"),
                    );
                }
                let data = read_all_table_data(t, tables[i].as_str());
                datasets.push(data);
                proof {
                    assert(tv[i as int] == tables@[i as int]@);
                    assert(t@ == db@[tv[i as int]]);
                    assert(spec_datasets(tv, db@)[i as int] == spec_table_maps(
                        tv[i as int],
                        db@[tv[i as int]].pages,
                    ));
                }
            },
        }
        i = i + 1;
    }
    proof {
        assert(spec_tables_ready(tv, db@));
    }

    if tables.len() == 0 {
        let empty_matrix: Vec<Vec<String>> = Vec::new();
        let r = DbResponse::Success(Some(empty_matrix));
        proof {
            assert(views2_of(Seq::<Vec<String>>::empty()) =~= Seq::<Seq<Seq<char>>>::empty());
        }
        return r;
    }

    // Join the row sets left to right.
    let ghost dsv = spec_datasets(tv, db@);
    let mut joined = datasets.remove(0);
    let ghost consumed: int = 1;
    while datasets.len() > 0
        invariant
            1 <= consumed <= nt,
            nt == tables@.len(),
            nt >= 1,
            dsv == spec_datasets(tv, db@),
            dsv.len() == nt,
            datasets@.len() == nt - consumed,
            forall|j: int|
                0 <= j < datasets@.len() ==> maps_of(#[trigger] datasets@[j]@) == dsv[consumed + j],
            forall|j: int, q: int|
                0 <= j < datasets@.len() && 0 <= q < datasets@[j]@.len() ==> (
                #[trigger] datasets@[j]@[q]).wf(),
            maps_of(joined@) == spec_join_upto(dsv, consumed),
            forall|q: int| 0 <= q < joined@.len() ==> (#[trigger] joined@[q]).wf(),
        decreases datasets@.len(),
    {
        let d = datasets.remove(0);
        let j2 = cartesian_product(&joined, &d);
        joined = j2;
        proof {
            assert(spec_join_upto(dsv, consumed + 1) == spec_product(
                spec_join_upto(dsv, consumed),
                dsv[consumed],
            ));
            consumed = consumed + 1;
        }
    }
    proof {
        assert(consumed == nt);
        assert(maps_of(joined@) == spec_join_all(dsv));
    }

    // Keep the rows the WHERE clause accepts.
    let ghost joinedv = maps_of(joined@);
    let ghost groupsv = crate::types::opt_groups_view(*groups);
    let filtered: Vec<MyHashMap<String>> = match groups {
        None => joined,
        Some(g) => {
            let mut kept: Vec<MyHashMap<String>> = Vec::new();
            let mut rest = joined;
            let ghost done: int = 0;
            while rest.len() > 0
                invariant
                    0 <= done <= joinedv.len(),
                    rest@.len() == joinedv.len() - done,
                    forall|j: int|
                        0 <= j < rest@.len() ==> (#[trigger] rest@[j])@ == joinedv[done + j],
                    forall|q: int| 0 <= q < rest@.len() ==> (#[trigger] rest@[q]).wf(),
                    groupsv == Some(groups_view(g@)),
                    maps_of(kept@) == spec_filtered(joinedv.take(done), groupsv),
                    forall|q: int| 0 <= q < kept@.len() ==> (#[trigger] kept@[q]).wf(),
                decreases rest@.len(),
            {
                let ghost pre_rest = rest@;
                let m = rest.remove(0);
                let keep = execute_conditions(g, &m);
                proof {
                    assert(pre_rest[0]@ == joinedv[done]);
                    assert(m@ == joinedv[done]);
                    reveal(Seq::filter);
                    assert(joinedv.take(done + 1).drop_last() =~= joinedv.take(done));
                    assert(joinedv.take(done + 1).last() == joinedv[done]);
                }
                if keep {
                    kept.push(m);
                }
                proof {
                    assert(maps_of(kept@) =~= spec_filtered(joinedv.take(done + 1), groupsv));
                    done = done + 1;
                    assert forall|j: int| 0 <= j < rest@.len() implies (#[trigger] rest@[j])@
                        == joinedv[done + j] by {
                        assert(rest@[j] == pre_rest[j + 1]);
                    }
                }
            }
            proof {
                assert(joinedv.take(joinedv.len() as int) =~= joinedv);
            }
            kept
        },
    };
    let ghost filteredv = spec_filtered(joinedv, groupsv);
    proof {
        assert(maps_of(filtered@) == filteredv);
    }

    // The projection list: tables deduplicated in FROM order, each with its
    // declared columns.
    let mut ded: Vec<String> = Vec::new();
    let mut i: usize = 0;
    while i < nt
        invariant
            nt == tables@.len(),
            i <= nt,
            tv == views_of(tables@),
            views_of(ded@) == spec_dedup_upto(tv, i as int),
        decreases nt - i,
    {
        if !vec_contains_str(&ded, tables[i].as_str()) {
            ded.push(tables[i].clone());
            proof {
                assert(views_of(ded@) =~= spec_dedup_upto(tv, i + 1));
            }
        }
        i = i + 1;
    }
    let nd = ded.len();
    let ghost dedv = spec_dedup(tv);
    let mut pairs: Vec<(String, String)> = Vec::new();
    let mut a: usize = 0;
    while a < nd
        invariant
            nd == ded@.len(),
            a <= nd,
            tv == views_of(tables@),
            colv == views_of(columns@),
            dedv == spec_dedup(tv),
            views_of(ded@) == dedv,
            pair_views(pairs@) == spec_pairs_upto(dedv, colv, a as int),
        decreases nd - a,
    {
        let nc = columns.len();
        let mut b: usize = 0;
        while b < nc
            invariant
                nd == ded@.len(),
                0 <= a < nd,
                nc == columns@.len(),
                b <= nc,
                tv == views_of(tables@),
                colv == views_of(columns@),
                dedv == spec_dedup(tv),
                views_of(ded@) == dedv,
                pair_views(pairs@) =~= spec_pairs_upto(dedv, colv, a as int) + spec_cols_of_upto(
                    dedv[a as int],
                    colv,
                    b as int,
                ).map_values(|c: Seq<char>| (dedv[a as int], c)),
            decreases nc - b,
        {
            let col = &columns[b];
            let ghost colsv_b = colv[b as int];
            match find_char(col.as_str(), '.') {
                Some(d) => {
                    let ncol = col.as_str().unicode_len();
                    let table_part = col.as_str().substring_char(0, d);
                    let col_part = col.as_str().substring_char(d + 1, ncol);
                    proof {
                        assert(colsv_b == col@);
                        assert(table_part@ =~= colsv_b.take(d as int));
                        assert(col_part@ =~= colsv_b.skip(d + 1));
                        assert(views_of(ded@)[a as int] == ded@[a as int]@);
                    }
                    if str_eq(table_part, ded[a].as_str()) {
                        let ghost pre_pairs = pairs@;
                        pairs.push((ded[a].clone(), String::from_str(col_part)));
                        proof {
                            assert(spec_col_head(dedv[a as int], colsv_b) =~= seq![
                                colsv_b.skip(d + 1),
                            ]);
                            assert(pairs@ == pre_pairs.push(
                                (pairs@[pairs@.len() - 1].0, pairs@[pairs@.len() - 1].1),
                            ));
                            assert(pair_views(pairs@) =~= pair_views(pre_pairs).push(
                                (dedv[a as int], colsv_b.skip(d + 1)),
                            ));
                        }
                    } else {
                        proof {
                            assert(spec_col_head(dedv[a as int], colsv_b) =~= Seq::<
                                Seq<char>,
                            >::empty());
                        }
                    }
                },
                None => {
                    proof {
                        assert(colsv_b == col@);
                        assert(spec_col_head(dedv[a as int], colsv_b) =~= Seq::<
                            Seq<char>,
                        >::empty());
                    }
                },
            }
            proof {
                let f = |c: Seq<char>| (dedv[a as int], c);
                assert(spec_cols_of_upto(dedv[a as int], colv, b + 1) == spec_cols_of_upto(
                    dedv[a as int],
                    colv,
                    b as int,
                ) + spec_col_head(dedv[a as int], colv[b as int]));
                let lhs = pair_views(pairs@);
                let rhs = spec_pairs_upto(dedv, colv, a as int) + spec_cols_of_upto(
                    dedv[a as int],
                    colv,
                    b + 1,
                ).map_values(f);
                assert(lhs.len() == rhs.len());
                assert forall|q: int| 0 <= q < rhs.len() implies lhs[q] == rhs[q] by {
                    let base = spec_pairs_upto(dedv, colv, a as int).len();
                    let cb = spec_cols_of_upto(dedv[a as int], colv, b as int);
                    if q >= base {
                        assert(rhs[q] == f(spec_cols_of_upto(dedv[a as int], colv, b + 1)[q
                            - base]));
                        if q - base < cb.len() {
                            assert(spec_cols_of_upto(dedv[a as int], colv, b + 1)[q - base]
                                == cb[q - base]);
                        }
                    }
                }
                assert(lhs =~= rhs);
            }
            b = b + 1;
        }
        proof {
            assert(spec_cols_of_upto(dedv[a as int], colv, nc as int) == spec_cols_of(
                dedv[a as int],
                colv,
            ));
            assert(pair_views(pairs@) =~= spec_pairs_upto(dedv, colv, a + 1));
        }
        a = a + 1;
    }
    proof {
        assert(pair_views(pairs@) == spec_proj_pairs(tv, colv));
    }

    // Project each surviving row.
    let ghost pairsv = spec_proj_pairs(tv, colv);
    let npairs = pairs.len();
    let nf = filtered.len();
    let mut matrix: Vec<Vec<String>> = Vec::new();
    let mut k: usize = 0;
    while k < nf
        invariant
            nf == filtered@.len(),
            k <= nf,
            npairs == pairs@.len(),
            pairsv == pair_views(pairs@),
            maps_of(filtered@) == filteredv,
            forall|q: int| 0 <= q < filtered@.len() ==> (#[trigger] filtered@[q]).wf(),
            views2_of(matrix@).len() == k,
            forall|q: int|
                0 <= q < k ==> views2_of(matrix@)[q] == spec_project_row(pairsv, filteredv[q]),
        decreases nf - k,
    {
        let m = &filtered[k];
        let mut rowout: Vec<String> = Vec::new();
        let mut p: usize = 0;
        while p < npairs
            invariant
                nf == filtered@.len(),
                0 <= k < nf,
                npairs == pairs@.len(),
                pairsv == pair_views(pairs@),
                maps_of(filtered@) == filteredv,
                m == &filtered[k as int],
                m.wf(),
                p <= npairs,
                views_of(rowout@) == spec_project_upto(pairsv, filteredv[k as int], p as int),
                views2_of(matrix@).len() == k,
                forall|q: int|
                    0 <= q < k ==> views2_of(matrix@)[q] == spec_project_row(pairsv, filteredv[q]),
            decreases npairs - p,
        {
            let mut key = String::from_str(pairs[p].0.as_str());
            key.append(".");
            key.append(pairs[p].1.as_str());
            proof {
                reveal_strlit(".");
                assert("."@ =~= seq!['.']);
                assert(key@ == spec_qualified(pairsv[p as int].0, pairsv[p as int].1));
                assert(m@ == filteredv[k as int]);
            }
            match m.get(&key) {
                Some(v) => {
                    rowout.push(v.clone());
                    proof {
                        assert(views_of(rowout@) =~= spec_project_upto(
                            pairsv,
                            filteredv[k as int],
                            p + 1,
                        ));
                    }
                },
                None => {
                    proof {
                        assert(views_of(rowout@) =~= spec_project_upto(
                            pairsv,
                            filteredv[k as int],
                            p + 1,
                        ));
                    }
                },
            }
            p = p + 1;
        }
        let ghost pre_matrix = matrix@;
        matrix.push(rowout);
        proof {
            assert(views2_of(matrix@)[k as int] == views_of(rowout@));
            assert forall|q: int| 0 <= q < k + 1 implies views2_of(matrix@)[q]
                == spec_project_row(pairsv, filteredv[q]) by {
                if q < k {
                    assert(matrix@[q] == pre_matrix[q]);
                    assert(views2_of(pre_matrix)[q] == spec_project_row(pairsv, filteredv[q]));
                    assert(views2_of(matrix@)[q] == views2_of(pre_matrix)[q]);
                }
            }
        }
        k = k + 1;
    }
    let r = DbResponse::Success(Some(matrix));
    proof {
        assert(views2_of(matrix@) =~= spec_select_matrix(tv, colv, groupsv, db@));
    }
    r
}

/// Whether the text begins with the given keyword prefix.
pub open spec fn spec_has_prefix(s: Seq<char>, p: Seq<char>) -> bool {
    s.len() >= p.len() && s.take(p.len() as int) == p
}

/// One command executed from raw text: dispatch on the leading keyword,
/// parse, and run; a parse failure or an unrecognized keyword is an error
/// and leaves the state unchanged.
pub open spec fn spec_execute_query(q: Seq<char>, schema: SchemaV, db: DbV) -> (RespV, DbV) {
    if spec_has_prefix(q, "INSERT INTO"@) {
        match crate::parser::spec_parse_insert(q) {
            Err(e) => (RespV::Error(e), db),
            Ok(pr) => spec_execute_insert(pr.0, pr.1, schema, db),
        }
    } else if spec_has_prefix(q, "DELETE FROM"@) {
        match crate::parser::spec_parse_delete(q) {
            Err(e) => (RespV::Error(e), db),
            Ok(pr) => spec_execute_delete(pr.0, pr.1, schema, db),
        }
    } else if spec_has_prefix(q, "SELECT"@) {
        match crate::parser::spec_parse_select(q) {
            Err(e) => (RespV::Error(e), db),
            Ok(pr) => (spec_execute_select(pr.0, pr.1, pr.2, schema, db), db),
        }
    } else {
        (RespV::Error("Bad query"@), db)
    }
}

/// Parse and run one command against the database state.
pub fn execute_query(query: &str, schema: &Schema, db: &mut Database) -> (r: DbResponse)
    requires
        old(db).wf(),
        schema.wf(),
    ensures
        final(db).wf(),
        r@ == spec_execute_query(query@, schema@, old(db)@).0,
        final(db)@ == spec_execute_query(query@, schema@, old(db)@).1,
{
    if crate::strutil::str_starts_with(query, "INSERT INTO") {
        match crate::parser::parse_insert(query) {
            Err(e) => DbResponse::Error(e),
            Ok(cmd) => match cmd {
                crate::types::Command::Insert { table, rows } => execute_insert(
                    table.as_str(),
                    &rows,
                    schema,
                    db,
                ),
                _ => {
                    proof {
                        assert(false);
                    }
                    DbResponse::Error(String::new())
                },
            },
        }
    } else if crate::strutil::str_starts_with(query, "DELETE FROM") {
        match crate::parser::parse_delete(query) {
            Err(e) => DbResponse::Error(e),
            Ok(cmd) => match cmd {
                crate::types::Command::Delete { table, groups } => execute_delete(
                    table.as_str(),
                    &groups,
                    schema,
                    db,
                ),
                _ => {
                    proof {
                        assert(false);
                    }
                    DbResponse::Error(String::new())
                },
            },
        }
    } else if crate::strutil::str_starts_with(query, "SELECT") {
        match crate::parser::parse_select(query) {
            Err(e) => DbResponse::Error(e),
            Ok(cmd) => match cmd {
                crate::types::Command::Select { tables, columns, filter } => execute_select(
                    &tables,
                    &columns,
                    &filter,
                    schema,
                    db,
                ),
                _ => {
                    proof {
                        assert(false);
                    }
                    DbResponse::Error(String::new())
                },
            },
        }
    } else {
        DbResponse::Error(String::from_str("Bad query"))
    }
}

} // verus!
