//! The engine's laws, proved over the transition functions: idempotent
//! initialization, unique gap-free primary keys under any serial order of
//! inserts, the pagination shape, exact deletion, and the join size.
use vstd::prelude::*;
use vstd::seq_lib::group_filter_ensures;
use crate::exec::spec_delete_page;
use crate::exec::spec_delete_table;
use crate::exec::spec_execute_select;
use crate::exec::spec_filtered;
use crate::exec::spec_join_all;
use crate::exec::spec_matches;
use crate::exec::spec_product;
use crate::exec::spec_product_upto;
use crate::exec::spec_qualified;
use crate::exec::spec_table_maps;
use crate::storage::DbV;
use crate::storage::PageV;
use crate::storage::TableV;
use crate::storage::lemma_insert_row_packed;
use crate::storage::spec_fresh_table;
use crate::storage::spec_init_db;
use crate::storage::spec_init_one;
use crate::storage::spec_insert_row;
use crate::storage::spec_insert_rows;
use crate::storage::spec_packed;
use crate::storage::spec_rows_upto;
use crate::storage::spec_table_rows;
use crate::strutil::lemma_u64_str_injective;
use crate::strutil::spec_u64_str;
use crate::types::CondV;
use crate::types::SchemaV;
use crate::types::TableDefV;

verus! {

/// Initialization never alters a table that already exists: its pages,
/// rows, headers, counter and lock flag all stay as they were.
pub proof fn lemma_init_preserves_existing(db: DbV, defs: Seq<TableDefV>, t: Seq<char>)
    requires
        db.contains_key(t),
    ensures
        spec_init_db(db, defs).contains_key(t),
        spec_init_db(db, defs)[t] == db[t],
    decreases defs.len(),
{
    if defs.len() > 0 {
        lemma_init_preserves_existing(spec_init_one(db, defs[0]), defs.skip(1), t);
    }
}

/// Initialization creates exactly the schema's tables: afterwards each of
/// them exists.
pub proof fn lemma_init_creates(db: DbV, defs: Seq<TableDefV>, i: int)
    requires
        0 <= i < defs.len(),
    ensures
        spec_init_db(db, defs).contains_key(defs[i].table),
    decreases defs.len(),
{
    if i == 0 {
        lemma_init_preserves_existing(spec_init_one(db, defs[0]), defs.skip(1), defs[0].table);
    } else {
        lemma_init_creates(spec_init_one(db, defs[0]), defs.skip(1), i - 1);
        assert(defs.skip(1)[i - 1] == defs[i]);
    }
}

/// Where every schema table already exists, initialization changes nothing.
proof fn lemma_init_noop(db: DbV, defs: Seq<TableDefV>)
    requires
        forall|i: int| 0 <= i < defs.len() ==> db.contains_key((#[trigger] defs[i]).table),
    ensures
        spec_init_db(db, defs) == db,
    decreases defs.len(),
{
    if defs.len() > 0 {
        assert(spec_init_one(db, defs[0]) == db);
        assert forall|i: int| 0 <= i < defs.skip(1).len() implies db.contains_key(
            (#[trigger] defs.skip(1)[i]).table,
        ) by {
            assert(defs.skip(1)[i] == defs[i + 1]);
        }
        lemma_init_noop(db, defs.skip(1));
    }
}

/// Initializing twice is initializing once: the second pass never alters
/// already-committed rows or headers.
pub proof fn lemma_init_idempotent(db: DbV, defs: Seq<TableDefV>)
    ensures
        spec_init_db(spec_init_db(db, defs), defs) == spec_init_db(db, defs),
{
    let once = spec_init_db(db, defs);
    assert forall|i: int| 0 <= i < defs.len() implies once.contains_key(
        (#[trigger] defs[i]).table,
    ) by {
        lemma_init_creates(db, defs, i);
    }
    lemma_init_noop(once, defs);
}

/// The numbered rows a batch of inserts appends: row `i` carries the
/// numeral of `base + 1 + i` and then its fields.
pub open spec fn spec_numbered_rows(base: u64, rows: Seq<Seq<Seq<char>>>) -> Seq<Seq<Seq<char>>> {
    Seq::new(rows.len(), |i: int| seq![spec_u64_str(base + 1 + i)] + rows[i])
}

/// A batch of inserts into a packed table appends exactly its rows, in
/// order, each under the next counter value; the shape stays packed and
/// every page keeps its header, fresh pages taking the given one.
pub proof fn lemma_insert_rows_packed(
    t: TableV,
    cols: Seq<Seq<char>>,
    limit: u64,
    rows: Seq<Seq<Seq<char>>>,
)
    requires
        limit >= 1,
        spec_packed(t, limit),
        t.pk_counter + rows.len() <= u64::MAX,
    ensures
        ({
            let t2 = spec_insert_rows(t, cols, limit, rows);
            &&& spec_packed(t2, limit)
            &&& t2.pk_counter == t.pk_counter + rows.len()
            &&& t2.locked == t.locked
            &&& spec_table_rows(t2) == spec_table_rows(t) + spec_numbered_rows(t.pk_counter, rows)
            &&& t.pages.len() <= t2.pages.len()
            &&& forall|p: int|
                0 <= p < t2.pages.len() ==> (#[trigger] t2.pages[p].header) == if p
                    < t.pages.len() {
                    t.pages[p].header
                } else {
                    cols
                }
        }),
    decreases rows.len(),
{
    if rows.len() == 0 {
        assert(spec_table_rows(t) + spec_numbered_rows(t.pk_counter, rows) =~= spec_table_rows(t));
    } else {
        lemma_insert_row_packed(t, cols, limit, rows[0]);
        let t1 = spec_insert_row(t, cols, limit, rows[0]);
        lemma_insert_rows_packed(t1, cols, limit, rows.skip(1));
        let t2 = spec_insert_rows(t, cols, limit, rows);
        assert(spec_table_rows(t2) == spec_table_rows(t1) + spec_numbered_rows(
            t1.pk_counter,
            rows.skip(1),
        ));
        assert(spec_table_rows(t2) =~= spec_table_rows(t) + spec_numbered_rows(
            t.pk_counter,
            rows,
        ));
    }
}

/// N inserts into a fresh table commit rows numbered 1..N in order, and
/// leave the counter at N.
pub proof fn lemma_pk_sequence(cols: Seq<Seq<char>>, limit: u64, rows: Seq<Seq<Seq<char>>>)
    requires
        limit >= 1,
        rows.len() <= u64::MAX,
    ensures
        ({
            let t = spec_insert_rows(spec_fresh_table(cols), cols, limit, rows);
            &&& t.pk_counter == rows.len()
            &&& spec_table_rows(t).len() == rows.len()
            &&& forall|i: int|
                0 <= i < rows.len() ==> #[trigger] spec_table_rows(t)[i] == seq![
                    spec_u64_str(i + 1),
                ] + rows[i]
        }),
{
    let fresh = spec_fresh_table(cols);
    assert(spec_rows_upto(fresh.pages, 1) =~= Seq::<Seq<Seq<char>>>::empty()) by {
        reveal_with_fuel(spec_rows_upto, 3);
    }
    lemma_insert_rows_packed(fresh, cols, limit, rows);
    let t = spec_insert_rows(fresh, cols, limit, rows);
    assert(spec_table_rows(t) =~= spec_numbered_rows(0, rows));
}

/// The committed primary keys are pairwise distinct: row `i` and row `j`
/// never share a first field.
pub proof fn lemma_pk_uniqueness(cols: Seq<Seq<char>>, limit: u64, rows: Seq<Seq<Seq<char>>>)
    requires
        limit >= 1,
        rows.len() <= u64::MAX,
    ensures
        ({
            let t = spec_insert_rows(spec_fresh_table(cols), cols, limit, rows);
            forall|i: int, j: int|
                0 <= i < j < rows.len() ==> (#[trigger] spec_table_rows(t)[i])[0] != (
                #[trigger] spec_table_rows(t)[j])[0]
        }),
{
    lemma_pk_sequence(cols, limit, rows);
    let t = spec_insert_rows(spec_fresh_table(cols), cols, limit, rows);
    assert forall|i: int, j: int| 0 <= i < j < rows.len() implies (
    #[trigger] spec_table_rows(t)[i])[0] != (#[trigger] spec_table_rows(t)[j])[0] by {
        lemma_u64_str_injective(i + 1, j + 1);
        assert(spec_table_rows(t)[i][0] == spec_u64_str(i + 1));
        assert(spec_table_rows(t)[j][0] == spec_u64_str(j + 1));
    }
}

/// Two batches run one after the other are one batch of their rows in that
/// order.
pub proof fn lemma_insert_batches_concat(
    t: TableV,
    cols: Seq<Seq<char>>,
    limit: u64,
    b1: Seq<Seq<Seq<char>>>,
    b2: Seq<Seq<Seq<char>>>,
)
    ensures
        spec_insert_rows(spec_insert_rows(t, cols, limit, b1), cols, limit, b2)
            == spec_insert_rows(t, cols, limit, b1 + b2),
    decreases b1.len(),
{
    if b1.len() == 0 {
        assert(b1 + b2 =~= b2);
    } else {
        assert((b1 + b2)[0] == b1[0]);
        assert((b1 + b2).skip(1) =~= b1.skip(1) + b2);
        lemma_insert_batches_concat(spec_insert_row(t, cols, limit, b1[0]), cols, limit, b1.skip(1), b2);
    }
}

/// Concurrent inserts under the required mutual-exclusion primitive: each
/// critical section is atomic, so any schedule of two workers' batches runs
/// as some serial order of the committed rows — and every such order yields
/// unique, gap-free keys 1..N with the counter at N.
pub proof fn lemma_interleaved_insert_pks(
    cols: Seq<Seq<char>>,
    limit: u64,
    b1: Seq<Seq<Seq<char>>>,
    b2: Seq<Seq<Seq<char>>>,
)
    requires
        limit >= 1,
        b1.len() + b2.len() <= u64::MAX,
    ensures
        ({
            let t = spec_insert_rows(
                spec_insert_rows(spec_fresh_table(cols), cols, limit, b1),
                cols,
                limit,
                b2,
            );
            &&& t.pk_counter == b1.len() + b2.len()
            &&& spec_table_rows(t).len() == b1.len() + b2.len()
            &&& forall|i: int|
                0 <= i < spec_table_rows(t).len() ==> (#[trigger] spec_table_rows(t)[i])[0]
                    == spec_u64_str(i + 1)
            &&& forall|i: int, j: int|
                0 <= i < j < spec_table_rows(t).len() ==> (#[trigger] spec_table_rows(t)[i])[0]
                    != (#[trigger] spec_table_rows(t)[j])[0]
        }),
{
    lemma_insert_batches_concat(spec_fresh_table(cols), cols, limit, b1, b2);
    lemma_pk_sequence(cols, limit, b1 + b2);
    lemma_pk_uniqueness(cols, limit, b1 + b2);
    let t = spec_insert_rows(spec_fresh_table(cols), cols, limit, b1 + b2);
    assert forall|i: int| 0 <= i < spec_table_rows(t).len() implies (
    #[trigger] spec_table_rows(t)[i])[0] == spec_u64_str(i + 1) by {
        assert(spec_table_rows(t)[i] == seq![spec_u64_str(i + 1)] + (b1 + b2)[i]);
    }
}

/// Inserting N rows into a fresh table fills the pages front to back: all
/// pages share the header, every page but the last holds exactly
/// `tuples_limit` rows, the last holds the remainder, and the page count is
/// the ceiling of N over the limit.
pub proof fn lemma_pagination(cols: Seq<Seq<char>>, limit: u64, rows: Seq<Seq<Seq<char>>>)
    requires
        limit >= 1,
        rows.len() <= u64::MAX,
    ensures
        ({
            let t = spec_insert_rows(spec_fresh_table(cols), cols, limit, rows);
            let n = rows.len() as int;
            let m = t.pages.len() as int;
            &&& m == if n == 0 {
                1int
            } else {
                (n + limit - 1) / (limit as int)
            }
            &&& forall|p: int| 0 <= p < m ==> (#[trigger] t.pages[p].header) == cols
            &&& forall|p: int| 0 <= p < m - 1 ==> (#[trigger] t.pages[p].rows.len()) == limit
            &&& t.pages.last().rows.len() == n - (m - 1) * limit
        }),
{
    let fresh = spec_fresh_table(cols);
    assert(spec_rows_upto(fresh.pages, 1) =~= Seq::<Seq<Seq<char>>>::empty()) by {
        reveal_with_fuel(spec_rows_upto, 3);
    }
    lemma_page_count_rec(cols, limit, rows, rows.len() as int);
    lemma_insert_rows_packed(fresh, cols, limit, rows);
    assert(rows.take(rows.len() as int) =~= rows);
}

/// The page count and the last page's fill after the first `k` rows.
#[verifier::rlimit(50)]
proof fn lemma_page_count_rec(cols: Seq<Seq<char>>, limit: u64, rows: Seq<Seq<Seq<char>>>, k: int)
    requires
        limit >= 1,
        0 <= k <= rows.len(),
        rows.len() <= u64::MAX,
    ensures
        ({
            let t = spec_insert_rows(spec_fresh_table(cols), cols, limit, rows.take(k));
            let m = t.pages.len() as int;
            &&& spec_packed(t, limit)
            &&& t.pk_counter == k
            &&& m == if k == 0 {
                1int
            } else {
                (k + limit - 1) / (limit as int)
            }
            &&& t.pages.last().rows.len() == k - (m - 1) * limit
        }),
    decreases k,
{
    let fresh = spec_fresh_table(cols);
    let li = limit as int;
    if k == 0 {
        assert(rows.take(0) =~= Seq::<Seq<Seq<char>>>::empty());
        assert(spec_insert_rows(fresh, cols, limit, rows.take(0)) == fresh);
        assert(fresh.pages.len() == 1);
        assert(fresh.pages.last().rows.len() == 0);
        assert(0int == 0 - (1 - 1) * li) by (nonlinear_arith);
        assert(spec_packed(fresh, limit));
    } else {
        lemma_page_count_rec(cols, limit, rows, k - 1);
        let t1 = spec_insert_rows(fresh, cols, limit, rows.take(k - 1));
        assert(rows.take(k) =~= rows.take(k - 1).push(rows[k - 1]));
        crate::storage::lemma_insert_rows_push(fresh, cols, limit, rows.take(k - 1), rows[k - 1]);
        lemma_insert_row_packed(t1, cols, limit, rows[k - 1]);
        let m1 = t1.pages.len() as int;
        let last1 = t1.pages.last().rows.len() as int;
        assert(last1 == (k - 1) - (m1 - 1) * li);
        if last1 < li {
            if k == 1 {
                assert(m1 == 1);
                assert((1 + li - 1) / li == 1) by (nonlinear_arith)
                    requires
                        li >= 1,
                ;
            } else {
                assert((k - 1 + li - 1) / li == m1);
                assert(0 <= (k - 1) - (m1 - 1) * li < li);
                assert((m1 - 1) * li == m1 * li - li) by (nonlinear_arith);
                assert(k - 1 < m1 * li) by (nonlinear_arith)
                    requires
                        (k - 1) - (m1 - 1) * li < li,
                        (m1 - 1) * li == m1 * li - li,
                ;
                assert((k + li - 1) / li == m1) by (nonlinear_arith)
                    requires
                        li >= 1,
                        m1 >= 1,
                        (m1 - 1) * li <= k - 1,
                        k - 1 < m1 * li,
                        (m1 - 1) * li == m1 * li - li,
                ;
            }
        } else {
            assert(last1 == li);
            assert(k == m1 * li + 1) by (nonlinear_arith)
                requires
                    last1 == (k - 1) - (m1 - 1) * li,
                    last1 == li,
            ;
            assert((k + li - 1) / li == m1 + 1) by (nonlinear_arith)
                requires
                    li >= 1,
                    m1 >= 1,
                    k == m1 * li + 1,
            ;
            assert(1 == k - ((m1 + 1) - 1) * li) by (nonlinear_arith)
                requires
                    k == m1 * li + 1,
            ;
        }
        let t2 = spec_insert_rows(fresh, cols, limit, rows.take(k));
        let m2 = t2.pages.len() as int;
        assert(spec_packed(t2, limit));
        assert(t2.pk_counter == k);
        assert(m2 == if k == 0 { 1int } else { (k + li - 1) / li });
        assert(t2.pages.last().rows.len() == k - (m2 - 1) * li);
    }
}

/// DELETE keeps exactly the rows the WHERE clause does not match, in their
/// original relative order over the whole table, rewrites every header to
/// the schema columns, and touches neither counter nor lock flag.
pub proof fn lemma_delete_exact(
    t: TableV,
    tname: Seq<char>,
    cols: Seq<Seq<char>>,
    gs: Seq<Seq<CondV>>,
)
    ensures
        ({
            let t2 = spec_delete_table(t, tname, cols, gs);
            &&& spec_table_rows(t2) == spec_delete_page(
                PageV { header: cols, rows: spec_table_rows(t) },
                tname,
                cols,
                gs,
            ).rows
            &&& t2.pk_counter == t.pk_counter
            &&& t2.locked == t.locked
            &&& t2.pages.len() == t.pages.len()
            &&& forall|p: int|
                0 <= p < t2.pages.len() ==> (#[trigger] t2.pages[p].header) == cols
        }),
{
    lemma_delete_rows_rec(t, tname, cols, gs, t.pages.len() as int);
}

/// The flattened survivors of the first `k` pages.
proof fn lemma_delete_rows_rec(
    t: TableV,
    tname: Seq<char>,
    cols: Seq<Seq<char>>,
    gs: Seq<Seq<CondV>>,
    k: int,
)
    requires
        0 <= k <= t.pages.len(),
    ensures
        spec_rows_upto(spec_delete_table(t, tname, cols, gs).pages, k) == spec_delete_page(
            PageV { header: cols, rows: spec_rows_upto(t.pages, k) },
            tname,
            cols,
            gs,
        ).rows,
    decreases k,
{
    broadcast use group_filter_ensures;

    if k == 0 {
        reveal(Seq::filter);
    } else {
        lemma_delete_rows_rec(t, tname, cols, gs, k - 1);
        let mapped = spec_delete_table(t, tname, cols, gs).pages;
        assert(mapped[k - 1] == spec_delete_page(t.pages[k - 1], tname, cols, gs));
        assert(spec_delete_page(
            PageV { header: cols, rows: spec_rows_upto(t.pages, k - 1) + t.pages[k - 1].rows },
            tname,
            cols,
            gs,
        ).rows == spec_delete_page(
            PageV { header: cols, rows: spec_rows_upto(t.pages, k - 1) },
            tname,
            cols,
            gs,
        ).rows + spec_delete_page(
            PageV { header: t.pages[k - 1].header, rows: t.pages[k - 1].rows },
            tname,
            cols,
            gs,
        ).rows);
        assert(PageV { header: t.pages[k - 1].header, rows: t.pages[k - 1].rows } =~~= t.pages[k
            - 1]);
    }
}

/// The joined row set of two tables is every pair: its size is the product
/// of the two sizes.
pub proof fn lemma_product_len(
    a: Seq<Map<Seq<char>, Seq<char>>>,
    b: Seq<Map<Seq<char>, Seq<char>>>,
)
    ensures
        spec_product(a, b).len() == a.len() * b.len(),
{
    lemma_product_len_rec(a, b, a.len() as int);
}

proof fn lemma_product_len_rec(
    a: Seq<Map<Seq<char>, Seq<char>>>,
    b: Seq<Map<Seq<char>, Seq<char>>>,
    k: int,
)
    requires
        0 <= k <= a.len(),
    ensures
        spec_product_upto(a, b, k).len() == k * b.len(),
    decreases k,
{
    if k == 0 {
        assert(0 * b.len() == 0) by (nonlinear_arith);
    } else {
        lemma_product_len_rec(a, b, k - 1);
        assert((k - 1) * b.len() + b.len() == k * b.len()) by (nonlinear_arith);
    }
}

/// A SELECT over two tables without WHERE returns one output row per pair
/// of stored rows.
pub proof fn lemma_join_count(
    t1: Seq<char>,
    t2: Seq<char>,
    columns: Seq<Seq<char>>,
    schema: SchemaV,
    db: DbV,
)
    requires
        crate::exec::spec_tables_ok(seq![t1, t2], schema),
        crate::exec::spec_tables_ready(seq![t1, t2], db),
    ensures
        ({
            let r = spec_execute_select(seq![t1, t2], columns, None, schema, db);
            &&& r is Success
            &&& r->Success_0 is Some
            &&& r->Success_0->0.len() == spec_table_maps(t1, db[t1].pages).len()
                * spec_table_maps(t2, db[t2].pages).len()
        }),
{
    let tables = seq![t1, t2];
    let ds = crate::exec::spec_datasets(tables, db);
    assert(ds[0] == spec_table_maps(t1, db[t1].pages));
    assert(ds[1] == spec_table_maps(t2, db[t2].pages));
    assert(spec_join_all(ds) == spec_product(ds[0], ds[1])) by {
        reveal_with_fuel(crate::exec::spec_join_upto, 3);
    }
    lemma_product_len(ds[0], ds[1]);
}

/// With a WHERE clause, the surviving joined rows are exactly those the
/// clause matches: each survivor matches, and every matching joined row
/// survives.
pub proof fn lemma_where_restricts(
    joined: Seq<Map<Seq<char>, Seq<char>>>,
    gs: Seq<Seq<CondV>>,
)
    ensures
        ({
            let f = spec_filtered(joined, Some(gs));
            &&& forall|i: int| 0 <= i < f.len() ==> spec_matches(gs, #[trigger] f[i])
            &&& forall|j: int|
                0 <= j < joined.len() && spec_matches(gs, #[trigger] joined[j]) ==> f.contains(
                    joined[j],
                )
        }),
{
    broadcast use group_filter_ensures;

    let f = spec_filtered(joined, Some(gs));
    assert(f == joined.filter(|m: Map<Seq<char>, Seq<char>>| spec_matches(gs, m)));
}

/// An INSERT that names a table the schema does not declare is an error and
/// changes nothing.
pub proof fn lemma_unknown_table_insert(
    table: Seq<char>,
    rows: Seq<Seq<Seq<char>>>,
    schema: SchemaV,
    db: DbV,
)
    requires
        crate::types::spec_defs_cols(schema.structure, table) is None,
    ensures
        crate::exec::spec_execute_insert(table, rows, schema, db) == (
            crate::types::RespV::Error("No such table in DB"@),
            db,
        ),
{
}

/// A DELETE that names a table the schema does not declare is an error and
/// changes nothing.
pub proof fn lemma_unknown_table_delete(
    table: Seq<char>,
    gs: Seq<Seq<CondV>>,
    schema: SchemaV,
    db: DbV,
)
    requires
        crate::types::spec_defs_cols(schema.structure, table) is None,
    ensures
        crate::exec::spec_execute_delete(table, gs, schema, db) == (
            crate::types::RespV::Error("No such table in DB"@),
            db,
        ),
{
}

/// A command that starts with none of the three keywords is answered with
/// an error and changes nothing.
pub proof fn lemma_bad_query(q: Seq<char>, schema: SchemaV, db: DbV)
    requires
        !crate::exec::spec_has_prefix(q, "INSERT INTO"@),
        !crate::exec::spec_has_prefix(q, "DELETE FROM"@),
        !crate::exec::spec_has_prefix(q, "SELECT"@),
    ensures
        crate::exec::spec_execute_query(q, schema, db) == (
            crate::types::RespV::Error("Bad query"@),
            db,
        ),
{
}

/// A SELECT whose FROM list holds any table the schema does not declare is
/// an error.
pub proof fn lemma_unknown_table_select(
    tables: Seq<Seq<char>>,
    columns: Seq<Seq<char>>,
    gs: Option<Seq<Seq<CondV>>>,
    schema: SchemaV,
    db: DbV,
    i: int,
)
    requires
        0 <= i < tables.len(),
        crate::types::spec_defs_cols(schema.structure, tables[i]) is None,
    ensures
        spec_execute_select(tables, columns, gs, schema, db) == crate::types::RespV::Error(
            "No such table in DB"@,
        ),
{
    assert(!crate::exec::spec_tables_ok(tables, schema));
}

/// In a qualified name built over a dot-free table name, the first dot is
/// the separator.
proof fn lemma_find_dot_qualified(tname: Seq<char>, c: Seq<char>)
    requires
        crate::strutil::spec_find_char(tname, '.') is None,
    ensures
        crate::strutil::spec_find_char(spec_qualified(tname, c), '.') == Some(tname.len() as int),
    decreases tname.len(),
{
    let s = spec_qualified(tname, c);
    if tname.len() == 0 {
        assert(s[0] == '.');
    } else {
        assert(s[0] == tname[0]);
        assert(tname[0] != '.');
        assert(s.skip(1) =~= spec_qualified(tname.skip(1), c));
        lemma_find_dot_qualified(tname.skip(1), c);
    }
}

/// Qualified names over one table tell their columns apart.
proof fn lemma_qualified_injective(tname: Seq<char>, c1: Seq<char>, c2: Seq<char>)
    requires
        spec_qualified(tname, c1) == spec_qualified(tname, c2),
    ensures
        c1 == c2,
{
    assert(spec_qualified(tname, c1).len() == tname.len() + 1 + c1.len());
    assert(spec_qualified(tname, c2).len() == tname.len() + 1 + c2.len());
    assert(c1.len() == c2.len());
    assert forall|i: int| 0 <= i < c1.len() implies c1[i] == c2[i] by {
        assert(spec_qualified(tname, c1)[tname.len() + 1 + i] == c1[i]);
        assert(spec_qualified(tname, c2)[tname.len() + 1 + i] == c2[i]);
    }
    assert(c1 =~= c2);
}

/// With distinct columns, a row's field map answers each qualified column
/// with the field at its position.
proof fn lemma_row_map_at(tname: Seq<char>, cols: Seq<Seq<char>>, row: Seq<Seq<char>>, n: int, k: int)
    requires
        forall|i: int, j: int| 0 <= i < j < cols.len() ==> cols[i] != cols[j],
        0 <= k < n,
        n <= cols.len(),
        n <= row.len(),
    ensures
        crate::exec::spec_row_map_upto(tname, cols, row, n).contains_key(
            spec_qualified(tname, cols[k]),
        ),
        crate::exec::spec_row_map_upto(tname, cols, row, n)[spec_qualified(tname, cols[k])]
            == row[k],
    decreases n,
{
    if k == n - 1 {
    } else {
        lemma_row_map_at(tname, cols, row, n - 1, k);
        if spec_qualified(tname, cols[n - 1]) == spec_qualified(tname, cols[k]) {
            lemma_qualified_injective(tname, cols[n - 1], cols[k]);
            assert(false);
        }
    }
}

/// Over pages that all carry the same header, the field maps are the
/// flattened rows, each zipped with that header.
proof fn lemma_table_maps_uniform(
    tname: Seq<char>,
    pages: Seq<PageV>,
    cols: Seq<Seq<char>>,
    k: int,
)
    requires
        0 <= k <= pages.len(),
        forall|p: int| 0 <= p < k ==> (#[trigger] pages[p].header) == cols,
    ensures
        crate::exec::spec_table_maps_upto(tname, pages, k).len() == spec_rows_upto(pages, k).len(),
        forall|i: int|
            0 <= i < spec_rows_upto(pages, k).len() ==> #[trigger] crate::exec::spec_table_maps_upto(
                tname,
                pages,
                k,
            )[i] == crate::exec::spec_row_map(tname, cols, spec_rows_upto(pages, k)[i]),
    decreases k,
{
    if k > 0 {
        lemma_table_maps_uniform(tname, pages, cols, k - 1);
        let prev_maps = crate::exec::spec_table_maps_upto(tname, pages, k - 1);
        let prev_rows = spec_rows_upto(pages, k - 1);
        assert forall|i: int| 0 <= i < spec_rows_upto(pages, k).len() implies #[trigger] crate::exec::spec_table_maps_upto(
            tname,
            pages,
            k,
        )[i] == crate::exec::spec_row_map(tname, cols, spec_rows_upto(pages, k)[i]) by {
            if i >= prev_rows.len() {
                assert(crate::exec::spec_page_maps(tname, pages[k - 1])[i - prev_rows.len()]
                    == crate::exec::spec_row_map(
                    tname,
                    pages[k - 1].header,
                    pages[k - 1].rows[i - prev_rows.len()],
                ));
            }
        }
    }
}

/// Inserted rows, selected with every column and no WHERE, come back
/// exactly, as strings, in insertion order across the pages.
pub proof fn lemma_select_round_trip(
    tname: Seq<char>,
    cols: Seq<Seq<char>>,
    limit: u64,
    rows: Seq<Seq<Seq<char>>>,
    schema: SchemaV,
    db: DbV,
)
    requires
        limit >= 1,
        rows.len() <= u64::MAX,
        crate::strutil::spec_find_char(tname, '.') is None,
        forall|i: int, j: int| 0 <= i < j < cols.len() ==> cols[i] != cols[j],
        cols.len() >= 1,
        forall|i: int| 0 <= i < rows.len() ==> (#[trigger] rows[i]).len() + 1 == cols.len(),
        crate::types::spec_defs_cols(schema.structure, tname) == Some(cols),
        db.contains_key(tname),
        db[tname] == spec_insert_rows(spec_fresh_table(cols), cols, limit, rows),
    ensures
        ({
            let columns = Seq::new(cols.len(), |i: int| spec_qualified(tname, cols[i]));
            let r = spec_execute_select(seq![tname], columns, None, schema, db);
            &&& r is Success
            &&& r->Success_0 is Some
            &&& r->Success_0->0.len() == rows.len()
            &&& forall|i: int|
                0 <= i < rows.len() ==> #[trigger] r->Success_0->0[i] == seq![spec_u64_str(i + 1)]
                    + rows[i]
        }),
{
    let tables = seq![tname];
    let columns = Seq::new(cols.len(), |i: int| spec_qualified(tname, cols[i]));
    let t = db[tname];

    // The one table is declared, present and unlocked.
    let fresh = spec_fresh_table(cols);
    assert(spec_rows_upto(fresh.pages, 1) =~= Seq::<Seq<Seq<char>>>::empty()) by {
        reveal_with_fuel(spec_rows_upto, 3);
    }
    lemma_insert_rows_packed(fresh, cols, limit, rows);
    lemma_pk_sequence(cols, limit, rows);
    assert(crate::exec::spec_tables_ok(tables, schema)) by {
        assert(crate::types::spec_defs_cols(schema.structure, tables[0]) is Some);
    }
    assert(crate::exec::spec_tables_ready(tables, db)) by {
        assert(db.contains_key(tables[0]) && !db[tables[0]].locked);
    }

    // One dataset, joined with nothing, unfiltered.
    let ds = crate::exec::spec_datasets(tables, db);
    assert(ds[0] == spec_table_maps(tname, t.pages));
    let joined = spec_join_all(ds);
    assert(joined == ds[0]) by {
        reveal_with_fuel(crate::exec::spec_join_upto, 2);
    }
    assert(spec_filtered(joined, None) == joined);

    // Every page carries the schema header, so the field maps are the
    // flattened rows zipped with it.
    assert forall|p: int| 0 <= p < t.pages.len() implies (#[trigger] t.pages[p].header)
        == cols by {}
    lemma_table_maps_uniform(tname, t.pages, cols, t.pages.len() as int);

    // The projection list is each column, qualified, in order.
    let pairs = crate::exec::spec_proj_pairs(tables, columns);
    assert(crate::exec::spec_dedup(tables) =~= tables) by {
        reveal_with_fuel(crate::exec::spec_dedup_upto, 3);
    }
    assert forall|k: int| 0 <= k <= cols.len() implies #[trigger] crate::exec::spec_cols_of_upto(
        tname,
        columns,
        k,
    ) =~= cols.take(k) by {
        lemma_cols_of_qualified(tname, cols, columns, k);
    }
    assert(crate::exec::spec_cols_of(tname, columns) == cols.take(cols.len() as int));
    assert(cols.take(cols.len() as int) =~= cols);
    assert(pairs =~= cols.map_values(|c: Seq<char>| (tname, c))) by {
        reveal_with_fuel(crate::exec::spec_pairs_upto, 3);
    }

    // Each surviving row projects back to itself.
    let matrix = crate::exec::spec_select_matrix(tables, columns, None, db);
    assert(matrix.len() == rows.len());
    assert forall|i: int| 0 <= i < rows.len() implies #[trigger] matrix[i] == seq![
        spec_u64_str(i + 1),
    ] + rows[i] by {
        let stored = spec_table_rows(t)[i];
        assert(stored == seq![spec_u64_str(i + 1)] + rows[i]);
        assert(stored.len() == cols.len());
        let m = crate::exec::spec_row_map(tname, cols, stored);
        assert(joined[i] == m);
        lemma_project_identity(tname, cols, stored, pairs, cols.len() as int);
        assert(matrix[i] == crate::exec::spec_project_row(pairs, m));
        assert(stored.take(cols.len() as int) =~= stored);
    }
}

/// The columns projected for the table are the columns themselves, once
/// each name is qualified with it.
proof fn lemma_cols_of_qualified(
    tname: Seq<char>,
    cols: Seq<Seq<char>>,
    columns: Seq<Seq<char>>,
    k: int,
)
    requires
        crate::strutil::spec_find_char(tname, '.') is None,
        columns == Seq::new(cols.len(), |i: int| spec_qualified(tname, cols[i])),
        0 <= k <= cols.len(),
    ensures
        crate::exec::spec_cols_of_upto(tname, columns, k) =~= cols.take(k),
    decreases k,
{
    if k > 0 {
        lemma_cols_of_qualified(tname, cols, columns, k - 1);
        lemma_find_dot_qualified(tname, cols[k - 1]);
        let q = columns[k - 1];
        assert(q == spec_qualified(tname, cols[k - 1]));
        assert(q.take(tname.len() as int) =~= tname);
        assert(q.skip(tname.len() as int + 1) =~= cols[k - 1]);
        assert(crate::exec::spec_col_head(tname, q) =~= seq![cols[k - 1]]);
    }
}

/// Projecting every qualified column out of a row's own field map rebuilds
/// the row.
proof fn lemma_project_identity(
    tname: Seq<char>,
    cols: Seq<Seq<char>>,
    row: Seq<Seq<char>>,
    pairs: Seq<(Seq<char>, Seq<char>)>,
    k: int,
)
    requires
        forall|i: int, j: int| 0 <= i < j < cols.len() ==> cols[i] != cols[j],
        row.len() == cols.len(),
        pairs == cols.map_values(|c: Seq<char>| (tname, c)),
        0 <= k <= cols.len(),
    ensures
        crate::exec::spec_project_upto(
            pairs,
            crate::exec::spec_row_map(tname, cols, row),
            k,
        ) =~= row.take(k),
    decreases k,
{
    if k > 0 {
        lemma_project_identity(tname, cols, row, pairs, k - 1);
        assert(pairs[k - 1] == (tname, cols[k - 1]));
        lemma_row_map_at(tname, cols, row, cols.len() as int, k - 1);
    }
}

} // verus!
