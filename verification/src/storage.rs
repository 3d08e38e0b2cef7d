//! The table storage model: pages, per-table primary-key counters and lock
//! flags, and a database as a name-keyed collection of tables. Every
//! operation of the storage manager is specified by a transition function
//! over the views.
use vstd::prelude::*;
use crate::map::MyHashMap;
use crate::strutil::spec_u64_str;
use crate::strutil::u64_to_string;
use crate::strutil::views_of;
use crate::strutil::views2_of;
use crate::types::Schema;
use crate::types::TableDefV;

verus! {

/// One page: its header (the column names) and its data rows, each row an
/// ordered sequence of field values.
pub struct Page {
    pub header: Vec<String>,
    pub rows: Vec<Vec<String>>,
}

/// The view of a `Page`.
#[verifier::ext_equal]
pub struct PageV {
    pub header: Seq<Seq<char>>,
    pub rows: Seq<Seq<Seq<char>>>,
}

impl View for Page {
    type V = PageV;

    open spec fn view(&self) -> PageV {
        PageV { header: views_of(self.header@), rows: views2_of(self.rows@) }
    }
}

/// One table: its pages in order, its durable primary-key counter, and its
/// advisory lock flag.
pub struct Table {
    pub pages: Vec<Page>,
    pub pk_counter: u64,
    pub locked: bool,
}

/// The view of a `Table`.
#[verifier::ext_equal]
pub struct TableV {
    pub pages: Seq<PageV>,
    pub pk_counter: u64,
    pub locked: bool,
}

impl View for Table {
    type V = TableV;

    open spec fn view(&self) -> TableV {
        TableV {
            pages: self.pages@.map_values(|p: Page| p@),
            pk_counter: self.pk_counter,
            locked: self.locked,
        }
    }
}

impl DeepView for Table {
    type V = TableV;

    open spec fn deep_view(&self) -> TableV {
        self@
    }
}

/// The view of a whole database: table views keyed by table name.
pub type DbV = Map<Seq<char>, TableV>;

/// The database: tables keyed by name, in creation order.
pub struct Database {
    pub tables: MyHashMap<Table>,
}

impl View for Database {
    type V = DbV;

    open spec fn view(&self) -> DbV {
        self.tables@
    }
}

impl Database {
    pub open spec fn wf(&self) -> bool {
        self.tables.wf()
    }

    /// An empty database, holding no tables yet.
    pub fn new() -> (r: Self)
        ensures
            r@ == Map::<Seq<char>, TableV>::empty(),
            r.wf(),
    {
        Database { tables: MyHashMap::new() }
    }
}

/// The state of a table just after initialization: page 1 with the header
/// and no rows, the counter at zero, unlocked.
pub open spec fn spec_fresh_table(cols: Seq<Seq<char>>) -> TableV {
    TableV {
        pages: seq![PageV { header: cols, rows: Seq::empty() }],
        pk_counter: 0,
        locked: false,
    }
}

/// Initialization of one table: created fresh where absent, untouched where
/// present.
pub open spec fn spec_init_one(db: DbV, d: TableDefV) -> DbV {
    if db.contains_key(d.table) {
        db
    } else {
        db.insert(d.table, spec_fresh_table(d.columns))
    }
}

/// Initialization of every table of the schema, in declaration order.
pub open spec fn spec_init_db(db: DbV, defs: Seq<TableDefV>) -> DbV
    decreases defs.len(),
{
    if defs.len() == 0 {
        db
    } else {
        spec_init_db(spec_init_one(db, defs[0]), defs.skip(1))
    }
}

/// The administrative wipe of one table: every page file removed, counter
/// and lock flag kept.
pub open spec fn spec_wipe_one(db: DbV, t: Seq<char>) -> DbV {
    if db.contains_key(t) {
        db.insert(
            t,
            TableV { pages: Seq::empty(), pk_counter: db[t].pk_counter, locked: db[t].locked },
        )
    } else {
        db
    }
}

/// The administrative wipe of every table of the schema.
pub open spec fn spec_wipe_db(db: DbV, defs: Seq<TableDefV>) -> DbV
    decreases defs.len(),
{
    if defs.len() == 0 {
        db
    } else {
        spec_wipe_db(spec_wipe_one(db, defs[0].table), defs.skip(1))
    }
}

/// Initialization applied one table later.
proof fn lemma_init_db_push(db: DbV, defs: Seq<TableDefV>, d: TableDefV)
    ensures
        spec_init_db(db, defs.push(d)) == spec_init_one(spec_init_db(db, defs), d),
    decreases defs.len(),
{
    if defs.len() == 0 {
        reveal_with_fuel(spec_init_db, 3);
        assert(defs.push(d).skip(1) =~= Seq::<TableDefV>::empty());
        assert(defs.push(d)[0] == d);
    } else {
        assert(defs.push(d).skip(1) =~= defs.skip(1).push(d));
        lemma_init_db_push(spec_init_one(db, defs[0]), defs.skip(1), d);
    }
}

/// The wipe applied one table later.
proof fn lemma_wipe_db_push(db: DbV, defs: Seq<TableDefV>, d: TableDefV)
    ensures
        spec_wipe_db(db, defs.push(d)) == spec_wipe_one(spec_wipe_db(db, defs), d.table),
    decreases defs.len(),
{
    if defs.len() == 0 {
        reveal_with_fuel(spec_wipe_db, 3);
        assert(defs.push(d).skip(1) =~= Seq::<TableDefV>::empty());
        assert(defs.push(d)[0] == d);
    } else {
        assert(defs.push(d).skip(1) =~= defs.skip(1).push(d));
        lemma_wipe_db_push(spec_wipe_one(db, defs[0].table), defs.skip(1), d);
    }
}

/// An identical copy of a vector of strings.
pub fn clone_string_vec(v: &Vec<String>) -> (r: Vec<String>)
    ensures
        r@ == v@,
{
    let mut r: Vec<String> = Vec::new();
    let n = v.len();
    let mut i: usize = 0;
    while i < n
        invariant
            n == v@.len(),
            i <= n,
            r@ =~= v@.take(i as int),
        decreases n - i,
    {
        r.push(v[i].clone());
        proof {
            assert(r@ =~= v@.take(i + 1));
        }
        i = i + 1;
    }
    proof {
        assert(v@.take(n as int) =~= v@);
    }
    r
}

/// Create every table of the schema that does not exist yet: page 1 with
/// the header, counter zero, unlocked. Idempotent: existing tables, their
/// rows and their headers are left untouched.
pub fn init_db(schema: &Schema, db: &mut Database)
    requires
        old(db).wf(),
    ensures
        final(db)@ == spec_init_db(old(db)@, schema@.structure),
        final(db).wf(),
{
    let n = schema.structure.len();
    let mut i: usize = 0;
    while i < n
        invariant
            n == schema.structure@.len(),
            i <= n,
            db.wf(),
            db@ == spec_init_db(old(db)@, schema@.structure.take(i as int)),
        decreases n - i,
    {
        let ghost pre = db@;
        let def = &schema.structure[i];
        match db.tables.get(&def.table) {
            Some(_) => {
                proof {
                    assert(spec_init_one(pre, schema@.structure[i as int]) == pre);
                }
            },
            None => {
                let header = clone_string_vec(&def.columns);
                let mut pages: Vec<Page> = Vec::new();
                pages.push(Page { header, rows: Vec::new() });
                let fresh = Table { pages, pk_counter: 0, locked: false };
                proof {
                    assert(fresh@.pages =~~= spec_fresh_table(views_of(def.columns@)).pages);
                    assert(fresh@ =~~= spec_fresh_table(views_of(def.columns@)));
                }
                let name = def.table.clone();
                db.tables.insert(name, fresh);
                proof {
                    assert(db@ =~~= spec_init_one(pre, schema@.structure[i as int]));
                }
            },
        }
        proof {
            assert(schema@.structure.take(i + 1) =~= schema@.structure.take(i as int).push(
                schema@.structure[i as int],
            ));
            lemma_init_db_push(old(db)@, schema@.structure.take(i as int), schema@.structure[i as int]);
        }
        i = i + 1;
    }
    proof {
        assert(schema@.structure.take(n as int) =~= schema@.structure);
    }
}

/// Remove every page of every table of the schema, as the administrative
/// reset does; counters and lock flags stay.
pub fn clear_csv_files(schema: &Schema, db: &mut Database)
    requires
        old(db).wf(),
    ensures
        final(db)@ == spec_wipe_db(old(db)@, schema@.structure),
        final(db).wf(),
{
    let n = schema.structure.len();
    let mut i: usize = 0;
    while i < n
        invariant
            n == schema.structure@.len(),
            i <= n,
            db.wf(),
            db@ == spec_wipe_db(old(db)@, schema@.structure.take(i as int)),
        decreases n - i,
    {
        let ghost pre = db@;
        let def = &schema.structure[i];
        match db.tables.get_mut(&def.table) {
            Some(t) => {
                t.pages = Vec::new();
                proof {
                    assert(final(t)@.pages =~~= Seq::<PageV>::empty());
                    assert(db@ =~~= spec_wipe_one(pre, schema@.structure[i as int].table));
                }
            },
            None => {
                proof {
                    assert(spec_wipe_one(pre, schema@.structure[i as int].table) == pre);
                }
            },
        }
        proof {
            assert(schema@.structure.take(i + 1) =~= schema@.structure.take(i as int).push(
                schema@.structure[i as int],
            ));
            lemma_wipe_db_push(old(db)@, schema@.structure.take(i as int), schema@.structure[i as int]);
        }
        i = i + 1;
    }
    proof {
        assert(schema@.structure.take(n as int) =~= schema@.structure);
    }
}

/// Whether the table's advisory lock flag is set; a table that does not
/// exist reads as unlocked, as a missing lock file does.
pub fn is_locked(table_name: &str, db: &Database) -> (r: bool)
    requires
        db.wf(),
    ensures
        r == (db@.contains_key(table_name@) && db@[table_name@].locked),
{
    let key = String::from_str(table_name);
    match db.tables.get(&key) {
        Some(t) => t.locked,
        None => false,
    }
}

/// Set the table's advisory lock flag; a table that does not exist is left
/// as it is.
pub fn lock_table(table_name: &str, db: &mut Database)
    requires
        old(db).wf(),
    ensures
        final(db)@ == if old(db)@.contains_key(table_name@) {
            old(db)@.insert(
                table_name@,
                TableV {
                    pages: old(db)@[table_name@].pages,
                    pk_counter: old(db)@[table_name@].pk_counter,
                    locked: true,
                },
            )
        } else {
            old(db)@
        },
        final(db).wf(),
{
    let key = String::from_str(table_name);
    match db.tables.get_mut(&key) {
        Some(t) => {
            t.locked = true;
        },
        None => {},
    }
}

/// Clear the table's advisory lock flag; a table that does not exist is
/// left as it is.
pub fn unlock_table(table_name: &str, db: &mut Database)
    requires
        old(db).wf(),
    ensures
        final(db)@ == if old(db)@.contains_key(table_name@) {
            old(db)@.insert(
                table_name@,
                TableV {
                    pages: old(db)@[table_name@].pages,
                    pk_counter: old(db)@[table_name@].pk_counter,
                    locked: false,
                },
            )
        } else {
            old(db)@
        },
        final(db).wf(),
{
    let key = String::from_str(table_name);
    match db.tables.get_mut(&key) {
        Some(t) => {
            t.locked = false;
        },
        None => {},
    }
}

/// Read, increment and persist the table's primary-key counter, returning
/// the new value; `None` where the table does not exist or the counter
/// would overflow, with the state left unchanged.
pub fn increment_pk_sequence(db: &mut Database, table_name: &str) -> (r: Option<u64>)
    requires
        old(db).wf(),
    ensures
        match r {
            Some(pk) => {
                &&& old(db)@.contains_key(table_name@)
                &&& old(db)@[table_name@].pk_counter < u64::MAX
                &&& pk == old(db)@[table_name@].pk_counter + 1
                &&& final(db)@ == old(db)@.insert(
                    table_name@,
                    TableV {
                        pages: old(db)@[table_name@].pages,
                        pk_counter: pk,
                        locked: old(db)@[table_name@].locked,
                    },
                )
            },
            None => {
                &&& !old(db)@.contains_key(table_name@) || old(db)@[table_name@].pk_counter
                    == u64::MAX
                &&& final(db)@ == old(db)@
            },
        },
        final(db).wf(),
{
    let key = String::from_str(table_name);
    match db.tables.get_mut(&key) {
        Some(t) => {
            if t.pk_counter == u64::MAX {
                proof {
                    assert(old(db)@.insert(table_name@, old(db)@[table_name@]) =~= old(db)@);
                }
                None
            } else {
                t.pk_counter = t.pk_counter + 1;
                Some(t.pk_counter)
            }
        },
        None => None,
    }
}

/// The first page with room for another row, or `pages.len()` where every
/// page is full.
pub open spec fn spec_first_writable(pages: Seq<PageV>, limit: u64) -> int
    decreases pages.len(),
{
    if pages.len() == 0 {
        0
    } else if pages[0].rows.len() < limit {
        0
    } else {
        1 + spec_first_writable(pages.skip(1), limit)
    }
}

/// The position found is the first page below the limit.
pub proof fn lemma_first_writable_at(pages: Seq<PageV>, limit: u64, i: int)
    requires
        0 <= i <= pages.len(),
        forall|j: int| 0 <= j < i ==> #[trigger] pages[j].rows.len() >= limit,
        i < pages.len() ==> pages[i].rows.len() < limit,
    ensures
        spec_first_writable(pages, limit) == i,
    decreases i,
{
    if pages.len() > 0 && i > 0 {
        assert(pages[0].rows.len() >= limit);
        assert forall|j: int| 0 <= j < i - 1 implies #[trigger] pages.skip(1)[j].rows.len()
            >= limit by {
            assert(pages.skip(1)[j] == pages[j + 1]);
        }
        lemma_first_writable_at(pages.skip(1), limit, i - 1);
    }
}

/// The pages after making room: unchanged where some page has room, else
/// with one empty page appended.
pub open spec fn spec_pages_with_room(
    pages: Seq<PageV>,
    header: Seq<Seq<char>>,
    limit: u64,
) -> Seq<PageV> {
    if spec_first_writable(pages, limit) == pages.len() {
        pages.push(PageV { header, rows: Seq::empty() })
    } else {
        pages
    }
}

/// Scan the pages from the first: return the first with room, creating a
/// fresh page with the given header where every existing page is full.
pub fn find_not_full_csv(t: &mut Table, header: &Vec<String>, limit: u64) -> (i: usize)
    requires
        limit >= 1,
    ensures
        i == spec_first_writable(old(t)@.pages, limit),
        final(t)@.pages == spec_pages_with_room(old(t)@.pages, views_of(header@), limit),
        final(t)@.pk_counter == old(t)@.pk_counter,
        final(t)@.locked == old(t)@.locked,
        i < final(t)@.pages.len(),
        final(t)@.pages[i as int].rows.len() < limit,
{
    let n = t.pages.len();
    let mut i: usize = 0;
    while i < n
        invariant
            n == t.pages@.len(),
            i <= n,
            t == old(t),
            forall|j: int| 0 <= j < i ==> #[trigger] t@.pages[j].rows.len() >= limit,
        decreases n - i,
    {
        if (t.pages[i].rows.len() as u64) < limit {
            proof {
                assert(t@.pages[i as int].rows.len() == t.pages@[i as int].rows@.len());
                lemma_first_writable_at(t@.pages, limit, i as int);
            }
            return i;
        }
        i = i + 1;
    }
    proof {
        lemma_first_writable_at(t@.pages, limit, n as int);
    }
    let fresh_header = clone_string_vec(header);
    t.pages.push(Page { header: fresh_header, rows: Vec::new() });
    proof {
        assert(final(t)@.pages =~~= spec_pages_with_room(old(t)@.pages, views_of(header@), limit));
    }
    n
}

/// Append one row to the page at position `i`.
pub fn append_row(t: &mut Table, i: usize, row: Vec<String>)
    requires
        i < old(t)@.pages.len(),
    ensures
        final(t)@.pages == old(t)@.pages.update(
            i as int,
            PageV {
                header: old(t)@.pages[i as int].header,
                rows: old(t)@.pages[i as int].rows.push(views_of(row@)),
            },
        ),
        final(t)@.pk_counter == old(t)@.pk_counter,
        final(t)@.locked == old(t)@.locked,
{
    let ghost rowv = views_of(row@);
    t.pages[i].rows.push(row);
    proof {
        assert(final(t)@.pages =~~= old(t)@.pages.update(
            i as int,
            PageV {
                header: old(t)@.pages[i as int].header,
                rows: old(t)@.pages[i as int].rows.push(rowv),
            },
        ));
    }
}

/// One row inserted: the first page with room receives it (a fresh page
/// appears where all are full), the counter advances, and the stored row
/// carries the new key's numeral in front of the fields.
pub open spec fn spec_insert_row(
    t: TableV,
    header: Seq<Seq<char>>,
    limit: u64,
    vals: Seq<Seq<char>>,
) -> TableV {
    let i = spec_first_writable(t.pages, limit);
    let pages = spec_pages_with_room(t.pages, header, limit);
    let row = seq![spec_u64_str(t.pk_counter + 1)] + vals;
    TableV {
        pages: pages.update(
            i,
            PageV { header: pages[i].header, rows: pages[i].rows.push(row) },
        ),
        pk_counter: (t.pk_counter + 1) as u64,
        locked: t.locked,
    }
}

/// A batch of rows inserted in declared order.
pub open spec fn spec_insert_rows(
    t: TableV,
    header: Seq<Seq<char>>,
    limit: u64,
    rows: Seq<Seq<Seq<char>>>,
) -> TableV
    decreases rows.len(),
{
    if rows.len() == 0 {
        t
    } else {
        spec_insert_rows(spec_insert_row(t, header, limit, rows[0]), header, limit, rows.skip(1))
    }
}

/// Inserting a batch and then one more row is inserting the longer batch.
pub proof fn lemma_insert_rows_push(
    t: TableV,
    header: Seq<Seq<char>>,
    limit: u64,
    rows: Seq<Seq<Seq<char>>>,
    r: Seq<Seq<char>>,
)
    ensures
        spec_insert_rows(t, header, limit, rows.push(r)) == spec_insert_row(
            spec_insert_rows(t, header, limit, rows),
            header,
            limit,
            r,
        ),
    decreases rows.len(),
{
    if rows.len() == 0 {
        reveal_with_fuel(spec_insert_rows, 3);
        assert(rows.push(r).skip(1) =~= Seq::<Seq<Seq<char>>>::empty());
        assert(rows.push(r)[0] == r);
    } else {
        assert(rows.push(r).skip(1) =~= rows.skip(1).push(r));
        lemma_insert_rows_push(
            spec_insert_row(t, header, limit, rows[0]),
            header,
            limit,
            rows.skip(1),
            r,
        );
    }
}

/// The counter advances by one per row inserted.
pub proof fn lemma_insert_rows_counter(
    t: TableV,
    header: Seq<Seq<char>>,
    limit: u64,
    rows: Seq<Seq<Seq<char>>>,
)
    requires
        t.pk_counter + rows.len() <= u64::MAX,
    ensures
        spec_insert_rows(t, header, limit, rows).pk_counter == t.pk_counter + rows.len(),
        spec_insert_rows(t, header, limit, rows).locked == t.locked,
    decreases rows.len(),
{
    if rows.len() > 0 {
        lemma_insert_rows_counter(spec_insert_row(t, header, limit, rows[0]), header, limit, rows.skip(1));
    }
}

/// Insert a batch of rows: for each, find the first page with room, advance
/// the counter, and append the row with its fresh key in front.
pub fn insert_rows(t: &mut Table, header: &Vec<String>, limit: u64, rows: &Vec<Vec<String>>)
    requires
        limit >= 1,
        old(t)@.pk_counter + rows@.len() <= u64::MAX,
    ensures
        final(t)@ == spec_insert_rows(old(t)@, views_of(header@), limit, views2_of(rows@)),
{
    let n = rows.len();
    let mut k: usize = 0;
    while k < n
        invariant
            limit >= 1,
            n == rows@.len(),
            k <= n,
            old(t)@.pk_counter + n <= u64::MAX,
            t@ == spec_insert_rows(old(t)@, views_of(header@), limit, views2_of(rows@).take(k as int)),
            t@.pk_counter == old(t)@.pk_counter + k,
        decreases n - k,
    {
        let ghost pre = t@;
        let i = find_not_full_csv(t, header, limit);
        let pk = t.pk_counter + 1;
        t.pk_counter = pk;
        let pk_str = u64_to_string(pk);
        let mut row: Vec<String> = Vec::new();
        row.push(pk_str);
        let mut vals = clone_string_vec(&rows[k]);
        row.append(&mut vals);
        proof {
            assert(views_of(row@) =~= seq![spec_u64_str(pre.pk_counter + 1)] + views_of(
                rows@[k as int]@,
            ));
        }
        append_row(t, i, row);
        proof {
            assert(t@.pages =~~= spec_insert_row(pre, views_of(header@), limit, views_of(rows@[k as int]@)).pages);
            assert(t@ =~~= spec_insert_row(pre, views_of(header@), limit, views_of(rows@[k as int]@)));
            assert(views2_of(rows@).take(k + 1) =~= views2_of(rows@).take(k as int).push(
                views_of(rows@[k as int]@),
            ));
            lemma_insert_rows_push(
                old(t)@,
                views_of(header@),
                limit,
                views2_of(rows@).take(k as int),
                views_of(rows@[k as int]@),
            );
        }
        k = k + 1;
    }
    proof {
        assert(views2_of(rows@).take(n as int) =~= views2_of(rows@));
    }
}

/// The rows of the first `k` pages, flattened in page order.
pub open spec fn spec_rows_upto(pages: Seq<PageV>, k: int) -> Seq<Seq<Seq<char>>>
    decreases k,
{
    if k <= 0 {
        Seq::empty()
    } else {
        spec_rows_upto(pages, k - 1) + pages[k - 1].rows
    }
}

/// Every stored row of the table, flattened in page order.
pub open spec fn spec_table_rows(t: TableV) -> Seq<Seq<Seq<char>>> {
    spec_rows_upto(t.pages, t.pages.len() as int)
}

/// Pages agreeing on a prefix flatten to the same rows over it.
pub proof fn lemma_rows_upto_agree(a: Seq<PageV>, b: Seq<PageV>, k: int)
    requires
        forall|j: int| 0 <= j < k ==> a[j] == b[j],
        k <= a.len(),
        k <= b.len(),
    ensures
        spec_rows_upto(a, k) == spec_rows_upto(b, k),
    decreases k,
{
    if k > 0 {
        lemma_rows_upto_agree(a, b, k - 1);
    }
}

/// The well-packed shape that inserting preserves: at least one page, every
/// page but the last exactly full, the last within the limit.
pub open spec fn spec_packed(t: TableV, limit: u64) -> bool {
    &&& t.pages.len() >= 1
    &&& forall|p: int| 0 <= p < t.pages.len() - 1 ==> (#[trigger] t.pages[p].rows.len()) == limit
    &&& t.pages.last().rows.len() <= limit
}

/// One insert into a packed table: the fresh row lands at the very end of
/// the flattened rows, on the last page or on one new page, the counter
/// advances, and the shape stays packed.
pub proof fn lemma_insert_row_packed(t: TableV, cols: Seq<Seq<char>>, limit: u64, vals: Seq<Seq<char>>)
    requires
        limit >= 1,
        spec_packed(t, limit),
        t.pk_counter < u64::MAX,
    ensures
        ({
            let t2 = spec_insert_row(t, cols, limit, vals);
            &&& spec_packed(t2, limit)
            &&& t2.pk_counter == t.pk_counter + 1
            &&& t2.locked == t.locked
            &&& spec_table_rows(t2) == spec_table_rows(t).push(
                seq![spec_u64_str(t.pk_counter + 1)] + vals,
            )
            &&& t2.pages.len() == if t.pages.last().rows.len() < limit {
                t.pages.len() as int
            } else {
                t.pages.len() + 1int
            }
            &&& t2.pages.last().rows.len() == if t.pages.last().rows.len() < limit {
                t.pages.last().rows.len() + 1int
            } else {
                1int
            }
            &&& forall|p: int|
                0 <= p < t2.pages.len() ==> (#[trigger] t2.pages[p].header) == if p
                    < t.pages.len() {
                    t.pages[p].header
                } else {
                    cols
                }
        }),
{
    let m = t.pages.len() as int;
    let t2 = spec_insert_row(t, cols, limit, vals);
    let row = seq![spec_u64_str(t.pk_counter + 1)] + vals;
    if t.pages.last().rows.len() < limit {
        lemma_first_writable_at(t.pages, limit, m - 1);
        assert(t2.pages =~= t.pages.update(
            m - 1,
            PageV { header: t.pages[m - 1].header, rows: t.pages[m - 1].rows.push(row) },
        ));
        lemma_rows_upto_agree(t2.pages, t.pages, m - 1);
        assert(spec_table_rows(t2) == spec_rows_upto(t2.pages, m - 1) + t2.pages[m - 1].rows);
        assert(spec_table_rows(t2) =~= spec_table_rows(t).push(row));
    } else {
        lemma_first_writable_at(t.pages, limit, m);
        assert(t2.pages =~= t.pages.push(PageV { header: cols, rows: seq![row] }));
        lemma_rows_upto_agree(t2.pages, t.pages, m);
        assert(spec_table_rows(t2) == spec_rows_upto(t2.pages, m) + t2.pages[m].rows);
        assert(spec_table_rows(t2) =~= spec_table_rows(t).push(row));
    }
}

} // verus!
