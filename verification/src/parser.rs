//! The query parser: raw command text to a typed `Command`, by the same
//! token rules the storage engine's little language uses — whitespace
//! splitting, `VALUES` tuples with quotes, parentheses and spaces stripped,
//! and a WHERE grammar of OR-groups of AND-equalities.
use vstd::prelude::*;
use crate::strutil::find_char;
use crate::strutil::find_str;
use crate::strutil::join_strings;
use crate::strutil::remove_char;
use crate::strutil::spec_find_char;
use crate::strutil::spec_find_str;
use crate::strutil::spec_join;
use crate::strutil::spec_remove_char;
use crate::strutil::spec_split_char;
use crate::strutil::spec_split_str;
use crate::strutil::spec_split_ws;
use crate::strutil::spec_strip;
use crate::strutil::spec_trim;
use crate::strutil::spec_trim_lead_char;
use crate::strutil::spec_trim_trail_char;
use crate::strutil::split_char;
use crate::strutil::split_str;
use crate::strutil::split_ws;
use crate::strutil::str_eq;
use crate::strutil::strip_special;
use crate::strutil::trim;
use crate::strutil::trim_lead_char;
use crate::strutil::trim_trail_char;
use crate::strutil::views_of;
use crate::strutil::views2_of;
use crate::types::Command;
use crate::types::CommandV;
use crate::types::CondV;
use crate::types::Condition;
use crate::types::groups_view;

verus! {

/// The position of the first piece equal to `w`.
pub open spec fn spec_first_eq(parts: Seq<Seq<char>>, w: Seq<char>) -> Option<int>
    decreases parts.len(),
{
    if parts.len() == 0 {
        None
    } else if parts[0] == w {
        Some(0int)
    } else {
        match spec_first_eq(parts.skip(1), w) {
            None => None,
            Some(i) => Some(i + 1),
        }
    }
}

proof fn lemma_first_eq_at(parts: Seq<Seq<char>>, w: Seq<char>, i: int)
    requires
        0 <= i < parts.len(),
        parts[i] == w,
        forall|j: int| 0 <= j < i ==> parts[j] != w,
    ensures
        spec_first_eq(parts, w) == Some(i),
    decreases i,
{
    if i > 0 {
        lemma_first_eq_at(parts.skip(1), w, i - 1);
    }
}

proof fn lemma_first_eq_none(parts: Seq<Seq<char>>, w: Seq<char>)
    requires
        forall|j: int| 0 <= j < parts.len() ==> parts[j] != w,
    ensures
        spec_first_eq(parts, w) is None,
    decreases parts.len(),
{
    if parts.len() > 0 {
        lemma_first_eq_none(parts.skip(1), w);
    }
}

proof fn lemma_condv_push(cs: Seq<Condition>, c: Condition)
    ensures
        cs.push(c).map_values(|x: Condition| x@) == cs.map_values(|x: Condition| x@).push(c@),
{
    assert(cs.push(c).map_values(|x: Condition| x@) =~= cs.map_values(|x: Condition| x@).push(
        c@,
    ));
}

proof fn lemma_groups_view_push(g: Seq<Vec<Condition>>, x: Vec<Condition>)
    ensures
        groups_view(g.push(x)) == groups_view(g).push(x@.map_values(|c: Condition| c@)),
{
    assert(groups_view(g.push(x)) =~= groups_view(g).push(x@.map_values(|c: Condition| c@)));
}

/// The position of the first string equal to `w`, as `position` finds it.
fn position_eq(parts: &Vec<String>, w: &str) -> (r: Option<usize>)
    ensures
        match r {
            Some(i) => i < parts@.len() && spec_first_eq(views_of(parts@), w@) == Some(i as int),
            None => spec_first_eq(views_of(parts@), w@) is None,
        },
{
    let n = parts.len();
    let mut i: usize = 0;
    while i < n
        invariant
            n == parts@.len(),
            i <= n,
            forall|j: int| 0 <= j < i ==> views_of(parts@)[j] != w@,
        decreases n - i,
    {
        if str_eq(parts[i].as_str(), w) {
            proof {
                assert(views_of(parts@)[i as int] == w@);
                lemma_first_eq_at(views_of(parts@), w@, i as int);
            }
            return Some(i);
        }
        i = i + 1;
    }
    proof {
        lemma_first_eq_none(views_of(parts@), w@);
    }
    None
}

/// The strings from `lo` (inclusive) to `hi` (exclusive).
fn sub_vec(v: &Vec<String>, lo: usize, hi: usize) -> (r: Vec<String>)
    requires
        lo <= hi <= v@.len(),
    ensures
        views_of(r@) == views_of(v@).subrange(lo as int, hi as int),
{
    let mut r: Vec<String> = Vec::new();
    let mut i: usize = lo;
    while i < hi
        invariant
            lo <= i <= hi <= v@.len(),
            views_of(r@) =~= views_of(v@).subrange(lo as int, i as int),
        decreases hi - i,
    {
        let ghost pre = r@;
        r.push(v[i].clone());
        proof {
            crate::strutil::lemma_views_of_push(pre, v@[i as int]);
            assert(views_of(r@) =~= views_of(v@).subrange(lo as int, i + 1));
        }
        i = i + 1;
    }
    r
}

/// Each piece trimmed of surrounding whitespace.
fn trim_all(v: &Vec<String>) -> (r: Vec<String>)
    ensures
        views_of(r@) == views_of(v@).map_values(|s: Seq<char>| spec_trim(s)),
{
    let mut r: Vec<String> = Vec::new();
    let n = v.len();
    let mut i: usize = 0;
    while i < n
        invariant
            n == v@.len(),
            i <= n,
            views_of(r@).len() == i,
            forall|j: int| 0 <= j < i ==> views_of(r@)[j] == spec_trim(views_of(v@)[j]),
        decreases n - i,
    {
        let ghost pre = r@;
        let t = trim(v[i].as_str());
        r.push(t);
        proof {
            crate::strutil::lemma_views_of_push(pre, r@[r@.len() - 1]);
            assert(views_of(r@) == views_of(pre).push(spec_trim(views_of(v@)[i as int])));
            assert forall|j: int| 0 <= j < i + 1 implies views_of(r@)[j] == spec_trim(
                views_of(v@)[j],
            ) by {
                if j < i {
                    assert(views_of(r@)[j] == views_of(pre)[j]);
                }
            }
        }
        i = i + 1;
    }
    proof {
        assert(views_of(r@) =~= views_of(v@).map_values(|s: Seq<char>| spec_trim(s)));
    }
    r
}

/// One equality condition parsed from `field = 'value'`: split at the first
/// `=`, both sides trimmed, quotes dropped from the value; text without `=`
/// is no condition.
pub open spec fn spec_parse_condition(c: Seq<char>) -> Option<CondV> {
    match spec_find_char(c, '=') {
        None => None,
        Some(p) => Some(
            CondV {
                field: spec_trim(c.take(p)),
                value: spec_remove_char(spec_trim(c.skip(p + 1)), '\''),
            },
        ),
    }
}

/// The conditions of one AND-group, in order; pieces without `=` are
/// dropped.
pub open spec fn spec_conds_upto(ands: Seq<Seq<char>>, k: int) -> Seq<CondV>
    decreases k,
{
    if k <= 0 {
        Seq::empty()
    } else {
        spec_conds_upto(ands, k - 1) + (match spec_parse_condition(ands[k - 1]) {
            Some(c) => seq![c],
            None => Seq::empty(),
        })
    }
}

/// One OR-group: its text split at ` AND `, each piece parsed.
pub open spec fn spec_parse_and(o: Seq<char>) -> Seq<CondV> {
    spec_conds_upto(spec_split_str(o, " AND "@), spec_split_str(o, " AND "@).len() as int)
}

/// The WHERE clause: everything after the first `WHERE `, split at ` OR `
/// into AND-groups; `None` without a `WHERE`. A `WHERE` at the very end
/// leaves an empty clause.
pub open spec fn spec_parse_where(s: Seq<char>) -> Option<Seq<Seq<CondV>>> {
    match spec_find_str(s, "WHERE"@) {
        None => None,
        Some(i) => {
            let clause = if i + 6 <= s.len() {
                s.skip(i + 6)
            } else {
                Seq::<char>::empty()
            };
            Some(
                spec_split_str(clause, " OR "@).map_values(|o: Seq<char>| spec_parse_and(o)),
            )
        },
    }
}

/// Parse one condition, under the view of `spec_parse_condition`.
pub fn parse_condition(condition: &str) -> (r: Option<Condition>)
    ensures
        match r {
            Some(c) => spec_parse_condition(condition@) == Some(c@),
            None => spec_parse_condition(condition@) is None,
        },
{
    match find_char(condition, '=') {
        None => None,
        Some(p) => {
            let n = condition.unicode_len();
            let field_part = condition.substring_char(0, p);
            let value_part = condition.substring_char(p + 1, n);
            let field = trim(field_part);
            let value_trimmed = trim(value_part);
            let value = remove_char(value_trimmed.as_str(), '\'');
            proof {
                assert(field_part@ =~= condition@.take(p as int));
                assert(value_part@ =~= condition@.skip(p + 1));
            }
            Some(Condition { field, value })
        },
    }
}

/// Parse the WHERE clause of a query, under the view of `spec_parse_where`.
pub fn parse_where(query: &str) -> (r: Option<Vec<Vec<Condition>>>)
    ensures
        match r {
            Some(g) => spec_parse_where(query@) == Some(groups_view(g@)),
            None => spec_parse_where(query@) is None,
        },
{
    match find_str(query, "WHERE") {
        None => None,
        Some(i) => {
            let n = query.unicode_len();
            let clause = if n - i >= 6 {
                query.substring_char(i + 6, n)
            } else {
                ""
            };
            proof {
                reveal_strlit("WHERE");
                reveal_strlit("");
                if n - i >= 6 {
                    assert(clause@ =~= query@.skip(i + 6));
                } else {
                    assert(clause@ =~= Seq::<char>::empty());
                }
            }
            let ghost clausev = clause@;
            let ors = split_str(clause, " OR ");
            let mut groups: Vec<Vec<Condition>> = Vec::new();
            let no = ors.len();
            let mut a: usize = 0;
            while a < no
                invariant
                    no == ors@.len(),
                    a <= no,
                    views_of(ors@) == spec_split_str(clausev, " OR "@),
                    groups_view(groups@).len() == a,
                    forall|j: int|
                        0 <= j < a ==> groups_view(groups@)[j] == spec_parse_and(
                            views_of(ors@)[j],
                        ),
                decreases no - a,
            {
                let ands = split_str(ors[a].as_str(), " AND ");
                let ghost andsv = views_of(ands@);
                let mut conds: Vec<Condition> = Vec::new();
                let nc = ands.len();
                let mut b: usize = 0;
                while b < nc
                    invariant
                        nc == ands@.len(),
                        b <= nc,
                        andsv == views_of(ands@),
                        conds@.map_values(|c: Condition| c@) == spec_conds_upto(
                            andsv,
                            b as int,
                        ),
                    decreases nc - b,
                {
                    let ghost pre_conds = conds@;
                    proof {
                        assert(andsv[b as int] == ands@[b as int]@);
                    }
                    match parse_condition(ands[b].as_str()) {
                        Some(c) => {
                            proof {
                                lemma_condv_push(pre_conds, c);
                            }
                            conds.push(c);
                        },
                        None => {},
                    }
                    proof {
                        assert(conds@.map_values(|c: Condition| c@) =~= spec_conds_upto(
                            andsv,
                            b + 1,
                        ));
                    }
                    b = b + 1;
                }
                let ghost pre_groups = groups@;
                proof {
                    lemma_groups_view_push(pre_groups, conds);
                }
                groups.push(conds);
                proof {
                    assert(views_of(ors@)[a as int] == ors@[a as int]@);
                    assert(groups_view(groups@)[a as int] == spec_parse_and(
                        views_of(ors@)[a as int],
                    ));
                    assert forall|j: int| 0 <= j < a + 1 implies groups_view(groups@)[j]
                        == spec_parse_and(views_of(ors@)[j]) by {
                        if j < a {
                            assert(groups_view(groups@)[j] == groups_view(pre_groups)[j]);
                        }
                    }
                }
                a = a + 1;
            }
            proof {
                assert(groups_view(groups@) =~= spec_split_str(clausev, " OR "@).map_values(
                    |o: Seq<char>| spec_parse_and(o),
                ));
            }
            Some(groups)
        },
    }
}

/// An INSERT parsed: the third whitespace token names the table; everything
/// after the first `VALUES` token, with outer parentheses and whitespace
/// trimmed, splits at `), (` into tuples; each tuple loses its quotes,
/// parentheses and spaces and splits at commas into field values. Too few
/// tokens or a missing `VALUES` is an error.
pub open spec fn spec_parse_insert(s: Seq<char>) -> Result<
    (Seq<char>, Seq<Seq<Seq<char>>>),
    Seq<char>,
> {
    let parts = spec_split_ws(s);
    if parts.len() < 3 {
        Err("Bad query"@)
    } else {
        match spec_first_eq(parts, "VALUES"@) {
            None => Err("'VALUES' not found"@),
            Some(vi) => {
                let vals = spec_trim(
                    spec_trim_trail_char(
                        spec_trim_lead_char(spec_join(parts.skip(vi + 1), " "@), '('),
                        ')',
                    ),
                );
                let tuples = spec_split_str(vals, "), ("@);
                Ok(
                    (
                        parts[2],
                        tuples.map_values(|t: Seq<char>| spec_split_char(spec_strip(t), ',')),
                    ),
                )
            },
        }
    }
}

/// Parse an INSERT, under the view of `spec_parse_insert`.
pub fn parse_insert(input: &str) -> (r: Result<Command, String>)
    ensures
        match r {
            Ok(cmd) => spec_parse_insert(input@) is Ok && cmd@ == (CommandV::Insert {
                table: spec_parse_insert(input@)->Ok_0.0,
                rows: spec_parse_insert(input@)->Ok_0.1,
            }),
            Err(e) => spec_parse_insert(input@) is Err && e@ == spec_parse_insert(input@)->Err_0,
        },
{
    let parts = split_ws(input);
    if parts.len() < 3 {
        return Err(String::from_str("Bad query"));
    }
    match position_eq(&parts, "VALUES") {
        None => Err(String::from_str("'VALUES' not found")),
        Some(vi) => {
            let tail = sub_vec(&parts, vi + 1, parts.len());
            proof {
                assert(views_of(tail@) =~= views_of(parts@).skip(vi + 1));
            }
            let joined = join_strings(&tail, " ");
            let v1 = trim_lead_char(joined.as_str(), '(');
            let v2 = trim_trail_char(v1.as_str(), ')');
            let vals = trim(v2.as_str());
            let tuples = split_str(vals.as_str(), "), (");
            let ghost tuplesv = views_of(tuples@);
            let mut rows: Vec<Vec<String>> = Vec::new();
            let nt = tuples.len();
            let mut k: usize = 0;
            while k < nt
                invariant
                    nt == tuples@.len(),
                    k <= nt,
                    tuplesv == views_of(tuples@),
                    views2_of(rows@).len() == k,
                    forall|j: int|
                        0 <= j < k ==> views2_of(rows@)[j] == spec_split_char(
                            spec_strip(tuplesv[j]),
                            ',',
                        ),
                decreases nt - k,
            {
                let cleaned = strip_special(tuples[k].as_str());
                let row = split_char(cleaned.as_str(), ',');
                let ghost pre_rows = rows@;
                proof {
                    crate::strutil::lemma_views2_of_push(pre_rows, row);
                }
                rows.push(row);
                proof {
                    assert(tuplesv[k as int] == tuples@[k as int]@);
                    assert(views2_of(rows@)[k as int] == spec_split_char(
                        spec_strip(tuplesv[k as int]),
                        ',',
                    ));
                    assert forall|j: int| 0 <= j < k + 1 implies views2_of(rows@)[j]
                        == spec_split_char(spec_strip(tuplesv[j]), ',') by {
                        if j < k {
                            assert(views2_of(rows@)[j] == views2_of(pre_rows)[j]);
                        }
                    }
                }
                k = k + 1;
            }
            let table = parts[2].clone();
            proof {
                assert(views_of(parts@)[2] == parts@[2]@);
                assert(views2_of(rows@) =~= views_of(tuples@).map_values(
                    |t: Seq<char>| spec_split_char(spec_strip(t), ','),
                ));
            }
            Ok(Command::Insert { table, rows })
        },
    }
}

/// A DELETE parsed: the third space-separated token names the table; the
/// WHERE clause is mandatory.
pub open spec fn spec_parse_delete(s: Seq<char>) -> Result<
    (Seq<char>, Seq<Seq<CondV>>),
    Seq<char>,
> {
    let parts = spec_split_char(s, ' ');
    if parts.len() < 3 {
        Err("Bad query"@)
    } else {
        match spec_parse_where(s) {
            None => Err("No WHERE clause found"@),
            Some(groups) => Ok((parts[2], groups)),
        }
    }
}

/// Parse a DELETE, under the view of `spec_parse_delete`.
pub fn parse_delete(query: &str) -> (r: Result<Command, String>)
    ensures
        match r {
            Ok(cmd) => spec_parse_delete(query@) is Ok && cmd@ == (CommandV::Delete {
                table: spec_parse_delete(query@)->Ok_0.0,
                groups: spec_parse_delete(query@)->Ok_0.1,
            }),
            Err(e) => spec_parse_delete(query@) is Err && e@ == spec_parse_delete(query@)->Err_0,
        },
{
    let parts = split_char(query, ' ');
    if parts.len() < 3 {
        return Err(String::from_str("Bad query"));
    }
    match parse_where(query) {
        None => Err(String::from_str("No WHERE clause found")),
        Some(groups) => {
            let table = parts[2].clone();
            proof {
                assert(views_of(parts@)[2] == parts@[2]@);
            }
            Ok(Command::Delete { table, groups })
        },
    }
}

/// A SELECT parsed: the projected columns sit between the first `SELECT`
/// and `FROM` tokens, the tables between `FROM` and `WHERE` (or the end),
/// both comma-split and trimmed; the WHERE clause is optional. Token ranges
/// that would run backwards are read as empty.
pub open spec fn spec_parse_select(s: Seq<char>) -> Result<
    (Seq<Seq<char>>, Seq<Seq<char>>, Option<Seq<Seq<CondV>>>),
    Seq<char>,
> {
    let parts = spec_split_char(s, ' ');
    match spec_first_eq(parts, "SELECT"@) {
        None => Err("No SELECT found"@),
        Some(si) => match spec_first_eq(parts, "FROM"@) {
            None => Err("No FROM found"@),
            Some(fi) => {
                let chi = if fi >= si + 1 {
                    fi
                } else {
                    si + 1
                };
                let columns_part = spec_join(parts.subrange(si + 1, chi), " "@);
                let thi = match spec_first_eq(parts, "WHERE"@) {
                    Some(w) => if w >= fi + 1 {
                        w
                    } else {
                        fi + 1
                    },
                    None => parts.len() as int,
                };
                let tables_part = spec_join(parts.subrange(fi + 1, thi), " "@);
                Ok(
                    (
                        spec_split_char(tables_part, ',').map_values(|t: Seq<char>| spec_trim(t)),
                        spec_split_char(columns_part, ',').map_values(|c: Seq<char>| spec_trim(c)),
                        spec_parse_where(s),
                    ),
                )
            },
        },
    }
}

/// Parse a SELECT, under the view of `spec_parse_select`.
pub fn parse_select(query: &str) -> (r: Result<Command, String>)
    ensures
        match r {
            Ok(cmd) => spec_parse_select(query@) is Ok && cmd@ == (CommandV::Select {
                tables: spec_parse_select(query@)->Ok_0.0,
                columns: spec_parse_select(query@)->Ok_0.1,
                filter: spec_parse_select(query@)->Ok_0.2,
            }),
            Err(e) => spec_parse_select(query@) is Err && e@ == spec_parse_select(query@)->Err_0,
        },
{
    let parts = split_char(query, ' ');
    let si = match position_eq(&parts, "SELECT") {
        None => {
            return Err(String::from_str("No SELECT found"));
        },
        Some(si) => si,
    };
    let fi = match position_eq(&parts, "FROM") {
        None => {
            return Err(String::from_str("No FROM found"));
        },
        Some(fi) => fi,
    };
    let np = parts.len();
    proof {
        assert(si < np);
        assert(fi < np);
    }
    let chi = if fi >= si + 1 {
        fi
    } else {
        si + 1
    };
    let cols_slice = sub_vec(&parts, si + 1, chi);
    let columns_part = join_strings(&cols_slice, " ");
    let thi = match position_eq(&parts, "WHERE") {
        Some(w) => if w >= fi + 1 {
            w
        } else {
            fi + 1
        },
        None => parts.len(),
    };
    let tables_slice = sub_vec(&parts, fi + 1, thi);
    let tables_part = join_strings(&tables_slice, " ");
    let columns_raw = split_char(columns_part.as_str(), ',');
    let columns = trim_all(&columns_raw);
    let tables_raw = split_char(tables_part.as_str(), ',');
    let tables = trim_all(&tables_raw);
    let groups = parse_where(query);
    proof {
        assert(spec_parse_select(query@) is Ok);
    }
    Ok(Command::Select { tables, columns, filter: groups })
}

} // verus!
