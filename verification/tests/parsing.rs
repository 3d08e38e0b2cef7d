use pagedb::codec::counter_to_text;
use pagedb::codec::lock_to_text;
use pagedb::codec::page_to_text;
use pagedb::codec::parse_counter;
use pagedb::codec::parse_lock;
use pagedb::codec::parse_page;
use pagedb::map::MyHashMap;
use pagedb::parser::parse_condition;
use pagedb::parser::parse_delete;
use pagedb::parser::parse_insert;
use pagedb::parser::parse_select;
use pagedb::parser::parse_where;
use pagedb::storage::Page;
use pagedb::strutil::parse_u64;
use pagedb::strutil::split_char;
use pagedb::strutil::split_str;
use pagedb::strutil::split_ws;
use pagedb::strutil::strip_special;
use pagedb::strutil::trim;
use pagedb::strutil::u64_to_string;
use pagedb::types::Command;
use pagedb::exec::execute_conditions;
use pagedb::types::Condition;

#[test]
fn insert_parses_batches_and_strips_values() {
    let cmd = parse_insert("INSERT INTO T VALUES ('a', 'b'), ( 'c' )").unwrap();
    match cmd {
        Command::Insert { table, rows } => {
            assert_eq!(table, "T");
            assert_eq!(
                rows,
                vec![
                    vec!["a".to_string(), "b".to_string()],
                    vec!["c".to_string()],
                ]
            );
        }
        _ => panic!("expected an INSERT"),
    }
}

#[test]
fn insert_without_values_is_an_error() {
    let e = parse_insert("INSERT INTO T ('a')").unwrap_err();
    assert_eq!(e, "'VALUES' not found");
}

#[test]
fn insert_with_too_few_tokens_is_an_error() {
    let e = parse_insert("INSERT INTO").unwrap_err();
    assert_eq!(e, "Bad query");
}

#[test]
fn delete_requires_where() {
    let e = parse_delete("DELETE FROM T").unwrap_err();
    assert_eq!(e, "No WHERE clause found");
    let cmd = parse_delete("DELETE FROM T WHERE T.id = '2'").unwrap();
    match cmd {
        Command::Delete { table, groups } => {
            assert_eq!(table, "T");
            assert_eq!(groups.len(), 1);
            assert_eq!(groups[0].len(), 1);
            assert_eq!(groups[0][0].field, "T.id");
            assert_eq!(groups[0][0].value, "2");
        }
        _ => panic!("expected a DELETE"),
    }
}

#[test]
fn select_splits_tables_and_columns() {
    let cmd = parse_select("SELECT T1.a, T2.b FROM T1, T2 WHERE T1.a = '1'").unwrap();
    match cmd {
        Command::Select { tables, columns, filter } => {
            assert_eq!(tables, vec!["T1".to_string(), "T2".to_string()]);
            assert_eq!(columns, vec!["T1.a".to_string(), "T2.b".to_string()]);
            let g = filter.expect("expected a WHERE clause");
            assert_eq!(g.len(), 1);
            assert_eq!(g[0][0].field, "T1.a");
            assert_eq!(g[0][0].value, "1");
        }
        _ => panic!("expected a SELECT"),
    }
}

#[test]
fn select_without_from_is_an_error() {
    let e = parse_select("SELECT T.a").unwrap_err();
    assert_eq!(e, "No FROM found");
}

#[test]
fn where_grammar_is_or_of_and() {
    let groups = parse_where("DELETE FROM T WHERE T.a = '1' AND T.b = '2' OR T.c = '3'").unwrap();
    assert_eq!(groups.len(), 2);
    assert_eq!(groups[0].len(), 2);
    assert_eq!(groups[0][0].field, "T.a");
    assert_eq!(groups[0][0].value, "1");
    assert_eq!(groups[0][1].field, "T.b");
    assert_eq!(groups[0][1].value, "2");
    assert_eq!(groups[1].len(), 1);
    assert_eq!(groups[1][0].field, "T.c");
    assert_eq!(groups[1][0].value, "3");
}

#[test]
fn condition_without_equals_is_dropped() {
    assert!(parse_condition("no equals here").is_none());
    let c = parse_condition(" T.a = 'x' ").unwrap();
    assert_eq!(c.field, "T.a");
    assert_eq!(c.value, "x");
}

#[test]
fn condition_groups_match_or_of_and() {
    let cond = |f: &str, v: &str| Condition { field: f.to_string(), value: v.to_string() };
    let groups = vec![vec![cond("A", "1"), cond("B", "2")], vec![cond("C", "3")]];

    let mut full = MyHashMap::new();
    full.insert("A".to_string(), "1".to_string());
    full.insert("B".to_string(), "2".to_string());
    assert!(execute_conditions(&groups, &full));

    // A row missing field A fails the first AND-group even though B matches.
    let mut missing_a = MyHashMap::new();
    missing_a.insert("B".to_string(), "2".to_string());
    assert!(!execute_conditions(&groups, &missing_a));

    // The second OR-group alone is enough.
    let mut only_c = MyHashMap::new();
    only_c.insert("C".to_string(), "3".to_string());
    only_c.insert("A".to_string(), "9".to_string());
    assert!(execute_conditions(&groups, &only_c));
}

#[test]
fn map_insert_get_and_order() {
    let mut m: MyHashMap<String> = MyHashMap::new();
    assert_eq!(m.len(), 0);
    m.insert("k1".to_string(), "v1".to_string());
    m.insert("k2".to_string(), "v2".to_string());
    m.insert("k1".to_string(), "v3".to_string());
    assert_eq!(m.len(), 2);
    assert_eq!(m.get(&"k1".to_string()), Some(&"v3".to_string()));
    assert_eq!(m.get(&"k2".to_string()), Some(&"v2".to_string()));
    assert_eq!(m.get(&"nope".to_string()), None);
    let mut it = m.iter();
    let first = it.next().unwrap();
    assert_eq!(first.0, "k1");
    assert_eq!(first.1, "v3");
    let second = it.next().unwrap();
    assert_eq!(second.0, "k2");
    assert!(it.next().is_none());
}

#[test]
fn map_get_mut_extend_and_clone() {
    let mut m: MyHashMap<String> = MyHashMap::new();
    m.insert("k".to_string(), "old".to_string());
    *m.get_mut(&"k".to_string()).unwrap() = "new".to_string();
    assert!(m.get_mut(&"missing".to_string()).is_none());
    assert_eq!(m.get(&"k".to_string()), Some(&"new".to_string()));

    let copy = m.clone();
    assert_eq!(copy.get(&"k".to_string()), Some(&"new".to_string()));

    let mut other: MyHashMap<String> = MyHashMap::new();
    other.insert("k".to_string(), "theirs".to_string());
    other.insert("k2".to_string(), "v2".to_string());
    m.extend(other);
    assert_eq!(m.get(&"k".to_string()), Some(&"theirs".to_string()));
    assert_eq!(m.get(&"k2".to_string()), Some(&"v2".to_string()));
}

#[test]
fn numerals_render_and_parse() {
    assert_eq!(u64_to_string(0), "0");
    assert_eq!(u64_to_string(7), "7");
    assert_eq!(u64_to_string(12345), "12345");
    assert_eq!(u64_to_string(u64::MAX), "18446744073709551615");
    assert_eq!(parse_u64("0"), Some(0));
    assert_eq!(parse_u64("12345"), Some(12345));
    assert_eq!(parse_u64("18446744073709551615"), Some(u64::MAX));
    assert_eq!(parse_u64("18446744073709551616"), None);
    assert_eq!(parse_u64(""), None);
    assert_eq!(parse_u64("12x"), None);
}

#[test]
fn string_splitting_behaves_like_std() {
    let pieces = split_char("a,b,,c", ',');
    assert_eq!(pieces, vec!["a", "b", "", "c"]);
    let pieces = split_str("x OR y OR ", " OR ");
    assert_eq!(pieces, vec!["x", "y", ""]);
    let pieces = split_ws("  a \t b\nc ");
    assert_eq!(pieces, vec!["a", "b", "c"]);
    assert_eq!(trim("  x y\n"), "x y");
    assert_eq!(strip_special("('a b')"), "ab");
}

#[test]
fn page_text_round_trips() {
    let page = Page {
        header: vec!["id".to_string(), "name".to_string()],
        rows: vec![
            vec!["1".to_string(), "a".to_string()],
            vec!["2".to_string(), "b".to_string()],
        ],
    };
    let text = page_to_text(&page);
    assert_eq!(text, "id,name\n1,a\n2,b\n");
    let back = parse_page(&text).unwrap();
    assert_eq!(back.header, page.header);
    assert_eq!(back.rows, page.rows);
}

#[test]
fn header_only_page_round_trips() {
    let page = Page { header: vec!["id".to_string()], rows: vec![] };
    let text = page_to_text(&page);
    assert_eq!(text, "id\n");
    let back = parse_page(&text).unwrap();
    assert_eq!(back.header, vec!["id".to_string()]);
    assert!(back.rows.is_empty());
    assert!(parse_page("").is_none());
}

#[test]
fn counter_and_lock_files_round_trip() {
    assert_eq!(counter_to_text(42), "42\n");
    assert_eq!(parse_counter("42\n"), Some(42));
    assert_eq!(parse_counter(" 7 "), Some(7));
    assert_eq!(parse_counter("abc"), None);
    assert_eq!(lock_to_text(true), "1\n");
    assert_eq!(lock_to_text(false), "0\n");
    assert!(parse_lock("1\n"));
    assert!(!parse_lock("0\n"));
    assert!(!parse_lock(""));
}
