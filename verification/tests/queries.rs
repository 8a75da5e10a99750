use logos::db::{Db, Error, Fact, QueryResult, Tx, TxItem};
use logos::parser::{parse_query, parse_tx};
use logos::query::{Binding, Clause, Term, Var};
use logos::store::HeapStore;
use logos::value::{Entity, Value};

fn test_db() -> Db {
    let store = HeapStore::new();
    let mut db = Db::new(store).unwrap();
    let records = vec![
        Fact::new(Entity(0), "name".to_string(), Value::String("Bob".to_string())),
        Fact::new(Entity(1), "name".to_string(), Value::String("John".to_string())),
        Fact::new(Entity(2), "Hello".to_string(), Value::String("World".to_string())),
        Fact::new(Entity(1), "parent".to_string(), Value::Entity(Entity(0))),
    ];

    parse_tx("{db:ident name} {db:ident parent} {db:ident Hello}")
        .map(|tx| db.transact(tx))
        .unwrap()
        .unwrap();

    db.transact(Tx {
        items: records.into_iter().map(TxItem::Addition).collect(),
    })
    .unwrap();

    db
}

fn expect_query_result(query_text: &str, expected: QueryResult) {
    let db = test_db();
    let query = parse_query(query_text).unwrap();
    let result = db.query(&query).unwrap();
    assert_eq!(expected, result);
}

fn binding(pairs: Vec<(&str, Value)>) -> Binding {
    let mut b = Binding::new();
    for (name, value) in pairs {
        b.set(&Var::new(name), value);
    }
    b
}

#[test]
fn test_query_unknown_entity() {
    // find ?a where (?a name "Bob")
    expect_query_result(
        "find ?a where (?a name \"Bob\")",
        QueryResult(
            vec![Var::new("a")],
            vec![binding(vec![("a", Value::Entity(Entity(0)))])],
        ),
    );
}

#[test]
fn test_query_unknown_value() {
    // find ?a where (0 name ?a)
    expect_query_result(
        "find ?a where (0 name ?a)",
        QueryResult(
            vec![Var::new("a")],
            vec![binding(vec![("a", Value::String("Bob".to_string()))])],
        ),
    );
}

#[test]
fn test_query_multiple_results() {
    // find ?a ?b where (?a name ?b)
    expect_query_result(
        "find ?a ?b where (?a name ?b)",
        QueryResult(
            vec![Var::new("a"), Var::new("b")],
            vec![
                binding(vec![
                    ("a", Value::Entity(Entity(0))),
                    ("b", Value::String("Bob".to_string())),
                ]),
                binding(vec![
                    ("a", Value::Entity(Entity(1))),
                    ("b", Value::String("John".to_string())),
                ]),
            ],
        ),
    );
}

#[test]
fn test_query_explicit_join() {
    // find ?b where (?a name Bob) (?b parent ?a)
    expect_query_result(
        "find ?b where (?a name \"Bob\") (?b parent ?a)",
        QueryResult(
            vec![Var::new("b")],
            vec![binding(vec![("b", Value::Entity(Entity(1)))])],
        ),
    );
}

#[test]
fn test_query_implicit_join() {
    // find ?c where (?a name Bob) (?b name ?c) (?b parent ?a)
    expect_query_result(
        "find ?c where (?a name \"Bob\") (?b name ?c) (?b parent ?a)",
        QueryResult(
            vec![Var::new("c")],
            vec![binding(vec![("c", Value::String("John".to_string()))])],
        ),
    );
}

#[test]
fn test_type_mismatch() {
    let db = test_db();
    let q = parse_query("find ?e ?n where (?e name ?n) (?n name \"hi\")").unwrap();
    assert_eq!(db.query(&q), Err(Error::TypeMismatch));
}

#[test]
fn test_records_matching() {
    let db = test_db();
    let matching = db
        .records_matching(
            &Clause::new(
                Term::Unbound(Var::new("e")),
                Term::Bound("name".to_string()),
                Term::Bound(Value::String("Bob".to_string())),
            ),
            &Binding::new(),
        )
        .unwrap();
    assert_eq!(matching.len(), 1);
    let rec = &matching[0];
    assert_eq!(rec.entity, Entity(0));
    assert_eq!(rec.value, Value::String("Bob".to_string()));
}

#[test]
fn test_bootstrap_idents() {
    let db = Db::new(HeapStore::new()).unwrap();
    assert_eq!(db.idents().get_entity("db:ident"), Some(Entity(1)));
    assert_eq!(db.idents().get_entity("db:txInstant"), Some(Entity(2)));
    assert_eq!(db.next_id(), 3);
}

#[test]
fn test_monotone_ids() {
    let store = HeapStore::new();
    let mut db = Db::new(store).unwrap();
    let before = db.next_id();
    let report = db
        .transact(parse_tx("{db:ident name}").unwrap())
        .unwrap();
    let mid = db.next_id();
    assert!(before < mid);
    for e in &report.new_entities {
        assert!(e.0 >= before && e.0 < mid);
    }
    let report2 = db
        .transact(parse_tx("{name \"Ada\"} {name \"Lin\"}").unwrap())
        .unwrap();
    let after = db.next_id();
    assert!(mid < after);
    assert_eq!(report2.new_entities.len(), 2);
    for e in &report2.new_entities {
        assert!(e.0 >= mid && e.0 < after);
    }
}

#[test]
fn test_reload_answers_identically() {
    let db = test_db();
    let db2 = Db::new(db.store().clone()).unwrap();
    for q in [
        "find ?a where (?a name \"Bob\")",
        "find ?a ?b where (?a name ?b)",
        "find ?c where (?a name \"Bob\") (?b name ?c) (?b parent ?a)",
    ] {
        let query = parse_query(q).unwrap();
        assert_eq!(db.query(&query).unwrap(), db2.query(&query).unwrap());
    }
    assert_eq!(db.next_id(), db2.next_id());
}

#[test]
fn test_failed_transact_commits_nothing() {
    let mut db = test_db();
    let q = parse_query("find ?a ?b where (?a name ?b)").unwrap();
    let before = db.query(&q).unwrap();
    // the second item names an attribute never declared: the whole
    // transaction is rejected
    let tx = parse_tx("add (7 name \"Eve\") add (8 nosuchattr \"x\")").unwrap();
    let err = db.transact(tx);
    assert_eq!(err, Err(Error::InvalidAttribute("nosuchattr".to_string())));
    // a database reloaded from the store sees no partial records
    let db2 = Db::new(db.store().clone()).unwrap();
    assert_eq!(db2.query(&q).unwrap(), before);
}

#[test]
fn test_retraction_unimplemented() {
    let mut db = test_db();
    let tx = parse_tx("retract (0 name \"Bob\")").unwrap();
    assert_eq!(db.transact(tx), Err(Error::Unimplemented));
}

#[test]
fn test_duplicate_assertion_is_idempotent() {
    // within one transaction both additions carry the same tx entity, so
    // the records are equal under every order and the second is a no-op
    let mut db = test_db();
    db.transact(parse_tx("add (9 name \"Nia\") add (9 name \"Nia\")").unwrap())
        .unwrap();
    let q = parse_query("find ?a where (?a name \"Nia\")").unwrap();
    let r = db.query(&q).unwrap();
    assert_eq!(r.1, vec![binding(vec![("a", Value::Entity(Entity(9)))])]);
    // re-asserted in a second transaction, the same (entity, attribute,
    // value) coexists under its new tx stamp
    db.transact(parse_tx("add (9 name \"Nia\")").unwrap()).unwrap();
    let r2 = db.query(&q).unwrap();
    assert_eq!(r2.1.len(), 2);
}

#[test]
fn test_empty_string_sorts_first() {
    // the surface grammar cannot write an empty string literal, so build
    // the transaction directly; the empty string is the least value
    let mut db = test_db();
    db.transact(Tx {
        items: vec![
            TxItem::Addition(Fact::new(
                Entity(5),
                "name".to_string(),
                Value::String("a".to_string()),
            )),
            TxItem::Addition(Fact::new(
                Entity(5),
                "name".to_string(),
                Value::String("".to_string()),
            )),
        ],
    })
    .unwrap();
    let q = parse_query("find ?v where (5 name ?v)").unwrap();
    let r = db.query(&q).unwrap();
    assert_eq!(
        r.1,
        vec![
            binding(vec![("v", Value::String("".to_string()))]),
            binding(vec![("v", Value::String("a".to_string()))]),
        ]
    );
}

#[test]
fn test_many_records_split_nodes() {
    // enough records to force node splits in every index
    let mut db = test_db();
    let mut items = Vec::new();
    for e in 10..80u64 {
        items.push(TxItem::Addition(Fact::new(
            Entity(e),
            "name".to_string(),
            Value::String(format!("n{}", e)),
        )));
    }
    db.transact(Tx { items }).unwrap();
    let q = parse_query("find ?e ?v where (?e name ?v)").unwrap();
    let r = db.query(&q).unwrap();
    // Bob, John, and the seventy new ones
    assert_eq!(r.1.len(), 72);
}
