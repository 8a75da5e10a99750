use logos::db::{Error, Fact, StoreUri, Tx, TxItem, parse_store_uri};
use logos::parser::{Input, parse_input, parse_query, parse_tx};
use logos::query::{Clause, Query, Term, Var};
use logos::value::{Entity, Value};

#[test]
fn test_parse_query() {
    assert_eq!(
        parse_query("find ?a where (?a name \"Bob\")").unwrap(),
        Query {
            find: vec![Var::new("a")],
            clauses: vec![Clause::new(
                Term::Unbound(Var::new("a")),
                Term::Bound("name".to_string()),
                Term::Bound(Value::String("Bob".to_string())),
            )],
        }
    )
}

#[test]
fn test_parse_tx() {
    assert_eq!(
        parse_tx("add (0 name \"Bob\")").unwrap(),
        Tx {
            items: vec![TxItem::Addition(Fact::new(
                Entity(0),
                "name".to_string(),
                Value::String("Bob".to_string()),
            ))],
        }
    );
    parse_tx("{name \"Bob\" batch \"S1'17\"}").unwrap();
}

#[test]
fn test_parsing_idents() {
    let q = Query {
        find: vec![Var::new("p")],
        clauses: vec![Clause::new(
            Term::Unbound(Var::new("p")),
            Term::Bound("country".to_string()),
            Term::Bound(Value::Ident("country:US".to_string())),
        )],
    };

    assert_eq!(parse_query("find ?p where (?p country country:US)").unwrap(), q);
}

#[test]
fn test_parse_input_kinds() {
    assert!(matches!(
        parse_input("find ?a where (?a name \"Bob\")"),
        Ok(Input::Query(_))
    ));
    assert!(matches!(parse_input("add (0 name \"Bob\")"), Ok(Input::Tx(_))));
    assert!(matches!(parse_input("test"), Ok(Input::SampleDb)));
    assert!(matches!(parse_input("dump"), Ok(Input::Dump)));
    assert_eq!(
        parse_input("find where nothing").map(|_| ()),
        Err(Error::ParseError)
    );
}

#[test]
fn test_store_uri_schemes() {
    assert_eq!(parse_store_uri("logos:mem://"), Ok(StoreUri::Mem));
    assert_eq!(
        parse_store_uri("logos:sqlite:///tmp/db"),
        Ok(StoreUri::Sqlite("/tmp/db".to_string()))
    );
    assert_eq!(
        parse_store_uri("logos:cass://host"),
        Ok(StoreUri::Cassandra("host".to_string()))
    );
    assert_eq!(parse_store_uri("http://nope"), Err(Error::InvalidUri));
}

#[test]
fn test_parse_error_on_garbage() {
    assert_eq!(parse_query("find ?a whence (?a)").map(|_| ()), Err(Error::ParseError));
    assert_eq!(parse_tx("add (x name \"Bob\")").map(|_| ()), Err(Error::ParseError));
}
