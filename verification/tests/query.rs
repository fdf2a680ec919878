//! The query language.

use bunnymeshdb::node::hlc::Hlc;
use bunnymeshdb::node::ident::PublicKey;
use bunnymeshdb::query::{
    classify, eval, eval_at, repl_line, QueryCtx, QueryError, QueryValue, ReplStep, StmtKind, StoreRef,
};
use bunnymeshdb::storage::{ConflictPolicy, Disk, StorageError, Store};

fn fresh() -> Store {
    Store::open(&Disk { snap: None, dirs: vec![] }).unwrap()
}

fn ctx<'a>(store: &'a mut Store) -> QueryCtx<'a> {
    let host = PublicKey::from_bytes([9u8; 32]);
    QueryCtx { store: StoreRef::Write(store), scope: None, host_id: host, remote: false, clock: Hlc::from(0) }
}

#[test]
fn classify_detects_mutators_including_nested() {
    assert_eq!(classify("get(\"k\")").unwrap(), StmtKind::ReadOnly);
    assert_eq!(classify("by_index(\"f\", \"v\")").unwrap(), StmtKind::ReadOnly);
    assert_eq!(classify("put(\"k\", \"v\")").unwrap(), StmtKind::Mutating);
    assert_eq!(classify("del(\"k\")").unwrap(), StmtKind::Mutating);
    assert_eq!(classify("index_create(\"f\")").unwrap(), StmtKind::Mutating);
    assert_eq!(classify("index_drop()").unwrap(), StmtKind::Mutating);
    assert_eq!(classify("get(put(\"k\", \"v\"))").unwrap(), StmtKind::Mutating);
    assert_eq!(classify("before(get(\"a\"), get(\"b\"))").unwrap(), StmtKind::ReadOnly);
    assert!(classify("nope(").is_err());
}

#[test]
fn readonly_ctx_serves_reads_and_fails_closed_on_mutation() {
    let mut s = fresh();
    let host = PublicKey::from_bytes([9u8; 32]);
    s.create_namespace("photos", ConflictPolicy::Lww).unwrap();
    let mut wc = ctx(&mut s);
    assert_eq!(eval(&mut wc, "use(\"photos\")").map(|v| v.json()).unwrap(), "true");
    assert_eq!(eval(&mut wc, "put(\"1\",\"hello\")").map(|v| v.json()).unwrap(), "true");

    let mut scope_rc = QueryCtx {
        store: StoreRef::Read(&s),
        scope: Some("photos".to_string()),
        host_id: host,
        remote: true,
        clock: Hlc::from(0),
    };
    assert_eq!(eval(&mut scope_rc, "get(\"1\")").map(|v| v.json()).unwrap(), "\"hello\"");
    assert!(eval(&mut scope_rc, "put(\"2\",\"x\")").is_err());
}

#[test]
fn every_function() {
    let mut s = fresh();
    let mut c = ctx(&mut s);
    let r = |c: &mut QueryCtx, src: &str| eval(c, src).map(|v| v.json());
    assert_eq!(r(&mut c, "create_ns(\"photos\")").unwrap(), "true");
    assert_eq!(r(&mut c, "use(\"photos\")").unwrap(), "true");
    assert_eq!(r(&mut c, "put(\"1\",\"hello\")").unwrap(), "true");
    assert_eq!(r(&mut c, "get(\"1\")").unwrap(), "\"hello\"");
    assert_eq!(r(&mut c, "scan(\"\")").unwrap(), "[\"1\",\"hello\"]");
    assert_eq!(r(&mut c, "del(\"1\")").unwrap(), "true");
    assert_eq!(r(&mut c, "get(\"1\")").unwrap(), "null");
    assert_eq!(r(&mut c, "scan(\"\")").unwrap(), "[]");
    assert!(r(&mut c, "now()").unwrap().parse::<u64>().is_ok());
    assert!(r(&mut c, "hlc()").unwrap().parse::<u64>().is_ok());
    assert_eq!(r(&mut c, "before(now(), hlc())").unwrap(), "true");
    assert_eq!(r(&mut c, "before(hlc(), now())").unwrap(), "false");
    assert_eq!(r(&mut c, "clock_skew(\"node2\")").unwrap(), "null");
    assert_eq!(r(&mut c, "put(\"q\",\"a\\\"b\")").unwrap(), "true");
    assert_eq!(r(&mut c, "get(\"q\")").unwrap(), "\"a\\\"b\"");
    assert_eq!(r(&mut c, "before(\"1\",\"2\")").unwrap(), "true");
    assert_eq!(r(&mut c, "before(\"2\",\"1\")").unwrap(), "false");
    assert_eq!(r(&mut c, "before(\"1\", now())").unwrap(), "true");
}

#[test]
fn parse_and_scope_errors() {
    let mut s = fresh();
    match eval(&mut ctx(&mut s), "get(\"a\")") {
        Err(QueryError::Eval(StorageError::NoScope)) => {}
        other => panic!("expected NoScope, got {other:?}"),
    }
    match eval(&mut ctx(&mut s), "grant(\"x\")") {
        Err(QueryError::UnknownFn(n)) => assert_eq!(n, "grant"),
        other => panic!("expected UnknownFn, got {other:?}"),
    }
    match eval(&mut ctx(&mut s), "put(\"abc") {
        Err(QueryError::Parse { msg, .. }) => assert!(msg.contains("unterminated"), "{msg}"),
        other => panic!("expected Parse, got {other:?}"),
    }
    match eval(&mut ctx(&mut s), "now(") {
        Err(QueryError::Parse { .. }) => {}
        other => panic!("expected Parse, got {other:?}"),
    }
    match eval(&mut ctx(&mut s), "now() extra") {
        Err(QueryError::Parse { .. }) => {}
        other => panic!("expected Parse, got {other:?}"),
    }
    match eval(&mut ctx(&mut s), "use(\"nope\")") {
        Err(QueryError::Eval(StorageError::NotFound(n))) => assert_eq!(n, "nope"),
        other => panic!("expected NotFound, got {other:?}"),
    }
    match eval(&mut ctx(&mut s), "now(\"x\")") {
        Err(QueryError::Type(_)) => {}
        other => panic!("expected Type, got {other:?}"),
    }
}

#[test]
fn put_get_scan_persist_across_reopen() {
    let disk = {
        let mut s = fresh();
        let mut c = ctx(&mut s);
        eval(&mut c, "create_ns(\"n\")").unwrap();
        eval(&mut c, "use(\"n\")").unwrap();
        eval(&mut c, "put(\"a\",\"1\")").unwrap();
        eval(&mut c, "put(\"b/c\",\"2\")").unwrap();
        s.disk()
    };
    let mut s = Store::open(&disk).unwrap();
    let mut c = ctx(&mut s);
    eval(&mut c, "use(\"n\")").unwrap();
    assert_eq!(eval(&mut c, "get(\"a\")").unwrap().json(), "\"1\"");
    let rows = eval(&mut c, "scan(\"b\")").unwrap();
    assert_eq!(rows, QueryValue::List(vec![QueryValue::Str("b/c".into()), QueryValue::Str("2".into())]));
}

#[test]
fn secondary_index_derived_and_queried() {
    let disk = {
        let mut s = fresh();
        let mut c = ctx(&mut s);
        eval(&mut c, "create_ns(\"people\")").unwrap();
        eval(&mut c, "use(\"people\")").unwrap();
        eval(&mut c, "put(\"ada\", \"{\\\"city\\\":\\\"london\\\"}\")").unwrap();
        eval(&mut c, "put(\"bob\", \"{\\\"city\\\":\\\"paris\\\"}\")").unwrap();
        eval(&mut c, "put(\"cyn\", \"{\\\"city\\\":\\\"london\\\"}\")").unwrap();
        assert_eq!(eval(&mut c, "index_create(\"city\")").unwrap().json(), "true");
        let rows = eval(&mut c, "by_index(\"city\",\"london\")").unwrap();
        assert_eq!(
            rows,
            QueryValue::List(vec![QueryValue::Str("ada".into()), QueryValue::Str("cyn".into())])
        );
        let rows2 = eval(&mut c, "by_index(\"city\",\"paris\")").unwrap();
        assert_eq!(rows2, QueryValue::List(vec![QueryValue::Str("bob".into())]));
        eval(&mut c, "put(\"bob\", \"{\\\"city\\\":\\\"london\\\"}\")").unwrap();
        let rows3 = eval(&mut c, "by_index(\"city\",\"london\")").unwrap();
        assert_eq!(
            rows3,
            QueryValue::List(vec![
                QueryValue::Str("ada".into()),
                QueryValue::Str("bob".into()),
                QueryValue::Str("cyn".into())
            ])
        );
        eval(&mut c, "del(\"ada\")").unwrap();
        let rows4 = eval(&mut c, "by_index(\"city\",\"london\")").unwrap();
        assert_eq!(
            rows4,
            QueryValue::List(vec![QueryValue::Str("bob".into()), QueryValue::Str("cyn".into())])
        );
        s.disk()
    };
    let mut s = Store::open(&disk).unwrap();
    let mut c = ctx(&mut s);
    eval(&mut c, "use(\"people\")").unwrap();
    assert_eq!(eval(&mut c, "index_fields()").unwrap().json(), "[\"city\"]");
    let rows = eval(&mut c, "by_index(\"city\",\"london\")").unwrap();
    assert_eq!(
        rows,
        QueryValue::List(vec![QueryValue::Str("bob".into()), QueryValue::Str("cyn".into())])
    );
}

#[test]
fn remote_ql_cannot_escape_scope_or_create_ns() {
    let disk = {
        let mut s = fresh();
        let mut c = ctx(&mut s);
        eval(&mut c, "create_ns(\"app\")").unwrap();
        eval(&mut c, "use(\"app\")").unwrap();
        c.remote = true;
        assert!(matches!(eval(&mut c, "create_ns(\"evil\")"), Err(QueryError::Type(_))));
        assert!(matches!(eval(&mut c, "use(\"other\")"), Err(QueryError::Type(_))));
        s.disk()
    };
    let s = Store::open(&disk).unwrap();
    assert!(s.policy("evil").is_none(), "remote create_ns must not create the ns");
    assert!(s.policy("app").is_some(), "local create_ns still allowed");
}

#[test]
fn reads_change_nothing() {
    let mut s = fresh();
    s.create_namespace("n", ConflictPolicy::Lww).unwrap();
    let before = s.revision();
    let mut c = ctx(&mut s);
    eval_at(&mut c, "use(\"n\")", 5).unwrap();
    eval_at(&mut c, "scan(\"\")", 5).unwrap();
    eval_at(&mut c, "get(\"x\")", 5).unwrap();
    assert_eq!(s.revision(), before);
}

#[test]
fn messages_name_the_place() {
    let mut s = fresh();
    let e = eval_at(&mut ctx(&mut s), "now() extra", 0).unwrap_err();
    assert!(e.message().starts_with("parse error at 1:"), "{}", e.message());
    let e = eval_at(&mut ctx(&mut s), "grant()", 0).unwrap_err();
    assert_eq!(e.message(), "unknown function: grant");
    let e = eval_at(&mut ctx(&mut s), "get(\"a\")", 0).unwrap_err();
    assert_eq!(e.message(), "eval error: no namespace selected: call use() first");
}

#[test]
fn escapes_and_numbers_are_shown() {
    let mut s = fresh();
    let mut c = ctx(&mut s);
    eval_at(&mut c, "create_ns(\"n\")", 1).unwrap();
    eval_at(&mut c, "use(\"n\")", 1).unwrap();
    eval_at(&mut c, "put(\"k\", \"a\\\\b\")", 77).unwrap();
    assert_eq!(eval_at(&mut c, "get(\"k\")", 1).unwrap().json(), "\"a\\\\b\"");
    let e = eval_at(&mut c, "put(\"k\", now())", 77).unwrap_err();
    assert_eq!(e.message(), "type error: expected string from now, got Num(77)");
    assert_eq!(eval_at(&mut c, "now()", 77).unwrap(), QueryValue::Num(77));
}

#[test]
fn a_session_takes_lines() {
    let mut s = fresh();
    let mut c = ctx(&mut s);
    assert!(matches!(repl_line(&mut c, "  \n", 1), ReplStep::Skip));
    assert!(matches!(repl_line(&mut c, " exit\n", 1), ReplStep::Exit));
    match repl_line(&mut c, " now() \n", 42) {
        ReplStep::Answer(Ok(v)) => assert_eq!(v.json(), "42"),
        other => panic!("{other:?}"),
    }
    assert!(matches!(repl_line(&mut c, "exit()", 1), ReplStep::Answer(Err(QueryError::UnknownFn(_)))));
}

#[test]
fn arguments_are_parted_by_one_comma() {
    let mut s = fresh();
    for src in [
        "put(\"a\" \"b\")",
        "put(\"a\",,\"b\")",
        "put(\"a\",\"b\",)",
        "put(,\"a\",\"b\")",
        "put(,)",
        "now(,)",
        "get(\"a\",)",
    ] {
        match eval(&mut ctx(&mut s), src) {
            Err(QueryError::Parse { .. }) => {}
            other => panic!("{src}: expected Parse, got {other:?}"),
        }
    }
    assert_eq!(eval_at(&mut ctx(&mut s), "before( now( ) , hlc() )", 1).unwrap().json(), "true");
}

#[test]
fn json_escapes_control_characters() {
    let s = QueryValue::Str("a\u{1}\u{8}\u{c}\n\r\t\u{1f}\u{7f}\"\\/é\u{2028}".to_string());
    let text = s.json();
    assert_eq!(text, "\"a\\u0001\\b\\f\\n\\r\\t\\u001f\u{7f}\\\"\\\\/é\u{2028}\"");
    let back: String = serde_json::from_str(&text).unwrap();
    assert_eq!(back, "a\u{1}\u{8}\u{c}\n\r\t\u{1f}\u{7f}\"\\/é\u{2028}");
    assert_eq!(QueryValue::List(vec![QueryValue::Str("\u{1}".into())]).json(), "[\"\\u0001\"]");
}
