use notion_models::ids::{BlockId, DatabaseId, PageId, PagingCursor, Timestamp};
use notion_models::json::Json;
use notion_models::models::{
    dedup_by_identity, Block, Database, Error, ListResponse, Object, Page, Parent,
};
use notion_models::properties::{Properties, PropertyConfiguration, PropertyValue};
use notion_models::text::RichText;

fn seg(s: &str) -> RichText {
    RichText { plain_text: s.to_string() }
}

fn sample_properties() -> Properties {
    Properties {
        properties: vec![
            (
                "Name".to_string(),
                PropertyValue::Title {
                    id: "title".to_string(),
                    title: vec![seg("Hello"), seg(" world")],
                },
            ),
            (
                "Done".to_string(),
                PropertyValue::Other {
                    payload: Json::Obj(vec![
                        ("id".to_string(), Json::Str("ck".to_string())),
                        ("type".to_string(), Json::Str("checkbox".to_string())),
                        ("checkbox".to_string(), Json::Bool(true)),
                    ]),
                },
            ),
        ],
    }
}

fn sample_page(id: &str, edited: &str) -> Page {
    Page {
        id: PageId(id.to_string()),
        created_time: Timestamp("2021-01-01T00:00:00Z".to_string()),
        last_edited_time: Timestamp(edited.to_string()),
        archived: false,
        properties: sample_properties(),
        parent: Parent::Database { database_id: DatabaseId("db-1".to_string()) },
        icon: None,
        url: Some("https://example.test/p".to_string()),
        blocks: None,
    }
}

fn sample_database(id: &str) -> Database {
    Database {
        id: DatabaseId(id.to_string()),
        created_time: Timestamp("2020-05-05T12:00:00Z".to_string()),
        last_edited_time: Timestamp("2020-06-06T12:00:00Z".to_string()),
        title: vec![seg("Tasks")],
        properties: vec![(
            "Name".to_string(),
            PropertyConfiguration {
                payload: Json::Obj(vec![("type".to_string(), Json::Str("title".to_string()))]),
            },
        )],
    }
}

#[test]
fn results_accessor_returns_all_elements() {
    let list: ListResponse<i64> =
        ListResponse { results: vec![1, 2, 3], next_cursor: None, has_more: false };
    assert_eq!(list.results(), &[1, 2, 3]);
}

#[test]
fn strict_narrowing_is_all_or_nothing() {
    let db = sample_database("db-9");
    let list = ListResponse {
        results: vec![
            Object::Page { page: sample_page("p1", "2021-02-02T00:00:00Z") },
            Object::Page { page: sample_page("p2", "2021-02-03T00:00:00Z") },
            Object::Database { database: db },
        ],
        next_cursor: None,
        has_more: false,
    };
    match list.expect_pages() {
        Err(Error::UnexpectedResponse { response }) => {
            assert!(matches!(response, Object::Database { .. }));
            match response {
                Object::Database { database } => assert_eq!(database.id.0, "db-9"),
                _ => unreachable!(),
            }
        }
        Ok(_) => panic!("expected the narrowing to fail"),
    }
}

#[test]
fn strict_narrowing_succeeds_on_homogeneous_lists() {
    let list = ListResponse {
        results: vec![
            Object::Page { page: sample_page("p1", "2021-02-02T00:00:00Z") },
            Object::Page { page: sample_page("p2", "2021-02-03T00:00:00Z") },
        ],
        next_cursor: Some(PagingCursor("cur".to_string())),
        has_more: true,
    };
    let pages = list.expect_pages().unwrap();
    assert_eq!(pages.results.len(), 2);
    assert_eq!(pages.results[0].id.0, "p1");
    assert_eq!(pages.results[1].id.0, "p2");
    assert!(pages.has_more);
    assert_eq!(pages.next_cursor, Some(PagingCursor("cur".to_string())));
}

#[test]
fn expect_blocks_reports_first_mismatch() {
    let list = ListResponse {
        results: vec![
            Object::Block { block: Block { fields: vec![] } },
            Object::Page { page: sample_page("p", "2021-01-01T00:00:00Z") },
            Object::Block { block: Block { fields: vec![] } },
        ],
        next_cursor: None,
        has_more: false,
    };
    match list.expect_blocks() {
        Err(Error::UnexpectedResponse { response }) => {
            assert!(matches!(response, Object::Page { .. }));
        }
        Ok(_) => panic!("expected the narrowing to fail"),
    }
}

#[test]
fn expect_databases_succeeds_and_keeps_order() {
    let list = ListResponse {
        results: vec![
            Object::Database { database: sample_database("a") },
            Object::Database { database: sample_database("b") },
        ],
        next_cursor: None,
        has_more: false,
    };
    let dbs = list.expect_databases().unwrap();
    assert_eq!(dbs.results[0].id.0, "a");
    assert_eq!(dbs.results[1].id.0, "b");
}

#[test]
fn permissive_narrowing_preserves_order_and_envelope() {
    let list = ListResponse {
        results: vec![
            Object::Database { database: sample_database("a") },
            Object::Page { page: sample_page("p", "2021-01-01T00:00:00Z") },
            Object::Database { database: sample_database("b") },
        ],
        next_cursor: Some(PagingCursor("c-token".to_string())),
        has_more: true,
    };
    let dbs = list.only_databases();
    assert_eq!(dbs.results.len(), 2);
    assert_eq!(dbs.results[0].id.0, "a");
    assert_eq!(dbs.results[1].id.0, "b");
    assert!(dbs.has_more);
    assert_eq!(dbs.next_cursor, Some(PagingCursor("c-token".to_string())));
}

#[test]
fn identity_keyed_equality_diverges_from_structural() {
    let p1 = sample_page("same-id", "2021-02-02T00:00:00Z");
    let p2 = sample_page("same-id", "2022-09-09T09:09:09Z");
    assert!(p1.same_identity(&p2));
    assert_ne!(p1, p2);
    let survivors = dedup_by_identity(vec![p1, p2]);
    assert_eq!(survivors.len(), 1);
    assert_eq!(survivors[0].last_edited_time.0, "2021-02-02T00:00:00Z");
}

#[test]
fn database_identity_and_title() {
    let d1 = sample_database("db");
    let mut d2 = sample_database("db");
    d2.title = vec![seg("Other")];
    assert!(d1.same_identity(&d2));
    assert_ne!(d1, d2);
    assert_eq!(d1.title_plain_text(), "Tasks");
    assert_eq!(d1.as_id(), &DatabaseId("db".to_string()));
}

#[test]
fn title_lookup_absent_without_title_kind() {
    let props = Properties {
        properties: vec![(
            "Done".to_string(),
            PropertyValue::Other {
                payload: Json::Obj(vec![(
                    "type".to_string(),
                    Json::Str("checkbox".to_string()),
                )]),
            },
        )],
    };
    assert_eq!(props.title(), None);
    assert!(props.title_object().is_none());
}

#[test]
fn title_concatenates_plain_text_runs() {
    let props = sample_properties();
    assert_eq!(props.title(), Some("Hello world".to_string()));
    let segs = props.title_object().unwrap();
    assert_eq!(segs.len(), 2);
    assert_eq!(segs[0].plain_text, "Hello");
    let page = sample_page("p", "2021-01-01T00:00:00Z");
    assert_eq!(page.title(), Some("Hello world".to_string()));
    assert_eq!(page.as_id(), &PageId("p".to_string()));
}

#[test]
fn is_database_distinguishes_variants() {
    let d = Object::Database { database: sample_database("d") };
    let p = Object::Page { page: sample_page("p", "2021-01-01T00:00:00Z") };
    assert!(d.is_database());
    assert!(!p.is_database());
}

#[test]
fn parent_variants_carry_their_ids() {
    let a = Parent::Page { page_id: PageId("p".to_string()) };
    let b = Parent::Block { block_id: BlockId("b".to_string()) };
    let c = Parent::Workspace;
    assert_ne!(a, c);
    assert_ne!(a.clone(), b);
    assert_eq!(c, Parent::Workspace);
}
