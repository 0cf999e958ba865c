use notion_models::codec::{
    decode_object, decode_parent, decode_rich_text, encode_object, encode_page_create_request,
    encode_page_update_request, encode_parent, encode_properties,
    encode_update_block_children_request, DecodeError,
};
use notion_models::ids::{DatabaseId, PageId, PagingCursor, Timestamp};
use notion_models::json::Json;
use notion_models::models::{
    Block, CreateBlock, Database, ListResponse, Object, Page, PageCreateRequest,
    PageUpdateRequest, Parent, UpdateBlockChildrenRequest,
};
use notion_models::properties::{Properties, PropertyConfiguration, PropertyValue};
use notion_models::text::RichText;

fn seg(s: &str) -> RichText {
    RichText { plain_text: s.to_string() }
}

fn checkbox_payload() -> Json {
    Json::Obj(vec![
        ("id".to_string(), Json::Str("ck".to_string())),
        ("type".to_string(), Json::Str("checkbox".to_string())),
        ("checkbox".to_string(), Json::Bool(false)),
    ])
}

fn sorted_properties() -> Properties {
    Properties {
        properties: vec![
            ("Done".to_string(), PropertyValue::Other { payload: checkbox_payload() }),
            (
                "Name".to_string(),
                PropertyValue::Title { id: "title".to_string(), title: vec![seg("T")] },
            ),
        ],
    }
}

fn sample_page() -> Page {
    Page {
        id: PageId("p-1".to_string()),
        created_time: Timestamp("2021-01-01T00:00:00Z".to_string()),
        last_edited_time: Timestamp("2021-03-04T05:06:07.000Z".to_string()),
        archived: false,
        properties: sorted_properties(),
        parent: Parent::Database { database_id: DatabaseId("db-1".to_string()) },
        icon: None,
        url: Some("https://example.test/p-1".to_string()),
        blocks: None,
    }
}

fn sample_database() -> Database {
    Database {
        id: DatabaseId("db-1".to_string()),
        created_time: Timestamp("2020-05-05T12:00:00Z".to_string()),
        last_edited_time: Timestamp("2020-06-06T12:00:00Z".to_string()),
        title: vec![seg("Tasks")],
        properties: vec![(
            "Name".to_string(),
            PropertyConfiguration {
                payload: Json::Obj(vec![("type".to_string(), Json::Str("title".to_string()))]),
            },
        )],
    }
}

#[test]
fn page_round_trip_is_exact() {
    let before = Object::Page { page: sample_page() };
    let wire = encode_object(&before);
    let after = decode_object(wire).unwrap();
    assert_eq!(after, before);
}

#[test]
fn database_round_trip_is_exact() {
    let before = Object::Database { database: sample_database() };
    let wire = encode_object(&before);
    let after = decode_object(wire).unwrap();
    assert_eq!(after, before);
}

#[test]
fn optional_fields_absent_stay_absent() {
    let mut page = sample_page();
    page.url = None;
    page.icon = None;
    page.blocks = None;
    let wire = encode_object(&Object::Page { page });
    match &wire {
        Json::Obj(entries) => {
            assert!(entries.iter().all(|(k, _)| k != "url" && k != "icon" && k != "blocks"));
        }
        _ => panic!("expected an object payload"),
    }
    match decode_object(wire).unwrap() {
        Object::Page { page } => {
            assert_eq!(page.url, None);
            assert_eq!(page.icon, None);
            assert_eq!(page.blocks, None);
        }
        _ => panic!("expected a page"),
    }
}

#[test]
fn list_round_trip_keeps_envelope() {
    let list = Object::List {
        list: ListResponse {
            results: vec![Object::Database { database: sample_database() }],
            next_cursor: Some(PagingCursor("tok-22".to_string())),
            has_more: true,
        },
    };
    let wire = encode_object(&list);
    let after = decode_object(wire).unwrap();
    assert_eq!(after, list);
}

#[test]
fn nested_list_decodes_each_element_tagged() {
    let page_wire = encode_object(&Object::Page { page: sample_page() });
    let db_wire = encode_object(&Object::Database { database: sample_database() });
    let wire = Json::Obj(vec![
        ("object".to_string(), Json::Str("list".to_string())),
        ("results".to_string(), Json::Arr(vec![page_wire, db_wire])),
        ("next_cursor".to_string(), Json::Null),
        ("has_more".to_string(), Json::Bool(false)),
    ]);
    match decode_object(wire).unwrap() {
        Object::List { list } => {
            assert_eq!(list.results.len(), 2);
            assert!(matches!(list.results[0], Object::Page { .. }));
            assert!(matches!(list.results[1], Object::Database { .. }));
            assert_eq!(list.next_cursor, None);
            assert!(!list.has_more);
        }
        _ => panic!("expected a list"),
    }
}

#[test]
fn property_order_in_output_is_sorted_whatever_insertion_order() {
    let forward = sorted_properties();
    let backward = Properties {
        properties: vec![
            (
                "Name".to_string(),
                PropertyValue::Title { id: "title".to_string(), title: vec![seg("T")] },
            ),
            ("Done".to_string(), PropertyValue::Other { payload: checkbox_payload() }),
        ],
    };
    let a = encode_properties(&forward);
    let b = encode_properties(&backward);
    assert_eq!(a, b);
    match a {
        Json::Obj(entries) => {
            assert_eq!(entries[0].0, "Done");
            assert_eq!(entries[1].0, "Name");
        }
        _ => panic!("expected an object payload"),
    }
}

#[test]
fn unknown_discriminator_is_reported() {
    let wire = Json::Obj(vec![("object".to_string(), Json::Str("widget".to_string()))]);
    match decode_object(wire) {
        Err(DecodeError::UnknownTag { tag }) => assert_eq!(tag, "widget"),
        other => panic!("expected an unknown tag error, got {:?}", other),
    }
}

#[test]
fn missing_discriminator_is_reported() {
    let wire = Json::Obj(vec![("id".to_string(), Json::Str("x".to_string()))]);
    match decode_object(wire) {
        Err(DecodeError::MissingField { field }) => assert_eq!(field, "object"),
        other => panic!("expected a missing field error, got {:?}", other),
    }
}

#[test]
fn missing_required_field_is_reported() {
    let wire = Json::Obj(vec![("object".to_string(), Json::Str("database".to_string()))]);
    match decode_object(wire) {
        Err(DecodeError::MissingField { field }) => assert_eq!(field, "id"),
        other => panic!("expected a missing field error, got {:?}", other),
    }
}

#[test]
fn wrong_field_type_is_reported() {
    let wire = Json::Obj(vec![
        ("object".to_string(), Json::Str("database".to_string())),
        ("id".to_string(), Json::Int(7)),
    ]);
    match decode_object(wire) {
        Err(DecodeError::WrongType { field }) => assert_eq!(field, "id"),
        other => panic!("expected a wrong type error, got {:?}", other),
    }
}

#[test]
fn duplicate_property_name_is_reported() {
    let wire = Json::Obj(vec![
        ("object".to_string(), Json::Str("page".to_string())),
        ("id".to_string(), Json::Str("p".to_string())),
        ("created_time".to_string(), Json::Str("t".to_string())),
        ("last_edited_time".to_string(), Json::Str("t".to_string())),
        ("archived".to_string(), Json::Bool(false)),
        (
            "properties".to_string(),
            Json::Obj(vec![
                ("Done".to_string(), checkbox_payload()),
                ("Done".to_string(), checkbox_payload()),
            ]),
        ),
        (
            "parent".to_string(),
            Json::Obj(vec![("type".to_string(), Json::Str("workspace".to_string()))]),
        ),
    ]);
    match decode_object(wire) {
        Err(DecodeError::DuplicateKey { key }) => assert_eq!(key, "Done"),
        other => panic!("expected a duplicate key error, got {:?}", other),
    }
}

#[test]
fn parent_round_trips_for_every_variant() {
    let cases = vec![
        Parent::Database { database_id: DatabaseId("d".to_string()) },
        Parent::Page { page_id: PageId("p".to_string()) },
        Parent::Block { block_id: notion_models::ids::BlockId("b".to_string()) },
        Parent::Workspace,
    ];
    for parent in cases {
        let wire = encode_parent(&parent);
        assert_eq!(decode_parent(wire).unwrap(), parent);
    }
}

#[test]
fn rich_text_decode_rejects_missing_text() {
    let wire = Json::Obj(vec![("href".to_string(), Json::Null)]);
    match decode_rich_text(wire) {
        Err(DecodeError::MissingField { field }) => assert_eq!(field, "plain_text"),
        other => panic!("expected a missing field error, got {:?}", other),
    }
}

#[test]
fn page_create_request_omits_unset_parts() {
    let req = PageCreateRequest {
        parent: Parent::Workspace,
        properties: sorted_properties(),
        children: None,
        icon: None,
    };
    match encode_page_create_request(&req) {
        Json::Obj(entries) => {
            let keys: Vec<&str> = entries.iter().map(|(k, _)| k.as_str()).collect();
            assert_eq!(keys, vec!["parent", "properties"]);
        }
        _ => panic!("expected an object payload"),
    }
}

#[test]
fn page_update_request_encodes_archived_flag() {
    let req = PageUpdateRequest {
        properties: sorted_properties(),
        archived: Some(true),
        icon: None,
    };
    match encode_page_update_request(&req) {
        Json::Obj(entries) => {
            assert_eq!(entries[0].0, "archived");
            assert_eq!(entries[0].1, Json::Bool(true));
        }
        _ => panic!("expected an object payload"),
    }
}

#[test]
fn block_children_request_lists_children_in_order() {
    let req = UpdateBlockChildrenRequest {
        children: vec![
            CreateBlock {
                fields: vec![("type".to_string(), Json::Str("paragraph".to_string()))],
            },
            CreateBlock {
                fields: vec![("type".to_string(), Json::Str("heading_1".to_string()))],
            },
        ],
    };
    match encode_update_block_children_request(&req) {
        Json::Obj(entries) => {
            assert_eq!(entries[0].0, "children");
            match &entries[0].1 {
                Json::Arr(items) => assert_eq!(items.len(), 2),
                _ => panic!("expected an array"),
            }
        }
        _ => panic!("expected an object payload"),
    }
}

#[test]
fn opaque_object_variants_round_trip() {
    let user = Object::User {
        user: notion_models::models::User {
            fields: vec![("id".to_string(), Json::Str("u-7".to_string()))],
        },
    };
    let wire = encode_object(&user);
    assert_eq!(decode_object(wire).unwrap(), user);
    let block = Object::Block {
        block: Block { fields: vec![("id".to_string(), Json::Str("b-7".to_string()))] },
    };
    let wire = encode_object(&block);
    assert_eq!(decode_object(wire).unwrap(), block);
}

#[test]
fn timestamps_survive_round_trip_exactly() {
    let mut db = sample_database();
    db.created_time = Timestamp("2020-05-05T12:00:00.123456789+02:00".to_string());
    let before = Object::Database { database: db };
    let wire = encode_object(&before);
    match decode_object(wire).unwrap() {
        Object::Database { database } => {
            assert_eq!(database.created_time.0, "2020-05-05T12:00:00.123456789+02:00");
        }
        _ => panic!("expected a database"),
    }
}

#[test]
fn keys_sort_by_utf8_bytes() {
    let props = Properties {
        properties: vec![
            ("\u{e9}clair".to_string(), PropertyValue::Other { payload: checkbox_payload() }),
            ("zeta".to_string(), PropertyValue::Other { payload: checkbox_payload() }),
        ],
    };
    match encode_properties(&props) {
        Json::Obj(entries) => {
            assert_eq!(entries[0].0, "zeta");
            assert_eq!(entries[1].0, "\u{e9}clair");
        }
        _ => panic!("expected an object payload"),
    }
}
