//! Encoding and decoding between the entity model and payload values.
//!
//! Every transform is stated twice: a specification function on the
//! mathematical models, and an executable function proved to implement it.
//! Encoding emits property maps in sorted key order; decoding inspects the
//! `object` discriminator and dispatches, failing on anything malformed and
//! never coercing silently.

use vstd::prelude::*;
use vstd::string::StringExecFns;
use crate::json::{Json, JsonModel};
use crate::order::has_key;
use crate::text::RichText;

verus! {

/// Why a payload failed to decode.
#[derive(Debug, PartialEq, Eq)]
pub enum DecodeError {
    /// A required field is absent.
    MissingField { field: String },
    /// A field does not have the shape its name demands.
    WrongType { field: String },
    /// The discriminator names no known variant.
    UnknownTag { tag: String },
    /// A property name occurs twice in one map.
    DuplicateKey { key: String },
}

/// The mathematical shape of a decode error.
pub enum DecodeErrorModel {
    MissingField { field: Seq<char> },
    WrongType { field: Seq<char> },
    UnknownTag { tag: Seq<char> },
    DuplicateKey { key: Seq<char> },
}

impl DecodeError {
    /// The abstraction of this error.
    pub open spec fn model(self) -> DecodeErrorModel {
        match self {
            DecodeError::MissingField { field } => DecodeErrorModel::MissingField {
                field: field@,
            },
            DecodeError::WrongType { field } => DecodeErrorModel::WrongType { field: field@ },
            DecodeError::UnknownTag { tag } => DecodeErrorModel::UnknownTag { tag: tag@ },
            DecodeError::DuplicateKey { key } => DecodeErrorModel::DuplicateKey { key: key@ },
        }
    }
}

/// The first value under the given key, if any.
pub open spec fn obj_lookup(es: Seq<(Seq<char>, JsonModel)>, k: Seq<char>) -> Option<JsonModel>
    decreases es.len(),
{
    if es.len() == 0 {
        None
    } else if es[0].0 == k {
        Some(es[0].1)
    } else {
        obj_lookup(es.subrange(1, es.len() as int), k)
    }
}

/// The entries with the first occurrence of the given key removed.
pub open spec fn remove_first(es: Seq<(Seq<char>, JsonModel)>, k: Seq<char>) -> Seq<
    (Seq<char>, JsonModel),
>
    decreases es.len(),
{
    if es.len() == 0 {
        es
    } else if es[0].0 == k {
        es.subrange(1, es.len() as int)
    } else {
        seq![es[0]] + remove_first(es.subrange(1, es.len() as int), k)
    }
}

/// Removing one key leaves every other key's lookup unchanged.
pub proof fn lemma_remove_first_lookup(es: Seq<(Seq<char>, JsonModel)>, k1: Seq<char>, k2: Seq<char>)
    requires
        k1 != k2,
    ensures
        obj_lookup(remove_first(es, k1), k2) == obj_lookup(es, k2),
    decreases es.len(),
{
    if es.len() > 0 {
        let tail = es.subrange(1, es.len() as int);
        if es[0].0 == k1 {
        } else {
            lemma_remove_first_lookup(tail, k1, k2);
            let r = remove_first(es, k1);
            assert(r == seq![es[0]] + remove_first(tail, k1));
            assert(r[0] == es[0]);
            assert(r.subrange(1, r.len() as int) =~= remove_first(tail, k1));
        }
    }
}

/// A lookup that misses reports no key present, and the other way round.
pub proof fn lemma_obj_lookup_has_key(es: Seq<(Seq<char>, JsonModel)>, k: Seq<char>)
    ensures
        obj_lookup(es, k) is Some <==> has_key(es, k),
    decreases es.len(),
{
    if es.len() > 0 {
        let tail = es.subrange(1, es.len() as int);
        lemma_obj_lookup_has_key(tail, k);
        if es[0].0 == k {
            assert(has_key(es, k)) by {
                assert(es[0].0 == k);
            }
        } else {
            if has_key(tail, k) {
                let i = crate::order::key_index(tail, k);
                assert(es[i + 1] == tail[i]);
                crate::order::lemma_has_key_intro(es, i + 1);
            }
            if has_key(es, k) {
                let i = crate::order::key_index(es, k);
                assert(i > 0);
                assert(tail[i - 1] == es[i]);
                crate::order::lemma_has_key_intro(tail, i - 1);
            }
        }
    }
}

/// Take the first field under the given key out of the entry list, leaving
/// the rest in place and in order.
#[verifier::rlimit(30)]
#[verifier::loop_isolation(false)]
pub fn take_field(entries: &mut Vec<(String, Json)>, key: &String) -> (r: Option<Json>)
    ensures
        match r {
            Some(v) => {
                &&& obj_lookup(Json::entry_models_of(old(entries)@), key@) == Some(v.model())
                &&& Json::entry_models_of(final(entries)@) == remove_first(
                    Json::entry_models_of(old(entries)@),
                    key@,
                )
                &&& exists|i: int|
                    0 <= i < old(entries)@.len() && v == (#[trigger] old(entries)@[i]).1
                &&& forall|p: int|
                    0 <= p < final(entries)@.len() ==> exists|q: int|
                        0 <= q < old(entries)@.len() && (#[trigger] final(entries)@[p])
                            == old(entries)@[q]
            },
            None => {
                &&& obj_lookup(Json::entry_models_of(old(entries)@), key@) is None
                &&& final(entries)@ == old(entries)@
            },
        },
{
    let ghost orig = entries@;
    let ghost ms = Json::entry_models_of(orig);
    proof {
        crate::json::lemma_entry_models_of(orig);
        assert(ms.subrange(0, ms.len() as int) =~= ms);
    }
    let n = entries.len();
    let mut i: usize = 0;
    while i < n
        invariant
            n == entries@.len(),
            i <= n,
            entries@ == orig,
            ms == Json::entry_models_of(orig),
            ms.len() == orig.len(),
            forall|j: int| 0 <= j < orig.len() ==> ms[j] == ((#[trigger] orig[j]).0@, orig[j].1.model()),
            forall|j: int| 0 <= j < i ==> (#[trigger] ms[j]).0 != key@,
            obj_lookup(ms, key@) == obj_lookup(ms.subrange(i as int, ms.len() as int), key@),
            remove_first(ms, key@) == ms.subrange(0, i as int) + remove_first(
                ms.subrange(i as int, ms.len() as int),
                key@,
            ),
        decreases n - i,
    {
        let ghost sfx = ms.subrange(i as int, ms.len() as int);
        let hit = entries[i].0.eq(key);
        if hit {
            proof {
                assert(sfx.len() > 0);
                assert(sfx[0] == ms[i as int]);
                assert(ms[i as int].0 == key@);
                assert(sfx[0].0 == key@);
                assert(obj_lookup(sfx, key@) == Some(sfx[0].1));
                assert(obj_lookup(ms, key@) == Some(ms[i as int].1));
                assert(remove_first(sfx, key@) =~= ms.subrange(i as int + 1, ms.len() as int));
                assert(remove_first(ms, key@) =~= ms.subrange(0, i as int) + ms.subrange(
                    i as int + 1,
                    ms.len() as int,
                ));
            }
            let entry = entries.remove(i);
            proof {
                assert(entry == orig[i as int]);
                assert(entries@ =~= orig.subrange(0, i as int) + orig.subrange(
                    i as int + 1,
                    orig.len() as int,
                ));
                crate::json::lemma_entry_models_of(entries@);
                assert(Json::entry_models_of(entries@) =~= remove_first(ms, key@));
                assert(entry.1.model() == ms[i as int].1);
                assert forall|p: int| 0 <= p < entries@.len() implies exists|q: int|
                    0 <= q < orig.len() && (#[trigger] entries@[p]) == orig[q] by {
                    if p < i {
                        assert(entries@[p] == orig[p]);
                    } else {
                        assert(entries@[p] == orig[p + 1]);
                    }
                }
            }
            return Some(entry.1);
        }
        proof {
            assert(sfx[0] == ms[i as int]);
            assert(ms[i as int].0 != key@);
            assert(sfx.subrange(1, sfx.len() as int) =~= ms.subrange(
                i as int + 1,
                ms.len() as int,
            ));
            assert(remove_first(sfx, key@) == seq![sfx[0]] + remove_first(
                sfx.subrange(1, sfx.len() as int),
                key@,
            ));
            assert(ms.subrange(0, i as int) + remove_first(sfx, key@) =~= ms.subrange(
                0,
                i as int + 1,
            ) + remove_first(ms.subrange(i as int + 1, ms.len() as int), key@));
        }
        i = i + 1;
    }
    proof {
        assert(ms.subrange(n as int, ms.len() as int).len() == 0);
    }
    None
}

/// A found lookup names an actual entry.
pub proof fn lemma_obj_lookup_index(es: Seq<(Seq<char>, JsonModel)>, k: Seq<char>)
    requires
        obj_lookup(es, k) is Some,
    ensures
        exists|i: int|
            0 <= i < es.len() && (#[trigger] es[i]) == (k, obj_lookup(es, k).unwrap()),
    decreases es.len(),
{
    if es.len() > 0 {
        if es[0].0 == k {
            assert(es[0] == (k, obj_lookup(es, k).unwrap()));
        } else {
            let tail = es.subrange(1, es.len() as int);
            lemma_obj_lookup_index(tail, k);
            let i = choose|i: int|
                0 <= i < tail.len() && (#[trigger] tail[i]) == (k, obj_lookup(tail, k).unwrap());
            assert(es[i + 1] == tail[i]);
        }
    }
}

// ---------------------------------------------------------------------------
// Specification encoders and decoders, over the mathematical models.
// ---------------------------------------------------------------------------

/// A rich text segment on the wire.
pub open spec fn enc_rich_text(t: Seq<char>) -> JsonModel {
    JsonModel::Obj(seq![("plain_text"@, JsonModel::Str(t))])
}

/// A run of rich text segments on the wire.
pub open spec fn enc_rich_texts(ts: Seq<Seq<char>>) -> Seq<JsonModel> {
    Seq::new(ts.len(), |i: int| enc_rich_text(ts[i]))
}

pub open spec fn dec_rich_text(j: JsonModel) -> Result<Seq<char>, DecodeErrorModel> {
    match j {
        JsonModel::Obj(es) => match obj_lookup(es, "plain_text"@) {
            Option::Some(JsonModel::Str(t)) => Ok(t),
            Option::Some(_) => Err(DecodeErrorModel::WrongType { field: "plain_text"@ }),
            Option::None => Err(DecodeErrorModel::MissingField { field: "plain_text"@ }),
        },
        _ => Err(DecodeErrorModel::WrongType { field: "plain_text"@ }),
    }
}

pub open spec fn dec_rich_texts(js: Seq<JsonModel>) -> Result<Seq<Seq<char>>, DecodeErrorModel>
    decreases js.len(),
{
    if js.len() == 0 {
        Ok(Seq::empty())
    } else {
        match dec_rich_texts(js.subrange(1, js.len() as int)) {
            Err(e) => Err(e),
            Ok(ts) => match dec_rich_text(js[0]) {
                Err(e) => Err(e),
                Ok(t) => Ok(seq![t] + ts),
            },
        }
    }
}

/// A parent reference on the wire: its `type` tag and the matching id field.
pub open spec fn enc_parent(p: crate::models::ParentModel) -> JsonModel {
    match p {
        crate::models::ParentModel::Database { database_id } => JsonModel::Obj(
            seq![
                ("database_id"@, JsonModel::Str(database_id)),
                ("type"@, JsonModel::Str("database_id"@)),
            ],
        ),
        crate::models::ParentModel::Page { page_id } => JsonModel::Obj(
            seq![("page_id"@, JsonModel::Str(page_id)), ("type"@, JsonModel::Str("page_id"@))],
        ),
        crate::models::ParentModel::Block { block_id } => JsonModel::Obj(
            seq![("block_id"@, JsonModel::Str(block_id)), ("type"@, JsonModel::Str("block_id"@))],
        ),
        crate::models::ParentModel::Workspace => JsonModel::Obj(
            seq![("type"@, JsonModel::Str("workspace"@))],
        ),
    }
}

pub open spec fn dec_parent_id(es: Seq<(Seq<char>, JsonModel)>, field: Seq<char>) -> Result<
    Seq<char>,
    DecodeErrorModel,
> {
    match obj_lookup(es, field) {
        Option::Some(JsonModel::Str(id)) => Ok(id),
        Option::Some(_) => Err(DecodeErrorModel::WrongType { field: field }),
        Option::None => Err(DecodeErrorModel::MissingField { field: field }),
    }
}

pub open spec fn dec_parent(j: JsonModel) -> Result<crate::models::ParentModel, DecodeErrorModel> {
    match j {
        JsonModel::Obj(es) => match obj_lookup(es, "type"@) {
            Option::Some(JsonModel::Str(t)) => if t == "database_id"@ {
                match dec_parent_id(es, "database_id"@) {
                    Ok(id) => Ok(crate::models::ParentModel::Database { database_id: id }),
                    Err(e) => Err(e),
                }
            } else if t == "page_id"@ {
                match dec_parent_id(es, "page_id"@) {
                    Ok(id) => Ok(crate::models::ParentModel::Page { page_id: id }),
                    Err(e) => Err(e),
                }
            } else if t == "block_id"@ {
                match dec_parent_id(es, "block_id"@) {
                    Ok(id) => Ok(crate::models::ParentModel::Block { block_id: id }),
                    Err(e) => Err(e),
                }
            } else if t == "workspace"@ {
                Ok(crate::models::ParentModel::Workspace)
            } else {
                Err(DecodeErrorModel::UnknownTag { tag: t })
            },
            Option::Some(_) => Err(DecodeErrorModel::WrongType { field: "type"@ }),
            Option::None => Err(DecodeErrorModel::MissingField { field: "type"@ }),
        },
        _ => Err(DecodeErrorModel::WrongType { field: "type"@ }),
    }
}

/// Whether a payload is shaped like a title property value.
pub open spec fn is_title_payload(j: JsonModel) -> bool {
    match j {
        JsonModel::Obj(es) => obj_lookup(es, "type"@) == Some(JsonModel::Str("title"@)),
        _ => false,
    }
}

/// A property value on the wire: the title kind spelled out, any other kind
/// emitted as its stored payload.
pub open spec fn enc_property_value(v: crate::properties::PropertyValueModel) -> JsonModel {
    match v {
        crate::properties::PropertyValueModel::Title { id, title } => JsonModel::Obj(
            seq![
                ("id"@, JsonModel::Str(id)),
                ("title"@, JsonModel::Arr(enc_rich_texts(title))),
                ("type"@, JsonModel::Str("title"@)),
            ],
        ),
        crate::properties::PropertyValueModel::Other { payload } => payload,
    }
}

pub open spec fn dec_property_value(j: JsonModel) -> Result<
    crate::properties::PropertyValueModel,
    DecodeErrorModel,
> {
    if is_title_payload(j) {
        let es = j->Obj_0;
        match obj_lookup(es, "id"@) {
            Option::Some(JsonModel::Str(id)) => match obj_lookup(es, "title"@) {
                Option::Some(JsonModel::Arr(js)) => match dec_rich_texts(js) {
                    Ok(ts) => Ok(
                        crate::properties::PropertyValueModel::Title { id: id, title: ts },
                    ),
                    Err(e) => Err(e),
                },
                Option::Some(_) => Err(DecodeErrorModel::WrongType { field: "title"@ }),
                Option::None => Err(DecodeErrorModel::MissingField { field: "title"@ }),
            },
            Option::Some(_) => Err(DecodeErrorModel::WrongType { field: "id"@ }),
            Option::None => Err(DecodeErrorModel::MissingField { field: "id"@ }),
        }
    } else {
        Ok(crate::properties::PropertyValueModel::Other { payload: j })
    }
}

/// A property map on the wire: one field per property, in the model's
/// (sorted) order.
pub open spec fn enc_prop_entries(
    ps: Seq<(Seq<char>, crate::properties::PropertyValueModel)>,
) -> Seq<(Seq<char>, JsonModel)> {
    crate::order::map_entry_values(
        ps,
        |v: crate::properties::PropertyValueModel| enc_property_value(v),
    )
}

pub open spec fn dec_prop_entries(es: Seq<(Seq<char>, JsonModel)>) -> Result<
    Seq<(Seq<char>, crate::properties::PropertyValueModel)>,
    DecodeErrorModel,
>
    decreases es.len(),
{
    if es.len() == 0 {
        Ok(Seq::empty())
    } else {
        match dec_prop_entries(es.subrange(1, es.len() as int)) {
            Err(e) => Err(e),
            Ok(rest) => match dec_property_value(es[0].1) {
                Err(e) => Err(e),
                Ok(v) => if has_key(rest, es[0].0) {
                    Err(DecodeErrorModel::DuplicateKey { key: es[0].0 })
                } else {
                    Ok(seq![(es[0].0, v)] + rest)
                },
            },
        }
    }
}

/// A database schema on the wire: payloads verbatim, duplicate names refused.
pub open spec fn dec_schema_entries(es: Seq<(Seq<char>, JsonModel)>) -> Result<
    Seq<(Seq<char>, JsonModel)>,
    DecodeErrorModel,
>
    decreases es.len(),
{
    if es.len() == 0 {
        Ok(Seq::empty())
    } else {
        match dec_schema_entries(es.subrange(1, es.len() as int)) {
            Err(e) => Err(e),
            Ok(rest) => if has_key(rest, es[0].0) {
                Err(DecodeErrorModel::DuplicateKey { key: es[0].0 })
            } else {
                Ok(seq![es[0]] + rest)
            },
        }
    }
}

/// The fields of a database on the wire, in fixed (sorted) order.
pub open spec fn enc_database_fields(d: crate::models::DatabaseModel) -> Seq<
    (Seq<char>, JsonModel),
> {
    seq![
        ("created_time"@, JsonModel::Str(d.created_time)),
        ("id"@, JsonModel::Str(d.id)),
        ("last_edited_time"@, JsonModel::Str(d.last_edited_time)),
        ("properties"@, JsonModel::Obj(d.properties)),
        ("title"@, JsonModel::Arr(enc_rich_texts(d.title))),
    ]
}

pub open spec fn dec_database(es: Seq<(Seq<char>, JsonModel)>) -> Result<
    crate::models::DatabaseModel,
    DecodeErrorModel,
> {
    match obj_lookup(es, "id"@) {
        Option::Some(JsonModel::Str(id)) => match obj_lookup(es, "created_time"@) {
            Option::Some(JsonModel::Str(created)) => match obj_lookup(es, "last_edited_time"@) {
                Option::Some(JsonModel::Str(edited)) => match obj_lookup(es, "title"@) {
                    Option::Some(JsonModel::Arr(tjs)) => match dec_rich_texts(tjs) {
                        Ok(ts) => match obj_lookup(es, "properties"@) {
                            Option::Some(JsonModel::Obj(pes)) => match dec_schema_entries(pes) {
                                Ok(ss) => Ok(
                                    crate::models::DatabaseModel {
                                        id: id,
                                        created_time: created,
                                        last_edited_time: edited,
                                        title: ts,
                                        properties: crate::order::sorted_by_key(ss),
                                    },
                                ),
                                Err(e) => Err(e),
                            },
                            Option::Some(_) => Err(
                                DecodeErrorModel::WrongType { field: "properties"@ },
                            ),
                            Option::None => Err(
                                DecodeErrorModel::MissingField { field: "properties"@ },
                            ),
                        },
                        Err(e) => Err(e),
                    },
                    Option::Some(_) => Err(DecodeErrorModel::WrongType { field: "title"@ }),
                    Option::None => Err(DecodeErrorModel::MissingField { field: "title"@ }),
                },
                Option::Some(_) => Err(
                    DecodeErrorModel::WrongType { field: "last_edited_time"@ },
                ),
                Option::None => Err(
                    DecodeErrorModel::MissingField { field: "last_edited_time"@ },
                ),
            },
            Option::Some(_) => Err(DecodeErrorModel::WrongType { field: "created_time"@ }),
            Option::None => Err(DecodeErrorModel::MissingField { field: "created_time"@ }),
        },
        Option::Some(_) => Err(DecodeErrorModel::WrongType { field: "id"@ }),
        Option::None => Err(DecodeErrorModel::MissingField { field: "id"@ }),
    }
}

/// The blocks of a page on the wire, each an object payload.
pub open spec fn enc_blocks(bs: Seq<Seq<(Seq<char>, JsonModel)>>) -> Seq<JsonModel> {
    Seq::new(bs.len(), |i: int| JsonModel::Obj(bs[i]))
}

pub open spec fn dec_blocks(js: Seq<JsonModel>) -> Result<
    Seq<Seq<(Seq<char>, JsonModel)>>,
    DecodeErrorModel,
>
    decreases js.len(),
{
    if js.len() == 0 {
        Ok(Seq::empty())
    } else {
        match dec_blocks(js.subrange(1, js.len() as int)) {
            Err(e) => Err(e),
            Ok(rest) => match js[0] {
                JsonModel::Obj(fs) => Ok(seq![fs] + rest),
                _ => Err(DecodeErrorModel::WrongType { field: "blocks"@ }),
            },
        }
    }
}

/// The fields of a page on the wire, in fixed (sorted) order; optional
/// fields left unset are omitted, not emitted as null.
pub open spec fn enc_page_fields(p: crate::models::PageModel) -> Seq<(Seq<char>, JsonModel)> {
    seq![("archived"@, JsonModel::Bool(p.archived))] + (match p.blocks {
        Option::Some(bs) => seq![("blocks"@, JsonModel::Arr(enc_blocks(bs)))],
        Option::None => Seq::empty(),
    }) + seq![("created_time"@, JsonModel::Str(p.created_time))] + (match p.icon {
        Option::Some(fs) => seq![("icon"@, JsonModel::Obj(fs))],
        Option::None => Seq::empty(),
    }) + seq![
        ("id"@, JsonModel::Str(p.id)),
        ("last_edited_time"@, JsonModel::Str(p.last_edited_time)),
        ("parent"@, enc_parent(p.parent)),
        ("properties"@, JsonModel::Obj(enc_prop_entries(p.properties))),
    ] + (match p.url {
        Option::Some(u) => seq![("url"@, JsonModel::Str(u))],
        Option::None => Seq::empty(),
    })
}

pub open spec fn dec_page(es: Seq<(Seq<char>, JsonModel)>) -> Result<
    crate::models::PageModel,
    DecodeErrorModel,
> {
    match obj_lookup(es, "id"@) {
        Option::Some(JsonModel::Str(id)) => match obj_lookup(es, "created_time"@) {
            Option::Some(JsonModel::Str(created)) => match obj_lookup(es, "last_edited_time"@) {
                Option::Some(JsonModel::Str(edited)) => match obj_lookup(es, "archived"@) {
                    Option::Some(JsonModel::Bool(archived)) => match obj_lookup(es, "properties"@) {
                        Option::Some(JsonModel::Obj(pes)) => match dec_prop_entries(pes) {
                            Ok(ps) => match obj_lookup(es, "parent"@) {
                                Option::Some(pj) => match dec_parent(pj) {
                                    Ok(parent) => match dec_page_icon(es) {
                                        Ok(icon) => match dec_page_url(es) {
                                            Ok(url) => match dec_page_blocks(es) {
                                                Ok(blocks) => Ok(
                                                    crate::models::PageModel {
                                                        id: id,
                                                        created_time: created,
                                                        last_edited_time: edited,
                                                        archived: archived,
                                                        properties: crate::order::sorted_by_key(
                                                            ps,
                                                        ),
                                                        parent: parent,
                                                        icon: icon,
                                                        url: url,
                                                        blocks: blocks,
                                                    },
                                                ),
                                                Err(e) => Err(e),
                                            },
                                            Err(e) => Err(e),
                                        },
                                        Err(e) => Err(e),
                                    },
                                    Err(e) => Err(e),
                                },
                                Option::None => Err(
                                    DecodeErrorModel::MissingField { field: "parent"@ },
                                ),
                            },
                            Err(e) => Err(e),
                        },
                        Option::Some(_) => Err(
                            DecodeErrorModel::WrongType { field: "properties"@ },
                        ),
                        Option::None => Err(
                            DecodeErrorModel::MissingField { field: "properties"@ },
                        ),
                    },
                    Option::Some(_) => Err(DecodeErrorModel::WrongType { field: "archived"@ }),
                    Option::None => Err(DecodeErrorModel::MissingField { field: "archived"@ }),
                },
                Option::Some(_) => Err(
                    DecodeErrorModel::WrongType { field: "last_edited_time"@ },
                ),
                Option::None => Err(
                    DecodeErrorModel::MissingField { field: "last_edited_time"@ },
                ),
            },
            Option::Some(_) => Err(DecodeErrorModel::WrongType { field: "created_time"@ }),
            Option::None => Err(DecodeErrorModel::MissingField { field: "created_time"@ }),
        },
        Option::Some(_) => Err(DecodeErrorModel::WrongType { field: "id"@ }),
        Option::None => Err(DecodeErrorModel::MissingField { field: "id"@ }),
    }
}

/// An absent or null optional icon decodes to absent, never to an error.
pub open spec fn dec_page_icon(es: Seq<(Seq<char>, JsonModel)>) -> Result<
    Option<Seq<(Seq<char>, JsonModel)>>,
    DecodeErrorModel,
> {
    match obj_lookup(es, "icon"@) {
        Option::None => Ok(None),
        Option::Some(JsonModel::Null) => Ok(None),
        Option::Some(JsonModel::Obj(fs)) => Ok(Some(fs)),
        Option::Some(_) => Err(DecodeErrorModel::WrongType { field: "icon"@ }),
    }
}

/// An absent or null optional URL decodes to absent, never to an error.
pub open spec fn dec_page_url(es: Seq<(Seq<char>, JsonModel)>) -> Result<
    Option<Seq<char>>,
    DecodeErrorModel,
> {
    match obj_lookup(es, "url"@) {
        Option::None => Ok(None),
        Option::Some(JsonModel::Null) => Ok(None),
        Option::Some(JsonModel::Str(u)) => Ok(Some(u)),
        Option::Some(_) => Err(DecodeErrorModel::WrongType { field: "url"@ }),
    }
}

/// Absent or null child blocks decode to absent, never to an error.
pub open spec fn dec_page_blocks(es: Seq<(Seq<char>, JsonModel)>) -> Result<
    Option<Seq<Seq<(Seq<char>, JsonModel)>>>,
    DecodeErrorModel,
> {
    match obj_lookup(es, "blocks"@) {
        Option::None => Ok(None),
        Option::Some(JsonModel::Null) => Ok(None),
        Option::Some(JsonModel::Arr(js)) => match dec_blocks(js) {
            Ok(bs) => Ok(Some(bs)),
            Err(e) => Err(e),
        },
        Option::Some(_) => Err(DecodeErrorModel::WrongType { field: "blocks"@ }),
    }
}

/// An optional cursor on the wire: its text, or null.
pub open spec fn enc_cursor(c: Option<Seq<char>>) -> JsonModel {
    match c {
        Option::Some(t) => JsonModel::Str(t),
        Option::None => JsonModel::Null,
    }
}

/// The fields of a paginated list on the wire.
pub open spec fn enc_list_fields(
    results: Seq<crate::models::ObjectModel>,
    next_cursor: Option<Seq<char>>,
    has_more: bool,
) -> Seq<(Seq<char>, JsonModel)>
    decreases results, 1int,
{
    seq![
        ("has_more"@, JsonModel::Bool(has_more)),
        ("next_cursor"@, enc_cursor(next_cursor)),
        ("results"@, JsonModel::Arr(enc_objects(results))),
    ]
}

/// An object on the wire: its `object` discriminator first, then the
/// variant's fields, flattened beside it.
pub open spec fn enc_object(m: crate::models::ObjectModel) -> JsonModel
    decreases m, 2int,
{
    match m {
        crate::models::ObjectModel::Block { block } => JsonModel::Obj(
            seq![("object"@, JsonModel::Str("block"@))] + block,
        ),
        crate::models::ObjectModel::Database { database } => JsonModel::Obj(
            seq![("object"@, JsonModel::Str("database"@))] + enc_database_fields(database),
        ),
        crate::models::ObjectModel::Page { page } => JsonModel::Obj(
            seq![("object"@, JsonModel::Str("page"@))] + enc_page_fields(page),
        ),
        crate::models::ObjectModel::List { results, next_cursor, has_more } => JsonModel::Obj(
            seq![("object"@, JsonModel::Str("list"@))] + enc_list_fields(
                results,
                next_cursor,
                has_more,
            ),
        ),
        crate::models::ObjectModel::User { user } => JsonModel::Obj(
            seq![("object"@, JsonModel::Str("user"@))] + user,
        ),
        crate::models::ObjectModel::Error { error } => JsonModel::Obj(
            seq![("object"@, JsonModel::Str("error"@))] + error,
        ),
        crate::models::ObjectModel::PropertyItem { property_item } => JsonModel::Obj(
            seq![("object"@, JsonModel::Str("property_item"@))] + property_item,
        ),
    }
}

/// A run of objects on the wire.
pub open spec fn enc_objects(ms: Seq<crate::models::ObjectModel>) -> Seq<JsonModel>
    decreases ms, 0int,
{
    if ms.len() == 0 {
        Seq::empty()
    } else {
        seq![enc_object(ms[0])] + enc_objects(ms.subrange(1, ms.len() as int))
    }
}

/// Decode the object union: inspect the `object` discriminator and dispatch
/// to the named variant; an unknown discriminator is an error, never a
/// default.
pub open spec fn dec_object(j: JsonModel) -> Result<
    crate::models::ObjectModel,
    DecodeErrorModel,
>
    decreases j, 1int,
    via dec_object_decreases
{
    match j {
        JsonModel::Obj(es) => match obj_lookup(es, "object"@) {
            Option::Some(JsonModel::Str(tag)) => if tag == "block"@ {
                Ok(crate::models::ObjectModel::Block { block: remove_first(es, "object"@) })
            } else if tag == "database"@ {
                match dec_database(es) {
                    Ok(d) => Ok(crate::models::ObjectModel::Database { database: d }),
                    Err(e) => Err(e),
                }
            } else if tag == "page"@ {
                match dec_page(es) {
                    Ok(p) => Ok(crate::models::ObjectModel::Page { page: p }),
                    Err(e) => Err(e),
                }
            } else if tag == "list"@ {
                match obj_lookup(es, "has_more"@) {
                    Option::Some(JsonModel::Bool(has_more)) => match obj_lookup(
                        es,
                        "next_cursor"@,
                    ) {
                        Option::Some(JsonModel::Str(c)) => match obj_lookup(es, "results"@) {
                            Option::Some(JsonModel::Arr(els)) => match dec_objects(els) {
                                Ok(rs) => Ok(
                                    crate::models::ObjectModel::List {
                                        results: rs,
                                        next_cursor: Some(c),
                                        has_more: has_more,
                                    },
                                ),
                                Err(e) => Err(e),
                            },
                            Option::Some(_) => Err(
                                DecodeErrorModel::WrongType { field: "results"@ },
                            ),
                            Option::None => Err(
                                DecodeErrorModel::MissingField { field: "results"@ },
                            ),
                        },
                        Option::Some(JsonModel::Null) | Option::None => match obj_lookup(
                            es,
                            "results"@,
                        ) {
                            Option::Some(JsonModel::Arr(els)) => match dec_objects(els) {
                                Ok(rs) => Ok(
                                    crate::models::ObjectModel::List {
                                        results: rs,
                                        next_cursor: None,
                                        has_more: has_more,
                                    },
                                ),
                                Err(e) => Err(e),
                            },
                            Option::Some(_) => Err(
                                DecodeErrorModel::WrongType { field: "results"@ },
                            ),
                            Option::None => Err(
                                DecodeErrorModel::MissingField { field: "results"@ },
                            ),
                        },
                        Option::Some(_) => Err(
                            DecodeErrorModel::WrongType { field: "next_cursor"@ },
                        ),
                    },
                    Option::Some(_) => Err(DecodeErrorModel::WrongType { field: "has_more"@ }),
                    Option::None => Err(DecodeErrorModel::MissingField { field: "has_more"@ }),
                }
            } else if tag == "user"@ {
                Ok(crate::models::ObjectModel::User { user: remove_first(es, "object"@) })
            } else if tag == "error"@ {
                Ok(crate::models::ObjectModel::Error { error: remove_first(es, "object"@) })
            } else if tag == "property_item"@ {
                Ok(
                    crate::models::ObjectModel::PropertyItem {
                        property_item: remove_first(es, "object"@),
                    },
                )
            } else {
                Err(DecodeErrorModel::UnknownTag { tag: tag })
            },
            Option::Some(_) => Err(DecodeErrorModel::WrongType { field: "object"@ }),
            Option::None => Err(DecodeErrorModel::MissingField { field: "object"@ }),
        },
        _ => Err(DecodeErrorModel::MissingField { field: "object"@ }),
    }
}

/// Decode a run of objects, failing on the first element that fails.
pub open spec fn dec_objects(js: Seq<JsonModel>) -> Result<
    Seq<crate::models::ObjectModel>,
    DecodeErrorModel,
>
    decreases js, 0int,
{
    if js.len() == 0 {
        Ok(Seq::empty())
    } else {
        match dec_object(js[0]) {
            Err(e) => Err(e),
            Ok(m) => match dec_objects(js.subrange(1, js.len() as int)) {
                Err(e) => Err(e),
                Ok(rest) => Ok(seq![m] + rest),
            },
        }
    }
}

#[via_fn]
proof fn dec_object_decreases(j: JsonModel) {
    match j {
        JsonModel::Obj(es) => match obj_lookup(es, "object"@) {
            Option::Some(JsonModel::Str(tag)) => if tag == "list"@ {
                match obj_lookup(es, "results"@) {
                    Option::Some(JsonModel::Arr(els)) => {
                        lemma_obj_lookup_index(es, "results"@);
                        let i = choose|i: int|
                            0 <= i < es.len() && (#[trigger] es[i]) == (
                                "results"@,
                                obj_lookup(es, "results"@).unwrap(),
                            );
                        assert(es[i].1 == JsonModel::Arr(els));
                        assert(decreases_to!(j => es));
                        assert(decreases_to!(es => es[i]));
                        assert(decreases_to!(es[i] => es[i].1));
                        assert(decreases_to!(es[i].1 => els));
                        assert(decreases_to!(j => els));
                    },
                    _ => {},
                }
            } else {
            },
            _ => {},
        },
        _ => {},
    }
}

/// A deep copy of a payload value: the copy has the same model.
pub fn clone_json(j: &Json) -> (res: Json)
    ensures
        res.model() == j.model(),
    decreases *j,
{
    match j {
        Json::Null => Json::Null,
        Json::Bool(b) => Json::Bool(*b),
        Json::Int(i) => Json::Int(*i),
        Json::Str(s) => Json::Str(s.clone()),
        Json::Arr(v) => {
            let mut out: Vec<Json> = Vec::new();
            let n = v.len();
            let mut i: usize = 0;
            while i < n
                invariant
                    n == v@.len(),
                    i <= n,
                    out@.len() == i,
                    forall|p: int| 0 <= p < i ==> (#[trigger] out@[p]).model() == v@[p].model(),
                    *j == Json::Arr(*v),
                decreases n - i,
            {
                proof {
                    assert(decreases_to!(*j => (*j)->Arr_0));
                    assert((*j)->Arr_0 == *v);
                    assert(decreases_to!(*v => v@));
                    assert(decreases_to!(v@ => v@[i as int]));
                }
                let c = clone_json(&v[i]);
                out.push(c);
                i = i + 1;
            }
            proof {
                crate::json::lemma_models_of(out@);
                crate::json::lemma_models_of(v@);
                assert(Json::models_of(out@) =~= Json::models_of(v@));
            }
            Json::Arr(out)
        },
        Json::Obj(v) => {
            let mut out: Vec<(String, Json)> = Vec::new();
            let n = v.len();
            let mut i: usize = 0;
            while i < n
                invariant
                    n == v@.len(),
                    i <= n,
                    out@.len() == i,
                    forall|p: int|
                        0 <= p < i ==> (#[trigger] out@[p]).0@ == v@[p].0@ && out@[p].1.model()
                            == v@[p].1.model(),
                    *j == Json::Obj(*v),
                decreases n - i,
            {
                proof {
                    assert(decreases_to!(*j => (*j)->Obj_0));
                    assert((*j)->Obj_0 == *v);
                    assert(decreases_to!(*v => v@));
                    assert(decreases_to!(v@ => v@[i as int]));
                    assert(decreases_to!(v@[i as int] => v@[i as int].1));
                }
                let k = v[i].0.clone();
                let c = clone_json(&v[i].1);
                out.push((k, c));
                i = i + 1;
            }
            proof {
                crate::json::lemma_entry_models_of(out@);
                crate::json::lemma_entry_models_of(v@);
                assert(Json::entry_models_of(out@) =~= Json::entry_models_of(v@));
            }
            Json::Obj(out)
        },
    }
}

/// A borrowed view of the first field under the given key.
#[verifier::loop_isolation(false)]
pub fn obj_get<'a>(entries: &'a Vec<(String, Json)>, key: &String) -> (r: Option<&'a Json>)
    ensures
        match r {
            Some(v) => obj_lookup(Json::entry_models_of(entries@), key@) == Some(v.model()),
            None => obj_lookup(Json::entry_models_of(entries@), key@) is None,
        },
{
    let ghost ms = Json::entry_models_of(entries@);
    proof {
        crate::json::lemma_entry_models_of(entries@);
        assert(ms.subrange(0, ms.len() as int) =~= ms);
    }
    let n = entries.len();
    let mut i: usize = 0;
    while i < n
        invariant
            i <= n,
            obj_lookup(ms, key@) == obj_lookup(ms.subrange(i as int, ms.len() as int), key@),
        decreases n - i,
    {
        let ghost sfx = ms.subrange(i as int, ms.len() as int);
        if entries[i].0.eq(key) {
            proof {
                assert(sfx[0] == ms[i as int]);
                assert(sfx[0].0 == key@);
                assert(obj_lookup(sfx, key@) == Some(sfx[0].1));
            }
            return Some(&entries[i].1);
        }
        proof {
            assert(sfx[0] == ms[i as int]);
            assert(sfx[0].0 != key@);
            assert(sfx.subrange(1, sfx.len() as int) =~= ms.subrange(
                i as int + 1,
                ms.len() as int,
            ));
        }
        i = i + 1;
    }
    proof {
        assert(ms.subrange(n as int, ms.len() as int).len() == 0);
    }
    None
}

// ---------------------------------------------------------------------------
// Executable encoders.
// ---------------------------------------------------------------------------

/// Encode one rich text segment.
pub fn encode_rich_text(rt: &RichText) -> (r: Json)
    ensures
        r.model() == enc_rich_text(rt@),
{
    let fields: Vec<(String, Json)> = vec![
        ("plain_text".to_owned(), Json::Str(rt.plain_text.clone())),
    ];
    proof {
        crate::json::lemma_entry_models_of(fields@);
        assert(Json::entry_models_of(fields@) =~= seq![("plain_text"@, JsonModel::Str(rt@))]);
    }
    Json::Obj(fields)
}

/// Encode a run of rich text segments as an array.
pub fn encode_rich_texts(texts: &Vec<RichText>) -> (r: Json)
    ensures
        r.model() == JsonModel::Arr(enc_rich_texts(crate::text::text_models(texts@))),
{
    let mut out: Vec<Json> = Vec::new();
    let n = texts.len();
    let mut i: usize = 0;
    while i < n
        invariant
            n == texts@.len(),
            i <= n,
            out@.len() == i,
            forall|p: int| 0 <= p < i ==> (#[trigger] out@[p]).model() == enc_rich_text(texts@[p]@),
        decreases n - i,
    {
        let e = encode_rich_text(&texts[i]);
        out.push(e);
        i = i + 1;
    }
    proof {
        crate::json::lemma_models_of(out@);
        assert(Json::models_of(out@) =~= enc_rich_texts(crate::text::text_models(texts@)));
    }
    Json::Arr(out)
}

/// Encode a parent reference.
pub fn encode_parent(p: &crate::models::Parent) -> (r: Json)
    ensures
        r.model() == enc_parent(p.model()),
{
    match p {
        crate::models::Parent::Database { database_id } => {
            let fields: Vec<(String, Json)> = vec![
                ("database_id".to_owned(), Json::Str(database_id.0.clone())),
                ("type".to_owned(), Json::Str("database_id".to_owned())),
            ];
            proof {
                crate::json::lemma_entry_models_of(fields@);
                assert(Json::entry_models_of(fields@) =~= seq![
                    ("database_id"@, JsonModel::Str(database_id@)),
                    ("type"@, JsonModel::Str("database_id"@)),
                ]);
            }
            Json::Obj(fields)
        },
        crate::models::Parent::Page { page_id } => {
            let fields: Vec<(String, Json)> = vec![
                ("page_id".to_owned(), Json::Str(page_id.0.clone())),
                ("type".to_owned(), Json::Str("page_id".to_owned())),
            ];
            proof {
                crate::json::lemma_entry_models_of(fields@);
                assert(Json::entry_models_of(fields@) =~= seq![
                    ("page_id"@, JsonModel::Str(page_id@)),
                    ("type"@, JsonModel::Str("page_id"@)),
                ]);
            }
            Json::Obj(fields)
        },
        crate::models::Parent::Block { block_id } => {
            let fields: Vec<(String, Json)> = vec![
                ("block_id".to_owned(), Json::Str(block_id.0.clone())),
                ("type".to_owned(), Json::Str("block_id".to_owned())),
            ];
            proof {
                crate::json::lemma_entry_models_of(fields@);
                assert(Json::entry_models_of(fields@) =~= seq![
                    ("block_id"@, JsonModel::Str(block_id@)),
                    ("type"@, JsonModel::Str("block_id"@)),
                ]);
            }
            Json::Obj(fields)
        },
        crate::models::Parent::Workspace => {
            let fields: Vec<(String, Json)> = vec![
                ("type".to_owned(), Json::Str("workspace".to_owned())),
            ];
            proof {
                crate::json::lemma_entry_models_of(fields@);
                assert(Json::entry_models_of(fields@) =~= seq![
                    ("type"@, JsonModel::Str("workspace"@)),
                ]);
            }
            Json::Obj(fields)
        },
    }
}

/// Encode one property value.
pub fn encode_property_value(v: &crate::properties::PropertyValue) -> (r: Json)
    ensures
        r.model() == enc_property_value(v.model()),
{
    match v {
        crate::properties::PropertyValue::Title { id, title } => {
            let titles = encode_rich_texts(title);
            let fields: Vec<(String, Json)> = vec![
                ("id".to_owned(), Json::Str(id.clone())),
                ("title".to_owned(), titles),
                ("type".to_owned(), Json::Str("title".to_owned())),
            ];
            proof {
                crate::json::lemma_entry_models_of(fields@);
                assert(Json::entry_models_of(fields@) =~= seq![
                    ("id"@, JsonModel::Str(id@)),
                    (
                        "title"@,
                        JsonModel::Arr(enc_rich_texts(crate::text::text_models(title@))),
                    ),
                    ("type"@, JsonModel::Str("title"@)),
                ]);
            }
            Json::Obj(fields)
        },
        crate::properties::PropertyValue::Other { payload } => clone_json(payload),
    }
}

/// Encode a property map, in sorted key order whatever order its entries
/// stand in.
pub fn encode_properties(p: &crate::properties::Properties) -> (r: Json)
    ensures
        r.model() == JsonModel::Obj(enc_prop_entries(p.model())),
{
    let ghost me = p.model_entries();
    let mut pairs: Vec<(String, Json)> = Vec::new();
    let n = p.properties.len();
    let mut i: usize = 0;
    while i < n
        invariant
            n == p.properties@.len(),
            i <= n,
            pairs@.len() == i,
            me == p.model_entries(),
            me.len() == n,
            forall|q: int|
                0 <= q < i ==> (#[trigger] pairs@[q]).0@ == me[q].0 && pairs@[q].1.model()
                    == enc_property_value(me[q].1),
        decreases n - i,
    {
        let e = encode_property_value(&p.properties[i].1);
        let k = p.properties[i].0.clone();
        pairs.push((k, e));
        i = i + 1;
    }
    let ghost jm = |j: Json| j.model();
    let ghost encf = |v: crate::properties::PropertyValueModel| enc_property_value(v);
    proof {
        crate::json::lemma_entry_models_of(pairs@);
        assert(Json::entry_models_of(pairs@) =~= crate::order::map_entry_values(me, encf));
    }
    let sorted = crate::order::sort_entries(pairs);
    proof {
        crate::json::lemma_entry_models_of(sorted@);
        assert(Json::entry_models_of(sorted@) =~= crate::order::map_entry_values(
            crate::order::keyed(sorted@),
            jm,
        ));
        assert(Json::entry_models_of(pairs@) =~= crate::order::map_entry_values(
            crate::order::keyed(pairs@),
            jm,
        ));
        crate::order::lemma_sorted_by_key_map_values(crate::order::keyed(pairs@), jm);
        crate::order::lemma_sorted_by_key_map_values(me, encf);
        assert(crate::order::sorted_by_key(crate::order::map_entry_values(me, encf))
            == crate::order::map_entry_values(crate::order::sorted_by_key(me), encf));
        assert(Json::entry_models_of(sorted@) == crate::order::sorted_by_key(
            Json::entry_models_of(pairs@),
        ));
        assert(enc_prop_entries(p.model()) == crate::order::map_entry_values(
            crate::order::sorted_by_key(me),
            encf,
        ));
        assert(Json::entry_models_of(sorted@) == enc_prop_entries(p.model()));
    }
    Json::Obj(sorted)
}

/// Encode a database's property schema, in sorted key order.
fn encode_schema(d: &crate::models::Database) -> (r: Json)
    ensures
        r.model() == JsonModel::Obj(d.model().properties),
{
    let ghost me = d.schema_entries();
    let mut pairs: Vec<(String, Json)> = Vec::new();
    let n = d.properties.len();
    let mut i: usize = 0;
    while i < n
        invariant
            n == d.properties@.len(),
            i <= n,
            pairs@.len() == i,
            me == d.schema_entries(),
            me.len() == n,
            forall|q: int|
                0 <= q < i ==> (#[trigger] pairs@[q]).0@ == me[q].0 && pairs@[q].1.model()
                    == me[q].1,
        decreases n - i,
    {
        let e = clone_json(&d.properties[i].1.payload);
        let k = d.properties[i].0.clone();
        pairs.push((k, e));
        i = i + 1;
    }
    let ghost jm = |j: Json| j.model();
    proof {
        crate::json::lemma_entry_models_of(pairs@);
        assert(Json::entry_models_of(pairs@) =~= me);
    }
    let sorted = crate::order::sort_entries(pairs);
    proof {
        crate::json::lemma_entry_models_of(sorted@);
        assert(Json::entry_models_of(sorted@) =~= crate::order::map_entry_values(
            crate::order::keyed(sorted@),
            jm,
        ));
        assert(Json::entry_models_of(pairs@) =~= crate::order::map_entry_values(
            crate::order::keyed(pairs@),
            jm,
        ));
        crate::order::lemma_sorted_by_key_map_values(crate::order::keyed(pairs@), jm);
        assert(Json::entry_models_of(sorted@) == crate::order::sorted_by_key(
            Json::entry_models_of(pairs@),
        ));
        assert(Json::entry_models_of(sorted@) == crate::order::sorted_by_key(me));
    }
    Json::Obj(sorted)
}

/// Copy an opaque payload's fields.
pub fn encode_fields(fields: &Vec<(String, Json)>) -> (r: Vec<(String, Json)>)
    ensures
        Json::entry_models_of(r@) == Json::entry_models_of(fields@),
{
    let mut out: Vec<(String, Json)> = Vec::new();
    let n = fields.len();
    let mut i: usize = 0;
    while i < n
        invariant
            n == fields@.len(),
            i <= n,
            out@.len() == i,
            forall|q: int|
                0 <= q < i ==> (#[trigger] out@[q]).0@ == fields@[q].0@ && out@[q].1.model()
                    == fields@[q].1.model(),
        decreases n - i,
    {
        let k = fields[i].0.clone();
        let v = clone_json(&fields[i].1);
        out.push((k, v));
        i = i + 1;
    }
    proof {
        crate::json::lemma_entry_models_of(out@);
        crate::json::lemma_entry_models_of(fields@);
        assert(Json::entry_models_of(out@) =~= Json::entry_models_of(fields@));
    }
    out
}

/// The fields of a database on the wire.
pub fn encode_database_fields(d: &crate::models::Database) -> (r: Vec<(String, Json)>)
    ensures
        Json::entry_models_of(r@) == enc_database_fields(d.model()),
{
    let props = encode_schema(d);
    let titles = encode_rich_texts(&d.title);
    let fields: Vec<(String, Json)> = vec![
        ("created_time".to_owned(), Json::Str(d.created_time.0.clone())),
        ("id".to_owned(), Json::Str(d.id.0.clone())),
        ("last_edited_time".to_owned(), Json::Str(d.last_edited_time.0.clone())),
        ("properties".to_owned(), props),
        ("title".to_owned(), titles),
    ];
    proof {
        crate::json::lemma_entry_models_of(fields@);
        assert(Json::entry_models_of(fields@) =~= enc_database_fields(d.model()));
    }
    fields
}

/// The fields of a page on the wire; unset optional fields are omitted.
#[verifier::rlimit(30)]
pub fn encode_page_fields(p: &crate::models::Page) -> (r: Vec<(String, Json)>)
    ensures
        Json::entry_models_of(r@) == enc_page_fields(p.model()),
{
    let mut out: Vec<(String, Json)> = Vec::new();
    out.push(("archived".to_owned(), Json::Bool(p.archived)));
    match &p.blocks {
        Some(bs) => {
            let mut arr: Vec<Json> = Vec::new();
            let n = bs.len();
            let mut i: usize = 0;
            while i < n
                invariant
                    n == bs@.len(),
                    i <= n,
                    arr@.len() == i,
                    forall|q: int|
                        0 <= q < i ==> (#[trigger] arr@[q]).model() == JsonModel::Obj(
                            bs@[q].model(),
                        ),
                decreases n - i,
            {
                let fs = encode_fields(&bs[i].fields);
                arr.push(Json::Obj(fs));
                i = i + 1;
            }
            proof {
                crate::json::lemma_models_of(arr@);
                assert(Json::models_of(arr@) =~= enc_blocks(crate::models::block_models(bs@)));
            }
            out.push(("blocks".to_owned(), Json::Arr(arr)));
        },
        None => {},
    }
    out.push(("created_time".to_owned(), Json::Str(p.created_time.0.clone())));
    match &p.icon {
        Some(f) => {
            let fs = encode_fields(&f.fields);
            out.push(("icon".to_owned(), Json::Obj(fs)));
        },
        None => {},
    }
    out.push(("id".to_owned(), Json::Str(p.id.0.clone())));
    out.push(("last_edited_time".to_owned(), Json::Str(p.last_edited_time.0.clone())));
    let parent = encode_parent(&p.parent);
    out.push(("parent".to_owned(), parent));
    let props = encode_properties(&p.properties);
    out.push(("properties".to_owned(), props));
    match &p.url {
        Some(u) => {
            out.push(("url".to_owned(), Json::Str(u.clone())));
        },
        None => {},
    }
    proof {
        crate::json::lemma_entry_models_of(out@);
        assert(Json::entry_models_of(out@) =~= enc_page_fields(p.model()));
    }
    out
}

/// Encode an object: the `object` discriminator, then the variant's fields
/// flattened beside it.
#[verifier::loop_isolation(false)]
pub fn encode_object(o: &crate::models::Object) -> (r: Json)
    ensures
        r.model() == enc_object(o.model()),
    decreases *o,
{
    match o {
        crate::models::Object::Block { block } => {
            let mut out: Vec<(String, Json)> = vec![
                ("object".to_owned(), Json::Str("block".to_owned())),
            ];
            let mut rest = encode_fields(&block.fields);
            let ghost restv = rest@;
            out.append(&mut rest);
            proof {
                crate::json::lemma_entry_models_of(out@);
                crate::json::lemma_entry_models_of(restv);
                assert(Json::entry_models_of(out@) =~= seq![
                    ("object"@, JsonModel::Str("block"@)),
                ] + block.model());
            }
            Json::Obj(out)
        },
        crate::models::Object::Database { database } => {
            let mut out: Vec<(String, Json)> = vec![
                ("object".to_owned(), Json::Str("database".to_owned())),
            ];
            let ghost fm = enc_database_fields(database.model());
            let mut rest = encode_database_fields(database);
            let ghost restv = rest@;
            out.append(&mut rest);
            proof {
                crate::json::lemma_entry_models_of(out@);
                crate::json::lemma_entry_models_of(restv);
                assert(Json::entry_models_of(out@) =~= seq![
                    ("object"@, JsonModel::Str("database"@)),
                ] + fm);
            }
            Json::Obj(out)
        },
        crate::models::Object::Page { page } => {
            let mut out: Vec<(String, Json)> = vec![
                ("object".to_owned(), Json::Str("page".to_owned())),
            ];
            let ghost fm = enc_page_fields(page.model());
            let mut rest = encode_page_fields(page);
            let ghost restv = rest@;
            out.append(&mut rest);
            proof {
                crate::json::lemma_entry_models_of(out@);
                crate::json::lemma_entry_models_of(restv);
                assert(Json::entry_models_of(out@) =~= seq![
                    ("object"@, JsonModel::Str("page"@)),
                ] + fm);
            }
            Json::Obj(out)
        },
        crate::models::Object::List { list } => {
            let mut arr: Vec<Json> = Vec::new();
            let n = list.results.len();
            let mut i: usize = 0;
            while i < n
                invariant
                    n == list.results@.len(),
                    i <= n,
                    arr@.len() == i,
                    forall|q: int|
                        0 <= q < i ==> (#[trigger] arr@[q]).model() == enc_object(
                            list.results@[q].model(),
                        ),
                decreases *o, 0int, n - i,
            {
                proof {
                    assert(decreases_to!(*o => (*o)->List_list));
                    assert((*o)->List_list == *list);
                    assert(decreases_to!(*list => list.results));
                    assert(decreases_to!(list.results => list.results@));
                    assert(decreases_to!(list.results@ => list.results@[i as int]));
                }
                let e = encode_object(&list.results[i]);
                arr.push(e);
                i = i + 1;
            }
            proof {
                crate::json::lemma_models_of(arr@);
                crate::models::lemma_object_models_of(list.results@);
                assert(Json::models_of(arr@) =~= enc_objects(
                    crate::models::Object::models_of(list.results@),
                )) by {
                    lemma_enc_objects_pointwise(crate::models::Object::models_of(list.results@));
                }
            }
            let cursor = match &list.next_cursor {
                Some(c) => Json::Str(c.0.clone()),
                None => Json::Null,
            };
            let out: Vec<(String, Json)> = vec![
                ("object".to_owned(), Json::Str("list".to_owned())),
                ("has_more".to_owned(), Json::Bool(list.has_more)),
                ("next_cursor".to_owned(), cursor),
                ("results".to_owned(), Json::Arr(arr)),
            ];
            proof {
                crate::json::lemma_entry_models_of(out@);
                assert(Json::entry_models_of(out@) =~= seq![
                    ("object"@, JsonModel::Str("list"@)),
                ] + enc_list_fields(
                    crate::models::Object::models_of(list.results@),
                    crate::models::cursor_model(list.next_cursor),
                    list.has_more,
                ));
            }
            Json::Obj(out)
        },
        crate::models::Object::User { user } => {
            let mut out: Vec<(String, Json)> = vec![
                ("object".to_owned(), Json::Str("user".to_owned())),
            ];
            let mut rest = encode_fields(&user.fields);
            let ghost restv = rest@;
            out.append(&mut rest);
            proof {
                crate::json::lemma_entry_models_of(out@);
                crate::json::lemma_entry_models_of(restv);
                assert(Json::entry_models_of(out@) =~= seq![
                    ("object"@, JsonModel::Str("user"@)),
                ] + user.model());
            }
            Json::Obj(out)
        },
        crate::models::Object::Error { error } => {
            let mut out: Vec<(String, Json)> = vec![
                ("object".to_owned(), Json::Str("error".to_owned())),
            ];
            let mut rest = encode_fields(&error.fields);
            let ghost restv = rest@;
            out.append(&mut rest);
            proof {
                crate::json::lemma_entry_models_of(out@);
                crate::json::lemma_entry_models_of(restv);
                assert(Json::entry_models_of(out@) =~= seq![
                    ("object"@, JsonModel::Str("error"@)),
                ] + error.model());
            }
            Json::Obj(out)
        },
        crate::models::Object::PropertyItem { property_item } => {
            let mut out: Vec<(String, Json)> = vec![
                ("object".to_owned(), Json::Str("property_item".to_owned())),
            ];
            let mut rest = encode_fields(&property_item.fields);
            let ghost restv = rest@;
            out.append(&mut rest);
            proof {
                crate::json::lemma_entry_models_of(out@);
                crate::json::lemma_entry_models_of(restv);
                assert(Json::entry_models_of(out@) =~= seq![
                    ("object"@, JsonModel::Str("property_item"@)),
                ] + property_item.model());
            }
            Json::Obj(out)
        },
    }
}

/// `enc_objects` maps the sequence pointwise.
pub proof fn lemma_enc_objects_pointwise(ms: Seq<crate::models::ObjectModel>)
    ensures
        enc_objects(ms).len() == ms.len(),
        forall|i: int| 0 <= i < ms.len() ==> enc_objects(ms)[i] == enc_object(ms[i]),
    decreases ms.len(),
{
    if ms.len() > 0 {
        lemma_enc_objects_pointwise(ms.subrange(1, ms.len() as int));
    }
}

/// A page-creation request on the wire: parent, properties, and whatever
/// optional parts were set; unset ones are omitted.
pub open spec fn enc_page_create_request(
    parent: crate::models::ParentModel,
    properties: Seq<(Seq<char>, crate::properties::PropertyValueModel)>,
    children: Option<Seq<Seq<(Seq<char>, JsonModel)>>>,
    icon: Option<Seq<(Seq<char>, JsonModel)>>,
) -> JsonModel {
    JsonModel::Obj(
        (match children {
            Option::Some(cs) => seq![("children"@, JsonModel::Arr(enc_blocks(cs)))],
            Option::None => Seq::empty(),
        }) + (match icon {
            Option::Some(fs) => seq![("icon"@, JsonModel::Obj(fs))],
            Option::None => Seq::empty(),
        }) + seq![
            ("parent"@, enc_parent(parent)),
            ("properties"@, JsonModel::Obj(enc_prop_entries(properties))),
        ],
    )
}

/// The models of a run of blocks under construction.
pub open spec fn create_block_models(s: Seq<crate::models::CreateBlock>) -> Seq<
    Seq<(Seq<char>, JsonModel)>,
> {
    Seq::new(s.len(), |i: int| s[i].model())
}

/// Encode a page-creation request.
pub fn encode_page_create_request(r: &crate::models::PageCreateRequest) -> (out: Json)
    ensures
        out.model() == enc_page_create_request(
            r.parent.model(),
            r.properties.model(),
            match r.children {
                Option::Some(cs) => Some(create_block_models(cs@)),
                Option::None => None,
            },
            match r.icon {
                Option::Some(f) => Some(f.model()),
                Option::None => None,
            },
        ),
{
    let mut fields: Vec<(String, Json)> = Vec::new();
    match &r.children {
        Some(cs) => {
            let mut arr: Vec<Json> = Vec::new();
            let n = cs.len();
            let mut i: usize = 0;
            while i < n
                invariant
                    n == cs@.len(),
                    i <= n,
                    arr@.len() == i,
                    forall|q: int|
                        0 <= q < i ==> (#[trigger] arr@[q]).model() == JsonModel::Obj(
                            cs@[q].model(),
                        ),
                decreases n - i,
            {
                let fs = encode_fields(&cs[i].fields);
                arr.push(Json::Obj(fs));
                i = i + 1;
            }
            proof {
                crate::json::lemma_models_of(arr@);
                assert(Json::models_of(arr@) =~= enc_blocks(create_block_models(cs@)));
            }
            fields.push(("children".to_owned(), Json::Arr(arr)));
        },
        None => {},
    }
    match &r.icon {
        Some(f) => {
            let fs = encode_fields(&f.fields);
            fields.push(("icon".to_owned(), Json::Obj(fs)));
        },
        None => {},
    }
    let parent = encode_parent(&r.parent);
    fields.push(("parent".to_owned(), parent));
    let props = encode_properties(&r.properties);
    fields.push(("properties".to_owned(), props));
    proof {
        crate::json::lemma_entry_models_of(fields@);
        assert(Json::entry_models_of(fields@) =~= enc_page_create_request(
            r.parent.model(),
            r.properties.model(),
            match r.children {
                Option::Some(cs) => Some(create_block_models(cs@)),
                Option::None => None,
            },
            match r.icon {
                Option::Some(f) => Some(f.model()),
                Option::None => None,
            },
        )->Obj_0);
    }
    Json::Obj(fields)
}

/// A page-update request on the wire; unset optional parts are omitted.
pub open spec fn enc_page_update_request(
    properties: Seq<(Seq<char>, crate::properties::PropertyValueModel)>,
    archived: Option<bool>,
    icon: Option<Seq<(Seq<char>, JsonModel)>>,
) -> JsonModel {
    JsonModel::Obj(
        (match archived {
            Option::Some(b) => seq![("archived"@, JsonModel::Bool(b))],
            Option::None => Seq::empty(),
        }) + (match icon {
            Option::Some(fs) => seq![("icon"@, JsonModel::Obj(fs))],
            Option::None => Seq::empty(),
        }) + seq![("properties"@, JsonModel::Obj(enc_prop_entries(properties)))],
    )
}

/// Encode a page-update request.
pub fn encode_page_update_request(r: &crate::models::PageUpdateRequest) -> (out: Json)
    ensures
        out.model() == enc_page_update_request(
            r.properties.model(),
            r.archived,
            match r.icon {
                Option::Some(f) => Some(f.model()),
                Option::None => None,
            },
        ),
{
    let mut fields: Vec<(String, Json)> = Vec::new();
    match &r.archived {
        Some(b) => {
            fields.push(("archived".to_owned(), Json::Bool(*b)));
        },
        None => {},
    }
    match &r.icon {
        Some(f) => {
            let fs = encode_fields(&f.fields);
            fields.push(("icon".to_owned(), Json::Obj(fs)));
        },
        None => {},
    }
    let props = encode_properties(&r.properties);
    fields.push(("properties".to_owned(), props));
    proof {
        crate::json::lemma_entry_models_of(fields@);
        assert(Json::entry_models_of(fields@) =~= enc_page_update_request(
            r.properties.model(),
            r.archived,
            match r.icon {
                Option::Some(f) => Some(f.model()),
                Option::None => None,
            },
        )->Obj_0);
    }
    Json::Obj(fields)
}

/// A block-children replacement request on the wire.
pub open spec fn enc_update_block_children_request(
    children: Seq<Seq<(Seq<char>, JsonModel)>>,
) -> JsonModel {
    JsonModel::Obj(seq![("children"@, JsonModel::Arr(enc_blocks(children)))])
}

/// Encode a block-children replacement request.
pub fn encode_update_block_children_request(
    r: &crate::models::UpdateBlockChildrenRequest,
) -> (out: Json)
    ensures
        out.model() == enc_update_block_children_request(create_block_models(r.children@)),
{
    let mut arr: Vec<Json> = Vec::new();
    let n = r.children.len();
    let mut i: usize = 0;
    while i < n
        invariant
            n == r.children@.len(),
            i <= n,
            arr@.len() == i,
            forall|q: int|
                0 <= q < i ==> (#[trigger] arr@[q]).model() == JsonModel::Obj(
                    r.children@[q].model(),
                ),
        decreases n - i,
    {
        let fs = encode_fields(&r.children[i].fields);
        arr.push(Json::Obj(fs));
        i = i + 1;
    }
    proof {
        crate::json::lemma_models_of(arr@);
        assert(Json::models_of(arr@) =~= enc_blocks(create_block_models(r.children@)));
    }
    let fields: Vec<(String, Json)> = vec![("children".to_owned(), Json::Arr(arr))];
    proof {
        crate::json::lemma_entry_models_of(fields@);
        assert(Json::entry_models_of(fields@) =~= seq![
            ("children"@, JsonModel::Arr(enc_blocks(create_block_models(r.children@)))),
        ]);
    }
    Json::Obj(fields)
}

// ---------------------------------------------------------------------------
// Executable decoders.
// ---------------------------------------------------------------------------

/// Decode one rich text segment.
pub fn decode_rich_text(j: Json) -> (r: Result<RichText, DecodeError>)
    ensures
        match r {
            Ok(t) => dec_rich_text(j.model()) == Ok::<Seq<char>, DecodeErrorModel>(t@),
            Err(e) => dec_rich_text(j.model()) == Err::<Seq<char>, DecodeErrorModel>(e.model()),
        },
{
    let key = "plain_text".to_owned();
    match j {
        Json::Obj(mut entries) => {
            match take_field(&mut entries, &key) {
                Some(v) => match v {
                    Json::Str(s) => Ok(RichText { plain_text: s }),
                    _ => Err(DecodeError::WrongType { field: key }),
                },
                None => Err(DecodeError::MissingField { field: key }),
            }
        },
        _ => Err(DecodeError::WrongType { field: key }),
    }
}

/// Decode an array of rich text segments; the failure nearest the end of
/// the array is the one reported.
#[verifier::loop_isolation(false)]
pub fn decode_rich_texts(js: Vec<Json>) -> (r: Result<Vec<RichText>, DecodeError>)
    ensures
        match r {
            Ok(ts) => dec_rich_texts(Json::models_of(js@)) == Ok::<
                Seq<Seq<char>>,
                DecodeErrorModel,
            >(crate::text::text_models(ts@)),
            Err(e) => dec_rich_texts(Json::models_of(js@)) == Err::<
                Seq<Seq<char>>,
                DecodeErrorModel,
            >(e.model()),
        },
{
    let ghost orig = js@;
    let ghost oms = Json::models_of(orig);
    proof {
        crate::json::lemma_models_of(orig);
    }
    let mut rest = js;
    let mut out: Vec<RichText> = Vec::new();
    proof {
        assert(rest@ =~= orig.subrange(0, orig.len() as int));
        assert(oms.subrange(0, orig.len() as int) =~= oms);
        assert(crate::text::text_models(out@) =~= Seq::<Seq<char>>::empty());
        match dec_rich_texts(oms) {
            Ok(pre) => {
                assert(pre + crate::text::text_models(out@) =~= pre);
            },
            Err(e) => {},
        }
        assert(oms.subrange(orig.len() as int, oms.len() as int).len() == 0);
    }
    while rest.len() > 0
        invariant
            rest@ == orig.subrange(0, rest@.len() as int),
            rest@.len() <= orig.len(),
            dec_rich_texts(oms) == (match dec_rich_texts(oms.subrange(0, rest@.len() as int)) {
                Ok(pre) => Ok::<Seq<Seq<char>>, DecodeErrorModel>(
                    pre + crate::text::text_models(out@),
                ),
                Err(e) => Err(e),
            }),
        decreases rest@.len(),
    {
        let ghost i = rest@.len() - 1;
        let e = match rest.pop() {
            Some(x) => x,
            None => {
                proof {
                    assert(false);
                }
                return Err(DecodeError::MissingField { field: "plain_text".to_owned() });
            },
        };
        proof {
            assert(e == orig[i]);
            assert(rest@ =~= orig.subrange(0, i));
            assert(e.model() == oms[i]);
        }
        let ghost pre = oms.subrange(0, i + 1);
        proof {
            assert(pre.subrange(1, pre.len() as int) =~= oms.subrange(1, i + 1));
        }
        match decode_rich_text(e) {
            Ok(t) => {
                let ghost tmodel = t@;
                let ghost oldtexts = crate::text::text_models(out@);
                let ghost oldout = out@;
                out.insert(0, t);
                proof {
                    lemma_dec_rich_texts_step(oms, i);
                    assert(out@.subrange(1, out@.len() as int) =~= oldout);
                    assert(crate::text::text_models(out@) =~= seq![tmodel] + oldtexts);
                    match dec_rich_texts(oms.subrange(0, i)) {
                        Ok(ts) => {
                            assert(dec_rich_texts(oms.subrange(0, i + 1)) == Ok::<
                                Seq<Seq<char>>,
                                DecodeErrorModel,
                            >(ts + seq![tmodel]));
                            assert((ts + seq![tmodel]) + oldtexts =~= ts + (seq![tmodel]
                                + oldtexts));
                        },
                        Err(e2) => {},
                    }
                }
            },
            Err(er) => {
                proof {
                    lemma_dec_rich_texts_step(oms, i);
                }
                return Err(er);
            },
        }
    }
    proof {
        assert(oms.subrange(0, 0).len() == 0);
    }
    Ok(out)
}

/// Peeling the last element off a prefix of a rich text array.
proof fn lemma_dec_rich_texts_step(oms: Seq<JsonModel>, i: int)
    requires
        0 <= i < oms.len(),
    ensures
        dec_rich_texts(oms.subrange(0, i + 1)) == (match dec_rich_text(oms[i]) {
            Ok(t) => match dec_rich_texts(oms.subrange(0, i)) {
                Ok(ts) => Ok::<Seq<Seq<char>>, DecodeErrorModel>(ts + seq![t]),
                Err(e) => Err(e),
            },
            Err(e) => Err(e),
        }),
    decreases i,
{
    let a = oms.subrange(0, i + 1);
    let b = oms.subrange(0, i);
    if i == 0 {
        assert(a.subrange(1, a.len() as int) =~= Seq::<JsonModel>::empty());
        assert(dec_rich_texts(a.subrange(1, a.len() as int)) == Ok::<
            Seq<Seq<char>>,
            DecodeErrorModel,
        >(Seq::empty()));
        assert(b.len() == 0);
        match dec_rich_text(oms[0]) {
            Ok(t) => {
                assert(a[0] == oms[0]);
                assert(dec_rich_texts(a) == Ok::<Seq<Seq<char>>, DecodeErrorModel>(
                    seq![t] + Seq::empty(),
                ));
                assert(seq![t] + Seq::<Seq<char>>::empty() =~= Seq::<Seq<char>>::empty()
                    + seq![t]);
            },
            Err(e) => {
                assert(a[0] == oms[0]);
            },
        }
    } else {
        let t = oms.subrange(1, oms.len() as int);
        lemma_dec_rich_texts_step(t, i - 1);
        assert(a.subrange(1, a.len() as int) =~= t.subrange(0, i));
        assert(b.subrange(1, b.len() as int) =~= t.subrange(0, i - 1));
        assert(t[i - 1] == oms[i]);
        assert(a[0] == oms[0] && b[0] == oms[0]);
        match dec_rich_text(oms[i]) {
            Ok(tt) => {
                match dec_rich_texts(t.subrange(0, i - 1)) {
                    Ok(ts) => {
                        assert(dec_rich_texts(t.subrange(0, i)) == Ok::<
                            Seq<Seq<char>>,
                            DecodeErrorModel,
                        >(ts + seq![tt]));
                        match dec_rich_text(oms[0]) {
                            Ok(h) => {
                                assert(seq![h] + (ts + seq![tt]) =~= (seq![h] + ts) + seq![tt]);
                            },
                            Err(_) => {},
                        }
                    },
                    Err(_) => {},
                }
            },
            Err(_) => {},
        }
    }
}

/// Decode a parent reference.
pub fn decode_parent(j: Json) -> (r: Result<crate::models::Parent, DecodeError>)
    ensures
        match r {
            Ok(p) => dec_parent(j.model()) == Ok::<crate::models::ParentModel, DecodeErrorModel>(
                p.model(),
            ),
            Err(e) => dec_parent(j.model()) == Err::<
                crate::models::ParentModel,
                DecodeErrorModel,
            >(e.model()),
        },
{
    let ghost jm = j.model();
    let type_key = "type".to_owned();
    match j {
        Json::Obj(mut entries) => {
            let ghost es0 = Json::entry_models_of(entries@);
            proof {
                reveal_strlit("type");
                reveal_strlit("database_id");
                reveal_strlit("page_id");
                reveal_strlit("block_id");
                reveal_strlit("workspace");
                assert("type"@.len() == 4 && "database_id"@.len() == 11 && "page_id"@.len() == 7
                    && "block_id"@.len() == 8);
                assert("type"@ != "database_id"@ && "type"@ != "page_id"@ && "type"@
                    != "block_id"@);
            }
            match take_field(&mut entries, &type_key) {
                Some(tj) => match tj {
                    Json::Str(t) => {
                        proof {
                            lemma_remove_first_lookup(es0, "type"@, "database_id"@);
                            lemma_remove_first_lookup(es0, "type"@, "page_id"@);
                            lemma_remove_first_lookup(es0, "type"@, "block_id"@);
                        }
                        if t.eq(&"database_id".to_owned()) {
                            match take_field(&mut entries, &"database_id".to_owned()) {
                                Some(Json::Str(id)) => Ok(
                                    crate::models::Parent::Database {
                                        database_id: crate::ids::DatabaseId(id),
                                    },
                                ),
                                Some(_) => Err(
                                    DecodeError::WrongType { field: "database_id".to_owned() },
                                ),
                                None => Err(
                                    DecodeError::MissingField {
                                        field: "database_id".to_owned(),
                                    },
                                ),
                            }
                        } else if t.eq(&"page_id".to_owned()) {
                            match take_field(&mut entries, &"page_id".to_owned()) {
                                Some(Json::Str(id)) => Ok(
                                    crate::models::Parent::Page {
                                        page_id: crate::ids::PageId(id),
                                    },
                                ),
                                Some(_) => Err(
                                    DecodeError::WrongType { field: "page_id".to_owned() },
                                ),
                                None => Err(
                                    DecodeError::MissingField { field: "page_id".to_owned() },
                                ),
                            }
                        } else if t.eq(&"block_id".to_owned()) {
                            match take_field(&mut entries, &"block_id".to_owned()) {
                                Some(Json::Str(id)) => Ok(
                                    crate::models::Parent::Block {
                                        block_id: crate::ids::BlockId(id),
                                    },
                                ),
                                Some(_) => Err(
                                    DecodeError::WrongType { field: "block_id".to_owned() },
                                ),
                                None => Err(
                                    DecodeError::MissingField { field: "block_id".to_owned() },
                                ),
                            }
                        } else if t.eq(&"workspace".to_owned()) {
                            Ok(crate::models::Parent::Workspace)
                        } else {
                            Err(DecodeError::UnknownTag { tag: t })
                        }
                    },
                    _ => Err(DecodeError::WrongType { field: type_key }),
                },
                None => Err(DecodeError::MissingField { field: type_key }),
            }
        },
        _ => Err(DecodeError::WrongType { field: type_key }),
    }
}

/// Decode one property value: a title payload is spelled out, anything else
/// is carried verbatim.
pub fn decode_property_value(j: Json) -> (r: Result<
    crate::properties::PropertyValue,
    DecodeError,
>)
    ensures
        match r {
            Ok(v) => dec_property_value(j.model()) == Ok::<
                crate::properties::PropertyValueModel,
                DecodeErrorModel,
            >(v.model()),
            Err(e) => dec_property_value(j.model()) == Err::<
                crate::properties::PropertyValueModel,
                DecodeErrorModel,
            >(e.model()),
        },
{
    let ghost jm = j.model();
    let type_key = "type".to_owned();
    let title_lit = "title".to_owned();
    let mut titled = false;
    match &j {
        Json::Obj(es) => {
            match obj_get(es, &type_key) {
                Some(tv) => match tv {
                    Json::Str(t) => {
                        if t.eq(&title_lit) {
                            titled = true;
                        }
                    },
                    _ => {},
                },
                None => {},
            }
        },
        _ => {},
    }
    proof {
        assert(titled == is_title_payload(jm));
    }
    if !titled {
        return Ok(crate::properties::PropertyValue::Other { payload: j });
    }
    match j {
        Json::Obj(mut entries) => {
            let ghost es0 = Json::entry_models_of(entries@);
            proof {
                reveal_strlit("id");
                reveal_strlit("title");
                assert("id"@.len() == 2 && "title"@.len() == 5);
                assert("id"@ != "title"@);
            }
            let id = match take_field(&mut entries, &"id".to_owned()) {
                Some(Json::Str(s)) => s,
                Some(_) => {
                    return Err(DecodeError::WrongType { field: "id".to_owned() });
                },
                None => {
                    return Err(DecodeError::MissingField { field: "id".to_owned() });
                },
            };
            proof {
                lemma_remove_first_lookup(es0, "id"@, "title"@);
            }
            match take_field(&mut entries, &title_lit) {
                Some(Json::Arr(js)) => match decode_rich_texts(js) {
                    Ok(ts) => Ok(crate::properties::PropertyValue::Title { id: id, title: ts }),
                    Err(e) => Err(e),
                },
                Some(_) => Err(DecodeError::WrongType { field: title_lit }),
                None => Err(DecodeError::MissingField { field: title_lit }),
            }
        },
        _ => {
            proof {
                assert(false);
            }
            Err(DecodeError::WrongType { field: type_key })
        },
    }
}

/// An error in a suffix of a property map is the whole map's error.
proof fn lemma_dec_prop_entries_err(
    oms: Seq<(Seq<char>, JsonModel)>,
    i: int,
    e: DecodeErrorModel,
)
    requires
        0 <= i <= oms.len(),
        dec_prop_entries(oms.subrange(i, oms.len() as int)) == Err::<
            Seq<(Seq<char>, crate::properties::PropertyValueModel)>,
            DecodeErrorModel,
        >(e),
    ensures
        dec_prop_entries(oms) == Err::<
            Seq<(Seq<char>, crate::properties::PropertyValueModel)>,
            DecodeErrorModel,
        >(e),
    decreases i,
{
    if i == 0 {
        assert(oms.subrange(0, oms.len() as int) =~= oms);
    } else {
        let s = oms.subrange(i - 1, oms.len() as int);
        assert(s.subrange(1, s.len() as int) =~= oms.subrange(i, oms.len() as int));
        assert(dec_prop_entries(s) == Err::<
            Seq<(Seq<char>, crate::properties::PropertyValueModel)>,
            DecodeErrorModel,
        >(e));
        lemma_dec_prop_entries_err(oms, i - 1, e);
    }
}

/// An error in a suffix of a schema is the whole schema's error.
proof fn lemma_dec_schema_entries_err(
    oms: Seq<(Seq<char>, JsonModel)>,
    i: int,
    e: DecodeErrorModel,
)
    requires
        0 <= i <= oms.len(),
        dec_schema_entries(oms.subrange(i, oms.len() as int)) == Err::<
            Seq<(Seq<char>, JsonModel)>,
            DecodeErrorModel,
        >(e),
    ensures
        dec_schema_entries(oms) == Err::<Seq<(Seq<char>, JsonModel)>, DecodeErrorModel>(e),
    decreases i,
{
    if i == 0 {
        assert(oms.subrange(0, oms.len() as int) =~= oms);
    } else {
        let s = oms.subrange(i - 1, oms.len() as int);
        assert(s.subrange(1, s.len() as int) =~= oms.subrange(i, oms.len() as int));
        assert(dec_schema_entries(s) == Err::<Seq<(Seq<char>, JsonModel)>, DecodeErrorModel>(e));
        lemma_dec_schema_entries_err(oms, i - 1, e);
    }
}

/// An error in a suffix of a block array is the whole array's error.
proof fn lemma_dec_blocks_err(oms: Seq<JsonModel>, i: int, e: DecodeErrorModel)
    requires
        0 <= i <= oms.len(),
        dec_blocks(oms.subrange(i, oms.len() as int)) == Err::<
            Seq<Seq<(Seq<char>, JsonModel)>>,
            DecodeErrorModel,
        >(e),
    ensures
        dec_blocks(oms) == Err::<Seq<Seq<(Seq<char>, JsonModel)>>, DecodeErrorModel>(e),
    decreases i,
{
    if i == 0 {
        assert(oms.subrange(0, oms.len() as int) =~= oms);
    } else {
        let s = oms.subrange(i - 1, oms.len() as int);
        assert(s.subrange(1, s.len() as int) =~= oms.subrange(i, oms.len() as int));
        assert(dec_blocks(s) == Err::<Seq<Seq<(Seq<char>, JsonModel)>>, DecodeErrorModel>(e));
        lemma_dec_blocks_err(oms, i - 1, e);
    }
}

/// Decode a property map's fields into a `Properties` value, refusing
/// duplicate names.
#[verifier::loop_isolation(false)]
pub fn decode_prop_entries(es: Vec<(String, Json)>) -> (r: Result<
    crate::properties::Properties,
    DecodeError,
>)
    ensures
        match r {
            Ok(p) => dec_prop_entries(Json::entry_models_of(es@)) == Ok::<
                Seq<(Seq<char>, crate::properties::PropertyValueModel)>,
                DecodeErrorModel,
            >(crate::properties::entry_models(p.properties@)),
            Err(e) => dec_prop_entries(Json::entry_models_of(es@)) == Err::<
                Seq<(Seq<char>, crate::properties::PropertyValueModel)>,
                DecodeErrorModel,
            >(e.model()),
        },
{
    let ghost orig = es@;
    let ghost oms = Json::entry_models_of(orig);
    proof {
        crate::json::lemma_entry_models_of(orig);
    }
    let mut rest = es;
    let mut out: Vec<(String, crate::properties::PropertyValue)> = Vec::new();
    proof {
        assert(rest@ =~= orig.subrange(0, orig.len() as int));
        assert(oms.subrange(orig.len() as int, oms.len() as int).len() == 0);
        assert(crate::properties::entry_models(out@) =~= Seq::<
            (Seq<char>, crate::properties::PropertyValueModel),
        >::empty());
    }
    while rest.len() > 0
        invariant
            rest@ == orig.subrange(0, rest@.len() as int),
            rest@.len() <= orig.len(),
            dec_prop_entries(oms.subrange(rest@.len() as int, oms.len() as int)) == Ok::<
                Seq<(Seq<char>, crate::properties::PropertyValueModel)>,
                DecodeErrorModel,
            >(crate::properties::entry_models(out@)),
        decreases rest@.len(),
    {
        let ghost i = rest@.len() - 1;
        let entry = match rest.pop() {
            Some(x) => x,
            None => {
                proof {
                    assert(false);
                }
                return Err(DecodeError::MissingField { field: "properties".to_owned() });
            },
        };
        let (k, v) = entry;
        proof {
            assert(rest@ =~= orig.subrange(0, i));
            assert((k@, v.model()) == oms[i]);
        }
        let ghost sfx = oms.subrange(i, oms.len() as int);
        proof {
            assert(sfx[0] == oms[i]);
            assert(sfx.subrange(1, sfx.len() as int) =~= oms.subrange(i + 1, oms.len() as int));
        }
        match decode_property_value(v) {
            Err(e) => {
                proof {
                    lemma_dec_prop_entries_err(oms, i, e.model());
                }
                return Err(e);
            },
            Ok(pv) => {
                let ghost outm = crate::properties::entry_models(out@);
                let mut dup = false;
                let mut p: usize = 0;
                while p < out.len()
                    invariant
                        p <= out@.len(),
                        outm == crate::properties::entry_models(out@),
                        dup <==> exists|q: int|
                            0 <= q < p && (#[trigger] outm[q]).0 == k@,
                    decreases out@.len() - p,
                {
                    if out[p].0.eq(&k) {
                        proof {
                            assert(outm[p as int].0 == k@);
                        }
                        dup = true;
                    }
                    p = p + 1;
                }
                proof {
                    if dup {
                        let q = choose|q: int|
                            0 <= q < out@.len() && (#[trigger] outm[q]).0 == k@;
                        crate::order::lemma_has_key_intro(outm, q);
                        assert(has_key(outm, k@));
                    } else {
                        if has_key(outm, k@) {
                            let q = crate::order::key_index(outm, k@);
                            assert(outm[q].0 == k@);
                            assert(false);
                        }
                    }
                }
                if dup {
                    proof {
                        lemma_dec_prop_entries_err(
                            oms,
                            i,
                            DecodeErrorModel::DuplicateKey { key: k@ },
                        );
                    }
                    return Err(DecodeError::DuplicateKey { key: k });
                }
                let ghost oldout = out@;
                out.insert(0, (k, pv));
                proof {
                    assert(out@.subrange(1, out@.len() as int) =~= oldout);
                    assert(crate::properties::entry_models(out@) =~= seq![
                        (oms[i].0, dec_property_value(oms[i].1)->Ok_0),
                    ] + outm);
                }
            },
        }
    }
    proof {
        assert(oms.subrange(0, oms.len() as int) =~= oms);
    }
    Ok(crate::properties::Properties { properties: out })
}

/// Decode a database schema's fields, refusing duplicate names.
#[verifier::loop_isolation(false)]
pub fn decode_schema_entries(es: Vec<(String, Json)>) -> (r: Result<
    Vec<(String, crate::properties::PropertyConfiguration)>,
    DecodeError,
>)
    ensures
        match r {
            Ok(ss) => dec_schema_entries(Json::entry_models_of(es@)) == Ok::<
                Seq<(Seq<char>, JsonModel)>,
                DecodeErrorModel,
            >(Seq::new(ss@.len(), |q: int| (ss@[q].0@, ss@[q].1.model()))),
            Err(e) => dec_schema_entries(Json::entry_models_of(es@)) == Err::<
                Seq<(Seq<char>, JsonModel)>,
                DecodeErrorModel,
            >(e.model()),
        },
{
    let ghost orig = es@;
    let ghost oms = Json::entry_models_of(orig);
    proof {
        crate::json::lemma_entry_models_of(orig);
    }
    let mut rest = es;
    let mut out: Vec<(String, crate::properties::PropertyConfiguration)> = Vec::new();
    proof {
        assert(rest@ =~= orig.subrange(0, orig.len() as int));
        assert(oms.subrange(orig.len() as int, oms.len() as int).len() == 0);
        assert(Seq::new(out@.len(), |q: int| (out@[q].0@, out@[q].1.model())) =~= Seq::<
            (Seq<char>, JsonModel),
        >::empty());
    }
    while rest.len() > 0
        invariant
            rest@ == orig.subrange(0, rest@.len() as int),
            rest@.len() <= orig.len(),
            dec_schema_entries(oms.subrange(rest@.len() as int, oms.len() as int)) == Ok::<
                Seq<(Seq<char>, JsonModel)>,
                DecodeErrorModel,
            >(Seq::new(out@.len(), |q: int| (out@[q].0@, out@[q].1.model()))),
        decreases rest@.len(),
    {
        let ghost i = rest@.len() - 1;
        let entry = match rest.pop() {
            Some(x) => x,
            None => {
                proof {
                    assert(false);
                }
                return Err(DecodeError::MissingField { field: "properties".to_owned() });
            },
        };
        let (k, v) = entry;
        proof {
            assert(rest@ =~= orig.subrange(0, i));
            assert((k@, v.model()) == oms[i]);
        }
        let ghost sfx = oms.subrange(i, oms.len() as int);
        proof {
            assert(sfx[0] == oms[i]);
            assert(sfx.subrange(1, sfx.len() as int) =~= oms.subrange(i + 1, oms.len() as int));
        }
        let ghost outm = Seq::new(out@.len(), |q: int| (out@[q].0@, out@[q].1.model()));
        let mut dup = false;
        let mut p: usize = 0;
        while p < out.len()
            invariant
                p <= out@.len(),
                outm == Seq::new(out@.len(), |q: int| (out@[q].0@, out@[q].1.model())),
                dup <==> exists|q: int| 0 <= q < p && (#[trigger] outm[q]).0 == k@,
            decreases out@.len() - p,
        {
            if out[p].0.eq(&k) {
                proof {
                    assert(outm[p as int].0 == k@);
                }
                dup = true;
            }
            p = p + 1;
        }
        proof {
            if dup {
                let q = choose|q: int| 0 <= q < out@.len() && (#[trigger] outm[q]).0 == k@;
                crate::order::lemma_has_key_intro(outm, q);
                assert(has_key(outm, k@));
            } else {
                if has_key(outm, k@) {
                    let q = crate::order::key_index(outm, k@);
                    assert(outm[q].0 == k@);
                    assert(false);
                }
            }
        }
        if dup {
            proof {
                lemma_dec_schema_entries_err(oms, i, DecodeErrorModel::DuplicateKey { key: k@ });
            }
            return Err(DecodeError::DuplicateKey { key: k });
        }
        let ghost oldout = out@;
        out.insert(0, (k, crate::properties::PropertyConfiguration { payload: v }));
        proof {
            assert(out@.subrange(1, out@.len() as int) =~= oldout);
            assert(Seq::new(out@.len(), |q: int| (out@[q].0@, out@[q].1.model())) =~= seq![
                oms[i],
            ] + outm);
        }
    }
    proof {
        assert(oms.subrange(0, oms.len() as int) =~= oms);
    }
    Ok(out)
}

/// Decode an array of opaque block payloads.
#[verifier::loop_isolation(false)]
pub fn decode_blocks(js: Vec<Json>) -> (r: Result<Vec<crate::models::Block>, DecodeError>)
    ensures
        match r {
            Ok(bs) => dec_blocks(Json::models_of(js@)) == Ok::<
                Seq<Seq<(Seq<char>, JsonModel)>>,
                DecodeErrorModel,
            >(crate::models::block_models(bs@)),
            Err(e) => dec_blocks(Json::models_of(js@)) == Err::<
                Seq<Seq<(Seq<char>, JsonModel)>>,
                DecodeErrorModel,
            >(e.model()),
        },
{
    let ghost orig = js@;
    let ghost oms = Json::models_of(orig);
    proof {
        crate::json::lemma_models_of(orig);
    }
    let mut rest = js;
    let mut out: Vec<crate::models::Block> = Vec::new();
    proof {
        assert(rest@ =~= orig.subrange(0, orig.len() as int));
        assert(oms.subrange(orig.len() as int, oms.len() as int).len() == 0);
        assert(crate::models::block_models(out@) =~= Seq::<
            Seq<(Seq<char>, JsonModel)>,
        >::empty());
    }
    while rest.len() > 0
        invariant
            rest@ == orig.subrange(0, rest@.len() as int),
            rest@.len() <= orig.len(),
            dec_blocks(oms.subrange(rest@.len() as int, oms.len() as int)) == Ok::<
                Seq<Seq<(Seq<char>, JsonModel)>>,
                DecodeErrorModel,
            >(crate::models::block_models(out@)),
        decreases rest@.len(),
    {
        let ghost i = rest@.len() - 1;
        let e = match rest.pop() {
            Some(x) => x,
            None => {
                proof {
                    assert(false);
                }
                return Err(DecodeError::WrongType { field: "blocks".to_owned() });
            },
        };
        proof {
            assert(rest@ =~= orig.subrange(0, i));
            assert(e.model() == oms[i]);
        }
        let ghost sfx = oms.subrange(i, oms.len() as int);
        proof {
            assert(sfx[0] == oms[i]);
            assert(sfx.subrange(1, sfx.len() as int) =~= oms.subrange(i + 1, oms.len() as int));
        }
        match e {
            Json::Obj(fs) => {
                let ghost oldout = out@;
                out.insert(0, crate::models::Block { fields: fs });
                proof {
                    assert(out@.subrange(1, out@.len() as int) =~= oldout);
                    assert(crate::models::block_models(out@) =~= seq![
                        oms[i]->Obj_0,
                    ] + crate::models::block_models(oldout));
                }
            },
            _ => {
                proof {
                    lemma_dec_blocks_err(
                        oms,
                        i,
                        DecodeErrorModel::WrongType { field: "blocks"@ },
                    );
                }
                return Err(DecodeError::WrongType { field: "blocks".to_owned() });
            },
        }
    }
    proof {
        assert(oms.subrange(0, oms.len() as int) =~= oms);
    }
    Ok(out)
}

/// Decode a database from an object's fields.
pub fn decode_database(entries: Vec<(String, Json)>) -> (r: Result<
    crate::models::Database,
    DecodeError,
>)
    ensures
        match r {
            Ok(d) => dec_database(Json::entry_models_of(entries@)) == Ok::<
                crate::models::DatabaseModel,
                DecodeErrorModel,
            >(d.model()),
            Err(e) => dec_database(Json::entry_models_of(entries@)) == Err::<
                crate::models::DatabaseModel,
                DecodeErrorModel,
            >(e.model()),
        },
{
    let ghost es0 = Json::entry_models_of(entries@);
    let mut entries = entries;
    proof {
        reveal_strlit("id");
        reveal_strlit("created_time");
        reveal_strlit("last_edited_time");
        reveal_strlit("title");
        reveal_strlit("properties");
        assert("id"@.len() == 2 && "created_time"@.len() == 12 && "last_edited_time"@.len()
            == 16 && "title"@.len() == 5 && "properties"@.len() == 10);
    }
    let id = match take_field(&mut entries, &"id".to_owned()) {
        Some(Json::Str(s)) => s,
        Some(_) => {
            return Err(DecodeError::WrongType { field: "id".to_owned() });
        },
        None => {
            return Err(DecodeError::MissingField { field: "id".to_owned() });
        },
    };
    let ghost e1 = Json::entry_models_of(entries@);
    proof {
        lemma_remove_first_lookup(es0, "id"@, "created_time"@);
        lemma_remove_first_lookup(es0, "id"@, "last_edited_time"@);
        lemma_remove_first_lookup(es0, "id"@, "title"@);
        lemma_remove_first_lookup(es0, "id"@, "properties"@);
    }
    let created = match take_field(&mut entries, &"created_time".to_owned()) {
        Some(Json::Str(s)) => s,
        Some(_) => {
            return Err(DecodeError::WrongType { field: "created_time".to_owned() });
        },
        None => {
            return Err(DecodeError::MissingField { field: "created_time".to_owned() });
        },
    };
    let ghost e2 = Json::entry_models_of(entries@);
    proof {
        lemma_remove_first_lookup(e1, "created_time"@, "last_edited_time"@);
        lemma_remove_first_lookup(e1, "created_time"@, "title"@);
        lemma_remove_first_lookup(e1, "created_time"@, "properties"@);
    }
    let edited = match take_field(&mut entries, &"last_edited_time".to_owned()) {
        Some(Json::Str(s)) => s,
        Some(_) => {
            return Err(DecodeError::WrongType { field: "last_edited_time".to_owned() });
        },
        None => {
            return Err(DecodeError::MissingField { field: "last_edited_time".to_owned() });
        },
    };
    let ghost e3 = Json::entry_models_of(entries@);
    proof {
        lemma_remove_first_lookup(e2, "last_edited_time"@, "title"@);
        lemma_remove_first_lookup(e2, "last_edited_time"@, "properties"@);
    }
    let title = match take_field(&mut entries, &"title".to_owned()) {
        Some(Json::Arr(js)) => match decode_rich_texts(js) {
            Ok(ts) => ts,
            Err(e) => {
                return Err(e);
            },
        },
        Some(_) => {
            return Err(DecodeError::WrongType { field: "title".to_owned() });
        },
        None => {
            return Err(DecodeError::MissingField { field: "title".to_owned() });
        },
    };
    let ghost e4 = Json::entry_models_of(entries@);
    proof {
        lemma_remove_first_lookup(e3, "title"@, "properties"@);
    }
    let schema = match take_field(&mut entries, &"properties".to_owned()) {
        Some(Json::Obj(pes)) => match decode_schema_entries(pes) {
            Ok(ss) => ss,
            Err(e) => {
                return Err(e);
            },
        },
        Some(_) => {
            return Err(DecodeError::WrongType { field: "properties".to_owned() });
        },
        None => {
            return Err(DecodeError::MissingField { field: "properties".to_owned() });
        },
    };
    let d = crate::models::Database {
        id: crate::ids::DatabaseId(id),
        created_time: crate::ids::Timestamp(created),
        last_edited_time: crate::ids::Timestamp(edited),
        title: title,
        properties: schema,
    };
    proof {
        assert(d.schema_entries() =~= Seq::new(
            d.properties@.len(),
            |q: int| (d.properties@[q].0@, d.properties@[q].1.model()),
        ));
        assert(crate::text::text_models(d.title@) == crate::text::text_models(title@));
    }
    Ok(d)
}

/// Decode a page from an object's fields.
pub fn decode_page(entries: Vec<(String, Json)>) -> (r: Result<crate::models::Page, DecodeError>)
    ensures
        match r {
            Ok(p) => dec_page(Json::entry_models_of(entries@)) == Ok::<
                crate::models::PageModel,
                DecodeErrorModel,
            >(p.model()),
            Err(e) => dec_page(Json::entry_models_of(entries@)) == Err::<
                crate::models::PageModel,
                DecodeErrorModel,
            >(e.model()),
        },
{
    let ghost es0 = Json::entry_models_of(entries@);
    let mut entries = entries;
    proof {
        reveal_strlit("id");
        reveal_strlit("created_time");
        reveal_strlit("last_edited_time");
        reveal_strlit("archived");
        reveal_strlit("properties");
        reveal_strlit("parent");
        reveal_strlit("icon");
        reveal_strlit("url");
        reveal_strlit("blocks");
        assert("id"@.len() == 2 && "created_time"@.len() == 12 && "last_edited_time"@.len()
            == 16 && "archived"@.len() == 8 && "properties"@.len() == 10 && "parent"@.len() == 6
            && "icon"@.len() == 4 && "url"@.len() == 3 && "blocks"@.len() == 6);
        assert("parent"@[0] == 'p' && "blocks"@[0] == 'b');
        assert("parent"@ != "blocks"@);
    }
    let id = match take_field(&mut entries, &"id".to_owned()) {
        Some(Json::Str(s)) => s,
        Some(_) => {
            return Err(DecodeError::WrongType { field: "id".to_owned() });
        },
        None => {
            return Err(DecodeError::MissingField { field: "id".to_owned() });
        },
    };
    let ghost e1 = Json::entry_models_of(entries@);
    proof {
        lemma_remove_first_lookup(es0, "id"@, "created_time"@);
        lemma_remove_first_lookup(es0, "id"@, "last_edited_time"@);
        lemma_remove_first_lookup(es0, "id"@, "archived"@);
        lemma_remove_first_lookup(es0, "id"@, "properties"@);
        lemma_remove_first_lookup(es0, "id"@, "parent"@);
        lemma_remove_first_lookup(es0, "id"@, "icon"@);
        lemma_remove_first_lookup(es0, "id"@, "url"@);
        lemma_remove_first_lookup(es0, "id"@, "blocks"@);
    }
    let created = match take_field(&mut entries, &"created_time".to_owned()) {
        Some(Json::Str(s)) => s,
        Some(_) => {
            return Err(DecodeError::WrongType { field: "created_time".to_owned() });
        },
        None => {
            return Err(DecodeError::MissingField { field: "created_time".to_owned() });
        },
    };
    let ghost e2 = Json::entry_models_of(entries@);
    proof {
        lemma_remove_first_lookup(e1, "created_time"@, "last_edited_time"@);
        lemma_remove_first_lookup(e1, "created_time"@, "archived"@);
        lemma_remove_first_lookup(e1, "created_time"@, "properties"@);
        lemma_remove_first_lookup(e1, "created_time"@, "parent"@);
        lemma_remove_first_lookup(e1, "created_time"@, "icon"@);
        lemma_remove_first_lookup(e1, "created_time"@, "url"@);
        lemma_remove_first_lookup(e1, "created_time"@, "blocks"@);
    }
    let edited = match take_field(&mut entries, &"last_edited_time".to_owned()) {
        Some(Json::Str(s)) => s,
        Some(_) => {
            return Err(DecodeError::WrongType { field: "last_edited_time".to_owned() });
        },
        None => {
            return Err(DecodeError::MissingField { field: "last_edited_time".to_owned() });
        },
    };
    let ghost e3 = Json::entry_models_of(entries@);
    proof {
        lemma_remove_first_lookup(e2, "last_edited_time"@, "archived"@);
        lemma_remove_first_lookup(e2, "last_edited_time"@, "properties"@);
        lemma_remove_first_lookup(e2, "last_edited_time"@, "parent"@);
        lemma_remove_first_lookup(e2, "last_edited_time"@, "icon"@);
        lemma_remove_first_lookup(e2, "last_edited_time"@, "url"@);
        lemma_remove_first_lookup(e2, "last_edited_time"@, "blocks"@);
    }
    let archived = match take_field(&mut entries, &"archived".to_owned()) {
        Some(Json::Bool(b)) => b,
        Some(_) => {
            return Err(DecodeError::WrongType { field: "archived".to_owned() });
        },
        None => {
            return Err(DecodeError::MissingField { field: "archived".to_owned() });
        },
    };
    let ghost e4 = Json::entry_models_of(entries@);
    proof {
        lemma_remove_first_lookup(e3, "archived"@, "properties"@);
        lemma_remove_first_lookup(e3, "archived"@, "parent"@);
        lemma_remove_first_lookup(e3, "archived"@, "icon"@);
        lemma_remove_first_lookup(e3, "archived"@, "url"@);
        lemma_remove_first_lookup(e3, "archived"@, "blocks"@);
    }
    let properties = match take_field(&mut entries, &"properties".to_owned()) {
        Some(Json::Obj(pes)) => match decode_prop_entries(pes) {
            Ok(p) => p,
            Err(e) => {
                return Err(e);
            },
        },
        Some(_) => {
            return Err(DecodeError::WrongType { field: "properties".to_owned() });
        },
        None => {
            return Err(DecodeError::MissingField { field: "properties".to_owned() });
        },
    };
    let ghost e5 = Json::entry_models_of(entries@);
    proof {
        lemma_remove_first_lookup(e4, "properties"@, "parent"@);
        lemma_remove_first_lookup(e4, "properties"@, "icon"@);
        lemma_remove_first_lookup(e4, "properties"@, "url"@);
        lemma_remove_first_lookup(e4, "properties"@, "blocks"@);
    }
    let parent = match take_field(&mut entries, &"parent".to_owned()) {
        Some(pj) => match decode_parent(pj) {
            Ok(p) => p,
            Err(e) => {
                return Err(e);
            },
        },
        None => {
            return Err(DecodeError::MissingField { field: "parent".to_owned() });
        },
    };
    let ghost e6 = Json::entry_models_of(entries@);
    proof {
        lemma_remove_first_lookup(e5, "parent"@, "icon"@);
        lemma_remove_first_lookup(e5, "parent"@, "url"@);
        lemma_remove_first_lookup(e5, "parent"@, "blocks"@);
    }
    let icon = match take_field(&mut entries, &"icon".to_owned()) {
        Some(Json::Obj(fs)) => Some(crate::models::FileOrEmojiObject { fields: fs }),
        Some(Json::Null) => None,
        Some(_) => {
            return Err(DecodeError::WrongType { field: "icon".to_owned() });
        },
        None => None,
    };
    let ghost e7 = Json::entry_models_of(entries@);
    proof {
        if obj_lookup(e6, "icon"@) is Some {
            lemma_remove_first_lookup(e6, "icon"@, "url"@);
            lemma_remove_first_lookup(e6, "icon"@, "blocks"@);
        }
    }
    let url = match take_field(&mut entries, &"url".to_owned()) {
        Some(Json::Str(s)) => Some(s),
        Some(Json::Null) => None,
        Some(_) => {
            return Err(DecodeError::WrongType { field: "url".to_owned() });
        },
        None => None,
    };
    proof {
        if obj_lookup(e7, "url"@) is Some {
            lemma_remove_first_lookup(e7, "url"@, "blocks"@);
        }
    }
    let blocks = match take_field(&mut entries, &"blocks".to_owned()) {
        Some(Json::Arr(js)) => match decode_blocks(js) {
            Ok(bs) => Some(bs),
            Err(e) => {
                return Err(e);
            },
        },
        Some(Json::Null) => None,
        Some(_) => {
            return Err(DecodeError::WrongType { field: "blocks".to_owned() });
        },
        None => None,
    };
    let p = crate::models::Page {
        id: crate::ids::PageId(id),
        created_time: crate::ids::Timestamp(created),
        last_edited_time: crate::ids::Timestamp(edited),
        archived: archived,
        properties: properties,
        parent: parent,
        icon: icon,
        url: url,
        blocks: blocks,
    };
    Ok(p)
}

/// A run of objects whose first elements all decode splits at any point.
proof fn lemma_dec_objects_prefix(s: Seq<JsonModel>, k: int)
    requires
        0 <= k <= s.len(),
        forall|j: int| 0 <= j < k ==> dec_object(#[trigger] s[j]) is Ok,
    ensures
        dec_objects(s) == (match dec_objects(s.subrange(k, s.len() as int)) {
            Ok(rest) => Ok::<Seq<crate::models::ObjectModel>, DecodeErrorModel>(
                Seq::new(k as nat, |j: int| dec_object(s[j])->Ok_0) + rest,
            ),
            Err(e) => Err(e),
        }),
    decreases k,
{
    if k == 0 {
        assert(s.subrange(0, s.len() as int) =~= s);
        match dec_objects(s) {
            Ok(rest) => {
                assert(Seq::new(0, |j: int| dec_object(s[j])->Ok_0) + rest =~= rest);
            },
            Err(e) => {},
        }
    } else {
        lemma_dec_objects_prefix(s, k - 1);
        let sk1 = s.subrange(k - 1, s.len() as int);
        let sk = s.subrange(k, s.len() as int);
        assert(sk1[0] == s[k - 1]);
        assert(sk1.subrange(1, sk1.len() as int) =~= sk);
        assert(dec_object(s[k - 1]) is Ok);
        let m = dec_object(s[k - 1])->Ok_0;
        match dec_objects(sk) {
            Ok(rest) => {
                assert(dec_objects(sk1) == Ok::<Seq<crate::models::ObjectModel>, DecodeErrorModel>(
                    seq![m] + rest,
                ));
                assert(Seq::new((k - 1) as nat, |j: int| dec_object(s[j])->Ok_0) + (seq![m]
                    + rest) =~= Seq::new(k as nat, |j: int| dec_object(s[j])->Ok_0) + rest);
            },
            Err(e) => {
                assert(dec_objects(sk1) == Err::<Seq<crate::models::ObjectModel>, DecodeErrorModel>(
                    e,
                ));
            },
        }
    }
}

/// Decode a run of objects; the first element that fails decides the error.
#[verifier::loop_isolation(false)]
pub fn decode_objects(els: Vec<Json>) -> (r: Result<Vec<crate::models::Object>, DecodeError>)
    ensures
        match r {
            Ok(os) => dec_objects(Json::models_of(els@)) == Ok::<
                Seq<crate::models::ObjectModel>,
                DecodeErrorModel,
            >(crate::models::Object::models_of(os@)),
            Err(e) => dec_objects(Json::models_of(els@)) == Err::<
                Seq<crate::models::ObjectModel>,
                DecodeErrorModel,
            >(e.model()),
        },
    decreases els, 0int,
{
    let ghost gels = els;
    let ghost orig = els@;
    let ghost oms = Json::models_of(orig);
    proof {
        crate::json::lemma_models_of(orig);
    }
    let mut rest = els;
    let mut out: Vec<crate::models::Object> = Vec::new();
    proof {
        assert(rest@ =~= orig.subrange(0, orig.len() as int));
        assert(crate::models::Object::models_of(out@) =~= Seq::new(
            0,
            |j: int| dec_object(oms[j])->Ok_0,
        ));
    }
    while rest.len() > 0
        invariant
            out@.len() + rest@.len() == orig.len(),
            rest@ == orig.subrange(out@.len() as int, orig.len() as int),
            forall|j: int| 0 <= j < out@.len() ==> dec_object(#[trigger] oms[j]) is Ok,
            crate::models::Object::models_of(out@) == Seq::new(
                out@.len(),
                |j: int| dec_object(oms[j])->Ok_0,
            ),
        decreases rest@.len(),
    {
        let ghost k = out@.len() as int;
        let e = rest.remove(0);
        proof {
            assert(e == orig[k]);
            assert(rest@ =~= orig.subrange(k + 1, orig.len() as int));
            assert(decreases_to!(gels => gels@));
            assert(gels@ == orig);
            assert(decreases_to!(orig => orig[k]));
            assert(e.model() == oms[k]);
        }
        let ghost sfx = oms.subrange(k, oms.len() as int);
        proof {
            assert(sfx[0] == oms[k]);
            assert(sfx.subrange(1, sfx.len() as int) =~= oms.subrange(k + 1, oms.len() as int));
        }
        match decode_object(e) {
            Ok(o) => {
                let ghost om = o.model();
                let ghost oldout = out@;
                out.push(o);
                proof {
                    crate::models::lemma_object_models_of(out@);
                    crate::models::lemma_object_models_of(oldout);
                    assert(dec_object(oms[k]) == Ok::<
                        crate::models::ObjectModel,
                        DecodeErrorModel,
                    >(om));
                    assert(out@[k] == o);
                    assert forall|j: int|
                        0 <= j < out@.len() implies crate::models::Object::models_of(out@)[j]
                        == dec_object(oms[j])->Ok_0 by {
                        assert(crate::models::Object::models_of(out@)[j] == out@[j].model());
                        if j < k {
                            assert(out@[j] == oldout[j]);
                            assert(crate::models::Object::models_of(oldout)[j]
                                == oldout[j].model());
                            assert(crate::models::Object::models_of(oldout)[j] == dec_object(
                                oms[j],
                            )->Ok_0);
                        } else {
                            assert(out@[j].model() == om);
                        }
                    }
                    assert(crate::models::Object::models_of(out@) =~= Seq::new(
                        out@.len(),
                        |j: int| dec_object(oms[j])->Ok_0,
                    ));
                }
            },
            Err(er) => {
                proof {
                    assert(dec_objects(sfx) == Err::<
                        Seq<crate::models::ObjectModel>,
                        DecodeErrorModel,
                    >(er.model()));
                    lemma_dec_objects_prefix(oms, k);
                }
                return Err(er);
            },
        }
    }
    proof {
        let k = out@.len() as int;
        assert(oms.subrange(k, oms.len() as int).len() == 0);
        assert(dec_objects(oms.subrange(k, oms.len() as int)) == Ok::<
            Seq<crate::models::ObjectModel>,
            DecodeErrorModel,
        >(Seq::empty()));
        lemma_dec_objects_prefix(oms, k);
        assert(Seq::new(k as nat, |j: int| dec_object(oms[j])->Ok_0) + Seq::empty() =~= Seq::new(
            k as nat,
            |j: int| dec_object(oms[j])->Ok_0,
        ));
    }
    Ok(out)
}

/// Decode an object payload: dispatch on the `object` discriminator.
#[verifier::loop_isolation(false)]
pub fn decode_object(j: Json) -> (r: Result<crate::models::Object, DecodeError>)
    ensures
        match r {
            Ok(o) => dec_object(j.model()) == Ok::<crate::models::ObjectModel, DecodeErrorModel>(
                o.model(),
            ),
            Err(e) => dec_object(j.model()) == Err::<
                crate::models::ObjectModel,
                DecodeErrorModel,
            >(e.model()),
        },
    decreases j, 1int,
{
    let ghost jm = j.model();
    let ghost gj = j;
    let object_key = "object".to_owned();
    match j {
        Json::Obj(mut entries) => {
            let ghost vec0 = entries;
            let ghost es0 = Json::entry_models_of(entries@);
            proof {
                assert(jm == JsonModel::Obj(es0));
                reveal_strlit("object");
                reveal_strlit("has_more");
                reveal_strlit("next_cursor");
                reveal_strlit("results");
                assert("object"@.len() == 6 && "has_more"@.len() == 8 && "next_cursor"@.len()
                    == 11 && "results"@.len() == 7);
            }
            let tag: String = match obj_get(&entries, &object_key) {
                Some(t) => match t {
                    Json::Str(s) => s.clone(),
                    _ => {
                        return Err(DecodeError::WrongType { field: object_key });
                    },
                },
                None => {
                    return Err(DecodeError::MissingField { field: object_key });
                },
            };
            if tag.eq(&"block".to_owned()) {
                match take_field(&mut entries, &object_key) {
                    Some(_) => {},
                    None => {
                        proof {
                            assert(false);
                        }
                        return Err(DecodeError::MissingField { field: object_key });
                    },
                }
                Ok(
                    crate::models::Object::Block {
                        block: crate::models::Block { fields: entries },
                    },
                )
            } else if tag.eq(&"database".to_owned()) {
                match decode_database(entries) {
                    Ok(d) => Ok(crate::models::Object::Database { database: d }),
                    Err(e) => Err(e),
                }
            } else if tag.eq(&"page".to_owned()) {
                match decode_page(entries) {
                    Ok(p) => Ok(crate::models::Object::Page { page: p }),
                    Err(e) => Err(e),
                }
            } else if tag.eq(&"list".to_owned()) {
                let has_more = match take_field(&mut entries, &"has_more".to_owned()) {
                    Some(Json::Bool(b)) => b,
                    Some(_) => {
                        return Err(DecodeError::WrongType { field: "has_more".to_owned() });
                    },
                    None => {
                        return Err(DecodeError::MissingField { field: "has_more".to_owned() });
                    },
                };
                let ghost v1 = entries@;
                let ghost e1 = Json::entry_models_of(entries@);
                proof {
                    lemma_remove_first_lookup(es0, "has_more"@, "next_cursor"@);
                    lemma_remove_first_lookup(es0, "has_more"@, "results"@);
                }
                let cursor = match take_field(&mut entries, &"next_cursor".to_owned()) {
                    Some(Json::Str(s)) => Some(crate::ids::PagingCursor(s)),
                    Some(Json::Null) => None,
                    Some(_) => {
                        return Err(DecodeError::WrongType { field: "next_cursor".to_owned() });
                    },
                    None => None,
                };
                let ghost v2 = entries@;
                let ghost e2 = Json::entry_models_of(entries@);
                proof {
                    if obj_lookup(e1, "next_cursor"@) is Some {
                        lemma_remove_first_lookup(e1, "next_cursor"@, "results"@);
                    }
                }
                let ghost v2snap = entries@;
                let els = match take_field(&mut entries, &"results".to_owned()) {
                    Some(v) => {
                        match v {
                            Json::Arr(a) => a,
                            _ => {
                                return Err(
                                    DecodeError::WrongType { field: "results".to_owned() },
                                );
                            },
                        }
                    },
                    None => {
                        return Err(DecodeError::MissingField { field: "results".to_owned() });
                    },
                };
                proof {
                    // The array of results is structurally inside the input
                    // payload, so decoding its elements terminates.
                    let gv = Json::Arr(els);
                    let i2 = choose|i: int| 0 <= i < v2snap.len() && gv == (#[trigger] v2snap[i]).1;
                    let q1: int = if v2snap =~= v1 {
                        i2
                    } else {
                        choose|q: int| 0 <= q < v1.len() && (#[trigger] v2snap[i2]) == v1[q]
                    };
                    assert(v2snap[i2] == v1[q1]);
                    let q0 = choose|q: int| 0 <= q < vec0@.len() && (#[trigger] v1[q1]) == vec0@[q];
                    assert(gv == vec0@[q0].1);
                    assert(decreases_to!(gj => gj->Obj_0));
                    assert(gj->Obj_0 == vec0);
                    assert(decreases_to!(vec0 => vec0@));
                    assert(decreases_to!(vec0@ => vec0@[q0]));
                    assert(decreases_to!(vec0@[q0] => vec0@[q0].1));
                    assert(decreases_to!(gv => gv->Arr_0));
                    assert(gv->Arr_0 == els);
                    assert(decreases_to!(gj => els));
                }
                match decode_objects(els) {
                    Ok(objs) => Ok(
                        crate::models::Object::List {
                            list: crate::models::ListResponse {
                                results: objs,
                                next_cursor: cursor,
                                has_more: has_more,
                            },
                        },
                    ),
                    Err(e) => Err(e),
                }
            } else if tag.eq(&"user".to_owned()) {
                match take_field(&mut entries, &object_key) {
                    Some(_) => {},
                    None => {
                        proof {
                            assert(false);
                        }
                        return Err(DecodeError::MissingField { field: object_key });
                    },
                }
                Ok(crate::models::Object::User { user: crate::models::User { fields: entries } })
            } else if tag.eq(&"error".to_owned()) {
                match take_field(&mut entries, &object_key) {
                    Some(_) => {},
                    None => {
                        proof {
                            assert(false);
                        }
                        return Err(DecodeError::MissingField { field: object_key });
                    },
                }
                Ok(
                    crate::models::Object::Error {
                        error: crate::models::ErrorResponse { fields: entries },
                    },
                )
            } else if tag.eq(&"property_item".to_owned()) {
                match take_field(&mut entries, &object_key) {
                    Some(_) => {},
                    None => {
                        proof {
                            assert(false);
                        }
                        return Err(DecodeError::MissingField { field: object_key });
                    },
                }
                Ok(
                    crate::models::Object::PropertyItem {
                        property_item: crate::models::PropertyItem { fields: entries },
                    },
                )
            } else {
                Err(DecodeError::UnknownTag { tag: tag })
            }
        },
        _ => Err(DecodeError::MissingField { field: object_key }),
    }
}

/// Deterministic property ordering on the wire: two property maps with
/// unique names and the same name-to-value content encode to the same
/// payload, whatever insertion orders built them.
pub proof fn lemma_properties_encoding_deterministic(
    p1: crate::properties::Properties,
    p2: crate::properties::Properties,
)
    requires
        crate::order::unique_keys(p1.model_entries()),
        crate::order::unique_keys(p2.model_entries()),
        p1.content_map() == p2.content_map(),
    ensures
        JsonModel::Obj(enc_prop_entries(p1.model())) == JsonModel::Obj(
            enc_prop_entries(p2.model()),
        ),
{
    crate::properties::lemma_properties_deterministic(p1, p2);
}

// ---------------------------------------------------------------------------
// Round trip: decoding an encoded value gives the value back.
// ---------------------------------------------------------------------------

/// A property value that decoding can reproduce: an opaque payload must not
/// itself look like a title payload.
pub open spec fn wf_property_value(v: crate::properties::PropertyValueModel) -> bool {
    match v {
        crate::properties::PropertyValueModel::Title { id, title } => true,
        crate::properties::PropertyValueModel::Other { payload } => !is_title_payload(payload),
    }
}

/// A property map in normal form: sorted, duplicate-free, well-formed
/// values.
pub open spec fn wf_prop_entries(
    ps: Seq<(Seq<char>, crate::properties::PropertyValueModel)>,
) -> bool {
    &&& crate::order::entries_sorted(ps)
    &&& crate::order::unique_keys(ps)
    &&& forall|i: int| 0 <= i < ps.len() ==> wf_property_value((#[trigger] ps[i]).1)
}

/// A database schema in normal form: sorted and duplicate-free.
pub open spec fn wf_schema_entries(ss: Seq<(Seq<char>, JsonModel)>) -> bool {
    &&& crate::order::entries_sorted(ss)
    &&& crate::order::unique_keys(ss)
}

pub open spec fn wf_database(d: crate::models::DatabaseModel) -> bool {
    wf_schema_entries(d.properties)
}

pub open spec fn wf_page(p: crate::models::PageModel) -> bool {
    wf_prop_entries(p.properties)
}

/// An object that decoding can reproduce. An opaque variant must not carry
/// its own `object` field, and entities must be in normal form.
pub open spec fn wf_object(m: crate::models::ObjectModel) -> bool
    decreases m, 1int,
{
    match m {
        crate::models::ObjectModel::Block { block } => !has_key(block, "object"@),
        crate::models::ObjectModel::Database { database } => wf_database(database),
        crate::models::ObjectModel::Page { page } => wf_page(page),
        crate::models::ObjectModel::List { results, next_cursor, has_more } => wf_objects(
            results,
        ),
        crate::models::ObjectModel::User { user } => !has_key(user, "object"@),
        crate::models::ObjectModel::Error { error } => !has_key(error, "object"@),
        crate::models::ObjectModel::PropertyItem { property_item } => !has_key(
            property_item,
            "object"@,
        ),
    }
}

pub open spec fn wf_objects(ms: Seq<crate::models::ObjectModel>) -> bool
    decreases ms, 0int,
{
    if ms.len() == 0 {
        true
    } else {
        wf_object(ms[0]) && wf_objects(ms.subrange(1, ms.len() as int))
    }
}

/// Looking a key up in a concatenation tries the left part first.
pub proof fn lemma_obj_lookup_concat(
    a: Seq<(Seq<char>, JsonModel)>,
    b: Seq<(Seq<char>, JsonModel)>,
    k: Seq<char>,
)
    ensures
        obj_lookup(a + b, k) == (match obj_lookup(a, k) {
            Option::Some(v) => Some(v),
            Option::None => obj_lookup(b, k),
        }),
    decreases a.len(),
{
    if a.len() == 0 {
        assert(a + b =~= b);
    } else {
        let s = a + b;
        assert(s[0] == a[0]);
        if a[0].0 == k {
        } else {
            lemma_obj_lookup_concat(a.subrange(1, a.len() as int), b, k);
            assert(s.subrange(1, s.len() as int) =~= a.subrange(1, a.len() as int) + b);
        }
    }
}

/// Encoded rich text decodes to the texts it came from.
pub proof fn lemma_rt_rich_texts(ts: Seq<Seq<char>>)
    ensures
        dec_rich_texts(enc_rich_texts(ts)) == Ok::<Seq<Seq<char>>, DecodeErrorModel>(ts),
    decreases ts.len(),
{
    reveal_strlit("plain_text");
    let e = enc_rich_texts(ts);
    if ts.len() == 0 {
        assert(e.len() == 0);
        assert(dec_rich_texts(e) == Ok::<Seq<Seq<char>>, DecodeErrorModel>(Seq::empty()));
        assert(Seq::<Seq<char>>::empty() =~= ts);
    } else {
        lemma_rt_rich_texts(ts.subrange(1, ts.len() as int));
        assert(e.subrange(1, e.len() as int) =~= enc_rich_texts(ts.subrange(1, ts.len() as int)));
        assert(e[0] == enc_rich_text(ts[0]));
        assert(dec_rich_text(enc_rich_text(ts[0])) == Ok::<Seq<char>, DecodeErrorModel>(ts[0]))
            by {
            let es = seq![("plain_text"@, JsonModel::Str(ts[0]))];
            assert(obj_lookup(es, "plain_text"@) == Some(JsonModel::Str(ts[0])));
        }
        assert(seq![ts[0]] + ts.subrange(1, ts.len() as int) =~= ts);
    }
}

/// An encoded parent decodes to itself.
pub proof fn lemma_rt_parent(p: crate::models::ParentModel)
    ensures
        dec_parent(enc_parent(p)) == Ok::<crate::models::ParentModel, DecodeErrorModel>(p),
{
    reveal_strlit("type");
    reveal_strlit("database_id");
    reveal_strlit("page_id");
    reveal_strlit("block_id");
    reveal_strlit("workspace");
    assert("type"@.len() == 4 && "database_id"@.len() == 11 && "page_id"@.len() == 7
        && "block_id"@.len() == 8 && "workspace"@.len() == 9);
    match p {
        crate::models::ParentModel::Database { database_id } => {
            let es = seq![
                ("database_id"@, JsonModel::Str(database_id)),
                ("type"@, JsonModel::Str("database_id"@)),
            ];
            assert(es.subrange(1, 2) =~= seq![("type"@, JsonModel::Str("database_id"@))]);
            assert(obj_lookup(seq![("type"@, JsonModel::Str("database_id"@))], "type"@) == Some(
                JsonModel::Str("database_id"@),
            ));
            assert(obj_lookup(es.subrange(1, 2), "type"@) == Some(JsonModel::Str("database_id"@)));
            assert(obj_lookup(es, "type"@) == Some(JsonModel::Str("database_id"@)));
            assert(obj_lookup(es, "database_id"@) == Some(JsonModel::Str(database_id)));
        },
        crate::models::ParentModel::Page { page_id } => {
            let es = seq![
                ("page_id"@, JsonModel::Str(page_id)),
                ("type"@, JsonModel::Str("page_id"@)),
            ];
            assert(es.subrange(1, 2) =~= seq![("type"@, JsonModel::Str("page_id"@))]);
            assert(obj_lookup(seq![("type"@, JsonModel::Str("page_id"@))], "type"@) == Some(
                JsonModel::Str("page_id"@),
            ));
            assert(obj_lookup(es.subrange(1, 2), "type"@) == Some(JsonModel::Str("page_id"@)));
            assert(obj_lookup(es, "type"@) == Some(JsonModel::Str("page_id"@)));
            assert(obj_lookup(es, "page_id"@) == Some(JsonModel::Str(page_id)));
            assert("page_id"@ != "database_id"@);
        },
        crate::models::ParentModel::Block { block_id } => {
            let es = seq![
                ("block_id"@, JsonModel::Str(block_id)),
                ("type"@, JsonModel::Str("block_id"@)),
            ];
            assert(es.subrange(1, 2) =~= seq![("type"@, JsonModel::Str("block_id"@))]);
            assert(obj_lookup(seq![("type"@, JsonModel::Str("block_id"@))], "type"@) == Some(
                JsonModel::Str("block_id"@),
            ));
            assert(obj_lookup(es.subrange(1, 2), "type"@) == Some(JsonModel::Str("block_id"@)));
            assert(obj_lookup(es, "type"@) == Some(JsonModel::Str("block_id"@)));
            assert(obj_lookup(es, "block_id"@) == Some(JsonModel::Str(block_id)));
            assert("block_id"@ != "database_id"@ && "block_id"@ != "page_id"@);
        },
        crate::models::ParentModel::Workspace => {
            let es = seq![("type"@, JsonModel::Str("workspace"@))];
            assert(obj_lookup(es, "type"@) == Some(JsonModel::Str("workspace"@)));
            assert("workspace"@ != "database_id"@ && "workspace"@ != "page_id"@ && "workspace"@
                != "block_id"@);
        },
    }
}

/// An encoded well-formed property value decodes to itself.
pub proof fn lemma_rt_property_value(v: crate::properties::PropertyValueModel)
    requires
        wf_property_value(v),
    ensures
        dec_property_value(enc_property_value(v)) == Ok::<
            crate::properties::PropertyValueModel,
            DecodeErrorModel,
        >(v),
{
    reveal_strlit("id");
    reveal_strlit("title");
    reveal_strlit("type");
    assert("id"@.len() == 2 && "title"@.len() == 5 && "type"@.len() == 4);
    match v {
        crate::properties::PropertyValueModel::Title { id, title } => {
            let es = seq![
                ("id"@, JsonModel::Str(id)),
                ("title"@, JsonModel::Arr(enc_rich_texts(title))),
                ("type"@, JsonModel::Str("title"@)),
            ];
            assert(es.subrange(1, 3) =~= seq![
                ("title"@, JsonModel::Arr(enc_rich_texts(title))),
                ("type"@, JsonModel::Str("title"@)),
            ]);
            assert(es.subrange(1, 3).subrange(1, 2) =~= seq![
                ("type"@, JsonModel::Str("title"@)),
            ]);
            assert(obj_lookup(seq![("type"@, JsonModel::Str("title"@))], "type"@) == Some(
                JsonModel::Str("title"@),
            ));
            assert(obj_lookup(es.subrange(1, 3).subrange(1, 2), "type"@) == Some(
                JsonModel::Str("title"@),
            ));
            assert(obj_lookup(es.subrange(1, 3), "type"@) == Some(JsonModel::Str("title"@)));
            assert(obj_lookup(es, "type"@) == Some(JsonModel::Str("title"@)));
            assert(is_title_payload(enc_property_value(v)));
            assert(obj_lookup(es, "id"@) == Some(JsonModel::Str(id)));
            assert(obj_lookup(es.subrange(1, 3), "title"@) == Some(
                JsonModel::Arr(enc_rich_texts(title)),
            ));
            assert(obj_lookup(es, "title"@) == Some(JsonModel::Arr(enc_rich_texts(title))));
            lemma_rt_rich_texts(title);
        },
        crate::properties::PropertyValueModel::Other { payload } => {
        },
    }
}

/// Encoded well-formed property entries decode to themselves.
pub proof fn lemma_rt_prop_entries(ps: Seq<(Seq<char>, crate::properties::PropertyValueModel)>)
    requires
        crate::order::unique_keys(ps),
        forall|i: int| 0 <= i < ps.len() ==> wf_property_value((#[trigger] ps[i]).1),
    ensures
        dec_prop_entries(enc_prop_entries(ps)) == Ok::<
            Seq<(Seq<char>, crate::properties::PropertyValueModel)>,
            DecodeErrorModel,
        >(ps),
    decreases ps.len(),
{
    let e = enc_prop_entries(ps);
    if ps.len() == 0 {
        assert(e.len() == 0);
        assert(Seq::<(Seq<char>, crate::properties::PropertyValueModel)>::empty() =~= ps);
    } else {
        let tail = ps.subrange(1, ps.len() as int);
        assert(forall|p: int, q: int| 0 <= p < q < tail.len() ==> tail[p].0 != tail[q].0);
        lemma_rt_prop_entries(tail);
        assert(e.subrange(1, e.len() as int) =~= enc_prop_entries(tail));
        assert(e[0] == (ps[0].0, enc_property_value(ps[0].1)));
        lemma_rt_property_value(ps[0].1);
        assert(!has_key(tail, ps[0].0)) by {
            if has_key(tail, ps[0].0) {
                let i = crate::order::key_index(tail, ps[0].0);
                assert(ps[i + 1] == tail[i]);
            }
        }
        assert(seq![(ps[0].0, ps[0].1)] + tail =~= ps);
    }
}

/// Encoded duplicate-free schema entries decode to themselves.
pub proof fn lemma_rt_schema_entries(ss: Seq<(Seq<char>, JsonModel)>)
    requires
        crate::order::unique_keys(ss),
    ensures
        dec_schema_entries(ss) == Ok::<Seq<(Seq<char>, JsonModel)>, DecodeErrorModel>(ss),
    decreases ss.len(),
{
    if ss.len() == 0 {
        assert(Seq::<(Seq<char>, JsonModel)>::empty() =~= ss);
    } else {
        let tail = ss.subrange(1, ss.len() as int);
        assert(forall|p: int, q: int| 0 <= p < q < tail.len() ==> tail[p].0 != tail[q].0);
        lemma_rt_schema_entries(tail);
        assert(!has_key(tail, ss[0].0)) by {
            if has_key(tail, ss[0].0) {
                let i = crate::order::key_index(tail, ss[0].0);
                assert(ss[i + 1] == tail[i]);
            }
        }
        assert(seq![ss[0]] + tail =~= ss);
    }
}

/// Sorting an already sorted sequence changes nothing.
pub proof fn lemma_sorted_by_key_identity<V>(s: Seq<(Seq<char>, V)>)
    requires
        crate::order::entries_sorted(s),
    ensures
        crate::order::sorted_by_key(s) == s,
    decreases s.len(),
{
    if s.len() > 0 {
        let tail = s.subrange(1, s.len() as int);
        assert(forall|p: int, q: int|
            0 <= p < q < tail.len() ==> crate::order::entry_le(tail[p], tail[q]));
        lemma_sorted_by_key_identity(tail);
        if tail.len() == 0 {
            assert(crate::order::insert_sorted(s[0], tail) =~= s);
        } else {
            assert(crate::order::entry_le(s[0], tail[0])) by {
                assert(crate::order::entry_le(s[0], s[1]));
            }
            assert(seq![s[0]] + tail =~= s);
        }
    }
}

/// Under unique keys, the entry at any index is what its key looks up to.
pub proof fn lemma_obj_lookup_at(es: Seq<(Seq<char>, JsonModel)>, i: int)
    requires
        crate::order::unique_keys(es),
        0 <= i < es.len(),
    ensures
        obj_lookup(es, es[i].0) == Some(es[i].1),
    decreases es.len(),
{
    if i > 0 {
        let tail = es.subrange(1, es.len() as int);
        assert(forall|p: int, q: int| 0 <= p < q < tail.len() ==> tail[p].0 != tail[q].0);
        assert(tail[i - 1] == es[i]);
        lemma_obj_lookup_at(tail, i - 1);
        assert(es[0].0 != es[i].0);
    }
}

/// Encoded well-formed database fields decode to the database.
pub proof fn lemma_rt_database(d: crate::models::DatabaseModel)
    requires
        wf_database(d),
    ensures
        dec_database(enc_database_fields(d)) == Ok::<
            crate::models::DatabaseModel,
            DecodeErrorModel,
        >(d),
{
    reveal_strlit("created_time");
    reveal_strlit("id");
    reveal_strlit("last_edited_time");
    reveal_strlit("properties");
    reveal_strlit("title");
    assert("created_time"@.len() == 12 && "id"@.len() == 2 && "last_edited_time"@.len() == 16
        && "properties"@.len() == 10 && "title"@.len() == 5);
    let es = enc_database_fields(d);
    assert(crate::order::unique_keys(es)) by {
        assert(forall|p: int, q: int|
            0 <= p < q < es.len() ==> (#[trigger] es[p]).0 != (#[trigger] es[q]).0);
    }
    assert(es[0] == ("created_time"@, JsonModel::Str(d.created_time)));
    lemma_obj_lookup_at(es, 0);
    assert(es[1] == ("id"@, JsonModel::Str(d.id)));
    lemma_obj_lookup_at(es, 1);
    assert(es[2] == ("last_edited_time"@, JsonModel::Str(d.last_edited_time)));
    lemma_obj_lookup_at(es, 2);
    assert(es[3] == ("properties"@, JsonModel::Obj(d.properties)));
    lemma_obj_lookup_at(es, 3);
    assert(es[4] == ("title"@, JsonModel::Arr(enc_rich_texts(d.title))));
    lemma_obj_lookup_at(es, 4);
    lemma_rt_rich_texts(d.title);
    lemma_rt_schema_entries(d.properties);
    lemma_sorted_by_key_identity(d.properties);
    assert(dec_database(es) == Ok::<crate::models::DatabaseModel, DecodeErrorModel>(
        crate::models::DatabaseModel {
            id: d.id,
            created_time: d.created_time,
            last_edited_time: d.last_edited_time,
            title: d.title,
            properties: d.properties,
        },
    ));
    assert((crate::models::DatabaseModel {
        id: d.id,
        created_time: d.created_time,
        last_edited_time: d.last_edited_time,
        title: d.title,
        properties: d.properties,
    }) == d);
}

/// Encoded blocks decode to themselves.
pub proof fn lemma_rt_blocks(bs: Seq<Seq<(Seq<char>, JsonModel)>>)
    ensures
        dec_blocks(enc_blocks(bs)) == Ok::<Seq<Seq<(Seq<char>, JsonModel)>>, DecodeErrorModel>(
            bs,
        ),
    decreases bs.len(),
{
    let e = enc_blocks(bs);
    if bs.len() == 0 {
        assert(e.len() == 0);
        assert(Seq::<Seq<(Seq<char>, JsonModel)>>::empty() =~= bs);
    } else {
        lemma_rt_blocks(bs.subrange(1, bs.len() as int));
        assert(e.subrange(1, e.len() as int) =~= enc_blocks(bs.subrange(1, bs.len() as int)));
        assert(e[0] == JsonModel::Obj(bs[0]));
        assert(seq![bs[0]] + bs.subrange(1, bs.len() as int) =~= bs);
    }
}

/// Encoded well-formed page fields decode to the page.
#[verifier::rlimit(60)]
pub proof fn lemma_rt_page(p: crate::models::PageModel)
    requires
        wf_page(p),
    ensures
        dec_page(enc_page_fields(p)) == Ok::<crate::models::PageModel, DecodeErrorModel>(p),
{
    reveal_strlit("archived");
    reveal_strlit("blocks");
    reveal_strlit("created_time");
    reveal_strlit("icon");
    reveal_strlit("id");
    reveal_strlit("last_edited_time");
    reveal_strlit("parent");
    reveal_strlit("properties");
    reveal_strlit("url");
    assert("archived"@.len() == 8 && "blocks"@.len() == 6 && "created_time"@.len() == 12
        && "icon"@.len() == 4 && "id"@.len() == 2 && "last_edited_time"@.len() == 16
        && "parent"@.len() == 6 && "properties"@.len() == 10 && "url"@.len() == 3);
    assert("parent"@[0] == 'p' && "blocks"@[0] == 'b');
    assert("parent"@ != "blocks"@);
    let es = enc_page_fields(p);
    if p.blocks is Some && p.icon is Some && p.url is Some {
        assert(es =~= seq![("archived"@, JsonModel::Bool(p.archived)), ("blocks"@, JsonModel::Arr(enc_blocks(p.blocks->0))), ("created_time"@, JsonModel::Str(p.created_time)), ("icon"@, JsonModel::Obj(p.icon->0)), ("id"@, JsonModel::Str(p.id)), ("last_edited_time"@, JsonModel::Str(p.last_edited_time)), ("parent"@, enc_parent(p.parent)), ("properties"@, JsonModel::Obj(enc_prop_entries(p.properties))), ("url"@, JsonModel::Str(p.url->0))]);
        assert(crate::order::unique_keys(es)) by {
            assert(forall|x: int, y: int|
                0 <= x < y < es.len() ==> (#[trigger] es[x]).0 != (#[trigger] es[y]).0);
        }
        assert(es[0] == ("archived"@, JsonModel::Bool(p.archived)));
        lemma_obj_lookup_at(es, 0);
        assert(es[1] == ("blocks"@, JsonModel::Arr(enc_blocks(p.blocks->0))));
        lemma_obj_lookup_at(es, 1);
        assert(es[2] == ("created_time"@, JsonModel::Str(p.created_time)));
        lemma_obj_lookup_at(es, 2);
        assert(es[3] == ("icon"@, JsonModel::Obj(p.icon->0)));
        lemma_obj_lookup_at(es, 3);
        assert(es[4] == ("id"@, JsonModel::Str(p.id)));
        lemma_obj_lookup_at(es, 4);
        assert(es[5] == ("last_edited_time"@, JsonModel::Str(p.last_edited_time)));
        lemma_obj_lookup_at(es, 5);
        assert(es[6] == ("parent"@, enc_parent(p.parent)));
        lemma_obj_lookup_at(es, 6);
        assert(es[7] == ("properties"@, JsonModel::Obj(enc_prop_entries(p.properties))));
        lemma_obj_lookup_at(es, 7);
        assert(es[8] == ("url"@, JsonModel::Str(p.url->0)));
        lemma_obj_lookup_at(es, 8);
    }
    if p.blocks is Some && p.icon is Some && p.url is None {
        assert(es =~= seq![("archived"@, JsonModel::Bool(p.archived)), ("blocks"@, JsonModel::Arr(enc_blocks(p.blocks->0))), ("created_time"@, JsonModel::Str(p.created_time)), ("icon"@, JsonModel::Obj(p.icon->0)), ("id"@, JsonModel::Str(p.id)), ("last_edited_time"@, JsonModel::Str(p.last_edited_time)), ("parent"@, enc_parent(p.parent)), ("properties"@, JsonModel::Obj(enc_prop_entries(p.properties)))]);
        assert(crate::order::unique_keys(es)) by {
            assert(forall|x: int, y: int|
                0 <= x < y < es.len() ==> (#[trigger] es[x]).0 != (#[trigger] es[y]).0);
        }
        assert(es[0] == ("archived"@, JsonModel::Bool(p.archived)));
        lemma_obj_lookup_at(es, 0);
        assert(es[1] == ("blocks"@, JsonModel::Arr(enc_blocks(p.blocks->0))));
        lemma_obj_lookup_at(es, 1);
        assert(es[2] == ("created_time"@, JsonModel::Str(p.created_time)));
        lemma_obj_lookup_at(es, 2);
        assert(es[3] == ("icon"@, JsonModel::Obj(p.icon->0)));
        lemma_obj_lookup_at(es, 3);
        assert(es[4] == ("id"@, JsonModel::Str(p.id)));
        lemma_obj_lookup_at(es, 4);
        assert(es[5] == ("last_edited_time"@, JsonModel::Str(p.last_edited_time)));
        lemma_obj_lookup_at(es, 5);
        assert(es[6] == ("parent"@, enc_parent(p.parent)));
        lemma_obj_lookup_at(es, 6);
        assert(es[7] == ("properties"@, JsonModel::Obj(enc_prop_entries(p.properties))));
        lemma_obj_lookup_at(es, 7);
        assert(!has_key(es, "url"@)) by {
            if has_key(es, "url"@) {
                let q = crate::order::key_index(es, "url"@);
                assert(false);
            }
        }
        lemma_obj_lookup_has_key(es, "url"@);
    }
    if p.blocks is Some && p.icon is None && p.url is Some {
        assert(es =~= seq![("archived"@, JsonModel::Bool(p.archived)), ("blocks"@, JsonModel::Arr(enc_blocks(p.blocks->0))), ("created_time"@, JsonModel::Str(p.created_time)), ("id"@, JsonModel::Str(p.id)), ("last_edited_time"@, JsonModel::Str(p.last_edited_time)), ("parent"@, enc_parent(p.parent)), ("properties"@, JsonModel::Obj(enc_prop_entries(p.properties))), ("url"@, JsonModel::Str(p.url->0))]);
        assert(crate::order::unique_keys(es)) by {
            assert(forall|x: int, y: int|
                0 <= x < y < es.len() ==> (#[trigger] es[x]).0 != (#[trigger] es[y]).0);
        }
        assert(es[0] == ("archived"@, JsonModel::Bool(p.archived)));
        lemma_obj_lookup_at(es, 0);
        assert(es[1] == ("blocks"@, JsonModel::Arr(enc_blocks(p.blocks->0))));
        lemma_obj_lookup_at(es, 1);
        assert(es[2] == ("created_time"@, JsonModel::Str(p.created_time)));
        lemma_obj_lookup_at(es, 2);
        assert(es[3] == ("id"@, JsonModel::Str(p.id)));
        lemma_obj_lookup_at(es, 3);
        assert(es[4] == ("last_edited_time"@, JsonModel::Str(p.last_edited_time)));
        lemma_obj_lookup_at(es, 4);
        assert(es[5] == ("parent"@, enc_parent(p.parent)));
        lemma_obj_lookup_at(es, 5);
        assert(es[6] == ("properties"@, JsonModel::Obj(enc_prop_entries(p.properties))));
        lemma_obj_lookup_at(es, 6);
        assert(es[7] == ("url"@, JsonModel::Str(p.url->0)));
        lemma_obj_lookup_at(es, 7);
        assert(!has_key(es, "icon"@)) by {
            if has_key(es, "icon"@) {
                let q = crate::order::key_index(es, "icon"@);
                assert(false);
            }
        }
        lemma_obj_lookup_has_key(es, "icon"@);
    }
    if p.blocks is Some && p.icon is None && p.url is None {
        assert(es =~= seq![("archived"@, JsonModel::Bool(p.archived)), ("blocks"@, JsonModel::Arr(enc_blocks(p.blocks->0))), ("created_time"@, JsonModel::Str(p.created_time)), ("id"@, JsonModel::Str(p.id)), ("last_edited_time"@, JsonModel::Str(p.last_edited_time)), ("parent"@, enc_parent(p.parent)), ("properties"@, JsonModel::Obj(enc_prop_entries(p.properties)))]);
        assert(crate::order::unique_keys(es)) by {
            assert(forall|x: int, y: int|
                0 <= x < y < es.len() ==> (#[trigger] es[x]).0 != (#[trigger] es[y]).0);
        }
        assert(es[0] == ("archived"@, JsonModel::Bool(p.archived)));
        lemma_obj_lookup_at(es, 0);
        assert(es[1] == ("blocks"@, JsonModel::Arr(enc_blocks(p.blocks->0))));
        lemma_obj_lookup_at(es, 1);
        assert(es[2] == ("created_time"@, JsonModel::Str(p.created_time)));
        lemma_obj_lookup_at(es, 2);
        assert(es[3] == ("id"@, JsonModel::Str(p.id)));
        lemma_obj_lookup_at(es, 3);
        assert(es[4] == ("last_edited_time"@, JsonModel::Str(p.last_edited_time)));
        lemma_obj_lookup_at(es, 4);
        assert(es[5] == ("parent"@, enc_parent(p.parent)));
        lemma_obj_lookup_at(es, 5);
        assert(es[6] == ("properties"@, JsonModel::Obj(enc_prop_entries(p.properties))));
        lemma_obj_lookup_at(es, 6);
        assert(!has_key(es, "icon"@)) by {
            if has_key(es, "icon"@) {
                let q = crate::order::key_index(es, "icon"@);
                assert(false);
            }
        }
        lemma_obj_lookup_has_key(es, "icon"@);
        assert(!has_key(es, "url"@)) by {
            if has_key(es, "url"@) {
                let q = crate::order::key_index(es, "url"@);
                assert(false);
            }
        }
        lemma_obj_lookup_has_key(es, "url"@);
    }
    if p.blocks is None && p.icon is Some && p.url is Some {
        assert(es =~= seq![("archived"@, JsonModel::Bool(p.archived)), ("created_time"@, JsonModel::Str(p.created_time)), ("icon"@, JsonModel::Obj(p.icon->0)), ("id"@, JsonModel::Str(p.id)), ("last_edited_time"@, JsonModel::Str(p.last_edited_time)), ("parent"@, enc_parent(p.parent)), ("properties"@, JsonModel::Obj(enc_prop_entries(p.properties))), ("url"@, JsonModel::Str(p.url->0))]);
        assert(crate::order::unique_keys(es)) by {
            assert(forall|x: int, y: int|
                0 <= x < y < es.len() ==> (#[trigger] es[x]).0 != (#[trigger] es[y]).0);
        }
        assert(es[0] == ("archived"@, JsonModel::Bool(p.archived)));
        lemma_obj_lookup_at(es, 0);
        assert(es[1] == ("created_time"@, JsonModel::Str(p.created_time)));
        lemma_obj_lookup_at(es, 1);
        assert(es[2] == ("icon"@, JsonModel::Obj(p.icon->0)));
        lemma_obj_lookup_at(es, 2);
        assert(es[3] == ("id"@, JsonModel::Str(p.id)));
        lemma_obj_lookup_at(es, 3);
        assert(es[4] == ("last_edited_time"@, JsonModel::Str(p.last_edited_time)));
        lemma_obj_lookup_at(es, 4);
        assert(es[5] == ("parent"@, enc_parent(p.parent)));
        lemma_obj_lookup_at(es, 5);
        assert(es[6] == ("properties"@, JsonModel::Obj(enc_prop_entries(p.properties))));
        lemma_obj_lookup_at(es, 6);
        assert(es[7] == ("url"@, JsonModel::Str(p.url->0)));
        lemma_obj_lookup_at(es, 7);
        assert(!has_key(es, "blocks"@)) by {
            if has_key(es, "blocks"@) {
                let q = crate::order::key_index(es, "blocks"@);
                assert(false);
            }
        }
        lemma_obj_lookup_has_key(es, "blocks"@);
    }
    if p.blocks is None && p.icon is Some && p.url is None {
        assert(es =~= seq![("archived"@, JsonModel::Bool(p.archived)), ("created_time"@, JsonModel::Str(p.created_time)), ("icon"@, JsonModel::Obj(p.icon->0)), ("id"@, JsonModel::Str(p.id)), ("last_edited_time"@, JsonModel::Str(p.last_edited_time)), ("parent"@, enc_parent(p.parent)), ("properties"@, JsonModel::Obj(enc_prop_entries(p.properties)))]);
        assert(crate::order::unique_keys(es)) by {
            assert(forall|x: int, y: int|
                0 <= x < y < es.len() ==> (#[trigger] es[x]).0 != (#[trigger] es[y]).0);
        }
        assert(es[0] == ("archived"@, JsonModel::Bool(p.archived)));
        lemma_obj_lookup_at(es, 0);
        assert(es[1] == ("created_time"@, JsonModel::Str(p.created_time)));
        lemma_obj_lookup_at(es, 1);
        assert(es[2] == ("icon"@, JsonModel::Obj(p.icon->0)));
        lemma_obj_lookup_at(es, 2);
        assert(es[3] == ("id"@, JsonModel::Str(p.id)));
        lemma_obj_lookup_at(es, 3);
        assert(es[4] == ("last_edited_time"@, JsonModel::Str(p.last_edited_time)));
        lemma_obj_lookup_at(es, 4);
        assert(es[5] == ("parent"@, enc_parent(p.parent)));
        lemma_obj_lookup_at(es, 5);
        assert(es[6] == ("properties"@, JsonModel::Obj(enc_prop_entries(p.properties))));
        lemma_obj_lookup_at(es, 6);
        assert(!has_key(es, "blocks"@)) by {
            if has_key(es, "blocks"@) {
                let q = crate::order::key_index(es, "blocks"@);
                assert(false);
            }
        }
        lemma_obj_lookup_has_key(es, "blocks"@);
        assert(!has_key(es, "url"@)) by {
            if has_key(es, "url"@) {
                let q = crate::order::key_index(es, "url"@);
                assert(false);
            }
        }
        lemma_obj_lookup_has_key(es, "url"@);
    }
    if p.blocks is None && p.icon is None && p.url is Some {
        assert(es =~= seq![("archived"@, JsonModel::Bool(p.archived)), ("created_time"@, JsonModel::Str(p.created_time)), ("id"@, JsonModel::Str(p.id)), ("last_edited_time"@, JsonModel::Str(p.last_edited_time)), ("parent"@, enc_parent(p.parent)), ("properties"@, JsonModel::Obj(enc_prop_entries(p.properties))), ("url"@, JsonModel::Str(p.url->0))]);
        assert(crate::order::unique_keys(es)) by {
            assert(forall|x: int, y: int|
                0 <= x < y < es.len() ==> (#[trigger] es[x]).0 != (#[trigger] es[y]).0);
        }
        assert(es[0] == ("archived"@, JsonModel::Bool(p.archived)));
        lemma_obj_lookup_at(es, 0);
        assert(es[1] == ("created_time"@, JsonModel::Str(p.created_time)));
        lemma_obj_lookup_at(es, 1);
        assert(es[2] == ("id"@, JsonModel::Str(p.id)));
        lemma_obj_lookup_at(es, 2);
        assert(es[3] == ("last_edited_time"@, JsonModel::Str(p.last_edited_time)));
        lemma_obj_lookup_at(es, 3);
        assert(es[4] == ("parent"@, enc_parent(p.parent)));
        lemma_obj_lookup_at(es, 4);
        assert(es[5] == ("properties"@, JsonModel::Obj(enc_prop_entries(p.properties))));
        lemma_obj_lookup_at(es, 5);
        assert(es[6] == ("url"@, JsonModel::Str(p.url->0)));
        lemma_obj_lookup_at(es, 6);
        assert(!has_key(es, "blocks"@)) by {
            if has_key(es, "blocks"@) {
                let q = crate::order::key_index(es, "blocks"@);
                assert(false);
            }
        }
        lemma_obj_lookup_has_key(es, "blocks"@);
        assert(!has_key(es, "icon"@)) by {
            if has_key(es, "icon"@) {
                let q = crate::order::key_index(es, "icon"@);
                assert(false);
            }
        }
        lemma_obj_lookup_has_key(es, "icon"@);
    }
    if p.blocks is None && p.icon is None && p.url is None {
        assert(es =~= seq![("archived"@, JsonModel::Bool(p.archived)), ("created_time"@, JsonModel::Str(p.created_time)), ("id"@, JsonModel::Str(p.id)), ("last_edited_time"@, JsonModel::Str(p.last_edited_time)), ("parent"@, enc_parent(p.parent)), ("properties"@, JsonModel::Obj(enc_prop_entries(p.properties)))]);
        assert(crate::order::unique_keys(es)) by {
            assert(forall|x: int, y: int|
                0 <= x < y < es.len() ==> (#[trigger] es[x]).0 != (#[trigger] es[y]).0);
        }
        assert(es[0] == ("archived"@, JsonModel::Bool(p.archived)));
        lemma_obj_lookup_at(es, 0);
        assert(es[1] == ("created_time"@, JsonModel::Str(p.created_time)));
        lemma_obj_lookup_at(es, 1);
        assert(es[2] == ("id"@, JsonModel::Str(p.id)));
        lemma_obj_lookup_at(es, 2);
        assert(es[3] == ("last_edited_time"@, JsonModel::Str(p.last_edited_time)));
        lemma_obj_lookup_at(es, 3);
        assert(es[4] == ("parent"@, enc_parent(p.parent)));
        lemma_obj_lookup_at(es, 4);
        assert(es[5] == ("properties"@, JsonModel::Obj(enc_prop_entries(p.properties))));
        lemma_obj_lookup_at(es, 5);
        assert(!has_key(es, "blocks"@)) by {
            if has_key(es, "blocks"@) {
                let q = crate::order::key_index(es, "blocks"@);
                assert(false);
            }
        }
        lemma_obj_lookup_has_key(es, "blocks"@);
        assert(!has_key(es, "icon"@)) by {
            if has_key(es, "icon"@) {
                let q = crate::order::key_index(es, "icon"@);
                assert(false);
            }
        }
        lemma_obj_lookup_has_key(es, "icon"@);
        assert(!has_key(es, "url"@)) by {
            if has_key(es, "url"@) {
                let q = crate::order::key_index(es, "url"@);
                assert(false);
            }
        }
        lemma_obj_lookup_has_key(es, "url"@);
    }
    lemma_rt_parent(p.parent);
    lemma_rt_prop_entries(p.properties);
    lemma_sorted_by_key_identity(p.properties);
    match p.blocks {
        Option::Some(bs) => {
            lemma_rt_blocks(bs);
        },
        Option::None => {},
    }
    assert(dec_page(es) == Ok::<crate::models::PageModel, DecodeErrorModel>(
        crate::models::PageModel {
            id: p.id,
            created_time: p.created_time,
            last_edited_time: p.last_edited_time,
            archived: p.archived,
            properties: p.properties,
            parent: p.parent,
            icon: p.icon,
            url: p.url,
            blocks: p.blocks,
        },
    ));
    assert((crate::models::PageModel {
        id: p.id,
        created_time: p.created_time,
        last_edited_time: p.last_edited_time,
        archived: p.archived,
        properties: p.properties,
        parent: p.parent,
        icon: p.icon,
        url: p.url,
        blocks: p.blocks,
    }) == p);
}

/// Decoding a page ignores a leading discriminator field.
proof fn lemma_dec_page_skips_tag(tag: JsonModel, pf: Seq<(Seq<char>, JsonModel)>)
    ensures
        dec_page(seq![("object"@, tag)] + pf) == dec_page(pf),
{
    reveal_strlit("object");
    reveal_strlit("archived");
    reveal_strlit("blocks");
    reveal_strlit("created_time");
    reveal_strlit("icon");
    reveal_strlit("id");
    reveal_strlit("last_edited_time");
    reveal_strlit("parent");
    reveal_strlit("properties");
    reveal_strlit("url");
    assert("object"@.len() == 6 && "archived"@.len() == 8 && "blocks"@.len() == 6
        && "created_time"@.len() == 12 && "icon"@.len() == 4 && "id"@.len() == 2
        && "last_edited_time"@.len() == 16 && "parent"@.len() == 6 && "properties"@.len() == 10
        && "url"@.len() == 3);
    assert("object"@[0] == 'o' && "parent"@[0] == 'p' && "blocks"@[0] == 'b');
    let s = seq![("object"@, tag)];
    let es = s + pf;
    assert(s.subrange(1, 1) =~= Seq::<(Seq<char>, JsonModel)>::empty());
    assert(obj_lookup(Seq::<(Seq<char>, JsonModel)>::empty(), "archived"@) is None);
    assert forall|k: Seq<char>| k != "object"@ implies obj_lookup(s, k) is None by {
        assert(obj_lookup(s.subrange(1, 1), k) is None);
    }
    lemma_obj_lookup_concat(s, pf, "archived"@);
    lemma_obj_lookup_concat(s, pf, "blocks"@);
    lemma_obj_lookup_concat(s, pf, "created_time"@);
    lemma_obj_lookup_concat(s, pf, "icon"@);
    lemma_obj_lookup_concat(s, pf, "id"@);
    lemma_obj_lookup_concat(s, pf, "last_edited_time"@);
    lemma_obj_lookup_concat(s, pf, "parent"@);
    lemma_obj_lookup_concat(s, pf, "properties"@);
    lemma_obj_lookup_concat(s, pf, "url"@);
    assert(obj_lookup(es, "archived"@) == obj_lookup(pf, "archived"@));
    assert(obj_lookup(es, "blocks"@) == obj_lookup(pf, "blocks"@));
    assert(obj_lookup(es, "created_time"@) == obj_lookup(pf, "created_time"@));
    assert(obj_lookup(es, "icon"@) == obj_lookup(pf, "icon"@));
    assert(obj_lookup(es, "id"@) == obj_lookup(pf, "id"@));
    assert(obj_lookup(es, "last_edited_time"@) == obj_lookup(pf, "last_edited_time"@));
    assert(obj_lookup(es, "parent"@) == obj_lookup(pf, "parent"@));
    assert(obj_lookup(es, "properties"@) == obj_lookup(pf, "properties"@));
    assert(obj_lookup(es, "url"@) == obj_lookup(pf, "url"@));
    assert(dec_page_icon(es) == dec_page_icon(pf));
    assert(dec_page_url(es) == dec_page_url(pf));
    assert(dec_page_blocks(es) == dec_page_blocks(pf));
}

/// A well-formed object survives an encode-decode round trip unchanged.
///
/// This is the losslessness law: for every entity variant, decoding the
/// encoding gives back exactly the value that was encoded.
#[verifier::rlimit(60)]
pub proof fn lemma_rt_object(m: crate::models::ObjectModel)
    requires
        wf_object(m),
    ensures
        dec_object(enc_object(m)) == Ok::<crate::models::ObjectModel, DecodeErrorModel>(m),
    decreases m, 1int,
{
    reveal_strlit("object");
    reveal_strlit("block");
    reveal_strlit("database");
    reveal_strlit("page");
    reveal_strlit("list");
    reveal_strlit("user");
    reveal_strlit("error");
    reveal_strlit("property_item");
    reveal_strlit("has_more");
    reveal_strlit("next_cursor");
    reveal_strlit("results");
    assert("object"@.len() == 6 && "block"@.len() == 5 && "database"@.len() == 8
        && "page"@.len() == 4 && "list"@.len() == 4 && "user"@.len() == 4 && "error"@.len() == 5
        && "property_item"@.len() == 13 && "has_more"@.len() == 8 && "next_cursor"@.len() == 11
        && "results"@.len() == 7);
    assert("page"@[0] == 'p' && "list"@[0] == 'l' && "user"@[0] == 'u' && "block"@[0] == 'b'
        && "error"@[0] == 'e');
    let e = enc_object(m);
    match m {
        crate::models::ObjectModel::Block { block } => {
            let es = seq![("object"@, JsonModel::Str("block"@))] + block;
            assert(es[0] == ("object"@, JsonModel::Str("block"@)));
            assert(obj_lookup(es, "object"@) == Some(JsonModel::Str("block"@)));
            assert(remove_first(es, "object"@) =~= block);
        },
        crate::models::ObjectModel::Database { database } => {
            let d = database;
            let es = seq![("object"@, JsonModel::Str("database"@))] + enc_database_fields(d);
            assert(es[0] == ("object"@, JsonModel::Str("database"@)));
            assert(obj_lookup(es, "object"@) == Some(JsonModel::Str("database"@)));
            reveal_strlit("created_time");
            reveal_strlit("id");
            reveal_strlit("last_edited_time");
            reveal_strlit("properties");
            reveal_strlit("title");
            assert(es =~= seq![
                ("object"@, JsonModel::Str("database"@)),
                ("created_time"@, JsonModel::Str(d.created_time)),
                ("id"@, JsonModel::Str(d.id)),
                ("last_edited_time"@, JsonModel::Str(d.last_edited_time)),
                ("properties"@, JsonModel::Obj(d.properties)),
                ("title"@, JsonModel::Arr(enc_rich_texts(d.title))),
            ]);
            assert("created_time"@.len() == 12 && "id"@.len() == 2 && "last_edited_time"@.len()
                == 16 && "properties"@.len() == 10 && "title"@.len() == 5);
            assert(crate::order::unique_keys(es)) by {
                assert(forall|x: int, y: int|
                    0 <= x < y < es.len() ==> (#[trigger] es[x]).0 != (#[trigger] es[y]).0);
            }
            lemma_obj_lookup_at(es, 1);
            lemma_obj_lookup_at(es, 2);
            lemma_obj_lookup_at(es, 3);
            lemma_obj_lookup_at(es, 4);
            lemma_obj_lookup_at(es, 5);
            lemma_rt_rich_texts(d.title);
            lemma_rt_schema_entries(d.properties);
            lemma_sorted_by_key_identity(d.properties);
            assert(dec_database(es) == Ok::<crate::models::DatabaseModel, DecodeErrorModel>(
                crate::models::DatabaseModel {
                    id: d.id,
                    created_time: d.created_time,
                    last_edited_time: d.last_edited_time,
                    title: d.title,
                    properties: d.properties,
                },
            ));
            assert((crate::models::DatabaseModel {
                id: d.id,
                created_time: d.created_time,
                last_edited_time: d.last_edited_time,
                title: d.title,
                properties: d.properties,
            }) == d);
        },
        crate::models::ObjectModel::Page { page } => {
            let es = seq![("object"@, JsonModel::Str("page"@))] + enc_page_fields(page);
            assert(es[0] == ("object"@, JsonModel::Str("page"@)));
            assert(obj_lookup(es, "object"@) == Some(JsonModel::Str("page"@)));
            lemma_dec_page_skips_tag(JsonModel::Str("page"@), enc_page_fields(page));
            lemma_rt_page(page);
        },
        crate::models::ObjectModel::List { results, next_cursor, has_more } => {
            let es = seq![("object"@, JsonModel::Str("list"@))] + enc_list_fields(
                results,
                next_cursor,
                has_more,
            );
            assert(es =~= seq![
                ("object"@, JsonModel::Str("list"@)),
                ("has_more"@, JsonModel::Bool(has_more)),
                ("next_cursor"@, enc_cursor(next_cursor)),
                ("results"@, JsonModel::Arr(enc_objects(results))),
            ]);
            assert(crate::order::unique_keys(es)) by {
                assert(forall|x: int, y: int|
                    0 <= x < y < es.len() ==> (#[trigger] es[x]).0 != (#[trigger] es[y]).0);
            }
            assert(es[0] == ("object"@, JsonModel::Str("list"@)));
            lemma_obj_lookup_at(es, 0);
            lemma_obj_lookup_at(es, 1);
            lemma_obj_lookup_at(es, 2);
            lemma_obj_lookup_at(es, 3);
            assert(decreases_to!(m, 1int => results, 0int)) by {
                assert(decreases_to!(m => m->List_results));
            }
            lemma_rt_objects(results);
        },
        crate::models::ObjectModel::User { user } => {
            let es = seq![("object"@, JsonModel::Str("user"@))] + user;
            assert(es[0] == ("object"@, JsonModel::Str("user"@)));
            assert(obj_lookup(es, "object"@) == Some(JsonModel::Str("user"@)));
            assert(remove_first(es, "object"@) =~= user);
        },
        crate::models::ObjectModel::Error { error } => {
            let es = seq![("object"@, JsonModel::Str("error"@))] + error;
            assert(es[0] == ("object"@, JsonModel::Str("error"@)));
            assert(obj_lookup(es, "object"@) == Some(JsonModel::Str("error"@)));
            assert(remove_first(es, "object"@) =~= error);
        },
        crate::models::ObjectModel::PropertyItem { property_item } => {
            let es = seq![("object"@, JsonModel::Str("property_item"@))] + property_item;
            assert(es[0] == ("object"@, JsonModel::Str("property_item"@)));
            assert(obj_lookup(es, "object"@) == Some(JsonModel::Str("property_item"@)));
            assert(remove_first(es, "object"@) =~= property_item);
        },
    }
}

/// A run of well-formed objects survives an encode-decode round trip.
pub proof fn lemma_rt_objects(ms: Seq<crate::models::ObjectModel>)
    requires
        wf_objects(ms),
    ensures
        dec_objects(enc_objects(ms)) == Ok::<Seq<crate::models::ObjectModel>, DecodeErrorModel>(
            ms,
        ),
    decreases ms, 0int,
{
    let e = enc_objects(ms);
    if ms.len() == 0 {
        assert(e.len() == 0);
        assert(Seq::<crate::models::ObjectModel>::empty() =~= ms);
    } else {
        let tail = ms.subrange(1, ms.len() as int);
        lemma_rt_object(ms[0]);
        lemma_rt_objects(tail);
        assert(e[0] == enc_object(ms[0]));
        assert(e.subrange(1, e.len() as int) =~= enc_objects(tail));
        assert(seq![ms[0]] + tail =~= ms);
    }
}

} // verus!
