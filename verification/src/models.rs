//! The entity model: parents, databases, pages, opaque entity payloads,
//! paginated lists, the polymorphic `Object` union, request types, and the
//! narrowing operations that turn a mixed list into a homogeneous one.

use vstd::prelude::*;
use crate::ids::{BlockId, DatabaseId, PageId, PagingCursor, Timestamp};
use crate::json::{Json, JsonModel};
use crate::order::sorted_by_key;
use crate::properties::{Properties, PropertyConfiguration, PropertyValueModel};
use crate::text::{concat_plain_text, concat_texts, text_models, RichText};

verus! {

/// What owns an entity: a database, a page, a block, or the workspace root.
#[derive(Debug, Clone, PartialEq, Eq)]
pub enum Parent {
    Database { database_id: DatabaseId },
    Page { page_id: PageId },
    Block { block_id: BlockId },
    Workspace,
}

/// The mathematical shape of a parent reference.
pub enum ParentModel {
    Database { database_id: Seq<char> },
    Page { page_id: Seq<char> },
    Block { block_id: Seq<char> },
    Workspace,
}

impl Parent {
    /// The abstraction of this parent reference.
    pub open spec fn model(self) -> ParentModel {
        match self {
            Parent::Database { database_id } => ParentModel::Database {
                database_id: database_id@,
            },
            Parent::Page { page_id } => ParentModel::Page { page_id: page_id@ },
            Parent::Block { block_id } => ParentModel::Block { block_id: block_id@ },
            Parent::Workspace => ParentModel::Workspace,
        }
    }
}

/// An opaque block payload: its fields, carried verbatim.
#[derive(Debug, PartialEq, Eq)]
pub struct Block {
    pub fields: Vec<(String, Json)>,
}

/// An opaque user payload: its fields, carried verbatim.
#[derive(Debug, PartialEq, Eq)]
pub struct User {
    pub fields: Vec<(String, Json)>,
}

/// An opaque error-response payload: its fields, carried verbatim.
#[derive(Debug, PartialEq, Eq)]
pub struct ErrorResponse {
    pub fields: Vec<(String, Json)>,
}

/// An opaque property-item payload: its fields, carried verbatim.
#[derive(Debug, PartialEq, Eq)]
pub struct PropertyItem {
    pub fields: Vec<(String, Json)>,
}

/// An opaque icon payload (a file or an emoji), carried verbatim.
#[derive(Debug, PartialEq, Eq)]
pub struct FileOrEmojiObject {
    pub fields: Vec<(String, Json)>,
}

/// An opaque block payload under construction, carried verbatim.
#[derive(Debug, PartialEq, Eq)]
pub struct CreateBlock {
    pub fields: Vec<(String, Json)>,
}

impl Block {
    /// The abstraction of this payload: its field models.
    pub open spec fn model(self) -> Seq<(Seq<char>, JsonModel)> {
        Json::entry_models_of(self.fields@)
    }
}

impl User {
    /// The abstraction of this payload: its field models.
    pub open spec fn model(self) -> Seq<(Seq<char>, JsonModel)> {
        Json::entry_models_of(self.fields@)
    }
}

impl ErrorResponse {
    /// The abstraction of this payload: its field models.
    pub open spec fn model(self) -> Seq<(Seq<char>, JsonModel)> {
        Json::entry_models_of(self.fields@)
    }
}

impl PropertyItem {
    /// The abstraction of this payload: its field models.
    pub open spec fn model(self) -> Seq<(Seq<char>, JsonModel)> {
        Json::entry_models_of(self.fields@)
    }
}

impl FileOrEmojiObject {
    /// The abstraction of this payload: its field models.
    pub open spec fn model(self) -> Seq<(Seq<char>, JsonModel)> {
        Json::entry_models_of(self.fields@)
    }
}

impl CreateBlock {
    /// The abstraction of this payload: its field models.
    pub open spec fn model(self) -> Seq<(Seq<char>, JsonModel)> {
        Json::entry_models_of(self.fields@)
    }
}

/// A database entity: identity, timestamps, display title, and the property
/// schema, keyed by property name.
#[derive(Debug, PartialEq, Eq)]
pub struct Database {
    /// Unique identifier for the database.
    pub id: DatabaseId,
    /// When this database was created.
    pub created_time: Timestamp,
    /// When this database was last updated.
    pub last_edited_time: Timestamp,
    /// The database's name, as rich text.
    pub title: Vec<RichText>,
    /// The property schema, in insertion order; names are unique in a
    /// well-formed value.
    pub properties: Vec<(String, PropertyConfiguration)>,
}

/// The mathematical shape of a database; the schema stands in sorted key
/// order.
pub struct DatabaseModel {
    pub id: Seq<char>,
    pub created_time: Seq<char>,
    pub last_edited_time: Seq<char>,
    pub title: Seq<Seq<char>>,
    pub properties: Seq<(Seq<char>, JsonModel)>,
}

impl Database {
    /// The schema entry models, in insertion order.
    pub open spec fn schema_entries(self) -> Seq<(Seq<char>, JsonModel)> {
        Seq::new(
            self.properties@.len(),
            |i: int| (self.properties@[i].0@, self.properties@[i].1.model()),
        )
    }

    /// The abstraction of this database.
    pub open spec fn model(self) -> DatabaseModel {
        DatabaseModel {
            id: self.id@,
            created_time: self.created_time@,
            last_edited_time: self.last_edited_time@,
            title: text_models(self.title@),
            properties: sorted_by_key(self.schema_entries()),
        }
    }

    /// The plain text of the database's title, segments concatenated.
    pub fn title_plain_text(&self) -> (r: String)
        ensures
            r@ == concat_texts(text_models(self.title@)),
    {
        concat_plain_text(&self.title)
    }

    /// The database's identifier.
    pub fn as_id(&self) -> (r: &DatabaseId)
        ensures
            r@ == self.id@,
    {
        &self.id
    }

    /// Identity comparison: two databases are the same entity exactly when
    /// their identifiers are, whatever their other fields hold.
    pub fn same_identity(&self, other: &Database) -> (r: bool)
        ensures
            r == (self.id@ == other.id@),
    {
        self.id.same(&other.id)
    }
}

/// A page entity.
#[derive(Debug, PartialEq, Eq)]
pub struct Page {
    /// Unique identifier for the page.
    pub id: PageId,
    /// When this page was created.
    pub created_time: Timestamp,
    /// When this page was last updated.
    pub last_edited_time: Timestamp,
    /// Whether the page is archived.
    pub archived: bool,
    /// The page's named property values.
    pub properties: Properties,
    /// What owns the page.
    pub parent: Parent,
    /// The page's icon, when set.
    pub icon: Option<FileOrEmojiObject>,
    /// The page's URL, when known.
    pub url: Option<String>,
    /// The page's child blocks, when fetched.
    pub blocks: Option<Vec<Block>>,
}

/// The mathematical shape of a page; properties stand in sorted key order.
pub struct PageModel {
    pub id: Seq<char>,
    pub created_time: Seq<char>,
    pub last_edited_time: Seq<char>,
    pub archived: bool,
    pub properties: Seq<(Seq<char>, PropertyValueModel)>,
    pub parent: ParentModel,
    pub icon: Option<Seq<(Seq<char>, JsonModel)>>,
    pub url: Option<Seq<char>>,
    pub blocks: Option<Seq<Seq<(Seq<char>, JsonModel)>>>,
}

/// The models of a run of blocks, block by block.
pub open spec fn block_models(s: Seq<Block>) -> Seq<Seq<(Seq<char>, JsonModel)>> {
    Seq::new(s.len(), |i: int| s[i].model())
}

impl Page {
    /// The abstraction of this page.
    pub open spec fn model(self) -> PageModel {
        PageModel {
            id: self.id@,
            created_time: self.created_time@,
            last_edited_time: self.last_edited_time@,
            archived: self.archived,
            properties: self.properties.model(),
            parent: self.parent.model(),
            icon: match self.icon {
                Option::None => None,
                Option::Some(f) => Some(f.model()),
            },
            url: match self.url {
                Option::None => None,
                Option::Some(u) => Some(u@),
            },
            blocks: match self.blocks {
                Option::None => None,
                Option::Some(bs) => Some(block_models(bs@)),
            },
        }
    }

    /// The plain text of the page's title property, or absent when the page
    /// has none.
    pub fn title(&self) -> (r: Option<String>)
        ensures
            r is Some <==> crate::properties::has_title(self.properties.model_entries()),
            r matches Some(s) ==> Some(s@) == self.properties.title_spec(),
    {
        self.properties.title()
    }

    /// The rich text of the page's title property, or absent when the page
    /// has none.
    pub fn title_object(&self) -> (r: Option<&Vec<RichText>>)
        ensures
            r is Some <==> crate::properties::has_title(self.properties.model_entries()),
            r matches Some(v) ==> Some(text_models(v@)) == crate::properties::first_title(
                self.properties.model_entries(),
            ),
    {
        self.properties.title_object()
    }

    /// The page's identifier.
    pub fn as_id(&self) -> (r: &PageId)
        ensures
            r@ == self.id@,
    {
        &self.id
    }

    /// Identity comparison: two pages are the same entity exactly when their
    /// identifiers are, whatever their other fields hold.
    pub fn same_identity(&self, other: &Page) -> (r: bool)
        ensures
            r == (self.id@ == other.id@),
    {
        self.id.same(&other.id)
    }
}

/// One page of a paginated response: the results, in order, with the
/// continuation cursor and the more-data flag.
#[derive(Debug, PartialEq, Eq)]
pub struct ListResponse<T> {
    /// The results, in response order.
    pub results: Vec<T>,
    /// The continuation token, when more data may follow.
    pub next_cursor: Option<PagingCursor>,
    /// Whether more data follows.
    pub has_more: bool,
}

/// The model of an optional cursor.
pub open spec fn cursor_model(c: Option<PagingCursor>) -> Option<Seq<char>> {
    match c {
        Option::None => None,
        Option::Some(p) => Some(p@),
    }
}

impl<T> ListResponse<T> {
    /// The results as a slice.
    pub fn results(&self) -> (r: &[T])
        ensures
            r@ == self.results@,
    {
        self.results.as_slice()
    }
}

/// The top-level discriminated union: everything a payload can decode to.
#[derive(Debug, PartialEq, Eq)]
pub enum Object {
    Block { block: Block },
    Database { database: Database },
    Page { page: Page },
    List { list: ListResponse<Object> },
    User { user: User },
    Error { error: ErrorResponse },
    PropertyItem { property_item: PropertyItem },
}

/// The mathematical shape of an object.
pub enum ObjectModel {
    Block { block: Seq<(Seq<char>, JsonModel)> },
    Database { database: DatabaseModel },
    Page { page: PageModel },
    List { results: Seq<ObjectModel>, next_cursor: Option<Seq<char>>, has_more: bool },
    User { user: Seq<(Seq<char>, JsonModel)> },
    Error { error: Seq<(Seq<char>, JsonModel)> },
    PropertyItem { property_item: Seq<(Seq<char>, JsonModel)> },
}

impl Object {
    /// The abstraction of this object.
    pub open spec fn model(self) -> ObjectModel
        decreases self,
    {
        match self {
            Object::Block { block } => ObjectModel::Block { block: block.model() },
            Object::Database { database } => ObjectModel::Database { database: database.model() },
            Object::Page { page } => ObjectModel::Page { page: page.model() },
            Object::List { list } => ObjectModel::List {
                results: Self::models_of(list.results@),
                next_cursor: cursor_model(list.next_cursor),
                has_more: list.has_more,
            },
            Object::User { user } => ObjectModel::User { user: user.model() },
            Object::Error { error } => ObjectModel::Error { error: error.model() },
            Object::PropertyItem { property_item } => ObjectModel::PropertyItem {
                property_item: property_item.model(),
            },
        }
    }

    /// The abstractions of a run of objects, element by element.
    pub open spec fn models_of(s: Seq<Object>) -> Seq<ObjectModel>
        decreases s,
    {
        if s.len() == 0 {
            Seq::empty()
        } else {
            seq![s[0].model()] + Self::models_of(s.subrange(1, s.len() as int))
        }
    }

    /// Whether this object is the database variant.
    pub fn is_database(&self) -> (r: bool)
        ensures
            r == (self.model() is Database),
    {
        match self {
            Object::Database { database: _ } => true,
            _ => false,
        }
    }
}

/// `Object::models_of` maps the sequence pointwise.
pub proof fn lemma_object_models_of(s: Seq<Object>)
    ensures
        Object::models_of(s).len() == s.len(),
        forall|i: int| 0 <= i < s.len() ==> Object::models_of(s)[i] == s[i].model(),
    decreases s,
{
    if s.len() > 0 {
        lemma_object_models_of(s.subrange(1, s.len() as int));
    }
}

/// The error a caller gets when a narrowing meets an object of the wrong
/// kind; it carries the offending object for inspection.
#[derive(Debug, PartialEq, Eq)]
pub enum Error {
    UnexpectedResponse { response: Object },
}

/// Every element is the database variant.
pub open spec fn all_databases(s: Seq<Object>) -> bool {
    forall|i: int| 0 <= i < s.len() ==> s[i] is Database
}

/// Every element is the page variant.
pub open spec fn all_pages(s: Seq<Object>) -> bool {
    forall|i: int| 0 <= i < s.len() ==> s[i] is Page
}

/// Every element is the block variant.
pub open spec fn all_blocks(s: Seq<Object>) -> bool {
    forall|i: int| 0 <= i < s.len() ==> s[i] is Block
}

/// The databases among a run of objects, in order.
pub open spec fn databases_of(s: Seq<Object>) -> Seq<Database>
    decreases s.len(),
{
    if s.len() == 0 {
        Seq::empty()
    } else {
        let rest = databases_of(s.subrange(1, s.len() as int));
        match s[0] {
            Object::Database { database } => seq![database] + rest,
            _ => rest,
        }
    }
}

impl ListResponse<Object> {
    /// Keep only the database elements, in their original order; the
    /// envelope (cursor and more-flag) passes through unchanged.
    pub fn only_databases(self) -> (r: ListResponse<Database>)
        ensures
            r.results@ == databases_of(self.results@),
            r.next_cursor == self.next_cursor,
            r.has_more == self.has_more,
    {
        let ghost orig = self.results@;
        let mut rest = self.results;
        let mut out: Vec<Database> = Vec::new();
        proof {
            assert(rest@ =~= orig.subrange(0, orig.len() as int));
            assert(out@ + databases_of(rest@) =~= databases_of(orig));
        }
        while rest.len() > 0
            invariant
                out@ + databases_of(rest@) == databases_of(orig),
            decreases rest@.len(),
        {
            let ghost before = rest@;
            let x = rest.remove(0);
            proof {
                assert(before[0] == x);
                assert(rest@ =~= before.subrange(1, before.len() as int));
            }
            match x {
                Object::Database { database } => {
                    out.push(database);
                },
                _ => {},
            }
            proof {
                assert(out@ + databases_of(rest@) =~= databases_of(orig));
            }
        }
        proof {
            assert(databases_of(rest@) =~= Seq::<Database>::empty());
            assert(out@ =~= databases_of(orig));
        }
        ListResponse { results: out, next_cursor: self.next_cursor, has_more: self.has_more }
    }

    /// Narrow to databases strictly: every element must be the database
    /// variant; the first that is not aborts the narrowing and is handed
    /// back in the error, with no partial result.
    #[verifier::loop_isolation(false)]
    pub fn expect_databases(self) -> (r: Result<ListResponse<Database>, Error>)
        ensures
            r is Ok <==> all_databases(self.results@),
            r matches Ok(l) ==> {
                &&& l.results@.len() == self.results@.len()
                &&& forall|i: int|
                    0 <= i < self.results@.len() ==> self.results@[i] == (Object::Database {
                        database: l.results@[i],
                    })
                &&& l.next_cursor == self.next_cursor
                &&& l.has_more == self.has_more
            },
            r matches Err(Error::UnexpectedResponse { response }) ==> exists|k: int|
                {
                    &&& 0 <= k < self.results@.len()
                    &&& response == #[trigger] self.results@[k]
                    &&& !(self.results@[k] is Database)
                    &&& forall|j: int| 0 <= j < k ==> self.results@[j] is Database
                },
    {
        let ghost orig = self.results@;
        let mut rest = self.results;
        let mut out: Vec<Database> = Vec::new();
        proof {
            assert(rest@ =~= orig.subrange(0, orig.len() as int));
        }
        while rest.len() > 0
            invariant
                rest@ == orig.subrange(orig.len() - rest@.len(), orig.len() as int),
                out@.len() + rest@.len() == orig.len(),
                forall|j: int|
                    0 <= j < out@.len() ==> orig[j] == (Object::Database { database: out@[j] }),
            decreases rest@.len(),
        {
            let ghost i = orig.len() - rest@.len();
            let ghost before = rest@;
            let x = rest.remove(0);
            proof {
                assert(before[0] == orig[i]);
                assert(x == orig[i]);
                assert(rest@ =~= orig.subrange(i + 1, orig.len() as int));
            }
            match x {
                Object::Database { database } => {
                    out.push(database);
                },
                other => {
                    proof {
                        assert(other == orig[i]);
                        assert(!(orig[i] is Database));
                        assert(forall|j: int| 0 <= j < i ==> orig[j] is Database);
                    }
                    return Err(Error::UnexpectedResponse { response: other });
                },
            }
        }
        proof {
            assert(out@.len() == orig.len());
            assert(forall|j: int| 0 <= j < orig.len() ==> orig[j] is Database);
            assert(all_databases(orig));
        }
        Ok(ListResponse { results: out, next_cursor: self.next_cursor, has_more: self.has_more })
    }

    /// Narrow to pages strictly, as `expect_databases` does for databases.
    #[verifier::loop_isolation(false)]
    pub fn expect_pages(self) -> (r: Result<ListResponse<Page>, Error>)
        ensures
            r is Ok <==> all_pages(self.results@),
            r matches Ok(l) ==> {
                &&& l.results@.len() == self.results@.len()
                &&& forall|i: int|
                    0 <= i < self.results@.len() ==> self.results@[i] == (Object::Page {
                        page: l.results@[i],
                    })
                &&& l.next_cursor == self.next_cursor
                &&& l.has_more == self.has_more
            },
            r matches Err(Error::UnexpectedResponse { response }) ==> exists|k: int|
                {
                    &&& 0 <= k < self.results@.len()
                    &&& response == #[trigger] self.results@[k]
                    &&& !(self.results@[k] is Page)
                    &&& forall|j: int| 0 <= j < k ==> self.results@[j] is Page
                },
    {
        let ghost orig = self.results@;
        let mut rest = self.results;
        let mut out: Vec<Page> = Vec::new();
        proof {
            assert(rest@ =~= orig.subrange(0, orig.len() as int));
        }
        while rest.len() > 0
            invariant
                rest@ == orig.subrange(orig.len() - rest@.len(), orig.len() as int),
                out@.len() + rest@.len() == orig.len(),
                forall|j: int|
                    0 <= j < out@.len() ==> orig[j] == (Object::Page { page: out@[j] }),
            decreases rest@.len(),
        {
            let ghost i = orig.len() - rest@.len();
            let ghost before = rest@;
            let x = rest.remove(0);
            proof {
                assert(before[0] == orig[i]);
                assert(x == orig[i]);
                assert(rest@ =~= orig.subrange(i + 1, orig.len() as int));
            }
            match x {
                Object::Page { page } => {
                    out.push(page);
                },
                other => {
                    proof {
                        assert(other == orig[i]);
                        assert(!(orig[i] is Page));
                        assert(forall|j: int| 0 <= j < i ==> orig[j] is Page);
                    }
                    return Err(Error::UnexpectedResponse { response: other });
                },
            }
        }
        proof {
            assert(out@.len() == orig.len());
            assert(forall|j: int| 0 <= j < orig.len() ==> orig[j] is Page);
            assert(all_pages(orig));
        }
        Ok(ListResponse { results: out, next_cursor: self.next_cursor, has_more: self.has_more })
    }

    /// Narrow to blocks strictly, as `expect_databases` does for databases.
    #[verifier::loop_isolation(false)]
    pub fn expect_blocks(self) -> (r: Result<ListResponse<Block>, Error>)
        ensures
            r is Ok <==> all_blocks(self.results@),
            r matches Ok(l) ==> {
                &&& l.results@.len() == self.results@.len()
                &&& forall|i: int|
                    0 <= i < self.results@.len() ==> self.results@[i] == (Object::Block {
                        block: l.results@[i],
                    })
                &&& l.next_cursor == self.next_cursor
                &&& l.has_more == self.has_more
            },
            r matches Err(Error::UnexpectedResponse { response }) ==> exists|k: int|
                {
                    &&& 0 <= k < self.results@.len()
                    &&& response == #[trigger] self.results@[k]
                    &&& !(self.results@[k] is Block)
                    &&& forall|j: int| 0 <= j < k ==> self.results@[j] is Block
                },
    {
        let ghost orig = self.results@;
        let mut rest = self.results;
        let mut out: Vec<Block> = Vec::new();
        proof {
            assert(rest@ =~= orig.subrange(0, orig.len() as int));
        }
        while rest.len() > 0
            invariant
                rest@ == orig.subrange(orig.len() - rest@.len(), orig.len() as int),
                out@.len() + rest@.len() == orig.len(),
                forall|j: int|
                    0 <= j < out@.len() ==> orig[j] == (Object::Block { block: out@[j] }),
            decreases rest@.len(),
        {
            let ghost i = orig.len() - rest@.len();
            let ghost before = rest@;
            let x = rest.remove(0);
            proof {
                assert(before[0] == orig[i]);
                assert(x == orig[i]);
                assert(rest@ =~= orig.subrange(i + 1, orig.len() as int));
            }
            match x {
                Object::Block { block } => {
                    out.push(block);
                },
                other => {
                    proof {
                        assert(other == orig[i]);
                        assert(!(orig[i] is Block));
                        assert(forall|j: int| 0 <= j < i ==> orig[j] is Block);
                    }
                    return Err(Error::UnexpectedResponse { response: other });
                },
            }
        }
        proof {
            assert(out@.len() == orig.len());
            assert(forall|j: int| 0 <= j < orig.len() ==> orig[j] is Block);
            assert(all_blocks(orig));
        }
        Ok(ListResponse { results: out, next_cursor: self.next_cursor, has_more: self.has_more })
    }

}

/// Keep one page per identifier: a later page whose identifier was already
/// seen is dropped, so exactly one page with each identifier survives.
#[verifier::loop_isolation(false)]
pub fn dedup_by_identity(pages: Vec<Page>) -> (r: Vec<Page>)
    ensures
        forall|i: int, j: int|
            #![trigger r@[i], r@[j]]
            0 <= i < j < r@.len() ==> r@[i].id@ != r@[j].id@,
        forall|i: int|
            #![trigger r@[i]]
            0 <= i < r@.len() ==> exists|k: int|
                0 <= k < pages@.len() && r@[i] == #[trigger] pages@[k],
        forall|k: int|
            #![trigger pages@[k]]
            0 <= k < pages@.len() ==> exists|i: int|
                0 <= i < r@.len() && (#[trigger] r@[i].id@) == pages@[k].id@,
{
    let ghost orig = pages@;
    let mut rest = pages;
    let mut out: Vec<Page> = Vec::new();
    proof {
        assert(rest@ =~= orig.subrange(0, orig.len() as int));
    }
    while rest.len() > 0
        invariant
            rest@.len() <= orig.len(),
            rest@ == orig.subrange(orig.len() - rest@.len(), orig.len() as int),
            forall|i: int, j: int|
                #![trigger out@[i], out@[j]]
                0 <= i < j < out@.len() ==> out@[i].id@ != out@[j].id@,
            forall|i: int|
                #![trigger out@[i]]
                0 <= i < out@.len() ==> exists|k: int|
                    0 <= k < orig.len() && out@[i] == #[trigger] orig[k],
            forall|k: int|
                #![trigger orig[k]]
                0 <= k < orig.len() - rest@.len() ==> exists|i: int|
                    0 <= i < out@.len() && (#[trigger] out@[i].id@) == orig[k].id@,
        decreases rest@.len(),
    {
        let ghost before = rest@;
        let ghost i = orig.len() - before.len();
        let x = rest.remove(0);
        proof {
            assert(before == orig.subrange(i, orig.len() as int));
            assert(before[0] == orig[i]);
            assert(x == orig[i]);
            assert(rest@ =~= orig.subrange(i + 1, orig.len() as int));
        }
        let mut seen = false;
        let mut p: usize = 0;
        while p < out.len()
            invariant
                p <= out@.len(),
                seen <==> exists|q: int|
                    0 <= q < p && (#[trigger] out@[q].id@) == orig[i].id@,
            decreases out@.len() - p,
        {
            if out[p].same_identity(&x) {
                proof {
                    assert(out@[p as int].id@ == orig[i].id@);
                }
                seen = true;
            }
            p = p + 1;
        }
        if !seen {
            let ghost outlen = out@.len();
            let ghost oldout = out@;
            proof {
                assert(forall|q: int|
                    0 <= q < oldout.len() ==> (#[trigger] oldout[q].id@) != orig[i].id@);
            }
            out.push(x);
            proof {
                assert(out@ == oldout.push(orig[i]));
                assert(out@[outlen as int] == orig[i]);
                assert(out@[outlen as int].id@ == orig[i].id@);
                assert(forall|q: int| 0 <= q < outlen ==> out@[q] == oldout[q]);
                assert forall|ii: int, jj: int|
                    #![trigger out@[ii], out@[jj]]
                    0 <= ii < jj < out@.len() implies out@[ii].id@ != out@[jj].id@ by {
                    if jj < outlen {
                        assert(oldout[ii].id@ != oldout[jj].id@);
                    } else {
                        assert(out@[jj] == orig[i]);
                        assert(oldout[ii].id@ != orig[i].id@);
                    }
                }
                assert forall|ii: int|
                    #![trigger out@[ii]]
                    0 <= ii < out@.len() implies exists|k: int|
                        0 <= k < orig.len() && out@[ii] == #[trigger] orig[k] by {
                    if ii < outlen {
                        assert(out@[ii] == oldout[ii]);
                        assert(exists|k: int| 0 <= k < orig.len() && oldout[ii] == #[trigger] orig[k]);
                    } else {
                        assert(out@[ii] == orig[i]);
                    }
                }
                assert(exists|q: int|
                    0 <= q < out@.len() && (#[trigger] out@[q].id@) == orig[i].id@);
            }
        } else {
            proof {
                assert(exists|q: int|
                    0 <= q < out@.len() && (#[trigger] out@[q].id@) == orig[i].id@);
            }
        }
        proof {
            assert forall|k: int|
                #![trigger orig[k]]
                0 <= k < orig.len() - rest@.len() implies exists|q: int|
                    0 <= q < out@.len() && (#[trigger] out@[q].id@) == orig[k].id@ by {
                if k < i {
                    assert(exists|q: int|
                        0 <= q < out@.len() && (#[trigger] out@[q].id@) == orig[k].id@);
                } else {
                    assert(k == i);
                }
            }
        }
    }
    out
}

/// The response to a property-item query: a single property value, or a
/// paginated list of values.
#[derive(Debug, PartialEq, Eq)]
pub enum PropertyResponse {
    List { results: ListResponse<crate::properties::PropertyValue> },
    PropertyItem { property_item: crate::properties::PropertyValue },
}

/// The mathematical shape of a property-item query response.
pub enum PropertyResponseModel {
    List {
        results: Seq<PropertyValueModel>,
        next_cursor: Option<Seq<char>>,
        has_more: bool,
    },
    PropertyItem { property_item: PropertyValueModel },
}

impl PropertyResponse {
    /// The abstraction of this response.
    pub open spec fn model(self) -> PropertyResponseModel {
        match self {
            PropertyResponse::List { results } => PropertyResponseModel::List {
                results: Seq::new(
                    results.results@.len(),
                    |i: int| results.results@[i].model(),
                ),
                next_cursor: cursor_model(results.next_cursor),
                has_more: results.has_more,
            },
            PropertyResponse::PropertyItem { property_item } => {
                PropertyResponseModel::PropertyItem { property_item: property_item.model() }
            },
        }
    }
}

/// A request to create a page.
#[derive(Debug, PartialEq, Eq)]
pub struct PageCreateRequest {
    /// Where the page is created.
    pub parent: Parent,
    /// The page's initial property values.
    pub properties: Properties,
    /// Initial child blocks, when given.
    pub children: Option<Vec<CreateBlock>>,
    /// The page's icon, when given.
    pub icon: Option<FileOrEmojiObject>,
}

/// A request to replace a block's children.
#[derive(Debug, PartialEq, Eq)]
pub struct UpdateBlockChildrenRequest {
    /// The new children, in order.
    pub children: Vec<CreateBlock>,
}

/// A request to update a page.
#[derive(Debug, PartialEq, Eq)]
pub struct PageUpdateRequest {
    /// The property values to write.
    pub properties: Properties,
    /// The archived flag to write, when given.
    pub archived: Option<bool>,
    /// The icon to write, when given.
    pub icon: Option<FileOrEmojiObject>,
}

} // verus!
