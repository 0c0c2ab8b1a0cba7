//! The decisions of the document service: new document ids, index entries,
//! and the query parameters.

use vstd::prelude::*;
use vstd::string::*;
use crate::json::JsonObject;
use crate::parser::{parseQuery, parse_spec, ParseOutcome};

verus! {

/// The document service.
pub struct Service {}

/// The HTTP server.
pub struct Server {}

/// The query parameters of a document search: the query, and whether to
/// scan all documents when the index selects none.
#[allow(non_snake_case)]
pub struct QueryParams {
    pub q: String,
    pub skipIndex: Option<bool>,
}

/// A document found by a search, with its id.
pub struct DocumentResult {
    pub id: String,
    pub body: JsonObject,
}

/// A new document as it is stored: its id, its JSON text, and the path
/// values under which the index lists it.
pub struct NewDocument {
    pub id: String,
    pub content: String,
    pub path_values: Vec<String>,
}

/// The text of a version-4 UUID as `Display` writes it: 36 characters,
/// hyphens at 8, 13, 18 and 23, lower-case hex digits elsewhere, the
/// version digit `4` at 14 and a variant digit `8`, `9`, `a` or `b` at 19.
pub open spec fn is_uuid_v4_text(t: Seq<char>) -> bool {
    &&& t.len() == 36
    &&& forall|i: int| 0 <= i < 36 ==> (#[trigger] t[i] == '-' <==> (i == 8 || i == 13 || i == 18 || i == 23))
    &&& forall|i: int| 0 <= i < 36 && i != 8 && i != 13 && i != 18 && i != 23 ==> crate::db::is_lower_hex(#[trigger] t[i])
    &&& t[14] == '4'
    &&& (t[19] == '8' || t[19] == '9' || t[19] == 'a' || t[19] == 'b')
}

/// `uuid::Uuid::new_v4`, written with `Display`. The id is random; only its
/// form is stated, as the crate's source writes it.
#[verifier::external_body]
fn uuid_v4_text() -> (r: String)
    ensures
        is_uuid_v4_text(r@),
{
    uuid::Uuid::new_v4().to_string()
}

/// A document id holds no comma, so an index text lists it as one id.
pub proof fn law_document_id_comma_free(t: Seq<char>)
    requires
        is_uuid_v4_text(t),
    ensures
        !t.contains(','),
{
    if t.contains(',') {
        let i = choose|i: int| 0 <= i < t.len() && t[i] == ',';
        if i == 8 || i == 13 || i == 18 || i == 23 {
            assert(t[i] == '-');
        } else {
            assert(crate::db::is_lower_hex(t[i]));
        }
    }
}

impl Service {
    /// A new document id: a random version-4 UUID.
    pub fn new_document_id() -> (r: String)
        ensures
            is_uuid_v4_text(r@),
    {
        uuid_v4_text()
    }

    /// What adding `document` stores: a new id, the document's JSON text,
    /// and its path values below no prefix; none where the document cannot
    /// be written as JSON.
    pub fn prepare_document(document: &JsonObject) -> (r: Option<NewDocument>)
        ensures
            r is None <==> crate::stored::document_json_text(*document) is None,
            r matches Some(d) ==> {
                &&& is_uuid_v4_text(d.id@)
                &&& crate::stored::document_json_text(*document) == Some(d.content@)
                &&& crate::paths::string_views(d.path_values@) == crate::paths::path_values_of_entries(
                    document.entries@,
                    Seq::empty(),
                )
            },
    {
        let id = Service::new_document_id();
        match crate::stored::document_json(document) {
            Some(content) => {
                let path_values = crate::paths::get_path_values(document, String::new());
                Some(NewDocument { id, content, path_values })
            },
            None => None,
        }
    }

    /// The index text of a path value once the document `id` is indexed
    /// under it: `id` alone for no text, the text as it was when it lists
    /// `id`, else the text, a comma and `id`.
    pub fn index_entry(existing: String, id: &str) -> (r: String)
        ensures
            r@ == crate::index::index_add_spec(existing@, id@),
    {
        crate::index::add_id(existing, id)
    }
}

impl QueryParams {
    /// Whether to scan all documents when the index selects none (`false`
    /// when the parameter is absent).
    pub fn skip_index(&self) -> (r: bool)
        ensures
            r == (self.skipIndex == Some(true)),
    {
        match self.skipIndex {
            Some(b) => b,
            None => false,
        }
    }

    /// Checks that the query parses: its message when it does not, else
    /// `true`, whatever the document.
    #[allow(non_snake_case)]
    pub fn matchDocument(&self, document: &JsonObject) -> (r: Result<bool, String>)
        requires
            !(parse_spec(vstd::utf8::encode_utf8(self.q@)) is Aborts),
        ensures
            match parse_spec(vstd::utf8::encode_utf8(self.q@)) {
                ParseOutcome::Rejected(m) => r matches Err(e) && e@ == m,
                _ => r == Ok::<bool, String>(true),
            },
    {
        let bytes = self.q.as_str().as_bytes();
        match parseQuery(bytes) {
            Ok(_) => Ok(true),
            Err(e) => Err(e),
        }
    }
}

} // verus!
