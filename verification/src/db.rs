//! Where the database keeps its files: one file per document in the data
//! directory, one file per index entry in the index directory, named by the
//! SHA-1 of the path value.

use vstd::prelude::*;
use vstd::string::*;

verus! {

/// The directories of a database.
#[allow(non_snake_case)]
pub struct DB {
    pub dbDir: String,
    pub indexDir: String,
}

/// The document model of the database.
pub type Document = crate::json::JsonObject;

/// A lower-case hexadecimal digit.
pub open spec fn is_lower_hex(c: char) -> bool {
    ('0' <= c && c <= '9') || ('a' <= c && c <= 'f')
}

/// The lower-case hexadecimal SHA-1 digest of the UTF-8 bytes of a text.
pub uninterp spec fn sha1_hex(text: Seq<char>) -> Seq<char>;

/// `sha1_smol::Sha1` over the UTF-8 bytes of `text`, its digest written with
/// `Display`: the digest is named, and of its text only what `Display`
/// writes is stated, five words of eight lower-case hex digits each.
#[verifier::external_body]
fn sha1_hex_digest(text: &str) -> (r: String)
    ensures
        r@ == sha1_hex(text@),
        r@.len() == 40,
        forall|i: int| 0 <= i < 40 ==> is_lower_hex(#[trigger] r@[i]),
{
    let mut m = sha1_smol::Sha1::new();
    m.update(text.as_bytes());
    m.digest().to_string()
}

impl DB {
    /// The database whose documents live in `db_dir`, its index in the
    /// directory of the same name with `.index` appended.
    pub fn with_dir(db_dir: String) -> (db: DB)
        ensures
            db.dbDir@ == db_dir@,
            db.indexDir@ == db_dir@ + ".index"@,
    {
        let mut index_dir = db_dir.clone();
        index_dir.append(".index");
        DB { dbDir: db_dir, indexDir: index_dir }
    }

    /// The file name of the index entry of a path value: its SHA-1 digest
    /// in lower-case hex, 40 characters that name no directory.
    pub fn encode(id: &str) -> (r: String)
        ensures
            r@ == sha1_hex(id@),
            r@.len() == 40,
            forall|i: int| 0 <= i < r@.len() ==> is_lower_hex(#[trigger] r@[i]),
    {
        sha1_hex_digest(id)
    }
}

} // verus!
