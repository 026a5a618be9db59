//! Resolution of a raw extension to a language name, through a JSON side
//! table mapping extensions to names.

use vstd::prelude::*;
use vstd::string::StringExecFns;
use crate::walk::opt_view;

verus! {

/// What the JSON side table says for an extension: the text of the member
/// under that key, or `None` when the table is malformed JSON or has no such
/// member.  The result is a function of the two strings alone.
pub uninterp spec fn lookup_of(table: Seq<char>, ext: Seq<char>) -> Option<Seq<char>>;

/// Relies on `json::parse` (an error on malformed input, no panic), the
/// `Index<&str>` impl of `json::JsonValue` (a null value for a missing key
/// or a non-object, no panic), `JsonValue::is_null`, and the `Display` impl
/// of `JsonValue` (a string value prints as its bare text, another value as
/// serialised JSON).  All are deterministic in the two strings, so the
/// result carries the name `lookup_of`.
#[verifier::external_body]
fn table_lookup(table: &str, ext: &str) -> (r: Option<String>)
    ensures
        opt_view(r) == lookup_of(table@, ext@),
{
    match json::parse(table) {
        Ok(v) => {
            let value = &v[ext];
            if value.is_null() {
                None
            } else {
                Some(value.to_string())
            }
        },
        Err(_) => None,
    }
}

/// Maps a raw extension to the language name the JSON side table gives it:
/// exactly the table's entry for the extension, or "Unknown" when the table
/// has none (or is malformed).  With `quick` set the extension is handed
/// back as it is and the table is not consulted.
pub fn resolve_extension(table: &str, ext: String, quick: &bool) -> (r: String)
    ensures
        *quick ==> r@ == ext@,
        !*quick ==> r@ == (match lookup_of(table@, ext@) {
            Option::Some(name) => name,
            Option::None => "Unknown"@,
        }),
{
    if *quick {
        return ext;
    }
    match table_lookup(table, ext.as_str()) {
        Option::Some(name) => name,
        Option::None => String::from_str("Unknown"),
    }
}

} // verus!
