//! Trusted access to manifest and lock-file text through the `toml_edit`
//! crate.
//!
//! What a manifest's text contains is a pure function of the text itself, so
//! each extraction below is given a name (an uninterpreted spec function) and
//! a trusted wrapper whose contract says that the wrapper returns exactly
//! that named value. All logic that acts on the extracted values is verified.

use vstd::prelude::*;

use crate::recipe::Manifest;

verus! {

/// Whether a text parses as a structured document (`toml_edit::DocumentMut`).
pub uninterp spec fn toml_parses(s: Seq<char>) -> bool;

/// The package name declared by a manifest text: the string at
/// `[package].name`, or `None` if the text does not parse, has no `[package]`
/// table, or the table has no string `name` field.
pub uninterp spec fn crate_name_of(s: Seq<char>) -> Option<Seq<char>>;

/// The keys of a manifest text's `[dependencies]` table, in table order;
/// empty if the text does not parse or has no such table.
pub uninterp spec fn dep_keys_of(s: Seq<char>) -> Seq<Seq<char>>;

/// The string entries of a manifest text's `[workspace].members` array, in
/// array order, or `None` if that field is absent or not an array.
/// Meaningful only when `toml_parses(s)` holds.
pub uninterp spec fn member_list_of(s: Seq<char>) -> Option<Seq<Seq<char>>>;

/// The `name` field of each entry of a lock-file text's `[[package]]` array
/// of tables, in order; `None` stands for an entry whose name is absent or
/// not a string. Meaningful only when `toml_parses(s)` holds.
pub uninterp spec fn lock_entry_names(s: Seq<char>) -> Seq<Option<Seq<char>>>;

/// The lock-file text after the entry at the given index is removed from the
/// `[[package]]` array and the document is re-serialized.
pub uninterp spec fn lock_without_entry(s: Seq<char>, i: int) -> Seq<char>;

/// The outcome of reading the workspace member list from the root manifest:
/// the text is not valid TOML, the member field is missing or not an array,
/// or the list of its string entries.
pub(crate) enum MemberListParse {
    NotToml,
    NoMemberArray,
    Members(Vec<String>),
}

/// Relies on `toml_edit`: parse the manifest, read `[package].name` as a
/// string. The result is a function of the text alone.
#[verifier::external_body]
pub(crate) fn extract_crate_name(manifest: &Manifest) -> (r: Option<String>)
    ensures
        r matches Some(n) ==> crate_name_of(manifest@.contents) == Some(n@),
        r is None ==> crate_name_of(manifest@.contents) is None,
{
    let doc: toml_edit::DocumentMut = manifest.contents.parse().ok()?;
    doc.get("package")?.get("name")?.as_str().map(std::borrow::ToOwned::to_owned)
}

/// Relies on `toml_edit`: parse the manifest, read the keys of its
/// `[dependencies]` table. A text that does not parse, or has no such table,
/// contributes no keys. The result is a function of the text alone.
#[verifier::external_body]
pub(crate) fn manifest_dep_names(manifest: &Manifest) -> (r: Vec<String>)
    ensures
        r.deep_view() == dep_keys_of(manifest@.contents),
{
    let doc: toml_edit::DocumentMut = match manifest.contents.parse() {
        Ok(d) => d,
        Err(_) => return Vec::new(),
    };
    match doc.get("dependencies").and_then(toml_edit::Item::as_table) {
        Some(table) => table.iter().map(|(dep_name, _)| dep_name.to_owned()).collect(),
        None => Vec::new(),
    }
}

/// Relies on `toml_edit`: parse the root manifest, read the string entries
/// of its `[workspace].members` array. The two failure outcomes are kept
/// apart so that the caller can report each one.
#[verifier::external_body]
pub(crate) fn parse_workspace_members(contents: &str) -> (r: MemberListParse)
    ensures
        (r is NotToml) == !toml_parses(contents@),
        (r is NoMemberArray) == (toml_parses(contents@) && member_list_of(contents@) is None),
        r matches MemberListParse::Members(v) ==> member_list_of(contents@) == Some(v.deep_view()),
{
    let doc: toml_edit::DocumentMut = match contents.parse() {
        Ok(d) => d,
        Err(_) => return MemberListParse::NotToml,
    };
    match doc.get("workspace").and_then(|w| w.get("members")).and_then(toml_edit::Item::as_array) {
        None => MemberListParse::NoMemberArray,
        Some(arr) => MemberListParse::Members(
            arr.iter().filter_map(|x| x.as_str().map(std::borrow::ToOwned::to_owned)).collect(),
        ),
    }
}

/// Relies on `toml_edit`: parse the lock-file text, read the `name` field of
/// each `[[package]]` entry. `None` is returned exactly when the text does
/// not parse. The result is a function of the text alone.
#[verifier::external_body]
pub(crate) fn lock_package_names(lock: &str) -> (r: Option<Vec<Option<String>>>)
    ensures
        (r is Some) == toml_parses(lock@),
        r matches Some(v) ==> v.deep_view() == lock_entry_names(lock@),
{
    let doc: toml_edit::DocumentMut = match lock.parse() {
        Ok(d) => d,
        Err(_) => return None,
    };
    match doc.get("package").and_then(toml_edit::Item::as_array_of_tables) {
        Some(array) => Some(
            array
                .iter()
                .map(|pkg| {
                    pkg.get("name").and_then(toml_edit::Item::as_str).map(std::borrow::ToOwned::to_owned)
                })
                .collect(),
        ),
        None => Some(Vec::new()),
    }
}

/// Relies on `toml_edit`: parse the lock-file text, remove the `[[package]]`
/// entry at the given index, re-serialize the document. `toml_edit` keeps
/// the remaining content verbatim when a document is re-serialized, so the
/// new text still parses and its entry names are the old ones with the
/// removed index taken out.
#[verifier::external_body]
pub(crate) fn remove_lock_entry(lock: &str, i: usize) -> (r: String)
    requires
        toml_parses(lock@),
        i < lock_entry_names(lock@).len(),
    ensures
        r@ == lock_without_entry(lock@, i as int),
        toml_parses(r@),
        lock_entry_names(r@) == lock_entry_names(lock@).remove(i as int),
{
    let mut doc: toml_edit::DocumentMut = match lock.parse() {
        Ok(d) => d,
        Err(_) => return String::new(),
    };
    if let Some(array) = doc.get_mut("package").and_then(toml_edit::Item::as_array_of_tables_mut) {
        if i < array.len() {
            array.remove(i);
        }
    }
    doc.to_string()
}

} // verus!
