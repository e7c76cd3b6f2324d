//! Reading a collection's configuration: a JSON object whose `name` key
//! labels the collection.

use vstd::prelude::*;

use crate::model::Collection;

verus! {

/// The error of a failed JSON parse.
#[verifier::external_type_specification]
#[verifier::external_body]
pub struct ExJsonError(serde_json::Error);

/// `content` is one JSON value, as `serde_json::from_str` accepts it.
pub uninterp spec fn json_valid(content: Seq<char>) -> bool;

/// The string under `key` when the JSON `content` is an object that holds
/// a string there, as `serde_json::Value::get` and `Value::as_str` find it.
pub uninterp spec fn json_str_at(content: Seq<char>, key: Seq<char>) -> Option<Seq<char>>;

/// Relies on serde_json::from_str, to parse `content` as one JSON value
/// (it fails exactly when the text is not JSON), then on Value::get with a
/// string key and Value::as_str, to take the string under `key` if the
/// value is an object that has one there. All of it depends on `content`
/// and `key` alone.
#[verifier::external_body]
fn json_string_field(content: &str, key: &str) -> (r: Result<Option<String>, serde_json::Error>)
    ensures
        r is Ok <==> json_valid(content@),
        r matches Ok(o) ==> match o {
            Some(s) => json_str_at(content@, key@) == Some(s@),
            None => json_str_at(content@, key@) is None,
        },
{
    let v: serde_json::Value = serde_json::from_str(content)?;
    Ok(v.get(key).and_then(|n| n.as_str()).map(|s| s.to_string()))
}

/// Parses `content` as a configuration into `collection`. It succeeds
/// exactly when `content` is JSON; the collection then takes the string
/// under `name`, if the JSON holds one. Nothing else changes, and nothing
/// at all when the parse fails.
pub fn parse_config(content: &str, collection: &mut Collection) -> (r: Result<(), serde_json::Error>)
    ensures
        r is Ok <==> json_valid(content@),
        r is Ok ==> final(collection).name@ == match json_str_at(content@, "name"@) {
            Some(n) => n,
            None => old(collection).name@,
        },
        r is Ok && json_str_at(content@, "name"@) is None ==> *final(collection) == *old(collection),
        final(collection).root == old(collection).root,
        final(collection).db == old(collection).db,
        final(collection).root_dir == old(collection).root_dir,
        r is Err ==> *final(collection) == *old(collection),
{
    match json_string_field(content, "name") {
        Err(e) => Err(e),
        Ok(Some(name)) => {
            collection.name = name;
            Ok(())
        },
        Ok(None) => Ok(()),
    }
}

/// Opens the collection rooted at `root`, unscanned. `config` is the
/// configuration file that was read, as its path and its content, if one
/// was. When the content is JSON, the collection records that path and
/// takes the string under `name` as its name, if there is one; otherwise it
/// stays unnamed and records no configuration file.
pub fn open_collection(root: &str, config: Option<(String, String)>) -> (r: Collection)
    ensures
        r.root@ == root@,
        r.root_dir is None,
        match config {
            Some(c) => {
                &&& r.db == if json_valid(c.1@) {
                    Some(c.0)
                } else {
                    None
                }
                &&& r.name@ == if json_valid(c.1@) {
                    match json_str_at(c.1@, "name"@) {
                        Some(n) => n,
                        None => Seq::<char>::empty(),
                    }
                } else {
                    Seq::<char>::empty()
                }
            },
            None => r.db is None && r.name@ == Seq::<char>::empty(),
        },
{
    let mut collection = Collection::from(root);
    match config {
        Some((path, content)) => {
            match parse_config(content.as_str(), &mut collection) {
                Ok(()) => {
                    collection.db = Some(path);
                },
                Err(_) => {},
            }
        },
        None => {},
    }
    collection
}

} // verus!
