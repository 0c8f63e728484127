//! Digests of bytes, and metadata in JSON.
use sha2::Digest;
use vstd::prelude::*;

verus! {

/// The SHA-256 digest of bytes, as `sha2::Sha256` computes it.
pub uninterp spec fn sha256(data: Seq<u8>) -> Seq<u8>;

/// `sha2::Sha256::digest`: the SHA-256 digest of bytes, 32 bytes long.
#[verifier::external_body]
pub(crate) fn sha256_of(data: &[u8]) -> (r: Vec<u8>)
    ensures
        r@ == sha256(data@),
        r@.len() == 32,
{
    sha2::Sha256::digest(data).to_vec()
}

/// The text under a key of a JSON object, as `serde_json` reads it; `None` if
/// the text is no JSON, has no such key or holds no text there.
pub uninterp spec fn json_field(content: Seq<char>, key: Seq<char>) -> Option<Seq<char>>;

/// `serde_json::from_str`, `Value::get` and `Value::as_str`: the text under a
/// key of a JSON object.
#[verifier::external_body]
pub(crate) fn json_field_of(content: &str, key: &str) -> (r: Option<String>)
    ensures
        r.deep_view() == json_field(content@, key@),
{
    let value = serde_json::from_str::<serde_json::Value>(content).ok()?;
    value.get(key).and_then(|v| v.as_str()).map(|s| s.to_string())
}

/// Text in which `serde_json` finds neither an escape nor the key by which it
/// marks raw values, which begins with a dollar sign.
pub open spec fn unmarked(s: Seq<char>) -> bool {
    !s.contains('$') && !s.contains('\\')
}

/// Text that `serde_json` writes as it is, between quotes.
pub open spec fn verbatim(s: Seq<char>) -> bool {
    unmarked(s) && !s.contains('"') && forall|i: int|
        0 <= i < s.len() ==> 0x20 <= #[trigger] s[i] as u32
}

/// The text of a JSON object in which a key stands for a text, and all else is
/// as in the given one; `None` if that is neither the text of an object nor
/// `null`, which counts as an empty object.
pub uninterp spec fn json_with_field(
    content: Seq<char>,
    key: Seq<char>,
    value: Seq<char>,
) -> Option<Seq<char>>;

/// `serde_json::from_str`, `Map::insert` and `Value::to_string`: a JSON object
/// with a text put under a key, `null` counting as an empty object. `None` if
/// the text is no JSON or is another JSON value. The text then stands under
/// the key, and what stands under other keys is as before, where the text is
/// unmarked. Nothing is said of a text with the key that marks raw values:
/// `serde_json` can read such an object and not read it again once written.
#[verifier::external_body]
pub(crate) fn json_set_field(content: &str, key: &str, value: &str) -> (r: Option<String>)
    ensures
        r.deep_view() == json_with_field(content@, key@, value@),
        unmarked(content@) && unmarked(key@) && r is Some ==> {
            &&& json_field(r->0@, key@) == Some(value@)
            &&& forall|k: Seq<char>|
                k != key@ ==> #[trigger] json_field(r->0@, k) == json_field(content@, k)
        },
        unmarked(content@) && verbatim(key@) && verbatim(value@) && r is Some ==> unmarked(r->0@),
        forall|k: Seq<char>| #[trigger] json_field(content@, k) is Some ==> r is Some,
{
    let mut fields = match serde_json::from_str::<serde_json::Value>(content).ok()? {
        serde_json::Value::Object(fields) => fields,
        serde_json::Value::Null => serde_json::Map::new(),
        _ => return None,
    };
    fields.insert(key.to_string(), serde_json::Value::String(value.to_string()));
    Some(serde_json::Value::Object(fields).to_string())
}

/// The text of the JSON object that holds texts, lists of texts and numbers
/// under their keys.
pub uninterp spec fn json_object(
    texts: Seq<(Seq<char>, Seq<char>)>,
    lists: Seq<(Seq<char>, Seq<Seq<char>>)>,
    numbers: Seq<(Seq<char>, u64)>,
) -> Seq<char>;

/// The keys of texts, lists and numbers.
pub open spec fn all_keys(
    texts: Seq<(Seq<char>, Seq<char>)>,
    lists: Seq<(Seq<char>, Seq<Seq<char>>)>,
    numbers: Seq<(Seq<char>, u64)>,
) -> Seq<Seq<char>> {
    Seq::new(texts.len(), |i: int| texts[i].0) + Seq::new(lists.len(), |i: int| lists[i].0)
        + Seq::new(numbers.len(), |i: int| numbers[i].0)
}

/// Whether every key is unmarked and none stands twice.
pub open spec fn clear_keys(keys: Seq<Seq<char>>) -> bool {
    &&& forall|i: int| 0 <= i < keys.len() ==> unmarked(#[trigger] keys[i])
    &&& forall|i: int, j: int| 0 <= i < j < keys.len() ==> #[trigger] keys[i] != #[trigger] keys[j]
}

/// `serde_json::Map::from_iter` and `Value::to_string`: the text of the JSON
/// object that holds texts, lists of texts and numbers under their keys. Each
/// text can be read back under its key where the keys are clear. Keys and texts
/// that need no escape stand in it as they are.
#[verifier::external_body]
pub(crate) fn json_object_of(
    texts: &Vec<(String, String)>,
    lists: &Vec<(String, Vec<String>)>,
    numbers: &Vec<(String, u64)>,
) -> (r: String)
    ensures
        r@ == json_object(texts.deep_view(), lists.deep_view(), numbers.deep_view()),
        clear_keys(all_keys(texts.deep_view(), lists.deep_view(), numbers.deep_view())) ==> forall|
            i: int,
        |
            0 <= i < texts@.len() ==> json_field(r@, #[trigger] texts@[i].0@) == Some(texts@[i].1@),
        lists@.len() == 0 && (forall|i: int|
            0 <= i < texts@.len() ==> verbatim(#[trigger] texts@[i].0@) && verbatim(texts@[i].1@))
            && (forall|i: int| 0 <= i < numbers@.len() ==> verbatim(#[trigger] numbers@[i].0@))
            ==> unmarked(r@),
{
    let texts = texts.iter().map(|(k, v)| (k.clone(), serde_json::Value::from(v.as_str())));
    let lists = lists.iter().map(|(k, v)| (k.clone(), serde_json::Value::from(v.clone())));
    let numbers = numbers.iter().map(|(k, n)| (k.clone(), serde_json::Value::from(*n)));
    serde_json::Value::Object(serde_json::Map::from_iter(texts.chain(lists).chain(numbers))).to_string()
}

} // verus!
