//! Records of the Open5e reference service and the pure parts of looking
//! them up: the query address and the choice of the first record.
use vstd::prelude::*;

verus! {

pub const BASE_URL: &'static str = "https://api.open5e.com";

/// One page of results as the service returns it.
#[derive(Debug)]
pub struct Open5eResponse<T> {
    pub count: u32,
    pub next: Option<String>,
    pub previous: Option<String>,
    pub results: Vec<T>,
}

/// A character class.
#[derive(Debug, Clone)]
pub struct Class {
    pub slug: String,
    pub name: String,
}

/// A spell.
#[derive(Debug, Clone)]
pub struct Spell {
    pub slug: String,
    pub name: String,
    pub desc: String,
    pub level: String,
    pub school: String,
    pub dnd_class: String,
}

/// The lowercase form of `s`, as std's `str::to_lowercase` gives it.
pub uninterp spec fn lower_of(s: Seq<char>) -> Seq<char>;

/// Relies on std's `str::to_lowercase`: its result depends on the
/// characters of `s` alone.
#[verifier::external_body]
fn lowercase(s: &str) -> (r: String)
    ensures
        r@ == lower_of(s@),
{
    s.to_lowercase()
}

/// The address that asks `collection` for the records whose slug is `slug`.
pub open spec fn query_text(collection: Seq<char>, slug: Seq<char>) -> Seq<char> {
    BASE_URL@ + "/"@ + collection + "/?slug="@ + slug
}

/// The query address for `slug` in `collection`, the slug taken as given.
pub fn lookup_url(collection: &str, slug: &str) -> (r: String)
    ensures
        r@ == query_text(collection@, slug@),
{
    let mut r = String::from_str(BASE_URL);
    r.append("/");
    r.append(collection);
    r.append("/?slug=");
    r.append(slug);
    r
}

/// The query address for the class `slug`, lowercased.
pub fn class_url(slug: &str) -> (r: String)
    ensures
        r@ == query_text("classes"@, lower_of(slug@)),
{
    let lower = lowercase(slug);
    lookup_url("classes", lower.as_str())
}

/// The query address for the spell `slug`, lowercased.
pub fn spell_url(slug: &str) -> (r: String)
    ensures
        r@ == query_text("spells"@, lower_of(slug@)),
{
    let lower = lowercase(slug);
    lookup_url("spells", lower.as_str())
}

/// The first record of a page, or `None` when the page is empty.
pub fn first_result<T>(response: Open5eResponse<T>) -> (r: Option<T>)
    ensures
        r == if response.results@.len() == 0 {
            None
        } else {
            Some(response.results@[0])
        },
{
    let mut results = response.results;
    if results.len() == 0 {
        None
    } else {
        Some(results.remove(0))
    }
}

} // verus!
