//! A read-only, ordered list of strings fixed when the service starts.
use vstd::prelude::*;

verus! {

broadcast use vstd::string::group_string_axioms;

/// An immutable ordered collection of strings: the posts or the foods a
/// service lists.
pub struct StaticList {
    items: Vec<String>,
}

/// The text of each string, in order.
pub open spec fn texts(v: Seq<String>) -> Seq<Seq<char>> {
    v.map_values(|s: String| s@)
}

impl View for StaticList {
    type V = Seq<Seq<char>>;

    closed spec fn view(&self) -> Seq<Seq<char>> {
        texts(self.items@)
    }
}

impl StaticList {
    /// Fixes the list to `items`, in the given order.
    pub fn new(items: Vec<String>) -> (r: StaticList)
        ensures
            r@ == texts(items@),
    {
        StaticList { items }
    }

    /// The whole list, in insertion order; reading it changes nothing.
    pub fn list(&self) -> (r: &Vec<String>)
        ensures
            texts(r@) == self@,
    {
        &self.items
    }

    /// Number of strings in the list.
    pub fn len(&self) -> (r: usize)
        ensures
            r == self@.len(),
    {
        self.items.len()
    }
}

/// The posts that the posts service holds from startup.
pub fn posts() -> (r: StaticList)
    ensures
        r@ == seq!["Post 1: Hello World"@, "Post 2: Rust is Great"@],
{
    let mut items: Vec<String> = Vec::new();
    items.push("Post 1: Hello World".to_string());
    items.push("Post 2: Rust is Great".to_string());
    let r = StaticList::new(items);
    assert(r@ =~= seq!["Post 1: Hello World"@, "Post 2: Rust is Great"@]);
    r
}

/// The foods that the food service holds from startup.
pub fn foods() -> (r: StaticList)
    ensures
        r@ == seq!["Pizza"@, "Sushi"@, "Burger"@],
{
    let mut items: Vec<String> = Vec::new();
    items.push("Pizza".to_string());
    items.push("Sushi".to_string());
    items.push("Burger".to_string());
    let r = StaticList::new(items);
    assert(r@ =~= seq!["Pizza"@, "Sushi"@, "Burger"@]);
    r
}

} // verus!
