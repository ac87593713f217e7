//! A parsed YAML value, held as plain data.
use vstd::prelude::*;

verus! {

/// One parsed YAML value.
///
/// A mapping keeps its entries in document order. Floats stay in their
/// textual form, so no value here is a floating-point number.
#[derive(Debug)]
pub enum Node {
    /// A float, in the text it was written with.
    Real(String),
    Integer(i64),
    Str(String),
    Boolean(bool),
    /// A sequence.
    Array(Vec<Node>),
    /// A mapping, as its entries of key and value.
    Hash(Vec<(Node, Node)>),
    /// A reference to an anchored value, by the anchor's number.
    Alias(usize),
    Null,
    /// A value that the parser could not make sense of.
    BadValue,
}

/// The value stored under the string key `k` in the entries of a mapping:
/// the first entry whose key is the string `k`.
pub open spec fn field(entries: Seq<(Node, Node)>, k: Seq<char>) -> Option<Node>
    decreases entries.len(),
{
    if entries.len() == 0 {
        None
    } else if entries[0].0 matches Node::Str(s) && s@ == k {
        Some(entries[0].1)
    } else {
        field(entries.drop_first(), k)
    }
}

/// The text stored under the string key `k`, when that value is a string.
pub open spec fn str_field(entries: Seq<(Node, Node)>, k: Seq<char>) -> Option<Seq<char>> {
    match field(entries, k) {
        Some(Node::Str(s)) => Some(s@),
        _ => None,
    }
}

/// Looks up the value stored under the string key `key` in the entries of
/// a mapping.
pub fn get_field<'a>(hash: &'a Vec<(Node, Node)>, key: &str) -> (r: Option<&'a Node>)
    ensures
        match r {
            Some(n) => field(hash@, key@) == Some(*n),
            None => field(hash@, key@) is None,
        },
{
    let wanted = String::from_str(key);
    let mut i: usize = 0;
    assert(hash@.subrange(0, hash@.len() as int) =~= hash@);
    while i < hash.len()
        invariant
            0 <= i <= hash@.len(),
            wanted@ == key@,
            field(hash@, key@) == field(hash@.subrange(i as int, hash@.len() as int), key@),
        decreases hash@.len() - i,
    {
        let ghost rest = hash@.subrange(i as int, hash@.len() as int);
        assert(rest.drop_first() =~= hash@.subrange(i + 1, hash@.len() as int));
        let found = match &hash[i].0 {
            Node::Str(s) => *s == wanted,
            _ => false,
        };
        if found {
            return Some(&hash[i].1);
        }
        i = i + 1;
    }
    None
}

/// Looks up `key` in the entries of a mapping and returns the value when it
/// is a string; a missing key or a value of another shape gives `None`.
pub fn get_yaml_str(hash: &Vec<(Node, Node)>, key: &str) -> (r: Option<String>)
    ensures
        match r {
            Some(s) => str_field(hash@, key@) == Some(s@),
            None => str_field(hash@, key@) is None,
        },
{
    match get_field(hash, key) {
        Some(Node::Str(v)) => Some(v.clone()),
        _ => None,
    }
}

} // verus!
