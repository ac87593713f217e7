//! The file name key of one document.
use crate::node::{field, get_field, get_yaml_str, str_field, Node};
use vstd::prelude::*;

verus! {

/// The text that joins the parts of a key.
pub open spec fn separator() -> Seq<char> {
    seq!['_', '_']
}

/// An API version with every `/` replaced by the separator, so that a
/// version such as `apps/v1` gives no path-like file name.
pub open spec fn normalized(v: Seq<char>) -> Seq<char>
    decreases v.len(),
{
    if v.len() == 0 {
        Seq::empty()
    } else if v.last() == '/' {
        normalized(v.drop_last()) + separator()
    } else {
        normalized(v.drop_last()).push(v.last())
    }
}

/// The parts that are present, in their order.
pub open spec fn present(parts: Seq<Option<Seq<char>>>) -> Seq<Seq<char>>
    decreases parts.len(),
{
    if parts.len() == 0 {
        Seq::empty()
    } else {
        match parts.last() {
            Some(p) => present(parts.drop_last()).push(p),
            None => present(parts.drop_last()),
        }
    }
}

/// The parts joined by the separator; no parts give the empty text.
pub open spec fn join(parts: Seq<Seq<char>>) -> Seq<char>
    decreases parts.len(),
{
    if parts.len() == 0 {
        Seq::empty()
    } else if parts.len() == 1 {
        parts[0]
    } else {
        join(parts.drop_last()) + separator() + parts.last()
    }
}

/// The name of the object that a metadata block describes: `name`, or else
/// `generateName`, when it is a string.
pub open spec fn name_of(metadata: Seq<(Node, Node)>) -> Option<Seq<char>> {
    match str_field(metadata, "name"@) {
        Some(n) => Some(n),
        None => str_field(metadata, "generateName"@),
    }
}

/// The key of a document given by the entries of its top-level mapping.
///
/// There is no key without a `metadata` mapping that holds a name. Else the
/// key joins, in this order, the normalized `apiVersion`, `kind`, the
/// metadata's `namespace` and the name, leaving out those that are absent or
/// not strings.
pub open spec fn key_of_hash(hash: Seq<(Node, Node)>) -> Option<Seq<char>> {
    match field(hash, "metadata"@) {
        Some(Node::Hash(metadata)) => match name_of(metadata@) {
            Some(name) => Some(
                join(
                    present(
                        seq![
                            match str_field(hash, "apiVersion"@) {
                                Some(v) => Some(normalized(v)),
                                None => None,
                            },
                            str_field(hash, "kind"@),
                            str_field(metadata@, "namespace"@),
                            Some(name),
                        ],
                    ),
                ),
            ),
            None => None,
        },
        _ => None,
    }
}

/// The key of a document; a document that is not a mapping has none.
pub open spec fn key_of(doc: Node) -> Option<Seq<char>> {
    match doc {
        Node::Hash(hash) => key_of_hash(hash@),
        _ => None,
    }
}

/// The text of an optional string.
pub open spec fn text_of(o: &Option<String>) -> Option<Seq<char>> {
    match o {
        Some(s) => Some(s@),
        None => None,
    }
}

/// A join of parts ends with the last part.
proof fn lemma_join_ends_with_last(parts: Seq<Seq<char>>)
    requires
        parts.len() > 0,
    ensures
        join(parts).len() >= parts.last().len(),
        join(parts).subrange(join(parts).len() - parts.last().len(), join(parts).len() as int)
            == parts.last(),
{
    let j = join(parts);
    let p = parts.last();
    if parts.len() > 1 {
        assert(j.subrange(j.len() - p.len(), j.len() as int) =~= p);
    } else {
        assert(j.subrange(0, j.len() as int) =~= p);
    }
}

/// A document whose metadata holds a string `generateName` and no string
/// `name` has a key, and that key ends with the generated name: it stands in
/// the name position.
pub proof fn lemma_generate_name_fallback(hash: Seq<(Node, Node)>, generated: Seq<char>)
    requires
        field(hash, "metadata"@) matches Some(Node::Hash(metadata)) && str_field(
            metadata@,
            "name"@,
        ) is None && str_field(metadata@, "generateName"@) == Some(generated),
    ensures
        key_of_hash(hash) matches Some(k) && k.len() >= generated.len() && k.subrange(
            k.len() - generated.len(),
            k.len() as int,
        ) == generated,
{
    let metadata = field(hash, "metadata"@)->0->Hash_0;
    let opts = seq![
        match str_field(hash, "apiVersion"@) {
            Some(v) => Some(normalized(v)),
            None => None,
        },
        str_field(hash, "kind"@),
        str_field(metadata@, "namespace"@),
        Some(generated),
    ];
    assert(opts.drop_last().push(Some(generated)) =~= opts);
    lemma_join_ends_with_last(present(opts));
}

/// Replaces every `/` of an API version with the separator.
pub fn normalize_api_version(v: &str) -> (r: String)
    ensures
        r@ == normalized(v@),
{
    let n = v.unicode_len();
    let mut out = String::new();
    let mut i: usize = 0;
    proof {
        reveal_strlit("__");
    }
    while i < n
        invariant
            0 <= i <= n,
            n == v@.len(),
            "__"@ == separator(),
            out@ == normalized(v@.subrange(0, i as int)),
        decreases n - i,
    {
        let c = v.get_char(i);
        assert(v@.subrange(0, i + 1).drop_last() =~= v@.subrange(0, i as int));
        if c == '/' {
            out.append("__");
        } else {
            let one = v.substring_char(i, i + 1);
            assert(one@ =~= seq![c]);
            out.append(one);
        }
        i = i + 1;
    }
    assert(v@.subrange(0, n as int) =~= v@);
    out
}

/// Joins the parts with the separator.
pub fn join_parts(parts: &Vec<String>) -> (r: String)
    ensures
        r@ == join(parts@.map_values(|p: String| p@)),
{
    let mut out = String::new();
    let mut i: usize = 0;
    proof {
        reveal_strlit("__");
    }
    while i < parts.len()
        invariant
            0 <= i <= parts@.len(),
            "__"@ == separator(),
            out@ == join(parts@.subrange(0, i as int).map_values(|p: String| p@)),
        decreases parts@.len() - i,
    {
        let ghost before = parts@.subrange(0, i as int).map_values(|p: String| p@);
        let ghost after = parts@.subrange(0, i + 1).map_values(|p: String| p@);
        assert(after.drop_last() =~= before);
        if i > 0 {
            out.append("__");
        }
        out.append(parts[i].as_str());
        i = i + 1;
    }
    assert(parts@.subrange(0, parts@.len() as int) =~= parts@);
    out
}

/// Derives the file name key of a document from the entries of its
/// top-level mapping, or `None` where the document names no object.
pub fn map_doc_to_file(hash: &Vec<(Node, Node)>) -> (r: Option<String>)
    ensures
        match r {
            Some(k) => key_of_hash(hash@) == Some(k@),
            None => key_of_hash(hash@) is None,
        },
{
    let version = match get_yaml_str(hash, "apiVersion") {
        Some(v) => Some(normalize_api_version(v.as_str())),
        None => None,
    };
    let kind = get_yaml_str(hash, "kind");
    let metadata = match get_field(hash, "metadata") {
        Some(Node::Hash(m)) => m,
        _ => {
            return None;
        },
    };
    let namespace = get_yaml_str(metadata, "namespace");
    let name = match get_yaml_str(metadata, "name") {
        Some(n) => n,
        None => match get_yaml_str(metadata, "generateName") {
            Some(n) => n,
            None => {
                return None;
            },
        },
    };
    let ghost opts = seq![
        text_of(&version),
        text_of(&kind),
        text_of(&namespace),
        Some(name@),
    ];
    let mut parts: Vec<String> = Vec::new();
    assert(opts.subrange(0, 1).drop_last() =~= opts.subrange(0, 0));
    assert(opts.subrange(0, 2).drop_last() =~= opts.subrange(0, 1));
    assert(opts.subrange(0, 3).drop_last() =~= opts.subrange(0, 2));
    assert(opts.subrange(0, 4).drop_last() =~= opts.subrange(0, 3));
    assert(present(opts.subrange(0, 0)) =~= Seq::empty());
    if let Some(v) = version {
        parts.push(v);
    }
    assert(parts@.map_values(|p: String| p@) =~= present(opts.subrange(0, 1)));
    if let Some(k) = kind {
        parts.push(k);
    }
    assert(parts@.map_values(|p: String| p@) =~= present(opts.subrange(0, 2)));
    if let Some(s) = namespace {
        parts.push(s);
    }
    assert(parts@.map_values(|p: String| p@) =~= present(opts.subrange(0, 3)));
    parts.push(name);
    assert(opts.subrange(0, 4) =~= opts);
    assert(parts@.map_values(|p: String| p@) =~= present(opts));
    assert(opts =~= seq![
        match str_field(hash@, "apiVersion"@) {
            Some(v) => Some(normalized(v)),
            None => None,
        },
        str_field(hash@, "kind"@),
        str_field(metadata@, "namespace"@),
        Some(name@),
    ]);
    Some(join_parts(&parts))
}

/// Derives the file name key of a document; a document that is not a
/// mapping has none.
pub fn derive_key(doc: &Node) -> (r: Option<String>)
    ensures
        match r {
            Some(k) => key_of(*doc) == Some(k@),
            None => key_of(*doc) is None,
        },
{
    match doc {
        Node::Hash(hash) => map_doc_to_file(hash),
        _ => None,
    }
}

} // verus!
