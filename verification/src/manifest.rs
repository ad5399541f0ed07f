use vstd::prelude::*;

use crate::strutil::str_eq;

verus! {

/// The parsed form of a directory's declarative manifest: a string key maps
/// to a scalar string (a resource name or a literal path), a boolean flag
/// (`instance`), or a nested table of further entries, kept in the file's
/// enumeration order.
#[derive(Debug, PartialEq)]
pub enum ManifestNode {
    Scalar(String),
    Bool(bool),
    Table(Vec<(String, ManifestNode)>),
}

/// Index of the first entry with the given key, or -1 when there is none.
pub open spec fn first_key_match(items: Seq<(String, ManifestNode)>, key: Seq<char>) -> int
    decreases items.len(),
{
    if items.len() == 0 {
        -1
    } else if items[0].0@ == key {
        0
    } else {
        let r = first_key_match(items.drop_first(), key);
        if r == -1 {
            -1
        } else {
            r + 1
        }
    }
}

/// `first_key_match` returns -1 exactly when no entry has the key, and
/// otherwise the least index of an entry with the key.
pub proof fn lemma_first_key_match(items: Seq<(String, ManifestNode)>, key: Seq<char>)
    ensures
        (first_key_match(items, key) == -1) <==> (forall|j: int|
            0 <= j < items.len() ==> items[j].0@ != key),
        first_key_match(items, key) != -1 ==> {
            let i = first_key_match(items, key);
            &&& 0 <= i < items.len()
            &&& items[i].0@ == key
            &&& forall|j: int| 0 <= j < i ==> items[j].0@ != key
        },
    decreases items.len(),
{
    if items.len() > 0 && items[0].0@ != key {
        let tail = items.drop_first();
        lemma_first_key_match(tail, key);
        assert(forall|j: int| 0 <= j < tail.len() ==> tail[j] == items[j + 1]);
        let r = first_key_match(tail, key);
        if r == -1 {
            assert forall|j: int| 0 <= j < items.len() implies items[j].0@ != key by {
                if j > 0 {
                    assert(items[j] == tail[j - 1]);
                }
            }
        } else {
            assert(items[r + 1] == tail[r]);
            assert forall|j: int| 0 <= j < r + 1 implies items[j].0@ != key by {
                if j > 0 {
                    assert(items[j] == tail[j - 1]);
                }
            }
        }
    }
}

/// The reserved manifest key that requests instance isolation.
pub open spec fn instance_key() -> Seq<char> {
    "instance"@
}

/// The value under the first entry with the given key, if any.
pub open spec fn table_get(items: Seq<(String, ManifestNode)>, key: Seq<char>) -> Option<
    ManifestNode,
> {
    let i = first_key_match(items, key);
    if i == -1 {
        None
    } else {
        Some(items[i].1)
    }
}

/// The value under the first entry with the given key in an entry list.
#[verifier::loop_isolation(false)]
pub fn entries_get<'a>(items: &'a Vec<(String, ManifestNode)>, key: &str) -> (r: Option<
    &'a ManifestNode,
>)
    ensures
        match r {
            Some(v) => table_get(items@, key@) == Some(*v),
            None => table_get(items@, key@) is None,
        },
{
    let n = items.len();
    let mut i: usize = 0;
    while i < n
        invariant
            n == items@.len(),
            i <= n,
            forall|j: int| 0 <= j < i ==> items@[j].0@ != key@,
        decreases n - i,
    {
        let hit = str_eq(items[i].0.as_str(), key);
        if hit {
            proof {
                lemma_first_key_match(items@, key@);
                assert(first_key_match(items@, key@) == i as int);
            }
            return Some(&items[i].1);
        }
        i += 1;
    }
    proof {
        lemma_first_key_match(items@, key@);
    }
    None
}

impl ManifestNode {
    /// The value under `key`, when this node is a table that contains it.
    pub fn get<'a>(&'a self, key: &str) -> (r: Option<&'a ManifestNode>)
        ensures
            match *self {
                ManifestNode::Table(items) => match r {
                    Some(v) => table_get(items@, key@) == Some(*v),
                    None => table_get(items@, key@) is None,
                },
                _ => r is None,
            },
    {
        match self {
            ManifestNode::Table(items) => entries_get(items, key),
            _ => None,
        }
    }
}

} // verus!
