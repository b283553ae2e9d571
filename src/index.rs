//! The prefix index from directory keys to package positions, kept in a
//! radix trie.
use vstd::prelude::*;
use radix_trie::Trie;
use crate::paths::has_prefix;

verus! {

#[verifier::external_type_specification]
#[verifier::external_body]
#[verifier::reject_recursive_types(K)]
#[verifier::reject_recursive_types(V)]
pub struct ExTrie<K, V>(Trie<K, V>);

/// The key-value pairs that a trie holds.
pub uninterp spec fn trie_entries(t: Trie<String, usize>) -> Map<Seq<char>, usize>;

/// `k` is the longest key of `m` that begins `q`.
pub open spec fn longest_key(m: Map<Seq<char>, usize>, q: Seq<char>, k: Seq<char>) -> bool {
    m.dom().contains(k) && has_prefix(q, k) && forall|k2: Seq<char>|
        m.dom().contains(k2) && has_prefix(q, k2) ==> k2.len() <= k.len()
}

/// The value stored under the longest key of `m` that begins `q`.
pub open spec fn ancestor_value(m: Map<Seq<char>, usize>, q: Seq<char>) -> Option<usize> {
    if exists|k: Seq<char>| longest_key(m, q, k) {
        Some(m[choose|k: Seq<char>| longest_key(m, q, k)])
    } else {
        None
    }
}

/// Two keys that both begin `q` and are equally long are the same key.
pub proof fn lemma_longest_unique(m: Map<Seq<char>, usize>, q: Seq<char>, k1: Seq<char>, k2: Seq<char>)
    requires
        longest_key(m, q, k1),
        longest_key(m, q, k2),
    ensures
        k1 == k2,
{
    assert(k1.len() == k2.len());
    assert(k1 =~= q.subrange(0, k1.len() as int));
    assert(k2 =~= q.subrange(0, k2.len() as int));
}

/// Relies on radix_trie::Trie::new: a trie that holds nothing.
#[verifier::external_body]
pub(crate) fn trie_new() -> (r: Trie<String, usize>)
    ensures
        trie_entries(r).dom() == Set::<Seq<char>>::empty(),
{
    Trie::new()
}

/// Relies on radix_trie::Trie::insert: the key is bound to the value, and
/// replaces an earlier binding of the same key.
#[verifier::external_body]
pub(crate) fn trie_insert(t: &mut Trie<String, usize>, k: String, v: usize)
    ensures
        trie_entries(*final(t)) == trie_entries(*old(t)).insert(k@, v),
{
    t.insert(k, v);
}

/// Relies on radix_trie::Trie::get_ancestor_value: the value of the longest
/// stored key whose bytes begin those of `q`. For UTF-8 text a prefix of
/// the bytes is a prefix of the characters, and the other way round.
#[verifier::external_body]
pub(crate) fn trie_ancestor(t: &Trie<String, usize>, q: &str) -> (r: Option<usize>)
    ensures
        match r {
            Some(v) => exists|k: Seq<char>| longest_key(trie_entries(*t), q@, k) && trie_entries(*t)[k] == v,
            None => forall|k: Seq<char>| trie_entries(*t).dom().contains(k) ==> !has_prefix(q@, k),
        },
{
    t.get_ancestor_value(q).copied()
}

/// The result of an ancestor query, stated without the trie.
pub(crate) fn ancestor(t: &Trie<String, usize>, q: &str) -> (r: Option<usize>)
    ensures
        r == ancestor_value(trie_entries(*t), q@),
{
    let r = trie_ancestor(t, q);
    proof {
        let m = trie_entries(*t);
        match r {
            Some(v) => {
                let k = choose|k: Seq<char>| longest_key(m, q@, k) && m[k] == v;
                let c = choose|k: Seq<char>| longest_key(m, q@, k);
                lemma_longest_unique(m, q@, k, c);
            },
            None => {
                if exists|k: Seq<char>| longest_key(m, q@, k) {
                    let c = choose|k: Seq<char>| longest_key(m, q@, k);
                    assert(m.dom().contains(c));
                }
            },
        }
    }
    r
}

} // verus!
