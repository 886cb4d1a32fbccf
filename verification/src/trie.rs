//! The dictionary trie: a prefix tree keyed by syllable.
//!
//! Words are sequences of syllables; a node per syllable, a leaf mark on
//! the last one, and optional dictionary data on the leaf. The model of
//! a trie is the pair of predicates `spec_has` / `spec_data` over whole
//! words; every mutation states exactly how it changes that model.

use vstd::prelude::*;
use crate::strutil::{str_eq, spec_parse_u32};
use crate::syllable::{spec_affix_aa, spec_affix_base, spec_affix_table, spec_is_affixable};
use crate::token::{spec_split_tsek, views_of, Sense};

verus! {

/// Dictionary data attached to a word in the trie.
#[derive(Debug, Clone)]
pub struct WordData {
    /// Part-of-speech tag
    pub pos: Option<String>,
    /// Lemma (base form)
    pub lemma: Option<String>,
    /// Frequency
    pub freq: Option<u32>,
    /// Whether this is a Sanskrit word
    pub skrt: bool,
    /// Affixation information, when the entry is an affixed inflection
    pub affixation: Option<AffixInfo>,
    /// The senses of this word
    pub senses: Vec<Sense>,
}

/// How a word was affixed: particle length in characters, the name of
/// the affix kind, and whether a final a-chung was elided.
#[derive(Debug, Clone)]
pub struct AffixInfo {
    /// Length of the affix in characters
    pub len: usize,
    /// Name of the affix kind
    pub affix_type: String,
    /// Whether a final a-chung was removed before affixation
    pub aa: bool,
}

/// A node of the trie. Children are keyed by syllable; the key of each
/// child is unique within its parent.
#[derive(Debug)]
pub struct TrieNode {
    /// Child nodes, each with its syllable key
    pub children: Vec<(String, TrieNode)>,
    /// Whether a word ends at this node
    pub is_leaf: bool,
    /// Data of the word ending here, if any was supplied
    pub data: Option<WordData>,
}

/// The views of a sequence of string slices.
pub open spec fn key_views(s: Seq<&str>) -> Seq<Seq<char>> {
    Seq::new(s.len(), |i: int| s[i]@)
}

/// The first child with the given key, scanning left to right.
pub open spec fn lookup_children(s: Seq<(String, TrieNode)>, key: Seq<char>) -> Option<TrieNode>
    decreases s.len(),
{
    if s.len() == 0 {
        None
    } else if s[0].0@ == key {
        Some(s[0].1)
    } else {
        lookup_children(s.drop_first(), key)
    }
}

/// The node reached from `n` by walking the given syllables.
pub open spec fn spec_node_at(n: TrieNode, syls: Seq<Seq<char>>) -> Option<TrieNode>
    decreases syls.len(),
{
    if syls.len() == 0 {
        Some(n)
    } else {
        match lookup_children(n.children@, syls[0]) {
            Some(c) => spec_node_at(c, syls.drop_first()),
            None => None,
        }
    }
}

/// Whether the word ending at the given syllables is in the trie.
pub open spec fn spec_has_word_node(n: TrieNode, syls: Seq<Seq<char>>) -> bool {
    match spec_node_at(n, syls) {
        Some(m) => m.is_leaf,
        None => false,
    }
}

/// The data stored at the given syllables, leaf or not.
pub open spec fn spec_data_at_node(n: TrieNode, syls: Seq<Seq<char>>) -> Option<WordData> {
    match spec_node_at(n, syls) {
        Some(m) => m.data,
        None => None,
    }
}

/// Number of words (leaf nodes) in the subtree of `n`.
pub open spec fn spec_count(n: TrieNode) -> nat
    decreases n,
{
    (if n.is_leaf {
        1nat
    } else {
        0nat
    }) + spec_count_children(n.children@)
}

/// Number of words in all subtrees of a child list.
pub open spec fn spec_count_children(s: Seq<(String, TrieNode)>) -> nat
    decreases s,
{
    if s.len() == 0 {
        0nat
    } else {
        spec_count(s[0].1) + spec_count_children(s.drop_first())
    }
}

/// Number of words merging the subtrees of source child list `sc`
/// into a node with child list `tc` adds: a source word over a fresh
/// key counts whole, one over a shared key counts only where the
/// target node was not already a word there.
pub open spec fn added_children(
    tc: Seq<(String, TrieNode)>,
    sc: Seq<(String, TrieNode)>,
) -> nat
    decreases sc,
{
    if sc.len() == 0 {
        0nat
    } else {
        (match lookup_children(tc, sc[0].0@) {
            Some(t_child) => added_node(t_child, sc[0].1),
            None => spec_count(sc[0].1),
        }) + added_children(tc, sc.drop_first())
    }
}

/// Number of words merging source node `s` into target node `t` adds.
pub open spec fn added_node(t: TrieNode, s: TrieNode) -> nat
    decreases s,
{
    (if s.is_leaf && !t.is_leaf {
        1nat
    } else {
        0nat
    }) + added_children(t.children@, s.children@)
}

/// Keys are pairwise distinct within one child list.
pub open spec fn distinct_keys(s: Seq<(String, TrieNode)>) -> bool {
    forall|i: int, j: int|
        0 <= i < j < s.len() ==> (#[trigger] s[i]).0@ != (#[trigger] s[j]).0@
}

/// Every subtree of a child list is well formed.
pub open spec fn wf_children(s: Seq<(String, TrieNode)>) -> bool
    decreases s,
{
    s.len() == 0 || (wf_node(s[0].1) && wf_children(s.drop_first()))
}

/// A node is well formed when its keys are distinct and its subtrees are
/// well formed.
pub open spec fn wf_node(n: TrieNode) -> bool
    decreases n,
{
    distinct_keys(n.children@) && wf_children(n.children@)
}

/// Each element of a well-formed child list is a well-formed node.
pub proof fn lemma_wf_child(s: Seq<(String, TrieNode)>, i: int)
    requires
        wf_children(s),
        0 <= i < s.len(),
    ensures
        wf_node(s[i].1),
    decreases i,
{
    if i > 0 {
        lemma_wf_child(s.drop_first(), i - 1);
        assert(s.drop_first()[i - 1] == s[i]);
    }
}

/// When no key before `j` matches and the key at `j` does, the lookup
/// lands at `j`.
pub proof fn lemma_lookup_at(s: Seq<(String, TrieNode)>, key: Seq<char>, j: int)
    requires
        0 <= j < s.len(),
        s[j].0@ == key,
        forall|i: int| 0 <= i < j ==> (#[trigger] s[i]).0@ != key,
    ensures
        lookup_children(s, key) == Some(s[j].1),
    decreases j,
{
    if j > 0 {
        assert(forall|i: int|
            0 <= i < j - 1 ==> (#[trigger] s.drop_first()[i]).0@ == s[i + 1].0@);
        lemma_lookup_at(s.drop_first(), key, j - 1);
    }
}

/// When no key matches, the lookup fails.
pub proof fn lemma_lookup_none(s: Seq<(String, TrieNode)>, key: Seq<char>)
    requires
        forall|i: int| 0 <= i < s.len() ==> (#[trigger] s[i]).0@ != key,
    ensures
        lookup_children(s, key) is None,
    decreases s.len(),
{
    if s.len() > 0 {
        assert(forall|i: int|
            0 <= i < s.drop_first().len() ==> (#[trigger] s.drop_first()[i]) == s[i + 1]);
        lemma_lookup_none(s.drop_first(), key);
    }
}

/// Replacing the child at `j`, key kept, moves the lookup of that key to
/// the new child and leaves every other lookup alone.
pub proof fn lemma_lookup_update(s: Seq<(String, TrieNode)>, j: int, e: (String, TrieNode))
    requires
        distinct_keys(s),
        0 <= j < s.len(),
        e.0@ == s[j].0@,
    ensures
        lookup_children(s.update(j, e), s[j].0@) == Some(e.1),
        forall|key: Seq<char>|
            key != s[j].0@ ==> #[trigger] lookup_children(s.update(j, e), key)
                == lookup_children(s, key),
        distinct_keys(s.update(j, e)),
    decreases j,
{
    if j == 0 {
        assert(s.update(0, e)[0] == e);
        assert(s.update(0, e).drop_first() =~= s.drop_first());
        assert forall|key: Seq<char>| key != s[0].0@ implies #[trigger] lookup_children(
            s.update(0, e),
            key,
        ) == lookup_children(s, key) by {
            assert(lookup_children(s.update(0, e), key) == lookup_children(
                s.update(0, e).drop_first(),
                key,
            ));
            assert(lookup_children(s, key) == lookup_children(s.drop_first(), key));
        }
        assert(distinct_keys(s.update(0, e))) by {
            assert(forall|a: int|
                0 < a < s.len() ==> (#[trigger] s.update(0, e)[a]) == s[a]);
            assert(s.update(0, e)[0] == e);
        }
    } else {
        assert(s.update(j, e)[0] == s[0]);
        assert(s.update(j, e).drop_first() =~= s.drop_first().update(j - 1, e));
        assert(forall|a: int, b: int|
            0 <= a < b < s.drop_first().len() ==> (#[trigger] s.drop_first()[a]).0@
                != (#[trigger] s.drop_first()[b]).0@) by {
            assert(forall|a: int|
                0 <= a < s.drop_first().len() ==> (#[trigger] s.drop_first()[a]) == s[a + 1]);
        }
        lemma_lookup_update(s.drop_first(), j - 1, e);
        assert(s.drop_first()[j - 1] == s[j]);
        assert(s[0].0@ != s[j].0@);
        assert(lookup_children(s.update(j, e), s[j].0@) == lookup_children(
            s.drop_first().update(j - 1, e),
            s[j].0@,
        ));
        assert forall|key: Seq<char>| key != s[j].0@ implies #[trigger] lookup_children(
            s.update(j, e),
            key,
        ) == lookup_children(s, key) by {
            if key == s[0].0@ {
                assert(lookup_children(s.update(j, e), key) == Some(s[0].1));
                assert(lookup_children(s, key) == Some(s[0].1));
            } else {
                assert(lookup_children(s.update(j, e), key) == lookup_children(
                    s.drop_first().update(j - 1, e),
                    key,
                ));
                assert(lookup_children(s.drop_first().update(j - 1, e), key) == lookup_children(
                    s.drop_first(),
                    key,
                ));
                assert(lookup_children(s, key) == lookup_children(s.drop_first(), key));
            }
        }
        assert(distinct_keys(s.update(j, e))) by {
            assert(forall|a: int|
                0 <= a < s.len() && a != j ==> (#[trigger] s.update(j, e)[a]) == s[a]);
            assert(s.update(j, e)[j] == e);
        }
    }
}

/// Appending a child with a fresh key adds exactly that lookup.
pub proof fn lemma_lookup_push(s: Seq<(String, TrieNode)>, e: (String, TrieNode))
    requires
        forall|i: int| 0 <= i < s.len() ==> (#[trigger] s[i]).0@ != e.0@,
    ensures
        lookup_children(s.push(e), e.0@) == Some(e.1),
        forall|key: Seq<char>|
            key != e.0@ ==> #[trigger] lookup_children(s.push(e), key) == lookup_children(s, key),
    decreases s.len(),
{
    if s.len() == 0 {
        assert(s.push(e)[0] == e);
        assert(s.push(e).drop_first() =~= Seq::<(String, TrieNode)>::empty());
        assert forall|key: Seq<char>| key != e.0@ implies #[trigger] lookup_children(
            s.push(e),
            key,
        ) == lookup_children(s, key) by {
            assert(lookup_children(s.push(e), key) == lookup_children(
                s.push(e).drop_first(),
                key,
            ));
        }
    } else {
        assert(s.push(e)[0] == s[0]);
        assert(s.push(e).drop_first() =~= s.drop_first().push(e));
        assert(forall|i: int|
            0 <= i < s.drop_first().len() ==> (#[trigger] s.drop_first()[i]) == s[i + 1]);
        lemma_lookup_push(s.drop_first(), e);
        assert(s[0].0@ != e.0@);
        assert(lookup_children(s.push(e), e.0@) == lookup_children(
            s.drop_first().push(e),
            e.0@,
        ));
        assert forall|key: Seq<char>| key != e.0@ implies #[trigger] lookup_children(
            s.push(e),
            key,
        ) == lookup_children(s, key) by {
            if key == s[0].0@ {
                assert(lookup_children(s.push(e), key) == Some(s[0].1));
                assert(lookup_children(s, key) == Some(s[0].1));
            } else {
                assert(lookup_children(s.push(e), key) == lookup_children(
                    s.drop_first().push(e),
                    key,
                ));
                assert(lookup_children(s.drop_first().push(e), key) == lookup_children(
                    s.drop_first(),
                    key,
                ));
                assert(lookup_children(s, key) == lookup_children(s.drop_first(), key));
            }
        }
    }
}

/// Replacing the child at `j` changes the word count by the difference
/// of the subtree counts.
pub proof fn lemma_count_children_update(
    s: Seq<(String, TrieNode)>,
    j: int,
    e: (String, TrieNode),
)
    requires
        0 <= j < s.len(),
    ensures
        spec_count_children(s.update(j, e)) == spec_count_children(s) - spec_count(s[j].1)
            + spec_count(e.1),
    decreases j,
{
    if j == 0 {
        assert(s.update(0, e)[0] == e);
        assert(s.update(0, e).drop_first() =~= s.drop_first());
    } else {
        assert(s.update(j, e)[0] == s[0]);
        assert(s.update(j, e).drop_first() =~= s.drop_first().update(j - 1, e));
        lemma_count_children_update(s.drop_first(), j - 1, e);
        assert(s.drop_first()[j - 1] == s[j]);
    }
}

/// Appending a child adds its subtree count.
pub proof fn lemma_count_children_push(s: Seq<(String, TrieNode)>, e: (String, TrieNode))
    ensures
        spec_count_children(s.push(e)) == spec_count_children(s) + spec_count(e.1),
    decreases s.len(),
{
    if s.len() == 0 {
        assert(s.push(e)[0] == e);
        assert(s.push(e).drop_first() =~= Seq::<(String, TrieNode)>::empty());
        assert(spec_count_children(s.push(e)) == spec_count(s.push(e)[0].1)
            + spec_count_children(s.push(e).drop_first()));
    } else {
        assert(s.push(e)[0] == s[0]);
        assert(s.push(e).drop_first() =~= s.drop_first().push(e));
        lemma_count_children_push(s.drop_first(), e);
        assert(spec_count_children(s.push(e)) == spec_count(s.push(e)[0].1)
            + spec_count_children(s.push(e).drop_first()));
    }
}

/// Replacing the child at `j` with a well-formed node keeps the list
/// well formed.
pub proof fn lemma_wf_children_update(s: Seq<(String, TrieNode)>, j: int, e: (String, TrieNode))
    requires
        wf_children(s),
        wf_node(e.1),
        0 <= j < s.len(),
    ensures
        wf_children(s.update(j, e)),
    decreases j,
{
    if j == 0 {
        assert(s.update(0, e)[0] == e);
        assert(s.update(0, e).drop_first() =~= s.drop_first());
    } else {
        assert(s.update(j, e)[0] == s[0]);
        assert(s.update(j, e).drop_first() =~= s.drop_first().update(j - 1, e));
        lemma_wf_children_update(s.drop_first(), j - 1, e);
    }
}

/// Appending a well-formed node keeps the list well formed.
pub proof fn lemma_wf_children_push(s: Seq<(String, TrieNode)>, e: (String, TrieNode))
    requires
        wf_children(s),
        wf_node(e.1),
    ensures
        wf_children(s.push(e)),
    decreases s.len(),
{
    if s.len() == 0 {
        assert(s.push(e)[0] == e);
        assert(s.push(e).drop_first() =~= Seq::<(String, TrieNode)>::empty());
        assert(wf_node(s.push(e)[0].1) && wf_children(s.push(e).drop_first()));
    } else {
        assert(s.push(e)[0] == s[0]);
        assert(s.push(e).drop_first() =~= s.drop_first().push(e));
        lemma_wf_children_push(s.drop_first(), e);
        assert(wf_node(s.push(e)[0].1) && wf_children(s.push(e).drop_first()));
    }
}

/// An empty node holds no word and no data.
pub proof fn lemma_empty_node(n: TrieNode, u: Seq<Seq<char>>)
    requires
        n.children@.len() == 0,
        !n.is_leaf,
        n.data is None,
    ensures
        !spec_has_word_node(n, u),
        spec_data_at_node(n, u) is None,
        spec_count(n) == 0,
{
    if u.len() == 0 {
    } else {
        assert(lookup_children(n.children@, u[0]) is None);
    }
}

impl TrieNode {
    /// A fresh node: no children, not a leaf, no data.
    pub fn new() -> (r: TrieNode)
        ensures
            r.children@.len() == 0,
            !r.is_leaf,
            r.data is None,
            wf_node(r),
            spec_count(r) == 0,
            forall|u: Seq<Seq<char>>| !spec_has_word_node(r, u),
            forall|u: Seq<Seq<char>>| spec_data_at_node(r, u) is None,
    {
        let r = TrieNode { children: Vec::new(), is_leaf: false, data: None };
        proof {
            assert forall|u: Seq<Seq<char>>| !spec_has_word_node(r, u) by {
                lemma_empty_node(r, u);
            }
            assert forall|u: Seq<Seq<char>>| spec_data_at_node(r, u) is None by {
                lemma_empty_node(r, u);
            }
            lemma_empty_node(r, Seq::empty());
        }
        r
    }

    /// Whether this node has any children to walk into.
    pub fn can_walk(&self) -> (r: bool)
        ensures
            r == (self.children@.len() > 0),
    {
        self.children.len() > 0
    }

    /// Whether a word ends at this node.
    pub fn is_match(&self) -> (r: bool)
        ensures
            r == self.is_leaf,
    {
        self.is_leaf
    }
}

/// Two nodes with the same child list reach the same nodes on any
/// non-empty path.
pub proof fn lemma_node_at_same_children(a: TrieNode, b: TrieNode, u: Seq<Seq<char>>)
    requires
        a.children@ == b.children@,
        u.len() > 0,
    ensures
        spec_node_at(a, u) == spec_node_at(b, u),
{
}

/// Two non-empty paths with equal heads and equal tails are equal.
pub proof fn lemma_cons_eq(u: Seq<Seq<char>>, r: Seq<Seq<char>>)
    requires
        u.len() > 0,
        r.len() > 0,
        u[0] == r[0],
        u.drop_first() == r.drop_first(),
    ensures
        u == r,
{
    assert(u.drop_first().len() == r.drop_first().len());
    assert(u =~= seq![u[0]] + u.drop_first());
    assert(r =~= seq![r[0]] + r.drop_first());
}

/// One walking step after a child was replaced: the path through the
/// replaced key goes to the new child, every other path is unchanged.
pub proof fn lemma_step_frame(
    a: TrieNode,
    b: TrieNode,
    key: Seq<char>,
    ca: TrieNode,
    cb: TrieNode,
    u: Seq<Seq<char>>,
)
    requires
        u.len() > 0,
        lookup_children(a.children@, key) == Some(ca),
        lookup_children(b.children@, key) == Some(cb),
        forall|k2: Seq<char>|
            k2 != key ==> #[trigger] lookup_children(b.children@, k2) == lookup_children(
                a.children@,
                k2,
            ),
    ensures
        u[0] == key ==> spec_node_at(a, u) == spec_node_at(ca, u.drop_first())
            && spec_node_at(b, u) == spec_node_at(cb, u.drop_first()),
        u[0] != key ==> spec_node_at(a, u) == spec_node_at(b, u),
{
}

/// One walking step after a child with a fresh key was appended: the
/// path through the new key goes to the new child and found nothing
/// before, every other path is unchanged.
pub proof fn lemma_step_frame_new(
    a: TrieNode,
    b: TrieNode,
    key: Seq<char>,
    cb: TrieNode,
    u: Seq<Seq<char>>,
)
    requires
        u.len() > 0,
        lookup_children(a.children@, key) is None,
        lookup_children(b.children@, key) == Some(cb),
        forall|k2: Seq<char>|
            k2 != key ==> #[trigger] lookup_children(b.children@, k2) == lookup_children(
                a.children@,
                k2,
            ),
    ensures
        u[0] == key ==> spec_node_at(a, u) is None && spec_node_at(b, u) == spec_node_at(
            cb,
            u.drop_first(),
        ),
        u[0] != key ==> spec_node_at(a, u) == spec_node_at(b, u),
{
}

/// Index of the child with the given key, if there is one.
fn find_child(children: &Vec<(String, TrieNode)>, key: &str) -> (r: Option<usize>)
    ensures
        match r {
            Some(j) => j < children@.len() && children@[j as int].0@ == key@ && forall|i: int|
                0 <= i < j ==> (#[trigger] children@[i]).0@ != key@,
            None => forall|i: int|
                0 <= i < children@.len() ==> (#[trigger] children@[i]).0@ != key@,
        },
{
    let mut j: usize = 0;
    while j < children.len()
        invariant
            j <= children@.len(),
            forall|i: int| 0 <= i < j ==> (#[trigger] children@[i]).0@ != key@,
        decreases children@.len() - j,
    {
        if str_eq(children[j].0.as_str(), key) {
            return Some(j);
        }
        j = j + 1;
    }
    None
}

/// Insert the word `syls[i..]` under `node`, mark its end as a leaf, and
/// overwrite the end node's data when `data` is given.
fn add_node(node: &mut TrieNode, syls: &[&str], i: usize, data: Option<WordData>)
    requires
        wf_node(*old(node)),
        i <= syls@.len(),
    ensures
        wf_node(*final(node)),
        forall|u: Seq<Seq<char>>|
            spec_has_word_node(*final(node), u) == (spec_has_word_node(*old(node), u) || u
                == key_views(syls@).skip(i as int)),
        forall|u: Seq<Seq<char>>|
            u != key_views(syls@).skip(i as int) ==> spec_data_at_node(*final(node), u)
                == spec_data_at_node(*old(node), u),
        spec_data_at_node(*final(node), key_views(syls@).skip(i as int)) == (if data is Some {
            data
        } else {
            spec_data_at_node(*old(node), key_views(syls@).skip(i as int))
        }),
        spec_count(*final(node)) as int == spec_count(*old(node)) + (if spec_has_word_node(
            *old(node),
            key_views(syls@).skip(i as int),
        ) {
            0int
        } else {
            1int
        }),
    decreases syls@.len() - i,
{
    let ghost kv = key_views(syls@);
    let ghost rest = kv.skip(i as int);
    if i == syls.len() {
        proof {
            assert(rest.len() == 0);
        }
        node.is_leaf = true;
        match data {
            Some(d) => {
                node.data = Some(d);
            },
            None => {},
        }
        proof {
            let nn = *node;
            let on = *old(node);
            assert forall|u: Seq<Seq<char>>|
                spec_has_word_node(nn, u) == (spec_has_word_node(on, u) || u == rest) by {
                if u.len() == 0 {
                    assert(u =~= rest);
                } else {
                    assert(u != rest);
                    lemma_node_at_same_children(on, nn, u);
                }
            }
            assert forall|u: Seq<Seq<char>>| u != rest implies spec_data_at_node(nn, u)
                == spec_data_at_node(on, u) by {
                if u.len() == 0 {
                    assert(u =~= rest);
                } else {
                    lemma_node_at_same_children(on, nn, u);
                }
            }
        }
    } else {
        proof {
            assert(rest.len() > 0);
            assert(rest[0] == kv[i as int]);
            assert(rest.drop_first() =~= kv.skip(i + 1));
        }
        match find_child(&node.children, syls[i]) {
            Some(j) => {
                let ghost oc = old(node).children@;
                proof {
                    lemma_wf_child(oc, j as int);
                    lemma_lookup_at(oc, rest[0], j as int);
                }
                let (k, mut child) = node.children.remove(j);
                let ghost child_old = child;
                add_node(&mut child, syls, i + 1, data);
                let ghost child_new = child;
                node.children.insert(j, (k, child));
                proof {
                    let nn = *node;
                    let on = *old(node);
                    assert(nn.children@ =~= oc.update(j as int, (k, child_new)));
                    lemma_lookup_update(oc, j as int, (k, child_new));
                    lemma_count_children_update(oc, j as int, (k, child_new));
                    lemma_wf_children_update(oc, j as int, (k, child_new));
                    assert(wf_node(nn));
                    assert forall|u: Seq<Seq<char>>|
                        spec_has_word_node(nn, u) == (spec_has_word_node(on, u) || u == rest) by {
                        if u.len() == 0 {
                            assert(u != rest);
                            assert(spec_node_at(nn, u) == Some(nn));
                            assert(spec_node_at(on, u) == Some(on));
                        } else {
                            lemma_step_frame(on, nn, rest[0], child_old, child_new, u);
                            if u[0] == rest[0] {
                                assert(spec_node_at(nn, u) == spec_node_at(
                                    child_new,
                                    u.drop_first(),
                                ));
                                assert(spec_node_at(on, u) == spec_node_at(
                                    child_old,
                                    u.drop_first(),
                                ));
                                assert(spec_has_word_node(nn, u) == spec_has_word_node(
                                    child_new,
                                    u.drop_first(),
                                ));
                                assert(spec_has_word_node(on, u) == spec_has_word_node(
                                    child_old,
                                    u.drop_first(),
                                ));
                                assert(spec_data_at_node(nn, u) == spec_data_at_node(
                                    child_new,
                                    u.drop_first(),
                                ));
                                assert(spec_data_at_node(on, u) == spec_data_at_node(
                                    child_old,
                                    u.drop_first(),
                                ));
                                if u == rest {
                                    assert(u.drop_first() == rest.drop_first());
                                } else {
                                    assert(u.drop_first() != kv.skip(i + 1)) by {
                                        if u.drop_first() == rest.drop_first() {
                                            lemma_cons_eq(u, rest);
                                        }
                                    }
                                }
                            } else {
                                assert(u != rest);
                            }
                        }
                    }
                    assert forall|u: Seq<Seq<char>>| u != rest implies spec_data_at_node(nn, u)
                        == spec_data_at_node(on, u) by {
                        if u.len() == 0 {
                            assert(spec_node_at(nn, u) == Some(nn));
                            assert(spec_node_at(on, u) == Some(on));
                        } else {
                            lemma_step_frame(on, nn, rest[0], child_old, child_new, u);
                            if u[0] == rest[0] {
                                assert(spec_node_at(nn, u) == spec_node_at(
                                    child_new,
                                    u.drop_first(),
                                ));
                                assert(spec_node_at(on, u) == spec_node_at(
                                    child_old,
                                    u.drop_first(),
                                ));
                                assert(spec_has_word_node(nn, u) == spec_has_word_node(
                                    child_new,
                                    u.drop_first(),
                                ));
                                assert(spec_has_word_node(on, u) == spec_has_word_node(
                                    child_old,
                                    u.drop_first(),
                                ));
                                assert(spec_data_at_node(nn, u) == spec_data_at_node(
                                    child_new,
                                    u.drop_first(),
                                ));
                                assert(spec_data_at_node(on, u) == spec_data_at_node(
                                    child_old,
                                    u.drop_first(),
                                ));
                                assert(u.drop_first() != kv.skip(i + 1)) by {
                                    if u.drop_first() == rest.drop_first() {
                                        lemma_cons_eq(u, rest);
                                    }
                                }
                            }
                        }
                    }
                    lemma_step_frame(on, nn, rest[0], child_old, child_new, rest);
                }
            },
            None => {
                let ghost oc = old(node).children@;
                proof {
                    lemma_lookup_none(oc, rest[0]);
                }
                let mut child = TrieNode::new();
                let ghost child_empty = child;
                add_node(&mut child, syls, i + 1, data);
                let ghost child_new = child;
                let key_string = slice_str_at(syls, i).to_owned();
                node.children.push((key_string, child));
                proof {
                    let nn = *node;
                    let on = *old(node);
                    let e = nn.children@.last();
                    assert(nn.children@ =~= oc.push(e));
                    assert(e.0@ == rest[0]);
                    assert(e.1 == child_new);
                    lemma_lookup_push(oc, e);
                    lemma_count_children_push(oc, e);
                    lemma_wf_children_push(oc, e);
                    assert(distinct_keys(nn.children@)) by {
                        assert(forall|a: int|
                            0 <= a < oc.len() ==> (#[trigger] nn.children@[a]) == oc[a]);
                    }
                    assert(wf_node(nn));
                    assert forall|u: Seq<Seq<char>>|
                        spec_has_word_node(nn, u) == (spec_has_word_node(on, u) || u == rest) by {
                        if u.len() == 0 {
                            assert(u != rest);
                            assert(spec_node_at(nn, u) == Some(nn));
                            assert(spec_node_at(on, u) == Some(on));
                        } else {
                            lemma_step_frame_new(on, nn, rest[0], child_new, u);
                            if u[0] == rest[0] {
                                assert(!spec_has_word_node(child_empty, u.drop_first()));
                                if u == rest {
                                    assert(u.drop_first() == rest.drop_first());
                                } else {
                                    assert(u.drop_first() != kv.skip(i + 1)) by {
                                        if u.drop_first() == rest.drop_first() {
                                            lemma_cons_eq(u, rest);
                                        }
                                    }
                                }
                            } else {
                                assert(u != rest);
                            }
                        }
                    }
                    assert forall|u: Seq<Seq<char>>| u != rest implies spec_data_at_node(nn, u)
                        == spec_data_at_node(on, u) by {
                        if u.len() == 0 {
                            assert(spec_node_at(nn, u) == Some(nn));
                            assert(spec_node_at(on, u) == Some(on));
                        } else {
                            lemma_step_frame_new(on, nn, rest[0], child_new, u);
                            if u[0] == rest[0] {
                                assert(spec_data_at_node(child_empty, u.drop_first()) is None);
                                assert(u.drop_first() != kv.skip(i + 1)) by {
                                    if u.drop_first() == rest.drop_first() {
                                        lemma_cons_eq(u, rest);
                                    }
                                }
                            }
                        }
                    }
                    lemma_step_frame_new(on, nn, rest[0], child_new, rest);
                    assert(spec_data_at_node(child_empty, kv.skip(i + 1)) is None);
                    assert(!spec_has_word_node(on, rest));
                }
            },
        }
    }
}

/// Whether the word `syls[i..]` ends at a leaf under `node`.
fn has_node(node: &TrieNode, syls: &[&str], i: usize) -> (r: bool)
    requires
        i <= syls@.len(),
    ensures
        r == spec_has_word_node(*node, key_views(syls@).skip(i as int)),
    decreases syls@.len() - i,
{
    let ghost kv = key_views(syls@);
    let ghost rest = kv.skip(i as int);
    if i == syls.len() {
        proof {
            assert(rest.len() == 0);
        }
        node.is_leaf
    } else {
        proof {
            assert(rest[0] == kv[i as int]);
            assert(rest.drop_first() =~= kv.skip(i + 1));
        }
        match find_child(&node.children, slice_str_at(syls, i)) {
            Some(j) => {
                proof {
                    lemma_lookup_at(node.children@, rest[0], j as int);
                }
                has_node(&node.children[j].1, syls, i + 1)
            },
            None => {
                proof {
                    lemma_lookup_none(node.children@, rest[0]);
                }
                false
            },
        }
    }
}

/// The data of the word `syls[i..]` under `node`, when the word is there
/// and carries data.
fn get_data_node<'a>(node: &'a TrieNode, syls: &[&str], i: usize) -> (r: Option<&'a WordData>)
    requires
        i <= syls@.len(),
    ensures
        r is Some <==> (spec_has_word_node(*node, key_views(syls@).skip(i as int))
            && spec_data_at_node(*node, key_views(syls@).skip(i as int)) is Some),
        match r {
            Some(d) => spec_data_at_node(*node, key_views(syls@).skip(i as int)) == Some(*d),
            None => true,
        },
    decreases syls@.len() - i,
{
    let ghost kv = key_views(syls@);
    let ghost rest = kv.skip(i as int);
    if i == syls.len() {
        proof {
            assert(rest.len() == 0);
        }
        if node.is_leaf {
            node.data.as_ref()
        } else {
            None
        }
    } else {
        proof {
            assert(rest[0] == kv[i as int]);
            assert(rest.drop_first() =~= kv.skip(i + 1));
        }
        match find_child(&node.children, slice_str_at(syls, i)) {
            Some(j) => {
                proof {
                    lemma_lookup_at(node.children@, rest[0], j as int);
                }
                get_data_node(&node.children[j].1, syls, i + 1)
            },
            None => {
                proof {
                    lemma_lookup_none(node.children@, rest[0]);
                }
                None
            },
        }
    }
}

/// Clear the leaf mark of the word `syls[i..]` under `node`; true when
/// the word was there.
fn deactivate_node(node: &mut TrieNode, syls: &[&str], i: usize) -> (r: bool)
    requires
        wf_node(*old(node)),
        i <= syls@.len(),
    ensures
        wf_node(*final(node)),
        r == spec_has_word_node(*old(node), key_views(syls@).skip(i as int)),
        forall|u: Seq<Seq<char>>|
            spec_has_word_node(*final(node), u) == (spec_has_word_node(*old(node), u) && u
                != key_views(syls@).skip(i as int)),
        forall|u: Seq<Seq<char>>|
            spec_data_at_node(*final(node), u) == spec_data_at_node(*old(node), u),
        spec_count(*final(node)) as int == spec_count(*old(node)) - (if spec_has_word_node(
            *old(node),
            key_views(syls@).skip(i as int),
        ) {
            1int
        } else {
            0int
        }),
    decreases syls@.len() - i,
{
    let ghost kv = key_views(syls@);
    let ghost rest = kv.skip(i as int);
    if i == syls.len() {
        proof {
            assert(rest.len() == 0);
        }
        let was = node.is_leaf;
        node.is_leaf = false;
        proof {
            let nn = *node;
            let on = *old(node);
            assert forall|u: Seq<Seq<char>>|
                spec_has_word_node(nn, u) == (spec_has_word_node(on, u) && u != rest) by {
                if u.len() == 0 {
                    assert(u =~= rest);
                } else {
                    assert(u != rest);
                    lemma_node_at_same_children(on, nn, u);
                }
            }
            assert forall|u: Seq<Seq<char>>| spec_data_at_node(nn, u) == spec_data_at_node(
                on,
                u,
            ) by {
                if u.len() > 0 {
                    lemma_node_at_same_children(on, nn, u);
                }
            }
        }
        was
    } else {
        proof {
            assert(rest.len() > 0);
            assert(rest[0] == kv[i as int]);
            assert(rest.drop_first() =~= kv.skip(i + 1));
        }
        match find_child(&node.children, slice_str_at(syls, i)) {
            Some(j) => {
                let ghost oc = old(node).children@;
                proof {
                    lemma_wf_child(oc, j as int);
                    lemma_lookup_at(oc, rest[0], j as int);
                }
                let (k, mut child) = node.children.remove(j);
                let ghost child_old = child;
                let r = deactivate_node(&mut child, syls, i + 1);
                let ghost child_new = child;
                node.children.insert(j, (k, child));
                proof {
                    let nn = *node;
                    let on = *old(node);
                    assert(nn.children@ =~= oc.update(j as int, (k, child_new)));
                    lemma_lookup_update(oc, j as int, (k, child_new));
                    lemma_count_children_update(oc, j as int, (k, child_new));
                    lemma_wf_children_update(oc, j as int, (k, child_new));
                    assert(wf_node(nn));
                    lemma_step_frame(on, nn, rest[0], child_old, child_new, rest);
                    assert forall|u: Seq<Seq<char>>|
                        spec_has_word_node(nn, u) == (spec_has_word_node(on, u) && u != rest) by {
                        if u.len() == 0 {
                            assert(u != rest);
                            assert(spec_node_at(nn, u) == Some(nn));
                            assert(spec_node_at(on, u) == Some(on));
                        } else {
                            lemma_step_frame(on, nn, rest[0], child_old, child_new, u);
                            if u[0] == rest[0] {
                                assert(spec_node_at(nn, u) == spec_node_at(
                                    child_new,
                                    u.drop_first(),
                                ));
                                assert(spec_node_at(on, u) == spec_node_at(
                                    child_old,
                                    u.drop_first(),
                                ));
                                assert(spec_has_word_node(nn, u) == spec_has_word_node(
                                    child_new,
                                    u.drop_first(),
                                ));
                                assert(spec_has_word_node(on, u) == spec_has_word_node(
                                    child_old,
                                    u.drop_first(),
                                ));
                                assert(spec_data_at_node(nn, u) == spec_data_at_node(
                                    child_new,
                                    u.drop_first(),
                                ));
                                assert(spec_data_at_node(on, u) == spec_data_at_node(
                                    child_old,
                                    u.drop_first(),
                                ));
                                if u == rest {
                                    assert(u.drop_first() == rest.drop_first());
                                } else {
                                    assert(u.drop_first() != kv.skip(i + 1)) by {
                                        if u.drop_first() == rest.drop_first() {
                                            lemma_cons_eq(u, rest);
                                        }
                                    }
                                }
                            } else {
                                assert(u != rest);
                            }
                        }
                    }
                    assert forall|u: Seq<Seq<char>>| spec_data_at_node(nn, u)
                        == spec_data_at_node(on, u) by {
                        if u.len() == 0 {
                            assert(spec_node_at(nn, u) == Some(nn));
                            assert(spec_node_at(on, u) == Some(on));
                        } else {
                            lemma_step_frame(on, nn, rest[0], child_old, child_new, u);
                            if u[0] == rest[0] {
                                assert(spec_data_at_node(nn, u) == spec_data_at_node(
                                    child_new,
                                    u.drop_first(),
                                ));
                                assert(spec_data_at_node(on, u) == spec_data_at_node(
                                    child_old,
                                    u.drop_first(),
                                ));
                            }
                        }
                    }
                }
                r
            },
            None => {
                proof {
                    lemma_lookup_none(old(node).children@, rest[0]);
                }
                false
            },
        }
    }
}

/// Saturating addition on `usize`.
fn sat_add(a: usize, b: usize) -> (r: usize)
    ensures
        r as int == if a + b <= usize::MAX {
            a + b
        } else {
            usize::MAX as int
        },
{
    if a > usize::MAX - b {
        usize::MAX
    } else {
        a + b
    }
}

/// Count the words in a subtree, saturating at `usize::MAX`.
fn count_node(node: &TrieNode) -> (r: usize)
    ensures
        r as int == if spec_count(*node) <= usize::MAX {
            spec_count(*node) as int
        } else {
            usize::MAX as int
        },
    decreases *node,
{
    let mut acc: usize = if node.is_leaf {
        1
    } else {
        0
    };
    let ghost s = node.children@;
    let mut j: usize = 0;
    while j < node.children.len()
        invariant
            j <= s.len(),
            s == node.children@,
            acc as int == if (if node.is_leaf {
                1int
            } else {
                0int
            }) + spec_count_children(s.take(j as int)) <= usize::MAX {
                (if node.is_leaf {
                    1int
                } else {
                    0int
                }) + spec_count_children(s.take(j as int)) as int
            } else {
                usize::MAX as int
            },
        decreases s.len() - j,
    {
        let c = count_node(&node.children[j].1);
        acc = sat_add(acc, c);
        proof {
            lemma_count_children_take_succ(s, j as int);
        }
        j = j + 1;
    }
    proof {
        assert(s.take(s.len() as int) =~= s);
    }
    acc
}

/// Extending a prefix of a child list by one adds that child's count.
/// Merging into an empty child list adds every source word.
proof fn lemma_added_children_empty(tc: Seq<(String, TrieNode)>, sc: Seq<(String, TrieNode)>)
    requires
        tc.len() == 0,
    ensures
        added_children(tc, sc) == spec_count_children(sc),
    decreases sc.len(),
{
    if sc.len() > 0 {
        lemma_added_children_empty(tc, sc.drop_first());
    }
}

/// Extending the merged prefix of a source child list by one child
/// adds that child's own contribution.
proof fn lemma_added_children_take_succ(
    tc: Seq<(String, TrieNode)>,
    sc: Seq<(String, TrieNode)>,
    j: int,
)
    requires
        0 <= j < sc.len(),
    ensures
        added_children(tc, sc.take(j + 1)) == added_children(tc, sc.take(j)) + (
        match lookup_children(tc, sc[j].0@) {
            Some(t_child) => added_node(t_child, sc[j].1),
            None => spec_count(sc[j].1),
        }),
    decreases j,
{
    if j == 0 {
        assert(sc.take(1)[0] == sc[0]);
        assert(sc.take(1).drop_first() =~= Seq::<(String, TrieNode)>::empty());
        assert(sc.take(0) =~= Seq::<(String, TrieNode)>::empty());
    } else {
        assert(sc.take(j + 1)[0] == sc[0]);
        assert(sc.take(j as int)[0] == sc[0]);
        assert(sc.take(j + 1).drop_first() =~= sc.drop_first().take(j as int));
        assert(sc.take(j as int).drop_first() =~= sc.drop_first().take(j - 1));
        assert(sc.drop_first()[j - 1] == sc[j as int]);
        lemma_added_children_take_succ(tc, sc.drop_first(), j - 1);
    }
}

proof fn lemma_count_children_take_succ(s: Seq<(String, TrieNode)>, j: int)
    requires
        0 <= j < s.len(),
    ensures
        spec_count_children(s.take(j + 1)) == spec_count_children(s.take(j)) + spec_count(
            s[j].1,
        ),
    decreases j,
{
    if j == 0 {
        assert(s.take(1)[0] == s[0]);
        assert(s.take(1).drop_first() =~= Seq::<(String, TrieNode)>::empty());
        assert(s.take(0) =~= Seq::<(String, TrieNode)>::empty());
    } else {
        assert(s.take(j + 1)[0] == s[0]);
        assert(s.take(j)[0] == s[0]);
        assert(s.take(j + 1).drop_first() =~= s.drop_first().take(j));
        assert(s.take(j).drop_first() =~= s.drop_first().take(j - 1));
        lemma_count_children_take_succ(s.drop_first(), j - 1);
        assert(s.drop_first()[j - 1] == s[j]);
    }
}

/// Element of a string slice.
fn slice_str_at<'a>(syls: &[&'a str], i: usize) -> (r: &'a str)
    requires
        i < syls@.len(),
    ensures
        r == syls@[i as int],
{
    syls[i]
}

/// The dictionary trie. Built once, then read by any number of
/// tokenizers.
#[derive(Debug)]
pub struct Trie {
    root: TrieNode,
}

impl Trie {
    /// The root node, as a value.
    pub closed spec fn spec_root(&self) -> TrieNode {
        self.root
    }

    /// Structural invariant: child keys are distinct everywhere.
    pub open spec fn wf(&self) -> bool {
        wf_node(self.spec_root())
    }

    /// Whether the trie holds the given word.
    pub open spec fn spec_has(&self, w: Seq<Seq<char>>) -> bool {
        spec_has_word_node(self.spec_root(), w)
    }

    /// The data stored at the given word's end node.
    pub open spec fn spec_data(&self, w: Seq<Seq<char>>) -> Option<WordData> {
        spec_data_at_node(self.spec_root(), w)
    }

    /// Number of words in the trie.
    pub open spec fn spec_len(&self) -> nat {
        spec_count(self.spec_root())
    }

    /// An empty trie.
    pub fn new() -> (r: Trie)
        ensures
            r.wf(),
            r.spec_len() == 0,
            forall|u: Seq<Seq<char>>| !r.spec_has(u),
            forall|u: Seq<Seq<char>>| r.spec_data(u) is None,
    {
        Trie { root: TrieNode::new() }
    }

    /// Number of words in the trie; exact as long as it fits in `usize`.
    pub fn len(&self) -> (r: usize)
        ensures
            r as int == if self.spec_len() <= usize::MAX {
                self.spec_len() as int
            } else {
                usize::MAX as int
            },
    {
        count_node(&self.root)
    }

    /// Whether the trie holds no word.
    pub fn is_empty(&self) -> (r: bool)
        ensures
            r == (self.spec_len() == 0),
    {
        self.len() == 0
    }

    /// Insert a word given as syllables; mark its end as a leaf and
    /// overwrite the end node's data when `data` is given.
    pub fn add(&mut self, syls: &[&str], data: Option<WordData>)
        requires
            old(self).wf(),
        ensures
            final(self).wf(),
            forall|u: Seq<Seq<char>>|
                final(self).spec_has(u) == (old(self).spec_has(u) || u == key_views(syls@)),
            forall|u: Seq<Seq<char>>|
                u != key_views(syls@) ==> final(self).spec_data(u) == old(self).spec_data(u),
            final(self).spec_data(key_views(syls@)) == (if data is Some {
                data
            } else {
                old(self).spec_data(key_views(syls@))
            }),
            final(self).spec_len() as int == old(self).spec_len() + (if old(self).spec_has(
                key_views(syls@),
            ) {
                0int
            } else {
                1int
            }),
    {
        proof {
            assert(key_views(syls@).skip(0) =~= key_views(syls@));
        }
        add_node(&mut self.root, syls, 0, data);
    }

    /// Whether the trie holds the given word.
    pub fn has_word(&self, syls: &[&str]) -> (r: bool)
        ensures
            r == self.spec_has(key_views(syls@)),
    {
        proof {
            assert(key_views(syls@).skip(0) =~= key_views(syls@));
        }
        has_node(&self.root, syls, 0)
    }

    /// The data of the given word, when the word is in the trie and
    /// carries data.
    pub fn get_word_data(&self, syls: &[&str]) -> (r: Option<&WordData>)
        ensures
            r is Some <==> (self.spec_has(key_views(syls@)) && self.spec_data(
                key_views(syls@),
            ) is Some),
            match r {
                Some(d) => self.spec_data(key_views(syls@)) == Some(*d),
                None => true,
            },
    {
        proof {
            assert(key_views(syls@).skip(0) =~= key_views(syls@));
        }
        get_data_node(&self.root, syls, 0)
    }

    /// One walking step: the child of `current` (or of the root) under
    /// the given syllable.
    pub fn walk<'a>(&'a self, syl: &str, current: Option<&'a TrieNode>) -> (r: Option<
        &'a TrieNode,
    >)
        ensures
            ({
                let base = match current {
                    Some(n) => *n,
                    None => self.spec_root(),
                };
                match r {
                    Some(c) => lookup_children(base.children@, syl@) == Some(*c),
                    None => lookup_children(base.children@, syl@) is None,
                }
            }),
    {
        let node = match current {
            Some(n) => n,
            None => &self.root,
        };
        match find_child(&node.children, syl) {
            Some(j) => {
                proof {
                    lemma_lookup_at(node.children@, syl@, j as int);
                }
                Some(&node.children[j].1)
            },
            None => {
                proof {
                    lemma_lookup_none(node.children@, syl@);
                }
                None
            },
        }
    }

    /// Clear the leaf mark of the given word, keeping its subtree; true
    /// when the word was there.
    pub fn deactivate(&mut self, syls: &[&str]) -> (r: bool)
        requires
            old(self).wf(),
        ensures
            final(self).wf(),
            r == old(self).spec_has(key_views(syls@)),
            forall|u: Seq<Seq<char>>|
                final(self).spec_has(u) == (old(self).spec_has(u) && u != key_views(syls@)),
            forall|u: Seq<Seq<char>>| final(self).spec_data(u) == old(self).spec_data(u),
            final(self).spec_len() as int == old(self).spec_len() - (if old(self).spec_has(
                key_views(syls@),
            ) {
                1int
            } else {
                0int
            }),
    {
        proof {
            assert(key_views(syls@).skip(0) =~= key_views(syls@));
        }
        deactivate_node(&mut self.root, syls, 0)
    }

    /// A reference to the root node, for external traversal.
    pub fn root(&self) -> (r: &TrieNode)
        ensures
            *r == self.spec_root(),
    {
        &self.root
    }
}


/// Copies of all senses in a vector, preserving the values.
pub(crate) fn copy_senses(v: &Vec<Sense>) -> (r: Vec<Sense>)
    ensures
        r@ == v@,
{
    let mut r: Vec<Sense> = Vec::new();
    let mut i: usize = 0;
    while i < v.len()
        invariant
            i <= v@.len(),
            r@ == v@.take(i as int),
        decreases v@.len() - i,
    {
        r.push(duplicate_sense(&v[i]));
        proof {
            assert(r@ =~= v@.take(i + 1 as int));
        }
        i = i + 1;
    }
    proof {
        assert(v@.take(v@.len() as int) =~= v@);
    }
    r
}

/// Field-by-field copy of one sense, preserving the value.
fn duplicate_sense(x: &Sense) -> (r: Sense)
    ensures
        r == *x,
{
    Sense {
        pos: crate::strutil::clone_opt_string(&x.pos),
        lemma: crate::strutil::clone_opt_string(&x.lemma),
        freq: x.freq,
        sense: crate::strutil::clone_opt_string(&x.sense),
        meaning: crate::strutil::clone_opt_string(&x.meaning),
        affixed: x.affixed,
    }
}

/// Field-by-field copy of affix information, preserving the value.
fn duplicate_affix_info(x: &AffixInfo) -> (r: AffixInfo)
    ensures
        r == *x,
{
    AffixInfo { len: x.len, affix_type: x.affix_type.clone(), aa: x.aa }
}

/// Two word data values that agree on everything observable.
pub open spec fn wd_like(a: WordData, b: WordData) -> bool {
    a.pos == b.pos && a.lemma == b.lemma && a.freq == b.freq && a.skrt == b.skrt && a.affixation
        == b.affixation && a.senses@ == b.senses@
}

/// Copy of word data, preserving every field; the sense vector is a
/// fresh vector with the same senses.
fn duplicate_word_data(d: &WordData) -> (r: WordData)
    ensures
        wd_like(r, *d),
{
    let mut senses: Vec<Sense> = Vec::new();
    let mut i: usize = 0;
    while i < d.senses.len()
        invariant
            i <= d.senses@.len(),
            senses@ == d.senses@.take(i as int),
        decreases d.senses@.len() - i,
    {
        senses.push(duplicate_sense(&d.senses[i]));
        proof {
            assert(senses@ =~= d.senses@.take(i + 1 as int));
        }
        i = i + 1;
    }
    proof {
        assert(d.senses@.take(d.senses@.len() as int) =~= d.senses@);
    }
    WordData {
        pos: crate::strutil::clone_opt_string(&d.pos),
        lemma: crate::strutil::clone_opt_string(&d.lemma),
        freq: d.freq,
        skrt: d.skrt,
        affixation: match &d.affixation {
            Some(a) => Some(duplicate_affix_info(a)),
            None => None,
        },
        senses,
    }
}

/// How one dictionary line lands on a word's data: a fresh entry takes
/// the line's fields, an existing entry keeps its own fields and only
/// fills the missing ones; the sense is appended either way.
pub open spec fn spec_merged_entry(
    nd: WordData,
    old_d: Option<WordData>,
    d: WordData,
    s: Sense,
) -> bool {
    match old_d {
        None => nd.pos == d.pos && nd.lemma == d.lemma && nd.freq == d.freq && nd.skrt == d.skrt
            && nd.affixation == d.affixation && nd.senses@ == d.senses@.push(s),
        Some(ed) => {
            &&& nd.pos == (if ed.pos is Some {
                ed.pos
            } else {
                d.pos
            })
            &&& nd.lemma == (if ed.lemma is Some {
                ed.lemma
            } else {
                d.lemma
            })
            &&& nd.freq == (if ed.freq is Some {
                ed.freq
            } else {
                d.freq
            })
            &&& nd.skrt == ed.skrt
            &&& nd.affixation == ed.affixation
            &&& nd.senses@ == ed.senses@.push(s)
        },
    }
}

/// How an appended sense lands on a word's data: existing data keeps its
/// fields, absent data becomes an empty entry; the sense is appended.
pub open spec fn spec_data_added(nd: WordData, old_d: Option<WordData>, s: Sense) -> bool {
    match old_d {
        Some(ed) => nd.pos == ed.pos && nd.lemma == ed.lemma && nd.freq == ed.freq && nd.skrt
            == ed.skrt && nd.affixation == ed.affixation && nd.senses@ == ed.senses@.push(s),
        None => nd.pos is None && nd.lemma is None && nd.freq is None && !nd.skrt
            && nd.affixation is None && nd.senses@ == seq![s],
    }
}

/// Borrow the strings of a vector as string slices.
fn strs_of<'a>(v: &'a Vec<String>) -> (r: Vec<&'a str>)
    ensures
        key_views(r@) == crate::token::views_of(v@),
{
    let mut r: Vec<&str> = Vec::new();
    let mut i: usize = 0;
    while i < v.len()
        invariant
            i <= v@.len(),
            r@.len() == i,
            forall|j: int| 0 <= j < i ==> (#[trigger] r@[j])@ == v@[j]@,
        decreases v@.len() - i,
    {
        r.push(v[i].as_str());
        i = i + 1;
    }
    proof {
        assert(key_views(r@) =~= crate::token::views_of(v@));
    }
    r
}

/// Insert the word `syls[i..]` under `node` and merge one dictionary
/// line into the end node's data, appending the sense.
fn add_sense_node(node: &mut TrieNode, syls: &Vec<String>, i: usize, data: WordData, sense: Sense)
    requires
        wf_node(*old(node)),
        i <= syls@.len(),
    ensures
        wf_node(*final(node)),
        forall|u: Seq<Seq<char>>|
            spec_has_word_node(*final(node), u) == (spec_has_word_node(*old(node), u) || u
                == crate::token::views_of(syls@).skip(i as int)),
        forall|u: Seq<Seq<char>>|
            u != crate::token::views_of(syls@).skip(i as int) ==> spec_data_at_node(
                *final(node),
                u,
            ) == spec_data_at_node(*old(node), u),
        ({
            let rest = crate::token::views_of(syls@).skip(i as int);
            &&& spec_data_at_node(*final(node), rest) is Some
            &&& spec_merged_entry(
                spec_data_at_node(*final(node), rest)->0,
                spec_data_at_node(*old(node), rest),
                data,
                sense,
            )
        }),
        spec_count(*final(node)) as int == spec_count(*old(node)) + (if spec_has_word_node(
            *old(node),
            crate::token::views_of(syls@).skip(i as int),
        ) {
            0int
        } else {
            1int
        }),
    decreases syls@.len() - i,
{
    let ghost kv = crate::token::views_of(syls@);
    let ghost rest = kv.skip(i as int);
    if i == syls.len() {
        proof {
            assert(rest.len() == 0);
        }
        node.is_leaf = true;
        let old_data = node.data.take();
        match old_data {
            Some(ed) => {
                let mut ed = ed;
                if ed.pos.is_none() {
                    ed.pos = data.pos;
                } else {
                    // keep the existing tag
                }
                if ed.lemma.is_none() {
                    ed.lemma = data.lemma;
                }
                if ed.freq.is_none() {
                    ed.freq = data.freq;
                }
                ed.senses.push(sense);
                node.data = Some(ed);
            },
            None => {
                let mut nd = data;
                nd.senses.push(sense);
                node.data = Some(nd);
            },
        }
        proof {
            let nn = *node;
            let on = *old(node);
            assert forall|u: Seq<Seq<char>>|
                spec_has_word_node(nn, u) == (spec_has_word_node(on, u) || u == rest) by {
                if u.len() == 0 {
                    assert(u =~= rest);
                } else {
                    assert(u != rest);
                    lemma_node_at_same_children(on, nn, u);
                }
            }
            assert forall|u: Seq<Seq<char>>| u != rest implies spec_data_at_node(nn, u)
                == spec_data_at_node(on, u) by {
                if u.len() == 0 {
                    assert(u =~= rest);
                } else {
                    lemma_node_at_same_children(on, nn, u);
                }
            }
        }
    } else {
        proof {
            assert(rest.len() > 0);
            assert(rest[0] == kv[i as int]);
            assert(rest.drop_first() =~= kv.skip(i + 1));
        }
        match find_child(&node.children, vec_str_at(syls, i)) {
            Some(j) => {
                let ghost oc = old(node).children@;
                proof {
                    lemma_wf_child(oc, j as int);
                    lemma_lookup_at(oc, rest[0], j as int);
                }
                let (k, mut child) = node.children.remove(j);
                let ghost child_old = child;
                add_sense_node(&mut child, syls, i + 1, data, sense);
                let ghost child_new = child;
                node.children.insert(j, (k, child));
                proof {
                    let nn = *node;
                    let on = *old(node);
                    assert(nn.children@ =~= oc.update(j as int, (k, child_new)));
                    lemma_lookup_update(oc, j as int, (k, child_new));
                    lemma_count_children_update(oc, j as int, (k, child_new));
                    lemma_wf_children_update(oc, j as int, (k, child_new));
                    assert(wf_node(nn));
                    assert forall|u: Seq<Seq<char>>|
                        spec_has_word_node(nn, u) == (spec_has_word_node(on, u) || u == rest) by {
                        if u.len() == 0 {
                            assert(u != rest);
                            assert(spec_node_at(nn, u) == Some(nn));
                            assert(spec_node_at(on, u) == Some(on));
                        } else {
                            lemma_step_frame(on, nn, rest[0], child_old, child_new, u);
                            if u[0] == rest[0] {
                                assert(spec_has_word_node(nn, u) == spec_has_word_node(
                                    child_new,
                                    u.drop_first(),
                                ));
                                assert(spec_has_word_node(on, u) == spec_has_word_node(
                                    child_old,
                                    u.drop_first(),
                                ));
                                if u == rest {
                                    assert(u.drop_first() == rest.drop_first());
                                } else {
                                    assert(u.drop_first() != kv.skip(i + 1)) by {
                                        if u.drop_first() == rest.drop_first() {
                                            lemma_cons_eq(u, rest);
                                        }
                                    }
                                }
                            } else {
                                assert(u != rest);
                            }
                        }
                    }
                    assert forall|u: Seq<Seq<char>>| u != rest implies spec_data_at_node(nn, u)
                        == spec_data_at_node(on, u) by {
                        if u.len() == 0 {
                            assert(spec_node_at(nn, u) == Some(nn));
                            assert(spec_node_at(on, u) == Some(on));
                        } else {
                            lemma_step_frame(on, nn, rest[0], child_old, child_new, u);
                            if u[0] == rest[0] {
                                assert(spec_data_at_node(nn, u) == spec_data_at_node(
                                    child_new,
                                    u.drop_first(),
                                ));
                                assert(spec_data_at_node(on, u) == spec_data_at_node(
                                    child_old,
                                    u.drop_first(),
                                ));
                                assert(u.drop_first() != kv.skip(i + 1)) by {
                                    if u.drop_first() == rest.drop_first() {
                                        lemma_cons_eq(u, rest);
                                    }
                                }
                            }
                        }
                    }
                    lemma_step_frame(on, nn, rest[0], child_old, child_new, rest);
                }
            },
            None => {
                let ghost oc = old(node).children@;
                proof {
                    lemma_lookup_none(oc, rest[0]);
                }
                let mut child = TrieNode::new();
                let ghost child_empty = child;
                add_sense_node(&mut child, syls, i + 1, data, sense);
                let ghost child_new = child;
                let key_string = vec_str_at(syls, i).to_owned();
                node.children.push((key_string, child));
                proof {
                    let nn = *node;
                    let on = *old(node);
                    let e = nn.children@.last();
                    assert(nn.children@ =~= oc.push(e));
                    assert(e.0@ == rest[0]);
                    assert(e.1 == child_new);
                    lemma_lookup_push(oc, e);
                    lemma_count_children_push(oc, e);
                    lemma_wf_children_push(oc, e);
                    assert(distinct_keys(nn.children@)) by {
                        assert(forall|a: int|
                            0 <= a < oc.len() ==> (#[trigger] nn.children@[a]) == oc[a]);
                    }
                    assert(wf_node(nn));
                    assert forall|u: Seq<Seq<char>>|
                        spec_has_word_node(nn, u) == (spec_has_word_node(on, u) || u == rest) by {
                        if u.len() == 0 {
                            assert(u != rest);
                            assert(spec_node_at(nn, u) == Some(nn));
                            assert(spec_node_at(on, u) == Some(on));
                        } else {
                            lemma_step_frame_new(on, nn, rest[0], child_new, u);
                            if u[0] == rest[0] {
                                assert(!spec_has_word_node(child_empty, u.drop_first()));
                                if u == rest {
                                    assert(u.drop_first() == rest.drop_first());
                                } else {
                                    assert(u.drop_first() != kv.skip(i + 1)) by {
                                        if u.drop_first() == rest.drop_first() {
                                            lemma_cons_eq(u, rest);
                                        }
                                    }
                                }
                            } else {
                                assert(u != rest);
                            }
                        }
                    }
                    assert forall|u: Seq<Seq<char>>| u != rest implies spec_data_at_node(nn, u)
                        == spec_data_at_node(on, u) by {
                        if u.len() == 0 {
                            assert(spec_node_at(nn, u) == Some(nn));
                            assert(spec_node_at(on, u) == Some(on));
                        } else {
                            lemma_step_frame_new(on, nn, rest[0], child_new, u);
                            if u[0] == rest[0] {
                                assert(spec_data_at_node(child_empty, u.drop_first()) is None);
                                assert(u.drop_first() != kv.skip(i + 1)) by {
                                    if u.drop_first() == rest.drop_first() {
                                        lemma_cons_eq(u, rest);
                                    }
                                }
                            }
                        }
                    }
                    lemma_step_frame_new(on, nn, rest[0], child_new, rest);
                    assert(spec_data_at_node(child_empty, kv.skip(i + 1)) is None);
                    assert(!spec_has_word_node(on, rest));
                }
            },
        }
    }
}

/// Element of a string vector, as a slice.
fn vec_str_at<'a>(syls: &'a Vec<String>, i: usize) -> (r: &'a str)
    requires
        i < syls@.len(),
    ensures
        r@ == syls@[i as int]@,
{
    syls[i].as_str()
}

impl Trie {
    /// Insert a word given as a tsek-separated string; empty syllables
    /// are dropped, and a word with no syllables changes nothing.
    pub fn add_word(&mut self, word: &str, data: Option<WordData>)
        requires
            old(self).wf(),
        ensures
            final(self).wf(),
            ({
                let w = crate::token::spec_split_tsek(word@, 0);
                if w.len() > 0 {
                    &&& forall|u: Seq<Seq<char>>|
                        final(self).spec_has(u) == (old(self).spec_has(u) || u == w)
                    &&& forall|u: Seq<Seq<char>>|
                        u != w ==> final(self).spec_data(u) == old(self).spec_data(u)
                    &&& final(self).spec_data(w) == (if data is Some {
                        data
                    } else {
                        old(self).spec_data(w)
                    })
                    &&& final(self).spec_len() as int == old(self).spec_len() + (if old(
                        self,
                    ).spec_has(w) {
                        0int
                    } else {
                        1int
                    })
                } else {
                    &&& forall|u: Seq<Seq<char>>| final(self).spec_has(u) == old(self).spec_has(u)
                    &&& forall|u: Seq<Seq<char>>|
                        final(self).spec_data(u) == old(self).spec_data(u)
                    &&& final(self).spec_len() == old(self).spec_len()
                }
            }),
    {
        let syls = crate::token::split_syllables(word);
        if syls.len() > 0 {
            let refs = strs_of(&syls);
            self.add(&refs, data);
        }
    }

    /// Insert a word given as a tsek-separated string and merge one
    /// dictionary line into its data, appending the sense. A word with
    /// no syllables changes nothing.
    pub fn add_word_with_sense(&mut self, word: &str, data: WordData, sense: Sense)
        requires
            old(self).wf(),
        ensures
            final(self).wf(),
            ({
                let w = crate::token::spec_split_tsek(word@, 0);
                if w.len() > 0 {
                    &&& forall|u: Seq<Seq<char>>|
                        final(self).spec_has(u) == (old(self).spec_has(u) || u == w)
                    &&& forall|u: Seq<Seq<char>>|
                        u != w ==> final(self).spec_data(u) == old(self).spec_data(u)
                    &&& final(self).spec_data(w) is Some
                    &&& spec_merged_entry(
                        final(self).spec_data(w)->0,
                        old(self).spec_data(w),
                        data,
                        sense,
                    )
                    &&& final(self).spec_len() as int == old(self).spec_len() + (if old(
                        self,
                    ).spec_has(w) {
                        0int
                    } else {
                        1int
                    })
                } else {
                    &&& forall|u: Seq<Seq<char>>| final(self).spec_has(u) == old(self).spec_has(u)
                    &&& forall|u: Seq<Seq<char>>|
                        final(self).spec_data(u) == old(self).spec_data(u)
                    &&& final(self).spec_len() == old(self).spec_len()
                }
            }),
    {
        let syls = crate::token::split_syllables(word);
        if syls.len() > 0 {
            proof {
                assert(crate::token::views_of(syls@).skip(0) =~= crate::token::views_of(syls@));
            }
            add_sense_node(&mut self.root, &syls, 0, data, sense);
        }
    }
}


/// Lookup-then-descend through a child list, for non-empty paths.
pub open spec fn spec_has_via(s: Seq<(String, TrieNode)>, u: Seq<Seq<char>>) -> bool
    recommends
        u.len() > 0,
{
    match lookup_children(s, u[0]) {
        Some(c) => spec_has_word_node(c, u.drop_first()),
        None => false,
    }
}

/// Data found by lookup-then-descend through a child list.
pub open spec fn spec_data_via(s: Seq<(String, TrieNode)>, u: Seq<Seq<char>>) -> Option<WordData>
    recommends
        u.len() > 0,
{
    match lookup_children(s, u[0]) {
        Some(c) => spec_data_at_node(c, u.drop_first()),
        None => None,
    }
}

/// Extending a distinct-keyed prefix by its next element: the new key
/// becomes visible, every other lookup is unchanged.
proof fn lemma_prefix_extend(s: Seq<(String, TrieNode)>, sj: int)
    requires
        distinct_keys(s),
        0 <= sj < s.len(),
    ensures
        lookup_children(s.take(sj + 1), s[sj].0@) == Some(s[sj].1),
        lookup_children(s.take(sj), s[sj].0@) is None,
        forall|key: Seq<char>|
            key != s[sj].0@ ==> #[trigger] lookup_children(s.take(sj + 1), key)
                == lookup_children(s.take(sj), key),
{
    let pre = s.take(sj);
    let e = s[sj];
    assert(forall|i: int| 0 <= i < pre.len() ==> (#[trigger] pre[i]) == s[i]);
    assert(forall|i: int| 0 <= i < pre.len() ==> (#[trigger] pre[i]).0@ != e.0@);
    lemma_lookup_none(pre, e.0@);
    assert(s.take(sj + 1) =~= pre.push(e));
    lemma_lookup_push(pre, e);
}

/// Merge the subtrees of `source`'s children into `target`: every word
/// of `source` (as seen from its children) becomes a word of `target`,
/// and data of `source`'s words overwrites the data at the same path.
fn merge_nodes(target: &mut TrieNode, source: &TrieNode)
    requires
        wf_node(*old(target)),
        wf_node(*source),
    ensures
        wf_node(*final(target)),
        final(target).is_leaf == old(target).is_leaf,
        final(target).data == old(target).data,
        forall|u: Seq<Seq<char>>|
            #![trigger spec_has_word_node(*final(target), u)]
            u.len() > 0 ==> spec_has_word_node(*final(target), u) == (spec_has_word_node(
                *old(target),
                u,
            ) || spec_has_word_node(*source, u)),
        forall|u: Seq<Seq<char>>|
            #![trigger spec_data_at_node(*final(target), u)]
            u.len() > 0 && !(spec_has_word_node(*source, u) && spec_data_at_node(
                *source,
                u,
            ) is Some) ==> spec_data_at_node(*final(target), u) == spec_data_at_node(
                *old(target),
                u,
            ),
        forall|u: Seq<Seq<char>>|
            #![trigger spec_data_at_node(*final(target), u)]
            u.len() > 0 && spec_has_word_node(*source, u) && spec_data_at_node(
                *source,
                u,
            ) is Some ==> spec_data_at_node(*final(target), u) is Some && wd_like(
                spec_data_at_node(*final(target), u)->0,
                spec_data_at_node(*source, u)->0,
            ),
        spec_count(*old(target)) <= spec_count(*final(target)) <= spec_count(*old(target))
            + spec_count_children(source.children@),
        spec_count(*final(target)) == spec_count(*old(target)) + added_children(
            old(target).children@,
            source.children@,
        ),
    decreases *source,
{
    let ghost src = source.children@;
    let ghost oldc = old(target).children@;
    proof {
        assert(src.take(0) =~= Seq::<(String, TrieNode)>::empty());
    }
    let mut sj: usize = 0;
    while sj < source.children.len()
        invariant
            sj <= src.len(),
            src == source.children@,
            wf_node(*source),
            wf_node(*target),
            target.is_leaf == old(target).is_leaf,
            target.data == old(target).data,
            wf_node(*old(target)),
            forall|u: Seq<Seq<char>>|
                u.len() > 0 ==> spec_has_word_node(*target, u) == (spec_has_word_node(
                    *old(target),
                    u,
                ) || spec_has_via(src.take(sj as int), u)),
            forall|u: Seq<Seq<char>>|
                u.len() > 0 && !(spec_has_via(src.take(sj as int), u) && spec_data_via(
                    src.take(sj as int),
                    u,
                ) is Some) ==> spec_data_at_node(*target, u) == spec_data_at_node(
                    *old(target),
                    u,
                ),
            forall|u: Seq<Seq<char>>|
                u.len() > 0 && spec_has_via(src.take(sj as int), u) && spec_data_via(
                    src.take(sj as int),
                    u,
                ) is Some ==> spec_data_at_node(*target, u) is Some && wd_like(
                    spec_data_at_node(*target, u)->0,
                    spec_data_via(src.take(sj as int), u)->0,
                ),
            spec_count(*old(target)) <= spec_count(*target) <= spec_count(*old(target))
                + spec_count_children(src.take(sj as int)),
            oldc == old(target).children@,
            forall|k: Seq<char>|
                (forall|x: int| 0 <= x < sj ==> (#[trigger] src[x]).0@ != k)
                    ==> #[trigger] lookup_children(target.children@, k) == lookup_children(
                    oldc,
                    k,
                ),
            spec_count(*target) == spec_count(*old(target)) + added_children(
                oldc,
                src.take(sj as int),
            ),
        decreases src.len() - sj,
    {
        let ghost t_pre = *target;
        let sc = &source.children[sj].1;
        proof {
            lemma_wf_child(src, sj as int);
            lemma_prefix_extend(src, sj as int);
        }
        match find_child(&target.children, source.children[sj].0.as_str()) {
            Some(j) => {
                let ghost oc = t_pre.children@;
                proof {
                    lemma_wf_child(oc, j as int);
                    lemma_lookup_at(oc, src[sj as int].0@, j as int);
                }
                let (k, mut tc) = target.children.remove(j);
                let ghost tc_pre = tc;
                if sc.is_match() && !tc.is_leaf {
                    tc.is_leaf = true;
                }
                if sc.is_match() {
                    match &sc.data {
                        Some(d) => {
                            tc.data = Some(duplicate_word_data(d));
                        },
                        None => {},
                    }
                }
                let ghost tc_mid = tc;
                merge_nodes(&mut tc, sc);
                let ghost tc_new = tc;
                target.children.insert(j, (k, tc));
                proof {
                    let key = src[sj as int].0@;
                    assert(target.children@ =~= oc.update(j as int, (k, tc_new)));
                    lemma_lookup_update(oc, j as int, (k, tc_new));
                    lemma_wf_children_update(oc, j as int, (k, tc_new));
                    assert(wf_node(*target));
                    assert(tc_mid.children@ == tc_pre.children@);
                    assert(tc_mid.is_leaf == (tc_pre.is_leaf || sc.is_leaf));
                    lemma_count_children_update(oc, j as int, (k, tc_new));
                    lemma_count_children_take_succ(src, sj as int);
                    assert(spec_count_children(tc_mid.children@) == spec_count_children(
                        tc_pre.children@,
                    ));
                    assert(spec_count(tc_mid) <= spec_count(tc_pre) + (if sc.is_leaf {
                        1nat
                    } else {
                        0nat
                    }));
                    assert(spec_count(tc_pre) <= spec_count(tc_mid));
                    assert(spec_count(*target) == spec_count(t_pre) - spec_count(tc_pre)
                        + spec_count(tc_new));
                    assert(spec_count(tc_new) <= spec_count(tc_pre) + spec_count(
                        src[sj as int].1,
                    ));
                    assert(forall|x: int| 0 <= x < sj ==> (#[trigger] src[x]).0@ != key);
                    assert(lookup_children(oc, key) == lookup_children(oldc, key));
                    assert(lookup_children(oldc, key) == Some(tc_pre));
                    assert(*sc == src[sj as int].1);
                    assert(spec_count(tc_mid) == spec_count(tc_pre) + (if sc.is_leaf
                        && !tc_pre.is_leaf {
                        1nat
                    } else {
                        0nat
                    }));
                    assert(spec_count(tc_new) == spec_count(tc_mid) + added_children(
                        tc_pre.children@,
                        sc.children@,
                    ));
                    assert(spec_count(tc_new) == spec_count(tc_pre) + added_node(
                        tc_pre,
                        src[sj as int].1,
                    ));
                    lemma_added_children_take_succ(oldc, src, sj as int);
                    assert(spec_count(*target) == spec_count(*old(target)) + added_children(
                        oldc,
                        src.take(sj + 1),
                    ));
                    assert forall|k2: Seq<char>|
                        (forall|x: int| 0 <= x < sj + 1 ==> (#[trigger] src[x]).0@ != k2)
                            implies #[trigger] lookup_children(target.children@, k2)
                        == lookup_children(oldc, k2) by {
                        assert(src[sj as int].0@ != k2);
                        assert(lookup_children(oc.update(j as int, (k, tc_new)), k2)
                            == lookup_children(oc, k2));
                    }
                    assert forall|u: Seq<Seq<char>>| u.len() > 0 implies spec_has_word_node(
                        *target,
                        u,
                    ) == (spec_has_word_node(*old(target), u) || spec_has_via(
                        src.take(sj + 1),
                        u,
                    )) by {
                        if u[0] == key {
                            assert(spec_has_word_node(*target, u) == spec_has_word_node(
                                tc_new,
                                u.drop_first(),
                            ));
                            assert(spec_has_word_node(t_pre, u) == spec_has_word_node(
                                tc_pre,
                                u.drop_first(),
                            ));
                            assert(spec_has_via(src.take(sj + 1), u) == spec_has_word_node(
                                *sc,
                                u.drop_first(),
                            ));
                            assert(spec_has_via(src.take(sj as int), u) == false);
                            if u.drop_first().len() == 0 {
                                assert(spec_has_word_node(tc_new, u.drop_first())
                                    == tc_new.is_leaf);
                            } else {
                                lemma_node_at_same_children(tc_pre, tc_mid, u.drop_first());
                                assert(spec_has_word_node(tc_mid, u.drop_first())
                                    == spec_has_word_node(tc_pre, u.drop_first()));
                                assert(spec_data_at_node(tc_mid, u.drop_first())
                                    == spec_data_at_node(tc_pre, u.drop_first()));
                                assert(spec_has_word_node(tc_new, u.drop_first())
                                    == (spec_has_word_node(tc_mid, u.drop_first())
                                        || spec_has_word_node(*sc, u.drop_first())));
                            }
                        } else {
                            assert(spec_node_at(*target, u) == spec_node_at(t_pre, u)) by {
                                lemma_step_frame(
                                    t_pre,
                                    *target,
                                    key,
                                    tc_pre,
                                    tc_new,
                                    u,
                                );
                            }
                            assert(spec_has_via(src.take(sj + 1), u) == spec_has_via(
                                src.take(sj as int),
                                u,
                            ));
                            assert(spec_has_word_node(*target, u) == spec_has_word_node(t_pre, u));
                            assert(spec_has_word_node(t_pre, u) == (spec_has_word_node(*old(target), u) || spec_has_via(src.take(sj as int), u)));
                        }
                        assert(spec_has_word_node(*target, u) == (spec_has_word_node(*old(target), u) || spec_has_via(src.take(sj + 1), u)));
                    }
                    assert forall|u: Seq<Seq<char>>|
                        u.len() > 0 && !(spec_has_via(src.take(sj + 1), u) && spec_data_via(
                            src.take(sj + 1),
                            u,
                        ) is Some) implies spec_data_at_node(*target, u) == spec_data_at_node(
                        *old(target),
                        u,
                    ) by {
                        if u[0] == key {
                            assert(spec_data_at_node(*target, u) == spec_data_at_node(
                                tc_new,
                                u.drop_first(),
                            ));
                            assert(spec_data_at_node(t_pre, u) == spec_data_at_node(
                                tc_pre,
                                u.drop_first(),
                            ));
                            assert(spec_data_via(src.take(sj + 1), u) == spec_data_at_node(
                                *sc,
                                u.drop_first(),
                            ));
                            assert(spec_has_via(src.take(sj + 1), u) == spec_has_word_node(
                                *sc,
                                u.drop_first(),
                            ));
                            assert(spec_has_via(src.take(sj as int), u) == false);
                            if u.drop_first().len() == 0 {
                                assert(tc_new.data == tc_mid.data);
                                assert(!(sc.is_leaf && sc.data is Some) ==> tc_mid.data
                                    == tc_pre.data);
                            } else {
                                lemma_node_at_same_children(tc_pre, tc_mid, u.drop_first());
                                assert(spec_has_word_node(tc_mid, u.drop_first())
                                    == spec_has_word_node(tc_pre, u.drop_first()));
                                assert(spec_data_at_node(tc_mid, u.drop_first())
                                    == spec_data_at_node(tc_pre, u.drop_first()));
                                assert(spec_has_word_node(tc_new, u.drop_first())
                                    == (spec_has_word_node(tc_mid, u.drop_first())
                                        || spec_has_word_node(*sc, u.drop_first())));
                            }
                        } else {
                            lemma_step_frame(t_pre, *target, key, tc_pre, tc_new, u);
                            assert(u[0] == key ==> spec_data_at_node(*target, u)
                                == spec_data_at_node(tc_new, u.drop_first()));
                            assert(u[0] == key ==> spec_data_at_node(t_pre, u)
                                == spec_data_at_node(tc_pre, u.drop_first()));
                            assert(u[0] == key ==> spec_has_word_node(*target, u)
                                == spec_has_word_node(tc_new, u.drop_first()));
                            assert(u[0] == key ==> spec_has_word_node(t_pre, u)
                                == spec_has_word_node(tc_pre, u.drop_first()));
                            assert(u[0] != key ==> spec_data_at_node(*target, u)
                                == spec_data_at_node(t_pre, u));
                            assert(u[0] != key ==> spec_has_word_node(*target, u)
                                == spec_has_word_node(t_pre, u));
                            assert(spec_data_via(src.take(sj + 1), u) == spec_data_via(
                                src.take(sj as int),
                                u,
                            ));
                            assert(spec_has_via(src.take(sj + 1), u) == spec_has_via(
                                src.take(sj as int),
                                u,
                            ));
                        }
                    }
                    assert forall|u: Seq<Seq<char>>|
                        u.len() > 0 && spec_has_via(src.take(sj + 1), u) && spec_data_via(
                            src.take(sj + 1),
                            u,
                        ) is Some implies spec_data_at_node(*target, u) is Some && wd_like(
                        spec_data_at_node(*target, u)->0,
                        spec_data_via(src.take(sj + 1), u)->0,
                    ) by {
                        if u[0] == key {
                            assert(spec_data_at_node(*target, u) == spec_data_at_node(
                                tc_new,
                                u.drop_first(),
                            ));
                            assert(spec_data_via(src.take(sj + 1), u) == spec_data_at_node(
                                *sc,
                                u.drop_first(),
                            ));
                            assert(spec_has_via(src.take(sj + 1), u) == spec_has_word_node(
                                *sc,
                                u.drop_first(),
                            ));
                            if u.drop_first().len() == 0 {
                                assert(tc_new.data == tc_mid.data);
                                assert(sc.is_leaf && sc.data is Some);
                            }
                        } else {
                            lemma_step_frame(t_pre, *target, key, tc_pre, tc_new, u);
                            assert(u[0] == key ==> spec_data_at_node(*target, u)
                                == spec_data_at_node(tc_new, u.drop_first()));
                            assert(u[0] == key ==> spec_data_at_node(t_pre, u)
                                == spec_data_at_node(tc_pre, u.drop_first()));
                            assert(u[0] == key ==> spec_has_word_node(*target, u)
                                == spec_has_word_node(tc_new, u.drop_first()));
                            assert(u[0] == key ==> spec_has_word_node(t_pre, u)
                                == spec_has_word_node(tc_pre, u.drop_first()));
                            assert(u[0] != key ==> spec_data_at_node(*target, u)
                                == spec_data_at_node(t_pre, u));
                            assert(u[0] != key ==> spec_has_word_node(*target, u)
                                == spec_has_word_node(t_pre, u));
                            assert(spec_data_via(src.take(sj + 1), u) == spec_data_via(
                                src.take(sj as int),
                                u,
                            ));
                            assert(spec_has_via(src.take(sj + 1), u) == spec_has_via(
                                src.take(sj as int),
                                u,
                            ));
                        }
                    }
                }
            },
            None => {
                let ghost oc = t_pre.children@;
                proof {
                    lemma_lookup_none(oc, src[sj as int].0@);
                }
                let mut tc = TrieNode::new();
                let ghost tc_pre = tc;
                if sc.is_match() {
                    tc.is_leaf = true;
                    match &sc.data {
                        Some(d) => {
                            tc.data = Some(duplicate_word_data(d));
                        },
                        None => {},
                    }
                }
                let ghost tc_mid = tc;
                merge_nodes(&mut tc, sc);
                let ghost tc_new = tc;
                let key_string = source.children[sj].0.clone();
                target.children.push((key_string, tc));
                proof {
                    let key = src[sj as int].0@;
                    let e = target.children@.last();
                    assert(target.children@ =~= oc.push(e));
                    assert(e.0@ == key);
                    assert(e.1 == tc_new);
                    lemma_lookup_push(oc, e);
                    lemma_wf_children_push(oc, e);
                    assert(distinct_keys(target.children@)) by {
                        assert(forall|a: int|
                            0 <= a < oc.len() ==> (#[trigger] target.children@[a]) == oc[a]);
                    }
                    assert(wf_node(*target));
                    assert(tc_mid.children@ == tc_pre.children@);
                    assert(tc_mid.is_leaf == sc.is_leaf);
                    lemma_count_children_push(oc, e);
                    lemma_count_children_take_succ(src, sj as int);
                    assert(spec_count_children(tc_mid.children@) == spec_count_children(
                        tc_pre.children@,
                    ));
                    assert(spec_count_children(tc_pre.children@) == 0);
                    assert(spec_count(tc_mid) <= (if sc.is_leaf {
                        1nat
                    } else {
                        0nat
                    }));
                    assert(spec_count(*target) == spec_count(t_pre) + spec_count(tc_new));
                    assert(spec_count(tc_new) <= spec_count(tc_mid) + spec_count_children(
                        src[sj as int].1.children@,
                    ));
                    assert(spec_count(tc_new) <= spec_count(src[sj as int].1));
                    assert(forall|x: int| 0 <= x < sj ==> (#[trigger] src[x]).0@ != key);
                    assert(lookup_children(oc, key) == lookup_children(oldc, key));
                    assert(lookup_children(oldc, key) is None);
                    assert(*sc == src[sj as int].1);
                    assert(tc_mid.children@ == tc_pre.children@);
                    lemma_added_children_empty(tc_mid.children@, sc.children@);
                    assert(spec_count(tc_new) == spec_count(tc_mid) + added_children(
                        tc_mid.children@,
                        sc.children@,
                    ));
                    assert(spec_count(tc_new) == spec_count(src[sj as int].1));
                    lemma_added_children_take_succ(oldc, src, sj as int);
                    assert(spec_count(*target) == spec_count(*old(target)) + added_children(
                        oldc,
                        src.take(sj + 1),
                    ));
                    assert forall|k2: Seq<char>|
                        (forall|x: int| 0 <= x < sj + 1 ==> (#[trigger] src[x]).0@ != k2)
                            implies #[trigger] lookup_children(target.children@, k2)
                        == lookup_children(oldc, k2) by {
                        assert(src[sj as int].0@ != k2);
                        assert(lookup_children(oc.push(e), k2) == lookup_children(oc, k2));
                    }
                    assert forall|u: Seq<Seq<char>>| u.len() > 0 implies spec_has_word_node(
                        *target,
                        u,
                    ) == (spec_has_word_node(*old(target), u) || spec_has_via(
                        src.take(sj + 1),
                        u,
                    )) by {
                        if u[0] == key {
                            lemma_step_frame_new(t_pre, *target, key, tc_new, u);
                            assert(u[0] == key ==> spec_data_at_node(*target, u)
                                == spec_data_at_node(tc_new, u.drop_first()));
                            assert(u[0] == key ==> spec_has_word_node(*target, u)
                                == spec_has_word_node(tc_new, u.drop_first()));
                            assert(u[0] != key ==> spec_data_at_node(*target, u)
                                == spec_data_at_node(t_pre, u));
                            assert(u[0] != key ==> spec_has_word_node(*target, u)
                                == spec_has_word_node(t_pre, u));
                            assert(spec_has_word_node(t_pre, u) == false);
                            assert(spec_has_via(src.take(sj + 1), u) == spec_has_word_node(
                                *sc,
                                u.drop_first(),
                            ));
                            assert(spec_has_via(src.take(sj as int), u) == false);
                            if u.drop_first().len() == 0 {
                                assert(spec_has_word_node(tc_new, u.drop_first())
                                    == tc_new.is_leaf);
                            } else {
                                lemma_node_at_same_children(tc_pre, tc_mid, u.drop_first());
                                assert(spec_has_word_node(tc_mid, u.drop_first())
                                    == spec_has_word_node(tc_pre, u.drop_first()));
                                assert(spec_data_at_node(tc_mid, u.drop_first())
                                    == spec_data_at_node(tc_pre, u.drop_first()));
                                assert(spec_has_word_node(tc_new, u.drop_first())
                                    == (spec_has_word_node(tc_mid, u.drop_first())
                                        || spec_has_word_node(*sc, u.drop_first())));
                                assert(!spec_has_word_node(tc_pre, u.drop_first()));
                            }
                        } else {
                            lemma_step_frame_new(t_pre, *target, key, tc_new, u);
                            assert(u[0] == key ==> spec_data_at_node(*target, u)
                                == spec_data_at_node(tc_new, u.drop_first()));
                            assert(u[0] == key ==> spec_has_word_node(*target, u)
                                == spec_has_word_node(tc_new, u.drop_first()));
                            assert(u[0] != key ==> spec_data_at_node(*target, u)
                                == spec_data_at_node(t_pre, u));
                            assert(u[0] != key ==> spec_has_word_node(*target, u)
                                == spec_has_word_node(t_pre, u));
                            assert(spec_has_via(src.take(sj + 1), u) == spec_has_via(
                                src.take(sj as int),
                                u,
                            ));
                            assert(spec_has_word_node(*target, u) == spec_has_word_node(t_pre, u));
                            assert(spec_has_word_node(t_pre, u) == (spec_has_word_node(*old(target), u) || spec_has_via(src.take(sj as int), u)));
                        }
                        assert(spec_has_word_node(*target, u) == (spec_has_word_node(*old(target), u) || spec_has_via(src.take(sj + 1), u)));
                    }
                    assert forall|u: Seq<Seq<char>>|
                        u.len() > 0 && !(spec_has_via(src.take(sj + 1), u) && spec_data_via(
                            src.take(sj + 1),
                            u,
                        ) is Some) implies spec_data_at_node(*target, u) == spec_data_at_node(
                        *old(target),
                        u,
                    ) by {
                        if u[0] == key {
                            lemma_step_frame_new(t_pre, *target, key, tc_new, u);
                            assert(u[0] == key ==> spec_data_at_node(*target, u)
                                == spec_data_at_node(tc_new, u.drop_first()));
                            assert(u[0] == key ==> spec_has_word_node(*target, u)
                                == spec_has_word_node(tc_new, u.drop_first()));
                            assert(u[0] != key ==> spec_data_at_node(*target, u)
                                == spec_data_at_node(t_pre, u));
                            assert(u[0] != key ==> spec_has_word_node(*target, u)
                                == spec_has_word_node(t_pre, u));
                            assert(spec_data_at_node(t_pre, u) is None);
                            assert(spec_data_via(src.take(sj + 1), u) == spec_data_at_node(
                                *sc,
                                u.drop_first(),
                            ));
                            assert(spec_has_via(src.take(sj + 1), u) == spec_has_word_node(
                                *sc,
                                u.drop_first(),
                            ));
                            assert(spec_has_via(src.take(sj as int), u) == false);
                            if u.drop_first().len() == 0 {
                                assert(tc_new.data == tc_mid.data);
                                assert(!(sc.is_leaf && sc.data is Some) ==> tc_mid.data
                                    == tc_pre.data);
                            } else {
                                lemma_node_at_same_children(tc_pre, tc_mid, u.drop_first());
                                assert(spec_has_word_node(tc_mid, u.drop_first())
                                    == spec_has_word_node(tc_pre, u.drop_first()));
                                assert(spec_data_at_node(tc_mid, u.drop_first())
                                    == spec_data_at_node(tc_pre, u.drop_first()));
                                assert(spec_has_word_node(tc_new, u.drop_first())
                                    == (spec_has_word_node(tc_mid, u.drop_first())
                                        || spec_has_word_node(*sc, u.drop_first())));
                                assert(spec_data_at_node(tc_pre, u.drop_first()) is None);
                            }
                        } else {
                            lemma_step_frame_new(t_pre, *target, key, tc_new, u);
                            assert(u[0] == key ==> spec_data_at_node(*target, u)
                                == spec_data_at_node(tc_new, u.drop_first()));
                            assert(u[0] == key ==> spec_has_word_node(*target, u)
                                == spec_has_word_node(tc_new, u.drop_first()));
                            assert(u[0] != key ==> spec_data_at_node(*target, u)
                                == spec_data_at_node(t_pre, u));
                            assert(u[0] != key ==> spec_has_word_node(*target, u)
                                == spec_has_word_node(t_pre, u));
                            assert(spec_data_via(src.take(sj + 1), u) == spec_data_via(
                                src.take(sj as int),
                                u,
                            ));
                            assert(spec_has_via(src.take(sj + 1), u) == spec_has_via(
                                src.take(sj as int),
                                u,
                            ));
                        }
                    }
                    assert forall|u: Seq<Seq<char>>|
                        u.len() > 0 && spec_has_via(src.take(sj + 1), u) && spec_data_via(
                            src.take(sj + 1),
                            u,
                        ) is Some implies spec_data_at_node(*target, u) is Some && wd_like(
                        spec_data_at_node(*target, u)->0,
                        spec_data_via(src.take(sj + 1), u)->0,
                    ) by {
                        if u[0] == key {
                            lemma_step_frame_new(t_pre, *target, key, tc_new, u);
                            assert(u[0] == key ==> spec_data_at_node(*target, u)
                                == spec_data_at_node(tc_new, u.drop_first()));
                            assert(u[0] == key ==> spec_has_word_node(*target, u)
                                == spec_has_word_node(tc_new, u.drop_first()));
                            assert(u[0] != key ==> spec_data_at_node(*target, u)
                                == spec_data_at_node(t_pre, u));
                            assert(u[0] != key ==> spec_has_word_node(*target, u)
                                == spec_has_word_node(t_pre, u));
                            assert(spec_data_via(src.take(sj + 1), u) == spec_data_at_node(
                                *sc,
                                u.drop_first(),
                            ));
                            assert(spec_has_via(src.take(sj + 1), u) == spec_has_word_node(
                                *sc,
                                u.drop_first(),
                            ));
                            if u.drop_first().len() == 0 {
                                assert(tc_new.data == tc_mid.data);
                                assert(sc.is_leaf && sc.data is Some);
                            }
                        } else {
                            lemma_step_frame_new(t_pre, *target, key, tc_new, u);
                            assert(u[0] == key ==> spec_data_at_node(*target, u)
                                == spec_data_at_node(tc_new, u.drop_first()));
                            assert(u[0] == key ==> spec_has_word_node(*target, u)
                                == spec_has_word_node(tc_new, u.drop_first()));
                            assert(u[0] != key ==> spec_data_at_node(*target, u)
                                == spec_data_at_node(t_pre, u));
                            assert(u[0] != key ==> spec_has_word_node(*target, u)
                                == spec_has_word_node(t_pre, u));
                            assert(spec_data_via(src.take(sj + 1), u) == spec_data_via(
                                src.take(sj as int),
                                u,
                            ));
                            assert(spec_has_via(src.take(sj + 1), u) == spec_has_via(
                                src.take(sj as int),
                                u,
                            ));
                        }
                    }
                }
            },
        }
        sj = sj + 1;
    }
    proof {
        assert(src.take(src.len() as int) =~= src);
        assert(spec_count_children(src.take(src.len() as int)) == spec_count_children(src));
        assert forall|u: Seq<Seq<char>>| u.len() > 0 implies spec_has_via(src, u)
            == spec_has_word_node(*source, u) by {}
        assert forall|u: Seq<Seq<char>>| u.len() > 0 implies spec_data_via(src, u)
            == spec_data_at_node(*source, u) by {}
    }
}

impl Trie {
    /// Append a sense to the data of an existing word; false, and no
    /// change, when the word is not in the trie.
    pub fn add_data(&mut self, syls: &[&str], sense: Sense) -> (r: bool)
        requires
            old(self).wf(),
        ensures
            final(self).wf(),
            r == old(self).spec_has(key_views(syls@)),
            forall|u: Seq<Seq<char>>| final(self).spec_has(u) == old(self).spec_has(u),
            forall|u: Seq<Seq<char>>|
                u != key_views(syls@) ==> final(self).spec_data(u) == old(self).spec_data(u),
            r ==> final(self).spec_data(key_views(syls@)) is Some && spec_data_added(
                final(self).spec_data(key_views(syls@))->0,
                old(self).spec_data(key_views(syls@)),
                sense,
            ),
            !r ==> final(self).spec_data(key_views(syls@)) == old(self).spec_data(
                key_views(syls@),
            ),
            final(self).spec_len() == old(self).spec_len(),
    {
        if !self.has_word(syls) {
            return false;
        }
        let mut owned: Vec<String> = Vec::new();
        let mut i: usize = 0;
        while i < syls.len()
            invariant
                i <= syls@.len(),
                owned@.len() == i,
                forall|j: int| 0 <= j < i ==> (#[trigger] owned@[j])@ == syls@[j]@,
            decreases syls@.len() - i,
        {
            owned.push(slice_str_at(syls, i).to_owned());
            i = i + 1;
        }
        proof {
            assert(crate::token::views_of(owned@) =~= key_views(syls@));
            assert(crate::token::views_of(owned@).skip(0) =~= crate::token::views_of(owned@));
        }
        let empty = WordData {
            pos: None,
            lemma: None,
            freq: None,
            skrt: false,
            affixation: None,
            senses: Vec::new(),
        };
        add_sense_node(&mut self.root, &owned, 0, empty, sense);
        proof {
            let w = key_views(syls@);
            assert forall|u: Seq<Seq<char>>| final(self).spec_has(u) == old(self).spec_has(
                u,
            ) by {}
            assert(spec_data_added(
                final(self).spec_data(w)->0,
                old(self).spec_data(w),
                sense,
            )) by {
                match old(self).spec_data(w) {
                    Some(ed) => {},
                    None => {
                        assert(Seq::<Sense>::empty().push(sense) =~= seq![sense]);
                    },
                }
            }
        }
        true
    }

    /// Merge another trie into this one: every word of `other` becomes a
    /// word of this trie, and the data of `other`'s words replaces the
    /// data at the same path.
    pub fn merge(&mut self, other: &Trie)
        requires
            old(self).wf(),
            other.wf(),
        ensures
            final(self).wf(),
            forall|u: Seq<Seq<char>>|
                u.len() > 0 ==> final(self).spec_has(u) == (old(self).spec_has(u)
                    || other.spec_has(u)),
            forall|u: Seq<Seq<char>>|
                u.len() == 0 ==> final(self).spec_has(u) == old(self).spec_has(u),
            forall|u: Seq<Seq<char>>|
                u.len() > 0 && !(other.spec_has(u) && other.spec_data(u) is Some)
                    ==> final(self).spec_data(u) == old(self).spec_data(u),
            forall|u: Seq<Seq<char>>|
                u.len() > 0 && other.spec_has(u) && other.spec_data(u) is Some
                    ==> final(self).spec_data(u) is Some && wd_like(
                    final(self).spec_data(u)->0,
                    other.spec_data(u)->0,
                ),
            old(self).spec_len() <= final(self).spec_len() <= old(self).spec_len()
                + other.spec_len(),
            final(self).spec_len() == old(self).spec_len() + added_children(
                old(self).spec_root().children@,
                other.spec_root().children@,
            ),
    {
        merge_nodes(&mut self.root, &other.root);
        proof {
            assert(self.root.is_leaf == old(self).root.is_leaf);
            assert forall|u: Seq<Seq<char>>| u.len() > 0 implies self.spec_has(u) == (old(
                self,
            ).spec_has(u) || other.spec_has(u)) by {
                assert(spec_has_word_node(self.root, u) == (spec_has_word_node(
                    old(self).root,
                    u,
                ) || spec_has_word_node(other.root, u)));
            }
            assert forall|u: Seq<Seq<char>>|
                u.len() > 0 && !(other.spec_has(u) && other.spec_data(u) is Some) implies self
                .spec_data(u) == old(self).spec_data(u) by {
                assert(spec_data_at_node(self.root, u) == spec_data_at_node(old(self).root, u));
            }
            assert forall|u: Seq<Seq<char>>|
                u.len() > 0 && other.spec_has(u) && other.spec_data(u) is Some implies self
                .spec_data(u) is Some && wd_like(
                self.spec_data(u)->0,
                other.spec_data(u)->0,
            ) by {
                assert(spec_data_at_node(self.root, u) is Some && wd_like(
                    spec_data_at_node(self.root, u)->0,
                    spec_data_at_node(other.root, u)->0,
                ));
            }
        }
    }
}


/// Whether a character counts as whitespace for line trimming.
fn is_ws(c: char) -> (r: bool)
    ensures
        r == spec_is_ws(c),
{
    let u = c as u32;
    u == 0x20 || u == 0x9 || u == 0xA || u == 0xD || u == 0xB || u == 0xC || u == 0x85
        || u == 0xA0 || u == 0x1680 || (0x2000 <= u && u <= 0x200A) || u == 0x2028
        || u == 0x2029 || u == 0x202F || u == 0x205F || u == 0x3000
}

/// The whitespace characters that trimming removes.
pub open spec fn spec_is_ws(c: char) -> bool {
    let u = c as u32;
    u == 0x20 || u == 0x9 || u == 0xA || u == 0xD || u == 0xB || u == 0xC || u == 0x85
        || u == 0xA0 || u == 0x1680 || (0x2000 <= u && u <= 0x200A) || u == 0x2028
        || u == 0x2029 || u == 0x202F || u == 0x205F || u == 0x3000
}

/// The index pairs of an executable field list, as integers.
pub open spec fn fpairs(v: Seq<(usize, usize)>) -> Seq<(int, int)> {
    Seq::new(v.len(), |i: int| (v[i].0 as int, v[i].1 as int))
}

/// The model of optional affix data.
pub open spec fn opt_ad_model(a: Option<crate::syllable::AffixData>) -> Option<AffixInfoModel> {
    match a {
        Some(x) => Some(AffixInfoModel { len: x.len as int, affix_type: x.affix_type@, aa: x.aa }),
        None => None,
    }
}

/// Whether some inflected form of the list is the given word.
pub open spec fn word_in_forms(
    list: Seq<(Seq<Seq<char>>, Option<AffixInfoModel>)>,
    u: Seq<Seq<char>>,
) -> bool {
    exists|i: int| 0 <= i < list.len() && (#[trigger] list[i]).0 == u
}

/// The data a direct insertion stores: the given data with the form's
/// affixation, or an empty entry with it.
pub open spec fn wd_overwrite(base: Option<WdModel>, affix: Option<AffixInfoModel>) -> WdModel {
    match base {
        Some(dm) => WdModel { affixation: affix, ..dm },
        None => WdModel {
            pos: None,
            lemma: None,
            freq: None,
            skrt: false,
            affixation: affix,
            senses: Seq::empty(),
        },
    }
}

/// A word's data after a list of direct insertions, left to right.
pub open spec fn add_fold(
    list: Seq<(Seq<Seq<char>>, Option<AffixInfoModel>)>,
    base: Option<WdModel>,
    u: Seq<Seq<char>>,
    d0: Option<WdModel>,
) -> Option<WdModel>
    decreases list.len(),
{
    if list.len() == 0 {
        d0
    } else {
        add_fold(
            list.drop_first(),
            base,
            u,
            if list[0].0 == u {
                Some(wd_overwrite(base, list[0].1))
            } else {
                d0
            },
        )
    }
}

impl Trie {
    /// Insert a word given directly as syllables and merge one
    /// dictionary line into its data, appending the sense.
    fn add_syls_with_sense(&mut self, syls: &Vec<String>, data: WordData, sense: Sense)
        requires
            old(self).wf(),
            syls@.len() > 0,
        ensures
            final(self).wf(),
            forall|u: Seq<Seq<char>>|
                final(self).spec_has(u) == (old(self).spec_has(u) || u == views_of(syls@)),
            forall|u: Seq<Seq<char>>|
                u != views_of(syls@) ==> final(self).spec_data(u) == old(self).spec_data(u),
            final(self).spec_data(views_of(syls@)) is Some,
            spec_merged_entry(
                final(self).spec_data(views_of(syls@))->0,
                old(self).spec_data(views_of(syls@)),
                data,
                sense,
            ),
            final(self).spec_len() as int == old(self).spec_len() + (if old(self).spec_has(
                views_of(syls@),
            ) {
                0int
            } else {
                1int
            }),
    {
        proof {
            assert(views_of(syls@).skip(0) =~= views_of(syls@));
        }
        add_sense_node(&mut self.root, syls, 0, data, sense);
    }
}

/// The raw characters of a field, as a string.
fn field_string(chars: &Vec<char>, fa: usize, fb: usize) -> (r: String)
    requires
        fa <= fb <= chars@.len(),
    ensures
        r@ == chars@.subrange(fa as int, fb as int),
{
    let mut piece: Vec<char> = Vec::new();
    let mut m = fa;
    while m < fb
        invariant
            fa <= m <= fb <= chars@.len(),
            piece@ == chars@.subrange(fa as int, m as int),
        decreases fb - m,
    {
        piece.push(chars[m]);
        proof {
            assert(piece@ =~= chars@.subrange(fa as int, m + 1 as int));
        }
        m = m + 1;
    }
    crate::strutil::string_from_chars(&piece)
}

/// One optional field: absent when missing or empty.
fn field_opt(chars: &Vec<char>, fields: &Vec<(usize, usize)>, idx: usize) -> (r: Option<String>)
    requires
        forall|i: int|
            0 <= i < fields@.len() ==> (#[trigger] fields@[i]).0 <= fields@[i].1 <= chars@.len(),
    ensures
        opt_chars(r) == field_opt_spec(chars@, fpairs(fields@), idx as int),
{
    if idx < fields.len() {
        let (fa, fb) = fields[idx];
        if fa < fb {
            Some(field_string(chars, fa, fb))
        } else {
            None
        }
    } else {
        None
    }
}

/// The frequency field, parsed as a number after trimming.
fn field_freq(chars: &Vec<char>, fields: &Vec<(usize, usize)>, idx: usize) -> (r: Option<u32>)
    requires
        forall|i: int|
            0 <= i < fields@.len() ==> (#[trigger] fields@[i]).0 <= fields@[i].1 <= chars@.len(),
    ensures
        r == field_freq_spec(chars@, fpairs(fields@), idx as int),
{
    let ghost s = chars@;
    if idx < fields.len() {
        let (fa, fb) = fields[idx];
        let mut a = fa;
        while a < fb && is_ws(chars[a])
            invariant
                fa <= a <= fb <= chars@.len(),
                s == chars@,
                ws_start(s, fa as int, fb as int) == ws_start(s, a as int, fb as int),
            decreases fb - a,
        {
            a = a + 1;
        }
        proof {
            assert(a as int == ws_start(s, fa as int, fb as int));
        }
        let mut b = fb;
        while b > a && is_ws(chars[b - 1])
            invariant
                a <= b <= fb <= chars@.len(),
                s == chars@,
                ws_end(s, a as int, fb as int) == ws_end(s, a as int, b as int),
            decreases b,
        {
            b = b - 1;
        }
        proof {
            assert(b as int == ws_end(s, a as int, fb as int));
        }
        crate::strutil::parse_u32_chars(chars, a, b)
    } else {
        None
    }
}

/// The tab-separated fields of `[a, b)`, as index pairs.
fn parse_fields(chars: &Vec<char>, a: usize, b: usize) -> (r: Vec<(usize, usize)>)
    requires
        a <= b <= chars@.len(),
    ensures
        fpairs(r@) == spec_fields(chars@, a as int, b as int),
        r@.len() >= 1,
        forall|i: int| 0 <= i < r@.len() ==> a <= (#[trigger] r@[i]).0 <= r@[i].1 <= b,
{
    let ghost s = chars@;
    let mut fields: Vec<(usize, usize)> = Vec::new();
    let mut fs = a;
    let mut x = a;
    while x < b
        invariant
            a <= fs <= x <= b <= chars@.len(),
            s == chars@,
            fpairs(fields@) + spec_fields(s, fs as int, b as int) == spec_fields(
                s,
                a as int,
                b as int,
            ),
            forall|k: int| fs <= k < x ==> s[k] != '\t',
            forall|i: int|
                0 <= i < fields@.len() ==> a <= (#[trigger] fields@[i]).0 <= fields@[i].1 <= b,
        decreases b - x,
    {
        if chars[x] == '\t' {
            proof {
                lemma_first_tab(s, fs as int, b as int);
                let ft = first_tab(s, fs as int, b as int);
                if ft < x {
                    assert(s[ft] != '\t');
                } else if ft > x {
                    assert(s[x as int] != '\t');
                }
                assert(ft == x as int);
            }
            let ghost fields_pre = fields@;
            fields.push((fs, x));
            proof {
                assert(spec_fields(s, fs as int, b as int) == seq![(fs as int, x as int)]
                    + spec_fields(s, x + 1 as int, b as int));
                assert(fpairs(fields@) =~= fpairs(fields_pre).push((fs as int, x as int)));
                assert(fpairs(fields_pre).push((fs as int, x as int)) + spec_fields(
                    s,
                    x + 1 as int,
                    b as int,
                ) =~= fpairs(fields_pre) + (seq![(fs as int, x as int)] + spec_fields(
                    s,
                    x + 1 as int,
                    b as int,
                )));
            }
            fs = x + 1;
        }
        x = x + 1;
    }
    proof {
        lemma_first_tab(s, fs as int, b as int);
        assert(first_tab(s, fs as int, b as int) == b as int);
        assert(spec_fields(s, fs as int, b as int) == seq![(fs as int, b as int)]);
    }
    let ghost fields_pre = fields@;
    fields.push((fs, b));
    proof {
        assert(fpairs(fields@) =~= fpairs(fields_pre).push((fs as int, b as int)));
        assert(fpairs(fields_pre).push((fs as int, b as int)) =~= fpairs(fields_pre) + seq![
            (fs as int, b as int),
        ]);
    }
    fields
}

/// The builder that loads a trie from tab-separated word lists, with
/// optional automatic inflection of every entry.
pub struct TrieBuilder {
    trie: Trie,
    syl_components: crate::syllable::SylComponents,
    inflect: bool,
}

impl TrieBuilder {
    /// The trie built so far.
    pub closed spec fn spec_trie(&self) -> Trie {
        self.trie
    }

    /// Whether automatic inflection is on.
    pub closed spec fn spec_inflect(&self) -> bool {
        self.inflect
    }

    /// The root list the inflection rules consult.
    pub closed spec fn spec_roots(&self) -> Seq<Seq<char>> {
        self.syl_components.spec_roots()
    }

    /// The builder's trie is well formed.
    pub open spec fn wf(&self) -> bool {
        self.spec_trie().wf()
    }

    /// A fresh builder with inflection off.
    pub fn new() -> (r: TrieBuilder)
        ensures
            r.wf(),
            !r.spec_inflect(),
            r.spec_roots() == crate::syllable::spec_default_roots(),
            r.spec_trie().spec_len() == 0,
            forall|u: Seq<Seq<char>>| !r.spec_trie().spec_has(u),
            forall|u: Seq<Seq<char>>| r.spec_trie().spec_data(u) is None,
    {
        TrieBuilder {
            trie: Trie::new(),
            syl_components: crate::syllable::SylComponents::new(),
            inflect: false,
        }
    }

    /// A fresh builder with inflection on.
    pub fn with_inflection() -> (r: TrieBuilder)
        ensures
            r.wf(),
            r.spec_inflect(),
            r.spec_roots() == crate::syllable::spec_default_roots(),
            r.spec_trie().spec_len() == 0,
            forall|u: Seq<Seq<char>>| !r.spec_trie().spec_has(u),
            forall|u: Seq<Seq<char>>| r.spec_trie().spec_data(u) is None,
    {
        TrieBuilder {
            trie: Trie::new(),
            syl_components: crate::syllable::SylComponents::new(),
            inflect: true,
        }
    }

    /// Switch automatic inflection on or off.
    pub fn set_inflection(&mut self, enable: bool)
        requires
            old(self).wf(),
        ensures
            final(self).wf(),
            final(self).spec_inflect() == enable,
            final(self).spec_trie() == old(self).spec_trie(),
            final(self).spec_roots() == old(self).spec_roots(),
    {
        self.inflect = enable;
    }

    /// Every inflected form of a word: the word itself first, then, when
    /// the last syllable can take a particle, each affixed variant with
    /// its affix data, exactly as `spec_inflected` lists them.
    fn get_inflected(&self, word: &str) -> (r: Vec<(Vec<String>, Option<crate::syllable::AffixData>)>)
        ensures
            r@.len() == spec_inflected(self.spec_roots(), word@).len(),
            forall|i: int|
                0 <= i < r@.len() ==> views_of((#[trigger] r@[i]).0@) == spec_inflected(
                    self.spec_roots(),
                    word@,
                )[i].0 && opt_ad_model(r@[i].1) == spec_inflected(self.spec_roots(), word@)[i].1
                && r@[i].0@.len() > 0,
    {
        let ghost spec_list = spec_inflected(self.spec_roots(), word@);
        let syls = crate::token::split_syllables(word);
        if syls.len() == 0 {
            let r: Vec<(Vec<String>, Option<crate::syllable::AffixData>)> = Vec::new();
            return r;
        }
        let mut out: Vec<(Vec<String>, Option<crate::syllable::AffixData>)> = Vec::new();
        let base = clone_string_vec(&syls);
        out.push((base, None));
        proof {
            assert(views_of(out@[0].0@) == views_of(syls@));
            assert(views_of(syls@).len() > 0);
            assert(spec_list[0].0 == views_of(syls@));
        }
        let n = syls.len();
        let last = syls[n - 1].as_str();
        proof {
            assert(last@ == views_of(syls@).last());
        }
        match self.syl_components.get_all_affixed(last) {
            Some(affixed) => {
                let mut ai: usize = 0;
                while ai < affixed.len()
                    invariant
                        ai <= affixed@.len(),
                        n == syls@.len(),
                        n > 0,
                        spec_list == spec_inflected(self.spec_roots(), word@),
                        views_of(syls@) == crate::token::spec_split_tsek(word@, 0),
                        spec_is_affixable(self.spec_roots(), views_of(syls@).last()),
                        affixed@.len() == spec_affix_table().len(),
                        spec_list.len() == 1 + spec_affix_table().len(),
                        forall|j: int|
                            0 <= j < affixed@.len() ==> {
                                &&& (#[trigger] affixed@[j]).0@ == spec_affix_base(
                                    views_of(syls@).last(),
                                ) + spec_affix_table()[j].0
                                &&& affixed@[j].1.len as int == spec_affix_table()[j].1
                                &&& affixed@[j].1.affix_type@ == spec_affix_table()[j].2
                                &&& affixed@[j].1.aa == spec_affix_aa(views_of(syls@).last())
                            },
                        out@.len() == 1 + ai,
                        forall|i: int|
                            0 <= i < out@.len() ==> views_of((#[trigger] out@[i]).0@)
                                == spec_list[i].0 && opt_ad_model(out@[i].1) == spec_list[i].1
                                && out@[i].0@.len() > 0,
                    decreases affixed@.len() - ai,
                {
                    let mut w: Vec<String> = Vec::new();
                    let mut j: usize = 0;
                    while j < n - 1
                        invariant
                            j <= n - 1,
                            n == syls@.len(),
                            w@.len() == j,
                            forall|x: int| 0 <= x < j ==> (#[trigger] w@[x]) == syls@[x],
                        decreases n - 1 - j,
                    {
                        w.push(syls[j].clone());
                        j = j + 1;
                    }
                    w.push(affixed[ai].0.clone());
                    proof {
                        assert(views_of(w@) =~= views_of(syls@).drop_last().push(
                            spec_affix_base(views_of(syls@).last()) + spec_affix_table()[
                                ai as int].0,
                        ));
                        assert(spec_list[1 + ai] == (
                            views_of(syls@).drop_last().push(
                                spec_affix_base(views_of(syls@).last())
                                    + spec_affix_table()[ai as int].0,
                            ),
                            Some(
                                AffixInfoModel {
                                    len: spec_affix_table()[ai as int].1,
                                    affix_type: spec_affix_table()[ai as int].2,
                                    aa: spec_affix_aa(views_of(syls@).last()),
                                },
                            ),
                        ));
                    }
                    let data = crate::syllable::AffixData {
                        len: affixed[ai].1.len,
                        affix_type: affixed[ai].1.affix_type.clone(),
                        aa: affixed[ai].1.aa,
                    };
                    out.push((w, Some(data)));
                    ai = ai + 1;
                }
                out
            },
            None => {
                proof {
                    assert(spec_list.len() == 1);
                }
                out
            },
        }
    }

    /// One dictionary insertion: install the data fields and append the
    /// sense at the word.
    fn insert_one(
        &mut self,
        syls2: &Vec<String>,
        pos: &Option<String>,
        lemma: &Option<String>,
        sense_text: &Option<String>,
        freq: Option<u32>,
        affix: &Option<crate::syllable::AffixData>,
        Ghost(e): Ghost<InsModel>,
    )
        requires
            old(self).wf(),
            syls2@.len() > 0,
            views_of(syls2@) == e.word,
            opt_chars(*pos) == e.pos,
            opt_chars(*lemma) == e.lemma,
            opt_chars(*sense_text) == e.sense,
            freq == e.freq,
            opt_ad_model(*affix) == e.affix,
            e.affixed == (e.affix is Some),
        ensures
            final(self).wf(),
            final(self).spec_inflect() == old(self).spec_inflect(),
            final(self).spec_roots() == old(self).spec_roots(),
            forall|u: Seq<Seq<char>>|
                final(self).spec_trie().spec_has(u) == (old(self).spec_trie().spec_has(u) || u
                    == e.word),
            forall|u: Seq<Seq<char>>|
                u != e.word ==> final(self).spec_trie().spec_data(u) == old(
                    self,
                ).spec_trie().spec_data(u),
            opt_wd(final(self).spec_trie().spec_data(e.word)) == Some(
                wd_after_ins(opt_wd(old(self).spec_trie().spec_data(e.word)), e),
            ),
    {
        let is_affixed = match affix {
            Some(_) => true,
            None => false,
        };
        let data = WordData {
            pos: crate::strutil::clone_opt_string(pos),
            lemma: crate::strutil::clone_opt_string(lemma),
            freq,
            skrt: false,
            affixation: match affix {
                Some(ad) => Some(
                    AffixInfo { len: ad.len, affix_type: ad.affix_type.clone(), aa: ad.aa },
                ),
                None => None,
            },
            senses: Vec::new(),
        };
        let sense = Sense {
            pos: crate::strutil::clone_opt_string(pos),
            lemma: None,
            freq,
            sense: crate::strutil::clone_opt_string(sense_text),
            meaning: None,
            affixed: is_affixed,
        };
        proof {
            assert(opt_chars(data.pos) == e.pos);
            assert(opt_chars(data.lemma) == e.lemma);
            assert(opt_affix_model(data.affixation) == e.affix);
            assert(sense_model(sense) == ins_sense(e));
        }
        let ghost data_g = data;
        let ghost sense_g = sense;
        self.trie.add_syls_with_sense(syls2, data, sense);
        proof {
            lemma_merged_entry_model(
                final(self).spec_trie().spec_data(e.word)->0,
                old(self).spec_trie().spec_data(e.word),
                data_g,
                sense_g,
                e,
            );
        }
    }

    /// Load one line of a word list: skip it when blank or a comment,
    /// else insert its word — and with inflection on, every affixed
    /// form — as `line_inss` says.
    fn load_line(&mut self, chars: &Vec<char>, p: usize, q: usize)
        requires
            old(self).wf(),
            p <= q <= chars@.len(),
        ensures
            final(self).wf(),
            final(self).spec_inflect() == old(self).spec_inflect(),
            final(self).spec_roots() == old(self).spec_roots(),
            forall|u: Seq<Seq<char>>|
                final(self).spec_trie().spec_has(u) == (old(self).spec_trie().spec_has(u)
                    || word_in_inss(
                    line_inss(
                        chars@,
                        p as int,
                        q as int,
                        old(self).spec_inflect(),
                        old(self).spec_roots(),
                    ),
                    u,
                )),
            forall|u: Seq<Seq<char>>|
                opt_wd(final(self).spec_trie().spec_data(u)) == wd_fold(
                    line_inss(
                        chars@,
                        p as int,
                        q as int,
                        old(self).spec_inflect(),
                        old(self).spec_roots(),
                    ),
                    u,
                    opt_wd(old(self).spec_trie().spec_data(u)),
                ),
    {
        let ghost s = chars@;
        let ghost li = line_inss(s, p as int, q as int, self.inflect, self.spec_roots());
        let mut a = p;
        while a < q && is_ws(chars[a])
            invariant
                p <= a <= q <= chars@.len(),
                s == chars@,
                ws_start(s, p as int, q as int) == ws_start(s, a as int, q as int),
            decreases q - a,
        {
            a = a + 1;
        }
        proof {
            assert(a as int == ws_start(s, p as int, q as int));
        }
        let mut b = q;
        while b > a && is_ws(chars[b - 1])
            invariant
                a <= b <= q <= chars@.len(),
                s == chars@,
                ws_end(s, a as int, q as int) == ws_end(s, a as int, b as int),
            decreases b,
        {
            b = b - 1;
        }
        proof {
            assert(b as int == ws_end(s, a as int, q as int));
        }
        if a >= b || chars[a] == '#' {
            proof {
                assert(li =~= Seq::<InsModel>::empty());
                assert forall|u: Seq<Seq<char>>|
                    opt_wd(self.spec_trie().spec_data(u)) == wd_fold(
                    li,
                    u,
                    opt_wd(self.spec_trie().spec_data(u)),
                ) by {}
            }
            return ;
        }
        let fields = parse_fields(chars, a, b);
        let ghost fsm = spec_fields(s, a as int, b as int);
        let form = field_string(chars, fields[0].0, fields[0].1);
        let pos = field_opt(chars, &fields, 1);
        let lemma = field_opt(chars, &fields, 2);
        let sense_text = field_opt(chars, &fields, 3);
        let freq = field_freq(chars, &fields, 4);
        proof {
            assert(fpairs(fields@)[0] == fsm[0]);
            assert(form@ == s.subrange(fsm[0].0, fsm[0].1));
        }
        if self.inflect {
            let inflected = self.get_inflected(form.as_str());
            let ghost roots0 = self.spec_roots();
            let ghost spec_list = spec_inflected(roots0, form@);
            proof {
                assert(li =~= Seq::new(
                    spec_list.len(),
                    |k: int|
                        InsModel {
                            word: spec_list[k].0,
                            pos: opt_chars(pos),
                            lemma: opt_chars(lemma),
                            sense: opt_chars(sense_text),
                            freq: freq,
                            affix: spec_list[k].1,
                            affixed: spec_list[k].1 is Some,
                        },
                ));
            }
            let mut k: usize = 0;
            proof {
                assert(li.take(0) =~= Seq::<InsModel>::empty());
            }
            while k < inflected.len()
                invariant
                    k <= inflected@.len(),
                    self.wf(),
                    self.spec_inflect() == old(self).spec_inflect(),
                    self.spec_roots() == old(self).spec_roots(),
                    inflected@.len() == li.len(),
                    forall|i: int|
                        0 <= i < inflected@.len() ==> views_of((#[trigger] inflected@[i]).0@)
                            == li[i].word && opt_ad_model(inflected@[i].1) == li[i].affix
                            && inflected@[i].0@.len() > 0,
                    forall|i: int|
                        0 <= i < li.len() ==> (#[trigger] li[i]).pos == opt_chars(pos) && li[
                        i].lemma == opt_chars(lemma) && li[i].sense == opt_chars(sense_text)
                            && li[i].freq == freq && li[i].affixed == (li[i].affix is Some),
                    forall|u: Seq<Seq<char>>|
                        self.spec_trie().spec_has(u) == (old(self).spec_trie().spec_has(u)
                            || word_in_inss(li.take(k as int), u)),
                    forall|u: Seq<Seq<char>>|
                        opt_wd(self.spec_trie().spec_data(u)) == wd_fold(
                            li.take(k as int),
                            u,
                            opt_wd(old(self).spec_trie().spec_data(u)),
                        ),
                decreases inflected@.len() - k,
            {
                let ghost e = li[k as int];
                let ghost pre = *self;
                self.insert_one(
                    &inflected[k].0,
                    &pos,
                    &lemma,
                    &sense_text,
                    freq,
                    &inflected[k].1,
                    Ghost(e),
                );
                proof {
                    assert(li.take(k + 1) =~= li.take(k as int) + seq![e]);
                    assert forall|u: Seq<Seq<char>>|
                        self.spec_trie().spec_has(u) == (old(self).spec_trie().spec_has(u)
                            || word_in_inss(li.take(k + 1), u)) by {
                        lemma_word_in_concat(li.take(k as int), seq![e], u);
                        if word_in_inss(seq![e], u) {
                            assert(seq![e][0].word == u);
                        }
                        if u == e.word {
                            assert(seq![e][0].word == u);
                        }
                    }
                    assert forall|u: Seq<Seq<char>>|
                        opt_wd(self.spec_trie().spec_data(u)) == wd_fold(
                        li.take(k + 1),
                        u,
                        opt_wd(old(self).spec_trie().spec_data(u)),
                    ) by {
                        lemma_wd_fold_concat(
                            li.take(k as int),
                            seq![e],
                            u,
                            opt_wd(old(self).spec_trie().spec_data(u)),
                        );
                        let mid = wd_fold(
                            li.take(k as int),
                            u,
                            opt_wd(old(self).spec_trie().spec_data(u)),
                        );
                        reveal_with_fuel(wd_fold, 3);
                        assert(seq![e][0] == e);
                        assert(seq![e].drop_first() =~= Seq::<InsModel>::empty());
                        assert(wd_fold(seq![e], u, mid) == (if e.word == u {
                            Some(wd_after_ins(mid, e))
                        } else {
                            mid
                        }));
                        assert(mid == opt_wd(pre.spec_trie().spec_data(u)));
                    }
                }
                k = k + 1;
            }
            proof {
                assert(li.take(li.len() as int) =~= li);
            }
        } else {
            let syls = crate::token::split_syllables(form.as_str());
            if syls.len() == 0 {
                proof {
                    assert(li =~= Seq::<InsModel>::empty());
                    assert forall|u: Seq<Seq<char>>|
                        opt_wd(self.spec_trie().spec_data(u)) == wd_fold(
                        li,
                        u,
                        opt_wd(self.spec_trie().spec_data(u)),
                    ) by {}
                }
                return ;
            }
            let ghost e = li[0];
            proof {
                assert(li =~= seq![e]);
                assert(e.word == views_of(syls@));
            }
            let none_affix: Option<crate::syllable::AffixData> = None;
            let ghost pre = *self;
            self.insert_one(&syls, &pos, &lemma, &sense_text, freq, &none_affix, Ghost(e));
            proof {
                assert forall|u: Seq<Seq<char>>|
                    self.spec_trie().spec_has(u) == (old(self).spec_trie().spec_has(u)
                        || word_in_inss(li, u)) by {
                    if word_in_inss(li, u) {
                        assert(li[0].word == u);
                    }
                    if u == e.word {
                        assert(li[0].word == u);
                    }
                }
                assert forall|u: Seq<Seq<char>>|
                    opt_wd(self.spec_trie().spec_data(u)) == wd_fold(
                    li,
                    u,
                    opt_wd(old(self).spec_trie().spec_data(u)),
                ) by {
                    reveal_with_fuel(wd_fold, 3);
                    assert(li[0] == e);
                    assert(li.drop_first() =~= Seq::<InsModel>::empty());
                    assert(wd_fold(li, u, opt_wd(old(self).spec_trie().spec_data(u))) == (
                    if e.word == u {
                        Some(
                            wd_after_ins(opt_wd(old(self).spec_trie().spec_data(u)), e),
                        )
                    } else {
                        opt_wd(old(self).spec_trie().spec_data(u))
                    }));
                }
            }
        }
    }

    /// Load tab-separated entries: one word per line, fields
    /// `form, tag, lemma, sense, frequency`; `#` lines and blank lines
    /// are skipped, and with inflection on every affixed form of each
    /// entry is inserted too — exactly the insertions `spec_insertions`
    /// lists, landing as `wd_fold` says.
    pub fn load_tsv(&mut self, tsv_content: &str)
        requires
            old(self).wf(),
        ensures
            final(self).wf(),
            final(self).spec_inflect() == old(self).spec_inflect(),
            final(self).spec_roots() == old(self).spec_roots(),
            forall|u: Seq<Seq<char>>|
                final(self).spec_trie().spec_has(u) == (old(self).spec_trie().spec_has(u)
                    || word_in_inss(
                    spec_insertions(
                        tsv_content@,
                        old(self).spec_inflect(),
                        old(self).spec_roots(),
                    ),
                    u,
                )),
            forall|u: Seq<Seq<char>>|
                opt_wd(final(self).spec_trie().spec_data(u)) == wd_fold(
                    spec_insertions(
                        tsv_content@,
                        old(self).spec_inflect(),
                        old(self).spec_roots(),
                    ),
                    u,
                    opt_wd(old(self).spec_trie().spec_data(u)),
                ),
    {
        let chars = crate::strutil::str_chars(tsv_content);
        self.load_from(&chars, 0);
    }

    /// Load every line from position `p` on: the line up to the next
    /// line break, then the rest.
    fn load_from(&mut self, chars: &Vec<char>, p: usize)
        requires
            old(self).wf(),
            p <= chars@.len(),
        ensures
            final(self).wf(),
            final(self).spec_inflect() == old(self).spec_inflect(),
            final(self).spec_roots() == old(self).spec_roots(),
            forall|u: Seq<Seq<char>>|
                final(self).spec_trie().spec_has(u) == (old(self).spec_trie().spec_has(u)
                    || word_in_inss(
                    spec_insertions_from(
                        chars@,
                        p as int,
                        old(self).spec_inflect(),
                        old(self).spec_roots(),
                    ),
                    u,
                )),
            forall|u: Seq<Seq<char>>|
                opt_wd(final(self).spec_trie().spec_data(u)) == wd_fold(
                    spec_insertions_from(
                        chars@,
                        p as int,
                        old(self).spec_inflect(),
                        old(self).spec_roots(),
                    ),
                    u,
                    opt_wd(old(self).spec_trie().spec_data(u)),
                ),
        decreases chars@.len() + 1 - p,
    {
        let ghost s = chars@;
        let ghost inflect0 = self.spec_inflect();
        let ghost roots0 = self.spec_roots();
        let ghost whole = spec_insertions_from(s, p as int, inflect0, roots0);
        let n = chars.len();
        let mut q = p;
        while q < n && chars[q] != '\n'
            invariant
                p <= q <= n,
                n == chars@.len(),
                chars@ == s,
                nl_end(s, p as int) == nl_end(s, q as int),
            decreases n - q,
        {
            q = q + 1;
        }
        proof {
            assert(q as int == nl_end(s, p as int));
        }
        let ghost li = line_inss(s, p as int, q as int, inflect0, roots0);
        let ghost rest = if (q as int) < s.len() {
            spec_insertions_from(s, q + 1 as int, inflect0, roots0)
        } else {
            Seq::<InsModel>::empty()
        };
        proof {
            assert(whole == line_inss(s, p as int, nl_end(s, p as int), inflect0, roots0) + (
            if nl_end(s, p as int) < s.len() {
                spec_insertions_from(s, nl_end(s, p as int) + 1, inflect0, roots0)
            } else {
                Seq::<InsModel>::empty()
            }));
            assert(whole == li + rest);
        }
        self.load_line(chars, p, q);
        let ghost mid = *self;
        if q < n {
            self.load_from(chars, q + 1);
            proof {
                assert forall|u: Seq<Seq<char>>|
                    self.spec_trie().spec_has(u) == (old(self).spec_trie().spec_has(u)
                        || word_in_inss(whole, u)) by {
                    lemma_word_in_concat(li, rest, u);
                    assert(mid.spec_trie().spec_has(u) == (old(self).spec_trie().spec_has(u)
                        || word_in_inss(li, u)));
                    assert(self.spec_trie().spec_has(u) == (mid.spec_trie().spec_has(u)
                        || word_in_inss(rest, u)));
                }
                assert forall|u: Seq<Seq<char>>|
                    opt_wd(self.spec_trie().spec_data(u)) == wd_fold(
                    whole,
                    u,
                    opt_wd(old(self).spec_trie().spec_data(u)),
                ) by {
                    lemma_wd_fold_concat(
                        li,
                        rest,
                        u,
                        opt_wd(old(self).spec_trie().spec_data(u)),
                    );
                    assert(opt_wd(mid.spec_trie().spec_data(u)) == wd_fold(
                        li,
                        u,
                        opt_wd(old(self).spec_trie().spec_data(u)),
                    ));
                    assert(opt_wd(self.spec_trie().spec_data(u)) == wd_fold(
                        rest,
                        u,
                        opt_wd(mid.spec_trie().spec_data(u)),
                    ));
                }
            }
        } else {
            proof {
                assert(rest =~= Seq::<InsModel>::empty());
                assert(whole =~= li);
                assert forall|u: Seq<Seq<char>>|
                    self.spec_trie().spec_has(u) == (old(self).spec_trie().spec_has(u)
                        || word_in_inss(whole, u)) by {
                    assert(self.spec_trie().spec_has(u) == (old(self).spec_trie().spec_has(u)
                        || word_in_inss(li, u)));
                }
                assert forall|u: Seq<Seq<char>>|
                    opt_wd(self.spec_trie().spec_data(u)) == wd_fold(
                    whole,
                    u,
                    opt_wd(old(self).spec_trie().spec_data(u)),
                ) by {
                    assert(opt_wd(self.spec_trie().spec_data(u)) == wd_fold(
                        li,
                        u,
                        opt_wd(old(self).spec_trie().spec_data(u)),
                    ));
                }
            }
        }
    }

    /// Insert a word and, with inflection on, all its affixed forms,
    /// each carrying the given data with its own affixation record.
    pub fn add_inflected_word(&mut self, word: &str, data: Option<WordData>)
        requires
            old(self).wf(),
        ensures
            final(self).wf(),
            final(self).spec_inflect() == old(self).spec_inflect(),
            final(self).spec_roots() == old(self).spec_roots(),
            old(self).spec_inflect() ==> forall|u: Seq<Seq<char>>|
                final(self).spec_trie().spec_has(u) == (old(self).spec_trie().spec_has(u)
                    || word_in_forms(spec_inflected(old(self).spec_roots(), word@), u)),
            old(self).spec_inflect() ==> forall|u: Seq<Seq<char>>|
                opt_wd(final(self).spec_trie().spec_data(u)) == add_fold(
                    spec_inflected(old(self).spec_roots(), word@),
                    opt_wd(data),
                    u,
                    opt_wd(old(self).spec_trie().spec_data(u)),
                ),
            !old(self).spec_inflect() ==> ({
                let w = crate::token::spec_split_tsek(word@, 0);
                if w.len() > 0 {
                    &&& forall|u: Seq<Seq<char>>|
                        final(self).spec_trie().spec_has(u) == (old(
                            self,
                        ).spec_trie().spec_has(u) || u == w)
                    &&& forall|u: Seq<Seq<char>>|
                        u != w ==> final(self).spec_trie().spec_data(u) == old(
                            self,
                        ).spec_trie().spec_data(u)
                    &&& final(self).spec_trie().spec_data(w) == (if data is Some {
                        data
                    } else {
                        old(self).spec_trie().spec_data(w)
                    })
                } else {
                    &&& forall|u: Seq<Seq<char>>|
                        final(self).spec_trie().spec_has(u) == old(self).spec_trie().spec_has(
                            u,
                        )
                    &&& forall|u: Seq<Seq<char>>|
                        final(self).spec_trie().spec_data(u) == old(self).spec_trie().spec_data(
                            u,
                        )
                }
            }),
    {
        if self.inflect {
            let ghost list = spec_inflected(self.spec_roots(), word@);
            let inflected = self.get_inflected(word);
            let mut k: usize = 0;
            proof {
                assert(list.take(0) =~= Seq::<(Seq<Seq<char>>, Option<AffixInfoModel>)>::empty());
            }
            while k < inflected.len()
                invariant
                    k <= inflected@.len(),
                    self.wf(),
                    self.spec_inflect() == old(self).spec_inflect(),
                    self.spec_roots() == old(self).spec_roots(),
                    old(self).spec_inflect(),
                    list == spec_inflected(old(self).spec_roots(), word@),
                    inflected@.len() == list.len(),
                    forall|i: int|
                        0 <= i < inflected@.len() ==> views_of((#[trigger] inflected@[i]).0@)
                            == list[i].0 && opt_ad_model(inflected@[i].1) == list[i].1
                            && inflected@[i].0@.len() > 0,
                    forall|u: Seq<Seq<char>>|
                        self.spec_trie().spec_has(u) == (old(self).spec_trie().spec_has(u)
                            || word_in_forms(list.take(k as int), u)),
                    forall|u: Seq<Seq<char>>|
                        opt_wd(self.spec_trie().spec_data(u)) == add_fold(
                            list.take(k as int),
                            opt_wd(data),
                            u,
                            opt_wd(old(self).spec_trie().spec_data(u)),
                        ),
                decreases inflected@.len() - k,
            {
                let mut word_data = match &data {
                    Some(d) => duplicate_word_data(d),
                    None => WordData {
                        pos: None,
                        lemma: None,
                        freq: None,
                        skrt: false,
                        affixation: None,
                        senses: Vec::new(),
                    },
                };
                word_data.affixation = match &inflected[k].1 {
                    Some(ad) => Some(
                        AffixInfo { len: ad.len, affix_type: ad.affix_type.clone(), aa: ad.aa },
                    ),
                    None => None,
                };
                proof {
                    assert(opt_ad_model(inflected@[k as int].1) == list[k as int].1);
                    assert(opt_affix_model(word_data.affixation) == list[k as int].1);
                    match &data {
                        Some(d) => {
                            assert(senses_models(word_data.senses@) == senses_models(
                                d.senses@,
                            ));
                        },
                        None => {
                            assert(senses_models(word_data.senses@) =~= Seq::<
                                SenseModel,
                            >::empty());
                        },
                    }
                    assert(wd_model(word_data) == wd_overwrite(
                        opt_wd(data),
                        list[k as int].1,
                    ));
                }
                let refs = strs_of(&inflected[k].0);
                let ghost pre = *self;
                let ghost wd_g = word_data;
                self.trie.add(&refs, Some(word_data));
                proof {
                    assert(key_views(refs@) == list[k as int].0);
                    assert(list.take(k + 1) =~= list.take(k as int).push(list[k as int]));
                    assert forall|u: Seq<Seq<char>>|
                        self.spec_trie().spec_has(u) == (old(self).spec_trie().spec_has(u)
                            || word_in_forms(list.take(k + 1), u)) by {
                        if word_in_forms(list.take(k + 1), u) && !word_in_forms(
                            list.take(k as int),
                            u,
                        ) {
                            let i = choose|i: int|
                                0 <= i < list.take(k + 1).len() && (#[trigger] list.take(
                                    k + 1,
                                )[i]).0 == u;
                            assert(i == k as int);
                        }
                        if u == list[k as int].0 {
                            assert(list.take(k + 1)[k as int].0 == u);
                        }
                        if word_in_forms(list.take(k as int), u) {
                            let i = choose|i: int|
                                0 <= i < list.take(k as int).len() && (#[trigger] list.take(
                                    k as int,
                                )[i]).0 == u;
                            assert(list.take(k + 1)[i].0 == u);
                        }
                    }
                    assert forall|u: Seq<Seq<char>>|
                        opt_wd(self.spec_trie().spec_data(u)) == add_fold(
                        list.take(k + 1),
                        opt_wd(data),
                        u,
                        opt_wd(old(self).spec_trie().spec_data(u)),
                    ) by {
                        lemma_add_fold_concat(
                            list.take(k as int),
                            seq![list[k as int]],
                            opt_wd(data),
                            u,
                            opt_wd(old(self).spec_trie().spec_data(u)),
                        );
                        assert(list.take(k + 1) =~= list.take(k as int) + seq![
                            list[k as int],
                        ]);
                        reveal_with_fuel(add_fold, 3);
                        assert(seq![list[k as int]][0] == list[k as int]);
                        assert(seq![list[k as int]].drop_first() =~= Seq::<
                            (Seq<Seq<char>>, Option<AffixInfoModel>),
                        >::empty());
                        let mid = add_fold(
                            list.take(k as int),
                            opt_wd(data),
                            u,
                            opt_wd(old(self).spec_trie().spec_data(u)),
                        );
                        assert(mid == opt_wd(pre.spec_trie().spec_data(u)));
                        if u == list[k as int].0 {
                            assert(self.spec_trie().spec_data(u) == Some(wd_g));
                        }
                    }
                }
                k = k + 1;
            }
            proof {
                assert(list.take(list.len() as int) =~= list);
            }
        } else {
            self.trie.add_word(word, data);
        }
    }

    /// Clear the leaf mark of a word and, with inflection on, of all
    /// its affixed forms; the kept data and every other word are
    /// untouched.
    pub fn deactivate_inflected_word(&mut self, word: &str)
        requires
            old(self).wf(),
        ensures
            final(self).wf(),
            final(self).spec_inflect() == old(self).spec_inflect(),
            final(self).spec_roots() == old(self).spec_roots(),
            forall|u: Seq<Seq<char>>|
                final(self).spec_trie().spec_data(u) == old(self).spec_trie().spec_data(u),
            old(self).spec_inflect() ==> forall|u: Seq<Seq<char>>|
                final(self).spec_trie().spec_has(u) == (old(self).spec_trie().spec_has(u)
                    && !word_in_forms(spec_inflected(old(self).spec_roots(), word@), u)),
            !old(self).spec_inflect() ==> forall|u: Seq<Seq<char>>|
                final(self).spec_trie().spec_has(u) == (old(self).spec_trie().spec_has(u) && u
                    != crate::token::spec_split_tsek(word@, 0)),
    {
        if self.inflect {
            let ghost list = spec_inflected(self.spec_roots(), word@);
            let inflected = self.get_inflected(word);
            let mut k: usize = 0;
            while k < inflected.len()
                invariant
                    k <= inflected@.len(),
                    self.wf(),
                    self.spec_inflect() == old(self).spec_inflect(),
                    self.spec_roots() == old(self).spec_roots(),
                    list == spec_inflected(old(self).spec_roots(), word@),
                    inflected@.len() == list.len(),
                    forall|i: int|
                        0 <= i < inflected@.len() ==> views_of((#[trigger] inflected@[i]).0@)
                            == list[i].0,
                    forall|u: Seq<Seq<char>>|
                        self.spec_trie().spec_data(u) == old(self).spec_trie().spec_data(u),
                    forall|u: Seq<Seq<char>>|
                        self.spec_trie().spec_has(u) == (old(self).spec_trie().spec_has(u)
                            && !word_in_forms(list.take(k as int), u)),
                decreases inflected@.len() - k,
            {
                let refs = strs_of(&inflected[k].0);
                let _ = self.trie.deactivate(&refs);
                proof {
                    assert(key_views(refs@) == list[k as int].0);
                    assert(list.take(k + 1) =~= list.take(k as int).push(list[k as int]));
                    assert forall|u: Seq<Seq<char>>|
                        self.spec_trie().spec_has(u) == (old(self).spec_trie().spec_has(u)
                            && !word_in_forms(list.take(k + 1), u)) by {
                        if word_in_forms(list.take(k + 1), u) && !word_in_forms(
                            list.take(k as int),
                            u,
                        ) {
                            let i = choose|i: int|
                                0 <= i < list.take(k + 1).len() && (#[trigger] list.take(
                                    k + 1,
                                )[i]).0 == u;
                            assert(i == k as int);
                        }
                        if u == list[k as int].0 {
                            assert(list.take(k + 1)[k as int].0 == u);
                        }
                        if word_in_forms(list.take(k as int), u) {
                            let i = choose|i: int|
                                0 <= i < list.take(k as int).len() && (#[trigger] list.take(
                                    k as int,
                                )[i]).0 == u;
                            assert(list.take(k + 1)[i].0 == u);
                        }
                    }
                }
                k = k + 1;
            }
            proof {
                assert(list.take(list.len() as int) =~= list);
            }
        } else {
            let syls = crate::token::split_syllables(word);
            let refs = strs_of(&syls);
            let _ = self.trie.deactivate(&refs);
        }
    }

    /// Hand over the built trie.
    pub fn build(self) -> (r: Trie)
        requires
            self.wf(),
        ensures
            r.wf(),
            r == self.spec_trie(),
    {
        self.trie
    }

    /// The trie built so far.
    pub fn trie(&self) -> (r: &Trie)
        ensures
            *r == self.spec_trie(),
    {
        &self.trie
    }
}

/// Folding a concatenation of direct insertions folds the parts in
/// order.
pub proof fn lemma_add_fold_concat(
    a: Seq<(Seq<Seq<char>>, Option<AffixInfoModel>)>,
    b: Seq<(Seq<Seq<char>>, Option<AffixInfoModel>)>,
    base: Option<WdModel>,
    u: Seq<Seq<char>>,
    d0: Option<WdModel>,
)
    ensures
        add_fold(a + b, base, u, d0) == add_fold(b, base, u, add_fold(a, base, u, d0)),
    decreases a.len(),
{
    if a.len() == 0 {
        assert(a + b =~= b);
    } else {
        assert((a + b)[0] == a[0]);
        assert((a + b).drop_first() =~= a.drop_first() + b);
        let d1 = if a[0].0 == u {
            Some(wd_overwrite(base, a[0].1))
        } else {
            d0
        };
        lemma_add_fold_concat(a.drop_first(), b, base, u, d1);
    }
}


/// Copies of the strings of a vector, preserving the values.
fn clone_string_vec(v: &Vec<String>) -> (r: Vec<String>)
    ensures
        r@ == v@,
{
    let mut r: Vec<String> = Vec::new();
    let mut i: usize = 0;
    while i < v.len()
        invariant
            i <= v@.len(),
            r@ == v@.take(i as int),
        decreases v@.len() - i,
    {
        r.push(v[i].clone());
        proof {
            assert(r@ =~= v@.take(i + 1 as int));
        }
        i = i + 1;
    }
    proof {
        assert(v@.take(v@.len() as int) =~= v@);
    }
    r
}


/// A sense, by its characters.
pub ghost struct SenseModel {
    /// Part of speech
    pub pos: Option<Seq<char>>,
    /// Lemma
    pub lemma: Option<Seq<char>>,
    /// Frequency
    pub freq: Option<u32>,
    /// Sense gloss
    pub sense: Option<Seq<char>>,
    /// Meaning gloss
    pub meaning: Option<Seq<char>>,
    /// Whether the sense belongs to an affixed inflection
    pub affixed: bool,
}

/// Affix information, by its characters.
pub ghost struct AffixInfoModel {
    /// Length of the affix in characters
    pub len: int,
    /// Name of the affix kind
    pub affix_type: Seq<char>,
    /// Whether a final a-chung was elided
    pub aa: bool,
}

/// A word's dictionary data, by its characters.
pub ghost struct WdModel {
    /// Part of speech
    pub pos: Option<Seq<char>>,
    /// Lemma
    pub lemma: Option<Seq<char>>,
    /// Frequency
    pub freq: Option<u32>,
    /// Sanskrit flag
    pub skrt: bool,
    /// Affixation of an inflected entry
    pub affixation: Option<AffixInfoModel>,
    /// The senses
    pub senses: Seq<SenseModel>,
}

/// View of an optional string.
pub open spec fn opt_chars(o: Option<String>) -> Option<Seq<char>> {
    match o {
        Some(s) => Some(s@),
        None => None,
    }
}

/// The model of one sense.
pub open spec fn sense_model(s: Sense) -> SenseModel {
    SenseModel {
        pos: opt_chars(s.pos),
        lemma: opt_chars(s.lemma),
        freq: s.freq,
        sense: opt_chars(s.sense),
        meaning: opt_chars(s.meaning),
        affixed: s.affixed,
    }
}

/// The models of a sense list.
pub open spec fn senses_models(v: Seq<Sense>) -> Seq<SenseModel> {
    Seq::new(v.len(), |i: int| sense_model(v[i]))
}

/// The model of affix information.
pub open spec fn affix_info_model(a: AffixInfo) -> AffixInfoModel {
    AffixInfoModel { len: a.len as int, affix_type: a.affix_type@, aa: a.aa }
}

/// The model of optional affix information.
pub open spec fn opt_affix_model(a: Option<AffixInfo>) -> Option<AffixInfoModel> {
    match a {
        Some(x) => Some(affix_info_model(x)),
        None => None,
    }
}

/// The model of a word's data.
pub open spec fn wd_model(d: WordData) -> WdModel {
    WdModel {
        pos: opt_chars(d.pos),
        lemma: opt_chars(d.lemma),
        freq: d.freq,
        skrt: d.skrt,
        affixation: opt_affix_model(d.affixation),
        senses: senses_models(d.senses@),
    }
}

/// The model of a word's optional data.
pub open spec fn opt_wd(d: Option<WordData>) -> Option<WdModel> {
    match d {
        Some(x) => Some(wd_model(x)),
        None => None,
    }
}

/// One dictionary insertion: the word as syllables, the line's fields,
/// and the affixation of an inflected form.
pub ghost struct InsModel {
    /// The word, syllable by syllable
    pub word: Seq<Seq<char>>,
    /// The line's tag field
    pub pos: Option<Seq<char>>,
    /// The line's lemma field
    pub lemma: Option<Seq<char>>,
    /// The line's sense field
    pub sense: Option<Seq<char>>,
    /// The line's parsed frequency
    pub freq: Option<u32>,
    /// The affixation of an inflected form
    pub affix: Option<AffixInfoModel>,
    /// Whether this insertion is an affixed inflection
    pub affixed: bool,
}

/// The sense one insertion appends.
pub open spec fn ins_sense(e: InsModel) -> SenseModel {
    SenseModel {
        pos: e.pos,
        lemma: None,
        freq: e.freq,
        sense: e.sense,
        meaning: None,
        affixed: e.affixed,
    }
}

/// A word's data after one insertion lands on it: a fresh entry takes
/// the line's fields, an existing entry keeps its own and only fills
/// the missing ones; the sense is appended either way.
pub open spec fn wd_after_ins(d0: Option<WdModel>, e: InsModel) -> WdModel {
    match d0 {
        None => WdModel {
            pos: e.pos,
            lemma: e.lemma,
            freq: e.freq,
            skrt: false,
            affixation: e.affix,
            senses: seq![ins_sense(e)],
        },
        Some(ed) => WdModel {
            pos: if ed.pos is Some {
                ed.pos
            } else {
                e.pos
            },
            lemma: if ed.lemma is Some {
                ed.lemma
            } else {
                e.lemma
            },
            freq: if ed.freq is Some {
                ed.freq
            } else {
                e.freq
            },
            skrt: ed.skrt,
            affixation: ed.affixation,
            senses: ed.senses.push(ins_sense(e)),
        },
    }
}

/// Whether some insertion of the list is for the given word.
pub open spec fn word_in_inss(inss: Seq<InsModel>, u: Seq<Seq<char>>) -> bool {
    exists|i: int| 0 <= i < inss.len() && (#[trigger] inss[i]).word == u
}

/// A word's data after a list of insertions lands, left to right.
pub open spec fn wd_fold(inss: Seq<InsModel>, u: Seq<Seq<char>>, d0: Option<WdModel>)
    -> Option<WdModel>
    decreases inss.len(),
{
    if inss.len() == 0 {
        d0
    } else {
        wd_fold(
            inss.drop_first(),
            u,
            if inss[0].word == u {
                Some(wd_after_ins(d0, inss[0]))
            } else {
                d0
            },
        )
    }
}

/// Folding a concatenation folds the parts in order.
pub proof fn lemma_wd_fold_concat(
    a: Seq<InsModel>,
    b: Seq<InsModel>,
    u: Seq<Seq<char>>,
    d0: Option<WdModel>,
)
    ensures
        wd_fold(a + b, u, d0) == wd_fold(b, u, wd_fold(a, u, d0)),
    decreases a.len(),
{
    if a.len() == 0 {
        assert(a + b =~= b);
    } else {
        assert((a + b)[0] == a[0]);
        assert((a + b).drop_first() =~= a.drop_first() + b);
        let d1 = if a[0].word == u {
            Some(wd_after_ins(d0, a[0]))
        } else {
            d0
        };
        lemma_wd_fold_concat(a.drop_first(), b, u, d1);
    }
}

/// A word occurs in a concatenation when it occurs in either part.
pub proof fn lemma_word_in_concat(a: Seq<InsModel>, b: Seq<InsModel>, u: Seq<Seq<char>>)
    ensures
        word_in_inss(a + b, u) == (word_in_inss(a, u) || word_in_inss(b, u)),
{
    if word_in_inss(a + b, u) {
        let i = choose|i: int| 0 <= i < (a + b).len() && (#[trigger] (a + b)[i]).word == u;
        if i < a.len() {
            assert(a[i].word == u);
        } else {
            assert(b[i - a.len()].word == u);
        }
    }
    if word_in_inss(a, u) {
        let i = choose|i: int| 0 <= i < a.len() && (#[trigger] a[i]).word == u;
        assert((a + b)[i].word == u);
    }
    if word_in_inss(b, u) {
        let i = choose|i: int| 0 <= i < b.len() && (#[trigger] b[i]).word == u;
        assert((a + b)[a.len() + i].word == u);
    }
}

/// Lifting `spec_merged_entry` to the model level: when the inserted
/// data and sense are built from an insertion's fields, the merged
/// entry is `wd_after_ins` of that insertion.
pub proof fn lemma_merged_entry_model(
    nd: WordData,
    old_d: Option<WordData>,
    d: WordData,
    s: Sense,
    e: InsModel,
)
    requires
        spec_merged_entry(nd, old_d, d, s),
        opt_chars(d.pos) == e.pos,
        opt_chars(d.lemma) == e.lemma,
        d.freq == e.freq,
        !d.skrt,
        opt_affix_model(d.affixation) == e.affix,
        d.senses@.len() == 0,
        sense_model(s) == ins_sense(e),
    ensures
        wd_model(nd) == wd_after_ins(opt_wd(old_d), e),
{
    match old_d {
        None => {
            assert(senses_models(nd.senses@) =~= seq![ins_sense(e)]) by {
                assert(nd.senses@ =~= d.senses@.push(s));
                assert(nd.senses@.len() == 1);
                assert(nd.senses@[0] == s);
            }
        },
        Some(ed) => {
            assert(senses_models(nd.senses@) =~= senses_models(ed.senses@).push(
                ins_sense(e),
            )) by {
                assert(nd.senses@ =~= ed.senses@.push(s));
                assert(forall|i: int|
                    0 <= i < ed.senses@.len() ==> (#[trigger] nd.senses@[i]) == ed.senses@[i]);
                assert(nd.senses@[ed.senses@.len() as int] == s);
            }
        },
    }
}


/// Position of the first line break at or after `i`, or the end.
pub open spec fn nl_end(s: Seq<char>, i: int) -> int
    decreases s.len() - i,
{
    if 0 <= i < s.len() {
        if s[i] == '\n' {
            i
        } else {
            nl_end(s, i + 1)
        }
    } else {
        s.len() as int
    }
}

/// Bounds and characterization of `nl_end`.
pub proof fn lemma_nl_end(s: Seq<char>, i: int)
    requires
        0 <= i <= s.len(),
    ensures
        i <= nl_end(s, i) <= s.len(),
        forall|k: int| i <= k < nl_end(s, i) ==> s[k] != '\n',
        nl_end(s, i) < s.len() ==> s[nl_end(s, i)] == '\n',
    decreases s.len() - i,
{
    if i < s.len() && s[i] != '\n' {
        lemma_nl_end(s, i + 1);
    }
}

/// First non-whitespace position in `[lo, hi)`, or `hi`.
pub open spec fn ws_start(s: Seq<char>, lo: int, hi: int) -> int
    decreases hi - lo,
{
    if lo < hi && 0 <= lo < s.len() && spec_is_ws(s[lo]) {
        ws_start(s, lo + 1, hi)
    } else {
        lo
    }
}

/// Bounds of `ws_start`.
pub proof fn lemma_ws_start(s: Seq<char>, lo: int, hi: int)
    requires
        0 <= lo <= hi <= s.len(),
    ensures
        lo <= ws_start(s, lo, hi) <= hi,
    decreases hi - lo,
{
    if lo < hi && spec_is_ws(s[lo]) {
        lemma_ws_start(s, lo + 1, hi);
    }
}

/// One past the last non-whitespace position in `[lo, hi)`, or `lo`.
pub open spec fn ws_end(s: Seq<char>, lo: int, hi: int) -> int
    decreases hi,
{
    if hi > lo && 0 <= hi - 1 < s.len() && hi >= 1 && spec_is_ws(s[hi - 1]) {
        ws_end(s, lo, hi - 1)
    } else {
        hi
    }
}

/// Bounds of `ws_end`.
pub proof fn lemma_ws_end(s: Seq<char>, lo: int, hi: int)
    requires
        0 <= lo <= hi <= s.len(),
    ensures
        lo <= ws_end(s, lo, hi) <= hi,
    decreases hi,
{
    if hi > lo && spec_is_ws(s[hi - 1]) {
        lemma_ws_end(s, lo, hi - 1);
    }
}

/// Position of the first tab in `[lo, hi)`, or `hi`.
pub open spec fn first_tab(s: Seq<char>, lo: int, hi: int) -> int
    decreases hi - lo,
{
    if lo < hi && 0 <= lo < s.len() {
        if s[lo] == '\t' {
            lo
        } else {
            first_tab(s, lo + 1, hi)
        }
    } else {
        hi
    }
}

/// Bounds and characterization of `first_tab`.
pub proof fn lemma_first_tab(s: Seq<char>, lo: int, hi: int)
    requires
        0 <= lo <= hi <= s.len(),
    ensures
        lo <= first_tab(s, lo, hi) <= hi,
        forall|k: int| lo <= k < first_tab(s, lo, hi) ==> s[k] != '\t',
        first_tab(s, lo, hi) < hi ==> s[first_tab(s, lo, hi)] == '\t',
    decreases hi - lo,
{
    if lo < hi && s[lo] != '\t' {
        lemma_first_tab(s, lo + 1, hi);
    }
}

/// The tab-separated fields of `[lo, hi)`, as index pairs; empty
/// fields are kept.
pub open spec fn spec_fields(s: Seq<char>, lo: int, hi: int) -> Seq<(int, int)>
    decreases hi - lo,
        via spec_fields_dec
{
    if 0 <= lo <= hi <= s.len() {
        let ft = first_tab(s, lo, hi);
        if ft < hi {
            seq![(lo, ft)] + spec_fields(s, ft + 1, hi)
        } else {
            seq![(lo, hi)]
        }
    } else {
        Seq::empty()
    }
}

#[via_fn]
proof fn spec_fields_dec(s: Seq<char>, lo: int, hi: int) {
    if 0 <= lo <= hi <= s.len() {
        lemma_first_tab(s, lo, hi);
    }
}

/// The fields lie within `[lo, hi)`, in order.
pub proof fn lemma_spec_fields(s: Seq<char>, lo: int, hi: int)
    requires
        0 <= lo <= hi <= s.len(),
    ensures
        spec_fields(s, lo, hi).len() >= 1,
        forall|i: int|
            0 <= i < spec_fields(s, lo, hi).len() ==> lo <= (#[trigger] spec_fields(
                s,
                lo,
                hi,
            )[i]).0 <= spec_fields(s, lo, hi)[i].1 <= hi,
    decreases hi - lo,
{
    lemma_first_tab(s, lo, hi);
    let ft = first_tab(s, lo, hi);
    if ft < hi {
        lemma_spec_fields(s, ft + 1, hi);
        assert(forall|i: int|
            0 <= i < spec_fields(s, ft + 1, hi).len() ==> (#[trigger] spec_fields(s, lo, hi)[i
                + 1]) == spec_fields(s, ft + 1, hi)[i]);
    }
}

/// The value of an optional field: absent when missing or empty.
pub open spec fn field_opt_spec(s: Seq<char>, fs: Seq<(int, int)>, i: int) -> Option<
    Seq<char>,
> {
    if 0 <= i < fs.len() && fs[i].0 < fs[i].1 {
        Some(s.subrange(fs[i].0, fs[i].1))
    } else {
        None
    }
}

/// The parsed frequency field: trimmed, then read as a number.
pub open spec fn field_freq_spec(s: Seq<char>, fs: Seq<(int, int)>, i: int) -> Option<u32> {
    if 0 <= i < fs.len() {
        let a2 = ws_start(s, fs[i].0, fs[i].1);
        let b2 = ws_end(s, a2, fs[i].1);
        spec_parse_u32(s.subrange(a2, b2))
    } else {
        None
    }
}

/// Every inflected form of a word: the word itself first, then, when
/// the last syllable can take a particle, each affixed variant of the
/// particle table with its affix data.
pub open spec fn spec_inflected(roots: Seq<Seq<char>>, w: Seq<char>) -> Seq<
    (Seq<Seq<char>>, Option<AffixInfoModel>),
> {
    let syls = spec_split_tsek(w, 0);
    if syls.len() == 0 {
        Seq::empty()
    } else {
        let base = seq![(syls, Option::<AffixInfoModel>::None)];
        if spec_is_affixable(roots, syls.last()) {
            base + Seq::new(
                spec_affix_table().len(),
                |i: int|
                    (
                        syls.drop_last().push(
                            spec_affix_base(syls.last()) + spec_affix_table()[i].0,
                        ),
                        Some(
                            AffixInfoModel {
                                len: spec_affix_table()[i].1,
                                affix_type: spec_affix_table()[i].2,
                                aa: spec_affix_aa(syls.last()),
                            },
                        ),
                    ),
            )
        } else {
            base
        }
    }
}

/// The insertions one line of a word list asks for: nothing for a
/// blank or `#` line; otherwise the form's word — expanded to all its
/// inflected forms when inflection is on — with the line's fields.
pub open spec fn line_inss(s: Seq<char>, p: int, q: int, inflect: bool, roots: Seq<Seq<char>>)
    -> Seq<InsModel> {
    let a = ws_start(s, p, q);
    let b = ws_end(s, a, q);
    if a >= b || s[a] == '#' {
        Seq::empty()
    } else {
        let fs = spec_fields(s, a, b);
        let form = s.subrange(fs[0].0, fs[0].1);
        let pos = field_opt_spec(s, fs, 1);
        let lemma = field_opt_spec(s, fs, 2);
        let sense = field_opt_spec(s, fs, 3);
        let freq = field_freq_spec(s, fs, 4);
        if inflect {
            Seq::new(
                spec_inflected(roots, form).len(),
                |k: int|
                    InsModel {
                        word: spec_inflected(roots, form)[k].0,
                        pos: pos,
                        lemma: lemma,
                        sense: sense,
                        freq: freq,
                        affix: spec_inflected(roots, form)[k].1,
                        affixed: spec_inflected(roots, form)[k].1 is Some,
                    },
            )
        } else {
            let syls = spec_split_tsek(form, 0);
            if syls.len() == 0 {
                Seq::empty()
            } else {
                seq![
                    InsModel {
                        word: syls,
                        pos: pos,
                        lemma: lemma,
                        sense: sense,
                        freq: freq,
                        affix: None,
                        affixed: false,
                    },
                ]
            }
        }
    }
}

/// The insertions of a whole word list from position `p` on: one line
/// up to the next line break, then the rest.
pub open spec fn spec_insertions_from(
    s: Seq<char>,
    p: int,
    inflect: bool,
    roots: Seq<Seq<char>>,
) -> Seq<InsModel>
    decreases s.len() - p,
        via spec_insertions_from_dec
{
    if 0 <= p <= s.len() {
        let q = nl_end(s, p);
        line_inss(s, p, q, inflect, roots) + (if q < s.len() {
            spec_insertions_from(s, q + 1, inflect, roots)
        } else {
            Seq::empty()
        })
    } else {
        Seq::empty()
    }
}

#[via_fn]
proof fn spec_insertions_from_dec(s: Seq<char>, p: int, inflect: bool, roots: Seq<Seq<char>>) {
    if 0 <= p <= s.len() {
        lemma_nl_end(s, p);
    }
}

/// The insertions of a whole word list.
pub open spec fn spec_insertions(s: Seq<char>, inflect: bool, roots: Seq<Seq<char>>) -> Seq<
    InsModel,
> {
    spec_insertions_from(s, 0, inflect, roots)
}

} // verus!





