//! A prefix trie over strings of Unicode scalar values.
//!
//! Each non-root node carries one character and is tagged terminal when the
//! path from the root to it spells an inserted string, internal when that
//! path is only a proper prefix of one. Inserting a prefix of an existing
//! path promotes the node it ends at from internal to terminal in place;
//! nothing is ever demoted. The children of a node are held in a vector
//! keyed by each child's own character, with the characters unique at every
//! level.

use vstd::prelude::*;

verus! {

/// The tag of a trie node: the end of an inserted string, a proper prefix
/// of one, or the root sentinel.
enum Value {
    Terminal(char),
    Internal(char),
    Root,
}

struct Node {
    value: Value,
    children: Vec<Node>,
}

/// A prefix set of non-empty strings. Its view is the set of inserted
/// strings, as sequences of characters.
pub struct StrTrie {
    root: Node,
}

impl Node {
    /// The character this node carries; meaningless for the root.
    spec fn key(self) -> char {
        match self.value {
            Value::Terminal(c) => c,
            Value::Internal(c) => c,
            Value::Root => arbitrary(),
        }
    }

    /// Whether this node ends an inserted string.
    spec fn is_terminal_spec(self) -> bool {
        self.value is Terminal
    }

    /// Whether this node carries a character, i.e. is not a root.
    spec fn is_tagged(self) -> bool {
        !(self.value is Root)
    }

    /// The character this node carries.
    fn char_key(&self) -> (c: char)
        requires
            self.is_tagged(),
        ensures
            c == self.key(),
    {
        match &self.value {
            Value::Terminal(c) => *c,
            Value::Internal(c) => *c,
            Value::Root => unreached(),
        }
    }

    /// Whether this node ends an inserted string.
    fn is_terminal(&self) -> (b: bool)
        ensures
            b == self.is_terminal_spec(),
    {
        match &self.value {
            Value::Terminal(_) => true,
            _ => false,
        }
    }
}

/// Whether some node among `kids` carries the character `c`.
spec fn has_key(kids: Seq<Node>, c: char) -> bool {
    exists|i: int| 0 <= i < kids.len() && (#[trigger] kids[i]).key() == c
}

/// The position among `kids` of a node carrying `c`; under `kids_unique`
/// there is at most one.
spec fn index_of_key(kids: Seq<Node>, c: char) -> int {
    choose|i: int| 0 <= i < kids.len() && (#[trigger] kids[i]).key() == c
}

/// Whether the walk for `t` down from the children `kids` — one node per
/// character, each step descending into the child carrying the next one —
/// ends at a terminal node. The empty string is never contained.
spec fn kids_contain(kids: Seq<Node>, t: Seq<char>) -> bool
    decreases t.len(),
{
    &&& t.len() > 0
    &&& has_key(kids, t[0])
    &&& {
        let child = kids[index_of_key(kids, t[0])];
        if t.len() == 1 {
            child.is_terminal_spec()
        } else {
            kids_contain(child.children@, t.drop_first())
        }
    }
}

/// Whether the walk for `t` that starts at the node `n` itself ends at a
/// terminal node: `t` starts with the character `n` carries and the rest of
/// `t` is found under `n`'s children.
spec fn node_matches(n: Node, t: Seq<char>) -> bool {
    &&& t.len() > 0
    &&& n.key() == t[0]
    &&& if t.len() == 1 {
        n.is_terminal_spec()
    } else {
        kids_contain(n.children@, t.drop_first())
    }
}

/// No two nodes among `kids` carry the same character.
spec fn kids_unique(kids: Seq<Node>) -> bool {
    forall|i: int, j: int|
        0 <= i < kids.len() && 0 <= j < kids.len() && i != j ==> (#[trigger] kids[i]).key() != (
        #[trigger] kids[j]).key()
}

/// Every level of the subtree keys its children by distinct characters, and
/// every node below the top carries a character.
spec fn node_wf(n: Node) -> bool
    decreases n,
{
    &&& kids_unique(n.children@)
    &&& forall|i: int|
        0 <= i < n.children@.len() ==> (#[trigger] n.children@[i]).is_tagged() && node_wf(
            n.children@[i],
        )
}

/// A node without children is well formed.
proof fn lemma_wf_leaf(n: Node)
    requires
        n.children@.len() == 0,
    ensures
        node_wf(n),
{
    assert(kids_unique(n.children@));
}

/// A node whose single child is tagged and well formed is well formed.
proof fn lemma_wf_single(n: Node, child: Node)
    requires
        n.children@ == seq![child],
        child.is_tagged(),
        node_wf(child),
    ensures
        node_wf(n),
{
    assert(kids_unique(n.children@));
    assert forall|i: int| 0 <= i < n.children@.len() implies (
    #[trigger] n.children@[i]).is_tagged() && node_wf(n.children@[i]) by {
        assert(n.children@[i] == child);
    }
}

/// Under unique keys, the node found at any position carrying `c` is the
/// one the lookup names.
proof fn lemma_index_of_key(kids: Seq<Node>, c: char, i: int)
    requires
        kids_unique(kids),
        0 <= i < kids.len(),
        kids[i].key() == c,
    ensures
        has_key(kids, c),
        index_of_key(kids, c) == i,
{
    assert(has_key(kids, c));
    let j = index_of_key(kids, c);
    assert(0 <= j < kids.len() && kids[j].key() == c);
}

/// A single node's subtree holds `t` exactly when the walk from the node
/// itself spells `t`.
proof fn lemma_singleton_contain(child: Node, t: Seq<char>)
    ensures
        kids_contain(seq![child], t) == node_matches(child, t),
{
    let kids = seq![child];
    if t.len() > 0 {
        if child.key() == t[0] {
            assert(kids[0] == child && kids[0].key() == t[0]);
            assert(has_key(kids, t[0]));
            let j = index_of_key(kids, t[0]);
            assert(0 <= j < 1 && kids[j].key() == t[0]);
            assert(kids[j] == child);
        } else {
            if has_key(kids, t[0]) {
                let j = choose|j: int| 0 <= j < kids.len() && (#[trigger] kids[j]).key() == t[0];
                assert(kids[j] == child);
                assert(false);
            }
        }
    }
}

impl View for StrTrie {
    type V = Set<Seq<char>>;

    closed spec fn view(&self) -> Set<Seq<char>> {
        Set::new(|t: Seq<char>| kids_contain(self.root.children@, t))
    }
}

impl StrTrie {
    /// The root carries the sentinel tag and every level keys its children
    /// by distinct characters.
    #[verifier::type_invariant]
    spec fn wf(self) -> bool {
        &&& node_wf(self.root)
        &&& self.root.value is Root
    }

    /// Creates a trie holding no strings.
    pub fn new() -> (trie: StrTrie)
        ensures
            trie@ == Set::<Seq<char>>::empty(),
    {
        let trie = StrTrie { root: Node { value: Value::Root, children: Vec::new() } };
        proof {
            assert(trie@ =~= Set::<Seq<char>>::empty());
        }
        trie
    }
}

/// The characters of a string, left to right.
fn chars_of(s: &str) -> (chars: Vec<char>)
    ensures
        chars@ == s@,
{
    let n = s.unicode_len();
    let mut chars: Vec<char> = Vec::new();
    let mut i: usize = 0;
    while i < n
        invariant
            n == s@.len(),
            i <= n,
            chars@ == s@.take(i as int),
        decreases n - i,
    {
        chars.push(s.get_char(i));
        i = i + 1;
        proof {
            assert(chars@ =~= s@.take(i as int));
        }
    }
    proof {
        assert(s@.take(n as int) =~= s@);
    }
    chars
}

/// The position of the child carrying `c`, if one exists.
fn find_child(kids: &Vec<Node>, c: char) -> (found: Option<usize>)
    requires
        forall|i: int| 0 <= i < kids@.len() ==> (#[trigger] kids@[i]).is_tagged(),
    ensures
        match found {
            Some(i) => i < kids@.len() && kids@[i as int].key() == c,
            None => forall|i: int| 0 <= i < kids@.len() ==> (#[trigger] kids@[i]).key() != c,
        },
{
    let mut i: usize = 0;
    while i < kids.len()
        invariant
            i <= kids@.len(),
            forall|k: int| 0 <= k < kids@.len() ==> (#[trigger] kids@[k]).is_tagged(),
            forall|j: int| 0 <= j < i ==> (#[trigger] kids@[j]).key() != c,
        decreases kids@.len() - i,
    {
        if kids[i].char_key() == c {
            return Some(i);
        }
        i = i + 1;
    }
    None
}

/// A fresh chain of nodes spelling `chars[pos..]`: one node per character,
/// each the sole child of the one before it, the last one terminal and the
/// others internal. The chain's subtree holds exactly that one string.
fn make_chain(chars: &Vec<char>, pos: usize) -> (node: Node)
    requires
        pos < chars@.len(),
    ensures
        node_wf(node),
        node.is_tagged(),
        node.key() == chars@[pos as int],
        forall|t: Seq<char>| node_matches(node, t) <==> t == chars@.skip(pos as int),
    decreases chars@.len() - pos,
{
    let n = chars.len();
    let c = chars[pos];
    let ghost suffix = chars@.skip(pos as int);
    if pos + 1 == n {
        let node = Node { value: Value::Terminal(c), children: Vec::new() };
        proof {
            assert(node.children@ =~= Seq::<Node>::empty());
            lemma_wf_leaf(node);
            assert(suffix =~= seq![c]);
            assert forall|t: Seq<char>| node_matches(node, t) implies t == suffix by {
                if t.len() > 1 {
                    assert(kids_contain(node.children@, t.drop_first()));
                    assert(has_key(node.children@, t.drop_first()[0]));
                    let j = choose|j: int|
                        0 <= j < node.children@.len() && (#[trigger] node.children@[j]).key()
                            == t.drop_first()[0];
                    assert(false);
                }
                assert(t =~= suffix);
            }
            assert forall|t: Seq<char>| t == suffix implies node_matches(node, t) by {
                assert(node_matches(node, suffix));
            }
        }
        node
    } else {
        let child = make_chain(chars, pos + 1);
        let ghost child_suffix = chars@.skip(pos as int + 1);
        let mut kids: Vec<Node> = Vec::new();
        kids.push(child);
        let node = Node { value: Value::Internal(c), children: kids };
        proof {
            assert(node.children@ =~= seq![child]);
            assert(node.children@[0] == child);
            lemma_wf_single(node, child);
            assert(suffix.drop_first() =~= child_suffix);
            assert forall|t: Seq<char>| node_matches(node, t) implies t == suffix by {
                assert(t.len() > 0 && t[0] == c);
                if t.len() == 1 {
                    assert(node.is_terminal_spec());
                    assert(false);
                }
                assert(kids_contain(node.children@, t.drop_first()));
                lemma_singleton_contain(child, t.drop_first());
                assert(node_matches(child, t.drop_first()));
                assert(t.drop_first() == child_suffix);
                assert forall|k: int| 1 <= k < t.len() implies t[k] == suffix[k] by {
                    assert(t[k] == t.drop_first()[k - 1]);
                    assert(suffix[k] == suffix.drop_first()[k - 1]);
                }
                assert(t =~= suffix);
            }
            assert forall|t: Seq<char>| t == suffix implies node_matches(node, t) by {
                assert(node_matches(child, child_suffix));
                lemma_singleton_contain(child, child_suffix);
                assert(kids_contain(node.children@, suffix.drop_first()));
                assert(node_matches(node, suffix));
            }
        }
        node
    }
}

impl Node {
    /// Whether the subtree below this node holds `chars[pos..]`.
    fn contains_rec(&self, chars: &Vec<char>, pos: usize) -> (found: bool)
        requires
            node_wf(*self),
            pos < chars@.len(),
        ensures
            found == kids_contain(self.children@, chars@.skip(pos as int)),
        decreases chars@.len() - pos,
    {
        let n = chars.len();
        let c = chars[pos];
        let ghost suffix = chars@.skip(pos as int);
        proof {
            assert(suffix[0] == c);
        }
        match find_child(&self.children, c) {
            None => {
                proof {
                    if has_key(self.children@, c) {
                        let j = choose|j: int|
                            0 <= j < self.children@.len() && (#[trigger] self.children@[j]).key()
                                == c;
                        assert(false);
                    }
                }
                false
            },
            Some(i) => {
                proof {
                    lemma_index_of_key(self.children@, c, i as int);
                }
                let child = &self.children[i];
                if pos + 1 == n {
                    let found = child.is_terminal();
                    proof {
                        assert(suffix =~= seq![c]);
                    }
                    found
                } else {
                    let found = child.contains_rec(chars, pos + 1);
                    proof {
                        assert(suffix.drop_first() =~= chars@.skip(pos as int + 1));
                    }
                    found
                }
            },
        }
    }
}

/// A node with distinct-charactered, tagged, well-formed children is well
/// formed.
proof fn lemma_wf_node(n: Node)
    requires
        kids_unique(n.children@),
        forall|i: int|
            0 <= i < n.children@.len() ==> (#[trigger] n.children@[i]).is_tagged() && node_wf(
                n.children@[i],
            ),
    ensures
        node_wf(n),
{
}

/// A well-formed node's children carry distinct characters and are tagged
/// and well formed.
proof fn lemma_wf_parts(n: Node)
    requires
        node_wf(n),
    ensures
        kids_unique(n.children@),
        forall|i: int|
            0 <= i < n.children@.len() ==> (#[trigger] n.children@[i]).is_tagged() && node_wf(
                n.children@[i],
            ),
{
}

/// A node with the same children as a well-formed node is itself well
/// formed: well-formedness looks only below the node.
proof fn lemma_wf_same_children(a: Node, b: Node)
    requires
        node_wf(a),
        b.children@ == a.children@,
    ensures
        node_wf(b),
{
}

/// Appending a child whose character no present child carries, and whose
/// subtree holds exactly the one string `u`, adds exactly `u` to what the
/// children hold.
proof fn lemma_insert_new_child(kids: Seq<Node>, chain: Node, u: Seq<char>)
    requires
        kids_unique(kids),
        forall|i: int|
            0 <= i < kids.len() ==> (#[trigger] kids[i]).is_tagged() && node_wf(kids[i]),
        forall|i: int| 0 <= i < kids.len() ==> (#[trigger] kids[i]).key() != chain.key(),
        forall|t: Seq<char>| node_matches(chain, t) <==> t == u,
        node_wf(chain),
        chain.is_tagged(),
        u.len() > 0,
        u[0] == chain.key(),
    ensures
        kids_unique(kids.push(chain)),
        forall|i: int|
            0 <= i < kids.push(chain).len() ==> (#[trigger] kids.push(chain)[i]).is_tagged()
                && node_wf(kids.push(chain)[i]),
        forall|t: Seq<char>|
            kids_contain(kids.push(chain), t) == (kids_contain(kids, t) || t == u),
{
    let new = kids.push(chain);
    assert(new[kids.len() as int] == chain);
    assert forall|i: int| 0 <= i < new.len() implies (#[trigger] new[i]).is_tagged() && node_wf(
        new[i],
    ) by {
        if i < kids.len() {
            assert(new[i] == kids[i]);
        }
    }
    assert forall|i: int, j: int|
        0 <= i < new.len() && 0 <= j < new.len() && i != j implies (#[trigger] new[i]).key() != (
    #[trigger] new[j]).key() by {
        if i < kids.len() && j < kids.len() {
            assert(kids[i] == new[i] && kids[j] == new[j]);
        } else if i < kids.len() {
            assert(new[i] == kids[i] && new[j] == chain);
        } else {
            assert(new[i] == chain && new[j] == kids[j]);
        }
    }
    assert forall|t: Seq<char>| kids_contain(new, t) implies (kids_contain(kids, t) || t == u) by {
        let c0 = t[0];
        let idx = index_of_key(new, c0);
        assert(0 <= idx < new.len() && new[idx].key() == c0);
        if idx == kids.len() {
            assert(new[idx] == chain);
            assert(node_matches(chain, t));
            assert(t == u);
        } else {
            assert(new[idx] == kids[idx]);
            lemma_index_of_key(kids, c0, idx);
            assert(kids_contain(kids, t));
        }
    }
    assert forall|t: Seq<char>| kids_contain(kids, t) implies kids_contain(new, t) by {
        let c0 = t[0];
        let idx = index_of_key(kids, c0);
        assert(0 <= idx < kids.len() && kids[idx].key() == c0);
        assert(new[idx] == kids[idx]);
        lemma_index_of_key(new, c0, idx);
        assert(kids_contain(new, t));
    }
    assert(node_matches(chain, u));
    lemma_index_of_key(new, u[0], kids.len() as int);
    assert(kids_contain(new, u));
}

/// Replacing the child at `i` by one with the same tag slot turned
/// terminal and the same children adds exactly the one-character string it
/// carries to what the children hold.
proof fn lemma_promote(kids: Seq<Node>, i: int, pnode: Node, u: Seq<char>)
    requires
        kids_unique(kids),
        forall|k: int|
            0 <= k < kids.len() ==> (#[trigger] kids[k]).is_tagged() && node_wf(kids[k]),
        0 <= i < kids.len(),
        pnode.value == Value::Terminal(kids[i].key()),
        pnode.children@ == kids[i].children@,
        u == seq![kids[i].key()],
    ensures
        kids_unique(kids.update(i, pnode)),
        forall|k: int|
            0 <= k < kids.update(i, pnode).len() ==> (#[trigger] kids.update(i, pnode)[k]).is_tagged()
                && node_wf(kids.update(i, pnode)[k]),
        forall|t: Seq<char>|
            kids_contain(kids.update(i, pnode), t) == (kids_contain(kids, t) || t == u),
{
    let new = kids.update(i, pnode);
    assert(new[i] == pnode);
    assert(pnode.key() == kids[i].key());
    lemma_wf_same_children(kids[i], pnode);
    assert forall|k: int| 0 <= k < new.len() implies (#[trigger] new[k]).is_tagged() && node_wf(
        new[k],
    ) by {
        if k != i {
            assert(new[k] == kids[k]);
        }
    }
    assert forall|k: int, j: int|
        0 <= k < new.len() && 0 <= j < new.len() && k != j implies (#[trigger] new[k]).key() != (
    #[trigger] new[j]).key() by {
        assert(new[k] == if k == i {
            pnode
        } else {
            kids[k]
        });
        assert(new[j] == if j == i {
            pnode
        } else {
            kids[j]
        });
    }
    assert forall|t: Seq<char>| kids_contain(new, t) implies (kids_contain(kids, t) || t == u) by {
        let c0 = t[0];
        let idx = index_of_key(new, c0);
        assert(0 <= idx < new.len() && new[idx].key() == c0);
        assert(kids[idx].key() == c0);
        lemma_index_of_key(kids, c0, idx);
        if idx == i {
            if t.len() == 1 {
                assert(t =~= u);
            } else {
                assert(kids_contain(pnode.children@, t.drop_first()));
                assert(kids_contain(kids, t));
            }
        } else {
            assert(new[idx] == kids[idx]);
            assert(kids_contain(kids, t));
        }
    }
    assert forall|t: Seq<char>| kids_contain(kids, t) implies kids_contain(new, t) by {
        let c0 = t[0];
        let idx = index_of_key(kids, c0);
        assert(0 <= idx < kids.len() && kids[idx].key() == c0);
        assert(new[idx].key() == c0);
        lemma_index_of_key(new, c0, idx);
        if idx == i {
            if t.len() == 1 {
                assert(kids[i].is_terminal_spec());
                assert(pnode.is_terminal_spec());
            }
            assert(kids_contain(new, t));
        } else {
            assert(new[idx] == kids[idx]);
            assert(kids_contain(new, t));
        }
    }
    assert(pnode.is_terminal_spec());
    lemma_index_of_key(new, u[0], i);
    assert(kids_contain(new, u));
}

/// Replacing the child at `i` by one with the same tag and with children
/// holding exactly one more string adds exactly the corresponding
/// one-longer string to what the children hold.
proof fn lemma_update_child(kids: Seq<Node>, i: int, cnew: Node, u: Seq<char>)
    requires
        kids_unique(kids),
        forall|k: int|
            0 <= k < kids.len() ==> (#[trigger] kids[k]).is_tagged() && node_wf(kids[k]),
        0 <= i < kids.len(),
        cnew.value == kids[i].value,
        node_wf(cnew),
        u.len() > 1,
        u[0] == kids[i].key(),
        forall|s: Seq<char>|
            kids_contain(cnew.children@, s) == (kids_contain(kids[i].children@, s) || s
                == u.drop_first()),
    ensures
        kids_unique(kids.update(i, cnew)),
        forall|k: int|
            0 <= k < kids.update(i, cnew).len() ==> (#[trigger] kids.update(i, cnew)[k]).is_tagged()
                && node_wf(kids.update(i, cnew)[k]),
        forall|t: Seq<char>|
            kids_contain(kids.update(i, cnew), t) == (kids_contain(kids, t) || t == u),
{
    let new = kids.update(i, cnew);
    assert(new[i] == cnew);
    assert(cnew.key() == kids[i].key());
    assert(cnew.is_tagged() == kids[i].is_tagged());
    assert forall|k: int| 0 <= k < new.len() implies (#[trigger] new[k]).is_tagged() && node_wf(
        new[k],
    ) by {
        if k != i {
            assert(new[k] == kids[k]);
        }
    }
    assert forall|k: int, j: int|
        0 <= k < new.len() && 0 <= j < new.len() && k != j implies (#[trigger] new[k]).key() != (
    #[trigger] new[j]).key() by {
        assert(new[k] == if k == i {
            cnew
        } else {
            kids[k]
        });
        assert(new[j] == if j == i {
            cnew
        } else {
            kids[j]
        });
    }
    assert forall|t: Seq<char>| kids_contain(new, t) implies (kids_contain(kids, t) || t == u) by {
        let c0 = t[0];
        let idx = index_of_key(new, c0);
        assert(0 <= idx < new.len() && new[idx].key() == c0);
        assert(kids[idx].key() == c0);
        lemma_index_of_key(kids, c0, idx);
        if idx == i {
            if t.len() == 1 {
                assert(cnew.is_terminal_spec() == kids[i].is_terminal_spec());
                assert(kids_contain(kids, t));
            } else {
                assert(kids_contain(cnew.children@, t.drop_first()));
                if t.drop_first() == u.drop_first() {
                    assert forall|k: int| 1 <= k < t.len() implies t[k] == u[k] by {
                        assert(t[k] == t.drop_first()[k - 1]);
                        assert(u[k] == u.drop_first()[k - 1]);
                    }
                    assert(t =~= u);
                } else {
                    assert(kids_contain(kids[i].children@, t.drop_first()));
                    assert(kids_contain(kids, t));
                }
            }
        } else {
            assert(new[idx] == kids[idx]);
            assert(kids_contain(kids, t));
        }
    }
    assert forall|t: Seq<char>| kids_contain(kids, t) implies kids_contain(new, t) by {
        let c0 = t[0];
        let idx = index_of_key(kids, c0);
        assert(0 <= idx < kids.len() && kids[idx].key() == c0);
        assert(new[idx].key() == c0);
        lemma_index_of_key(new, c0, idx);
        if idx == i {
            if t.len() == 1 {
                assert(cnew.is_terminal_spec() == kids[i].is_terminal_spec());
            } else {
                assert(kids_contain(kids[i].children@, t.drop_first()));
                assert(kids_contain(cnew.children@, t.drop_first()));
            }
            assert(kids_contain(new, t));
        } else {
            assert(new[idx] == kids[idx]);
            assert(kids_contain(new, t));
        }
    }
    lemma_index_of_key(new, u[0], i);
    assert(kids_contain(cnew.children@, u.drop_first()));
    assert(kids_contain(new, u));
}

impl Node {
    /// Installs `chars[pos..]` below this node: creates the missing part of
    /// its path, and marks the node the path ends at terminal. Everything
    /// the subtree already held stays.
    fn insert_rec(&mut self, chars: &Vec<char>, pos: usize)
        requires
            node_wf(*old(self)),
            pos < chars@.len(),
        ensures
            node_wf(*final(self)),
            final(self).value == old(self).value,
            forall|t: Seq<char>|
                kids_contain(final(self).children@, t) == (kids_contain(
                    old(self).children@,
                    t,
                ) || t == chars@.skip(pos as int)),
        decreases chars@.len() - pos,
    {
        let n = chars.len();
        let c = chars[pos];
        let ghost u = chars@.skip(pos as int);
        proof {
            assert(u[0] == c);
            lemma_wf_parts(*old(self));
        }
        match find_child(&self.children, c) {
            None => {
                let chain = make_chain(chars, pos);
                self.children.push(chain);
                proof {
                    lemma_insert_new_child(old(self).children@, chain, u);
                    lemma_wf_node(*self);
                    assert(self.children@ == old(self).children@.push(chain));
                    assert forall|t: Seq<char>|
                        kids_contain(self.children@, t) == (kids_contain(
                            old(self).children@,
                            t,
                        ) || t == u) by {
                        assert(kids_contain(old(self).children@.push(chain), t) == (kids_contain(
                            old(self).children@,
                            t,
                        ) || t == u));
                    }
                }
            },
            Some(i) => {
                proof {
                    lemma_index_of_key(old(self).children@, c, i as int);
                }
                if pos + 1 == n {
                    let child = &mut self.children[i];
                    child.value = Value::Terminal(c);
                    proof {
                        let pnode = self.children@[i as int];
                        assert(self.children@ == old(self).children@.update(i as int, pnode));
                        assert(pnode.value == Value::Terminal(c));
                        assert(pnode.children@ == old(self).children@[i as int].children@);
                        assert(u =~= seq![c]);
                        lemma_promote(old(self).children@, i as int, pnode, u);
                        lemma_wf_node(*self);
                        assert forall|t: Seq<char>|
                            kids_contain(self.children@, t) == (kids_contain(
                                old(self).children@,
                                t,
                            ) || t == u) by {
                            assert(kids_contain(
                                old(self).children@.update(i as int, pnode),
                                t,
                            ) == (kids_contain(old(self).children@, t) || t == u));
                        }
                    }
                } else {
                    let child = &mut self.children[i];
                    child.insert_rec(chars, pos + 1);
                    proof {
                        let cnew = self.children@[i as int];
                        assert(self.children@ == old(self).children@.update(i as int, cnew));
                        assert(u.drop_first() =~= chars@.skip(pos as int + 1));
                        lemma_update_child(old(self).children@, i as int, cnew, u);
                        lemma_wf_node(*self);
                        assert forall|t: Seq<char>|
                            kids_contain(self.children@, t) == (kids_contain(
                                old(self).children@,
                                t,
                            ) || t == u) by {
                            assert(kids_contain(
                                old(self).children@.update(i as int, cnew),
                                t,
                            ) == (kids_contain(old(self).children@, t) || t == u));
                        }
                    }
                }
            },
        }
    }
}

impl StrTrie {
    /// Records `val` as a member: afterwards `contains(val)` holds, and
    /// every string the trie already held is still held. Inserting the
    /// empty string records nothing.
    pub fn insert(&mut self, val: &str)
        ensures
            val@.len() == 0 ==> final(self)@ == old(self)@,
            val@.len() > 0 ==> final(self)@ == old(self)@.insert(val@),
    {
        proof {
            use_type_invariant(&*self);
        }
        let chars = chars_of(val);
        if chars.len() == 0 {
            return ;
        }
        let fresh = Node { value: Value::Root, children: Vec::new() };
        proof {
            lemma_wf_leaf(fresh);
        }
        let mut taken = StrTrie { root: fresh };
        std::mem::swap(&mut taken, self);
        let StrTrie { mut root } = taken;
        root.insert_rec(&chars, 0);
        *self = StrTrie { root };
        proof {
            assert(chars@.skip(0) =~= val@);
            assert(self@ =~= old(self)@.insert(val@));
        }
    }
}

impl StrTrie {
    /// Whether `val` has been inserted. A proper prefix of an inserted
    /// string that has not itself been inserted is not a member, and the
    /// empty string never is.
    pub fn contains(&self, val: &str) -> (present: bool)
        ensures
            present == self@.contains(val@),
    {
        proof {
            use_type_invariant(self);
        }
        let chars = chars_of(val);
        if chars.len() == 0 {
            return false;
        }
        let found = self.root.contains_rec(&chars, 0);
        proof {
            assert(chars@.skip(0) =~= val@);
        }
        found
    }
}

/// Law: after two strings are inserted, in either order, both are members.
/// (The empty string is never a member: inserting it records nothing.)
pub proof fn lemma_insert_two_in_either_order(m: Set<Seq<char>>, s: Seq<char>, t: Seq<char>)
    requires
        s.len() > 0,
        t.len() > 0,
    ensures
        m.insert(s).insert(t).contains(s),
        m.insert(s).insert(t).contains(t),
        m.insert(t).insert(s).contains(s),
        m.insert(t).insert(s).contains(t),
{
}

/// Law: a proper prefix of an inserted string that was not a member before
/// the insertion is not a member after it either.
pub proof fn lemma_insert_keeps_prefix_out(m: Set<Seq<char>>, s: Seq<char>, k: int)
    requires
        1 <= k < s.len(),
        !m.contains(s.subrange(0, k)),
    ensures
        !m.insert(s).contains(s.subrange(0, k)),
{
    assert(s.subrange(0, k).len() == k);
}

/// Law: insertion is idempotent — inserting a string twice leaves the same
/// member set, hence the same `contains` behaviour, as inserting it once.
pub proof fn lemma_insert_idempotent(m: Set<Seq<char>>, s: Seq<char>)
    ensures
        m.insert(s).insert(s) == m.insert(s),
{
    assert(m.insert(s).insert(s) =~= m.insert(s));
}

} // verus!
