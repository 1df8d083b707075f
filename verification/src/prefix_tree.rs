//! A prefix tree whose nodes own their children: the plain recursive shape
//! of a vocabulary, with one value per stored key and no costs.

use crate::arena::is_prefix;
use crate::insertion::shared_len;
use crate::lookup::{has_extension, QueryResult};
use crate::symbol::Symbol;
use crate::text::chars_of;
use vstd::prelude::*;

verus! {

/// A map from sequences of `K` to values that can also tell whether a
/// sequence begins a stored key.
pub struct PrefixTree<K, V>(Node<K, V>);

/// One node of a prefix tree.
pub struct Node<K, V> {
    /// `None` only at the root.
    prefix_component: Option<K>,
    value: Option<V>,
    children: Vec<Node<K, V>>,
}

/// The answer that a prefix tree with the stored keys `m` gives for `key`.
/// The empty sequence begins every key, also where no key is stored.
pub open spec fn rooted_lookup<K, V>(m: Map<Seq<K>, V>, key: Seq<K>) -> QueryResult<V> {
    if m.contains_key(key) {
        QueryResult::Value(m[key])
    } else if key.len() == 0 || has_extension(m, key) {
        QueryResult::Prefix
    } else {
        QueryResult::NotFound
    }
}

/// The answer for `key` with the value taken by reference.
pub open spec fn rooted_lookup_ref<'a, K, V>(m: Map<Seq<K>, V>, key: Seq<K>) -> QueryResult<&'a V> {
    match rooted_lookup(m, key) {
        QueryResult::Value(v) => QueryResult::Value(&v),
        QueryResult::NotFound => QueryResult::NotFound,
        QueryResult::Prefix => QueryResult::Prefix,
    }
}

/// The first child at or after `from` that continues with the symbol `k`.
pub closed spec fn first_match<K, V>(children: Seq<Node<K, V>>, k: K, from: int) -> Option<int>
    decreases children.len() - from,
{
    if from < 0 || from >= children.len() {
        None
    } else if children[from].prefix_component == Some(k) {
        Some(from)
    } else {
        first_match(children, k, from + 1)
    }
}

/// Whether no two of the nodes continue with the same symbol.
pub closed spec fn distinct_symbols<K, V>(children: Seq<Node<K, V>>) -> bool {
    forall|i: int, j: int|
        0 <= i < j < children.len() ==> (#[trigger] children[i]).prefix_component != (
        #[trigger] children[j]).prefix_component
}

/// The number of nodes at and below the first `n` of the nodes.
pub closed spec fn sizes<K, V>(children: Seq<Node<K, V>>, n: nat) -> nat
    decreases children, n,
{
    if n == 0 || n > children.len() {
        0
    } else {
        children[n - 1].size() + sizes(children, (n - 1) as nat)
    }
}

/// What a node answers once the walk has ended at it, or has failed.
pub closed spec fn answer<'a, K, V>(node: Option<Node<K, V>>) -> QueryResult<&'a V> {
    match node {
        None => QueryResult::NotFound,
        Some(n) => match n.value {
            Some(v) => QueryResult::Value(&v),
            None => QueryResult::Prefix,
        },
    }
}

impl<K, V> Node<K, V> {
    /// The node that the symbols `key` lead to from this node.
    pub closed spec fn descend(self, key: Seq<K>) -> Option<Node<K, V>>
        decreases key.len(),
    {
        if key.len() == 0 {
            Some(self)
        } else {
            match first_match(self.children@, key[0], 0) {
                Some(i) => self.children@[i].descend(key.drop_first()),
                None => None,
            }
        }
    }

    /// The value stored under `key` below this node.
    pub closed spec fn holds(self, key: Seq<K>) -> Option<V> {
        match self.descend(key) {
            Some(n) => n.value,
            None => None,
        }
    }

    /// Some key is stored at or below this node.
    pub closed spec fn productive(self) -> bool {
        exists|key: Seq<K>| (#[trigger] self.holds(key)) is Some
    }

    /// Every child continues with a symbol of its own and leads to a stored
    /// key.
    pub closed spec fn wf(self) -> bool
        decreases self,
    {
        &&& forall|i: int|
            0 <= i < self.children@.len() ==> {
                &&& (#[trigger] self.children@[i]).prefix_component is Some
                &&& self.children@[i].productive()
                &&& self.children@[i].wf()
            }
        &&& distinct_symbols(self.children@)
    }

    /// The number of nodes at and below this node.
    pub closed spec fn size(self) -> nat
        decreases self, 0nat,
    {
        1 + sizes(self.children@, self.children@.len())
    }

    /// The number of keys at the beginning of `key` that lead to a node
    /// from this node.
    pub closed spec fn walk_len(self, key: Seq<K>) -> nat
        decreases key.len(),
    {
        if key.len() == 0 {
            0
        } else {
            match first_match(self.children@, key[0], 0) {
                Some(i) => 1 + self.children@[i].walk_len(key.drop_first()),
                None => 0,
            }
        }
    }

    /// The keys stored at or below this node, with their values.
    pub closed spec fn contents(self) -> Map<Seq<K>, V> {
        Map::new(|key: Seq<K>| self.holds(key) is Some, |key: Seq<K>| self.holds(key)->0)
    }
}

/// A match that is found is a child that continues with the symbol, and no
/// earlier child does.
proof fn lemma_first_match<K, V>(children: Seq<Node<K, V>>, k: K, from: int)
    requires
        0 <= from,
    ensures
        match first_match(children, k, from) {
            Some(i) => from <= i < children.len() && children[i].prefix_component == Some(k)
                && forall|j: int| from <= j < i ==> children[j].prefix_component != Some(k),
            None => forall|j: int| from <= j < children.len() ==> children[j].prefix_component != Some(k),
        },
    decreases children.len() - from,
{
    if from < children.len() && children[from].prefix_component != Some(k) {
        lemma_first_match(children, k, from + 1);
    }
}

/// The first match depends only on the symbols the children continue with.
proof fn lemma_first_match_frame<K, V>(a: Seq<Node<K, V>>, b: Seq<Node<K, V>>, k: K, from: int)
    requires
        0 <= from,
        a.len() <= b.len(),
        forall|j: int| 0 <= j < a.len() ==> a[j].prefix_component == b[j].prefix_component,
        forall|j: int| a.len() <= j < b.len() ==> b[j].prefix_component != Some(k),
    ensures
        first_match(a, k, from) == first_match(b, k, from),
    decreases b.len() - from,
{
    if from < a.len() {
        if a[from].prefix_component != Some(k) {
            lemma_first_match_frame(a, b, k, from + 1);
        }
    } else if from < b.len() {
        lemma_first_match_frame(a, b, k, from + 1);
    }
}

/// Walking down `first + rest` is walking down `first` and then `rest`.
proof fn lemma_descend_concat<K, V>(node: Node<K, V>, first: Seq<K>, rest: Seq<K>)
    ensures
        node.descend(first + rest) == match node.descend(first) {
            Some(n) => n.descend(rest),
            None => None,
        },
    decreases first.len(),
{
    if first.len() == 0 {
        assert(first + rest =~= rest);
    } else {
        let whole = first + rest;
        assert(whole[0] == first[0]);
        assert(whole.drop_first() =~= first.drop_first() + rest);
        match first_match(node.children@, first[0], 0) {
            Some(i) => {
                lemma_descend_concat(node.children@[i], first.drop_first(), rest);
            },
            None => {},
        }
    }
}

/// A node that a non-empty walk leads to is in order and leads to a stored
/// key.
proof fn lemma_descend_productive<K, V>(node: Node<K, V>, key: Seq<K>)
    requires
        node.wf(),
        key.len() > 0,
        node.descend(key) is Some,
    ensures
        node.descend(key)->0.productive(),
        node.descend(key)->0.wf(),
    decreases key.len(),
{
    lemma_first_match(node.children@, key[0], 0);
    let i = first_match(node.children@, key[0], 0)->0;
    let child = node.children@[i];
    assert(child.productive() && child.wf());
    if key.len() > 1 {
        lemma_descend_productive(child, key.drop_first());
    }
}

/// The answer of a well-formed tree, stated over the keys it stores.
proof fn lemma_answer_is_lookup<K, V>(root: Node<K, V>, key: Seq<K>)
    requires
        root.wf(),
    ensures
        answer(root.descend(key)) == rooted_lookup_ref(root.contents(), key),
{
    let m = root.contents();
    match root.descend(key) {
        Some(n) => {
            if n.value is None && key.len() > 0 {
                lemma_descend_productive(root, key);
                let more = choose|more: Seq<K>| (#[trigger] n.holds(more)) is Some;
                lemma_descend_concat(root, key, more);
                let whole = key + more;
                assert(root.holds(whole) is Some);
                assert(whole.take(key.len() as int) =~= key);
                assert(m.contains_key(whole) && is_prefix(key, whole));
            }
        },
        None => {
            if has_extension(m, key) {
                let w = choose|w: Seq<K>| m.contains_key(w) && is_prefix(key, w);
                let more = w.skip(key.len() as int);
                assert(w =~= key + more);
                lemma_descend_concat(root, key, more);
                assert(root.holds(w) is Some);
            }
        },
    }
}

/// Replacing one of the nodes changes the number of nodes by the difference
/// of the two.
proof fn lemma_sizes_update<K, V>(children: Seq<Node<K, V>>, i: int, child: Node<K, V>, n: nat)
    requires
        0 <= i < children.len(),
        n <= children.len(),
    ensures
        sizes(children.update(i, child), n) == sizes(children, n) + (if i < n {
            child.size() - children[i].size()
        } else {
            0
        }),
    decreases n,
{
    if n > 0 {
        lemma_sizes_update(children, i, child, (n - 1) as nat);
    }
}

/// A node added at the end leaves the count of the nodes before it.
proof fn lemma_sizes_kept<K, V>(children: Seq<Node<K, V>>, child: Node<K, V>, n: nat)
    requires
        n <= children.len(),
    ensures
        sizes(children.push(child), n) == sizes(children, n),
    decreases n,
{
    if n > 0 {
        lemma_sizes_kept(children, child, (n - 1) as nat);
    }
}

/// A node added at the end adds its own nodes.
proof fn lemma_sizes_push<K, V>(children: Seq<Node<K, V>>, child: Node<K, V>)
    ensures
        sizes(children.push(child), children.len() + 1) == child.size() + sizes(
            children,
            children.len(),
        ),
{
    lemma_sizes_kept(children, child, children.len());
    assert(children.push(child)[children.len() as int] == child);
}

/// The first `j` keys lead to a node exactly if `j` is within the walk.
proof fn lemma_walk_descend<K, V>(node: Node<K, V>, key: Seq<K>, j: int)
    requires
        0 <= j <= key.len(),
    ensures
        node.descend(key.take(j)) is Some <==> j <= node.walk_len(key),
    decreases key.len(),
{
    if j > 0 {
        let head = key.take(j);
        assert(head[0] == key[0]);
        assert(head.drop_first() =~= key.drop_first().take(j - 1));
        match first_match(node.children@, key[0], 0) {
            Some(i) => {
                lemma_walk_descend(node.children@[i], key.drop_first(), j - 1);
            },
            None => {},
        }
    } else {
        assert(key.take(0).len() == 0);
    }
}

/// The walk of a key through a well-formed tree is as long as the longest
/// beginning of the key that begins a stored key.
proof fn lemma_walk_is_shared<K, V>(root: Node<K, V>, key: Seq<K>, j: nat)
    requires
        root.wf(),
        j <= root.walk_len(key),
        j <= key.len(),
    ensures
        shared_len(root.contents(), key, j) == root.walk_len(key),
        root.walk_len(key) <= key.len(),
    decreases key.len() - j,
{
    if j < key.len() {
        let longer = key.take((j + 1) as int);
        lemma_walk_descend(root, key, (j + 1) as int);
        lemma_answer_is_lookup(root, longer);
        if root.contents().contains_key(longer) {
            assert(longer.take(longer.len() as int) =~= longer);
            assert(is_prefix(longer, longer));
        }
        if j < root.walk_len(key) {
            lemma_walk_is_shared(root, key, j + 1);
        }
    } else {
        lemma_walk_descend(root, key, key.len() as int);
        if root.walk_len(key) > key.len() {
            lemma_walk_bound(root, key);
        }
    }
}

/// A walk is no longer than the key.
proof fn lemma_walk_bound<K, V>(node: Node<K, V>, key: Seq<K>)
    ensures
        node.walk_len(key) <= key.len(),
    decreases key.len(),
{
    if key.len() > 0 {
        match first_match(node.children@, key[0], 0) {
            Some(i) => {
                lemma_walk_bound(node.children@[i], key.drop_first());
            },
            None => {},
        }
    }
}

impl<K: Symbol, V> Node<K, V> {
    /// A node without children.
    fn new(prefix: Option<K>, value: Option<V>) -> (node: Self)
        ensures
            node.prefix_component == prefix,
            node.value == value,
            node.children@.len() == 0,
            node.wf(),
            node.size() == 1,
    {
        Node { prefix_component: prefix, value, children: Vec::new() }
    }

    /// The position of the first child that continues with `next`.
    fn find_child(&self, next: &K) -> (found: Option<usize>)
        ensures
            match found {
                Some(i) => first_match(self.children@, *next, 0) == Some(i as int) && i
                    < self.children@.len(),
                None => first_match(self.children@, *next, 0) is None,
            },
    {
        let mut i: usize = 0;
        while i < self.children.len()
            invariant
                i <= self.children@.len(),
                first_match(self.children@, *next, 0) == first_match(self.children@, *next, i as int),
            decreases self.children@.len() - i,
        {
            let continues = match &self.children[i].prefix_component {
                Some(k) => k.same(next),
                None => false,
            };
            if continues {
                return Some(i);
            }
            i += 1;
        }
        None
    }

    /// Stores `value` under the rest of `key` from position `from` on,
    /// replacing what was stored there.
    fn set(&mut self, key: &[K], from: usize, value: V)
        requires
            old(self).wf(),
            from <= key.len(),
        ensures
            final(self).wf(),
            final(self).prefix_component == old(self).prefix_component,
            forall|q: Seq<K>|
                #[trigger] final(self).holds(q) == if q == key@.skip(from as int) {
                    Some(value)
                } else {
                    old(self).holds(q)
                },
            final(self).size() == old(self).size() + (key.len() - from) - old(self).walk_len(
                key@.skip(from as int),
            ),
        decreases key.len() - from,
    {
        let ghost rest = key@.skip(from as int);
        let ghost before = *self;
        proof {
            lemma_walk_bound(before, rest);
        }
        if from == key.len() {
            // store value at this node
            self.value = Some(value);
            proof {
                assert(rest =~= Seq::<K>::empty());
                assert forall|q: Seq<K>| #[trigger] self.holds(q) == if q == rest {
                    Some(value)
                } else {
                    before.holds(q)
                } by {
                    if q.len() == 0 {
                        assert(q =~= rest);
                    }
                }
            }
        } else {
            // descend tree, if possible
            let next_symbol = &key[from];
            let ghost next = key@[from as int];
            let ghost tail = key@.skip(from + 1);
            proof {
                assert(rest[0] == next);
                assert(rest.drop_first() =~= tail);
                lemma_first_match(before.children@, next, 0);
            }
            match self.find_child(next_symbol) {
                None => {
                    let mut new_child = Self::new(Some(next_symbol.duplicate()), None);
                    let ghost fresh = new_child;
                    new_child.set(key, from + 1, value);
                    let ghost grown = new_child;
                    self.children.push(new_child);
                    proof {
                        let after = *self;
                        let at = before.children@.len() as int;
                        lemma_sizes_push(before.children@, grown);
                        assert(fresh.walk_len(tail) == 0) by {
                            if tail.len() > 0 {
                                assert(first_match(fresh.children@, tail[0], 0) is None);
                            }
                        }
                        assert(grown.holds(tail) is Some);
                        assert(after.children@[at] == grown);
                        lemma_first_match(after.children@, next, 0);
                        assert forall|q: Seq<K>| #[trigger] after.holds(q) == if q == rest {
                            Some(value)
                        } else {
                            before.holds(q)
                        } by {
                            if q.len() > 0 {
                                if q[0] == next {
                                    assert(first_match(after.children@, next, 0) == Some(at));
                                    assert(grown.holds(q.drop_first()) == if q.drop_first()
                                        == tail {
                                        Some(value)
                                    } else {
                                        fresh.holds(q.drop_first())
                                    });
                                    assert(fresh.holds(q.drop_first()) is None) by {
                                        if q.drop_first().len() > 0 {
                                            assert(first_match(
                                                fresh.children@,
                                                q.drop_first()[0],
                                                0,
                                            ) is None);
                                        }
                                    }
                                    if q.drop_first() == tail {
                                        assert(q =~= seq![q[0]] + q.drop_first());
                                        assert(rest =~= seq![rest[0]] + rest.drop_first());
                                    }
                                } else {
                                    lemma_first_match_frame(
                                        before.children@,
                                        after.children@,
                                        q[0],
                                        0,
                                    );
                                    lemma_first_match(before.children@, q[0], 0);
                                }
                            }
                        }
                        assert(after.wf()) by {
                            assert forall|i: int| 0 <= i < after.children@.len() implies {
                                &&& (#[trigger] after.children@[i]).prefix_component is Some
                                &&& after.children@[i].productive()
                                &&& after.children@[i].wf()
                            } by {
                                if i < at {
                                    assert(after.children@[i] == before.children@[i]);
                                }
                            }
                        }
                    }
                },
                Some(i) => {
                    let ghost child_before = self.children@[i as int];
                    self.children[i].set(key, from + 1, value);
                    proof {
                        let after = *self;
                        let child_after = after.children@[i as int];
                        assert(after.children@ =~= before.children@.update(i as int, child_after));
                        lemma_sizes_update(
                            before.children@,
                            i as int,
                            child_after,
                            before.children@.len(),
                        );
                        assert(child_after.holds(tail) is Some);
                        assert forall|q: Seq<K>| #[trigger] after.holds(q) == if q == rest {
                            Some(value)
                        } else {
                            before.holds(q)
                        } by {
                            if q.len() > 0 {
                                lemma_first_match_frame(
                                    before.children@,
                                    after.children@,
                                    q[0],
                                    0,
                                );
                                lemma_first_match(before.children@, q[0], 0);
                                if q[0] == next {
                                    assert(child_after.holds(q.drop_first()) == if q.drop_first()
                                        == tail {
                                        Some(value)
                                    } else {
                                        child_before.holds(q.drop_first())
                                    });
                                    if q.drop_first() == tail {
                                        assert(q =~= seq![q[0]] + q.drop_first());
                                        assert(rest =~= seq![rest[0]] + rest.drop_first());
                                    }
                                }
                            }
                        }
                        assert(after.wf()) by {
                            assert forall|j: int| 0 <= j < after.children@.len() implies {
                                &&& (#[trigger] after.children@[j]).prefix_component is Some
                                &&& after.children@[j].productive()
                                &&& after.children@[j].wf()
                            } by {
                                if j != i {
                                    assert(after.children@[j] == before.children@[j]);
                                }
                            }
                        }
                    }
                },
            }
        }
    }

    /// What is known of the rest of `key` from position `from` on.
    fn get(&self, key: &[K], from: usize) -> (result: QueryResult<&V>)
        requires
            from <= key.len(),
        ensures
            result == answer(self.descend(key@.skip(from as int))),
        decreases key.len() - from,
    {
        if from == key.len() {
            // return value stored at this node, if it exists
            match &self.value {
                Some(value) => QueryResult::Value(value),
                None => QueryResult::Prefix,
            }
        } else {
            // descend tree, if possible
            proof {
                assert(key@.skip(from as int)[0] == key@[from as int]);
                assert(key@.skip(from as int).drop_first() =~= key@.skip(from + 1));
            }
            match self.find_child(&key[from]) {
                Some(i) => self.children[i].get(key, from + 1),
                None => QueryResult::NotFound,
            }
        }
    }
}

impl<K: Symbol, V> View for PrefixTree<K, V> {
    type V = Map<Seq<K>, V>;

    closed spec fn view(&self) -> Map<Seq<K>, V> {
        self.0.contents()
    }
}

impl<K: Symbol, V> PrefixTree<K, V> {
    /// The invariant of the tree.
    pub closed spec fn wf(&self) -> bool {
        self.0.wf()
    }

    /// A tree that stores nothing.
    pub fn empty() -> (tree: Self)
        ensures
            tree.wf(),
            tree@ == Map::<Seq<K>, V>::empty(),
            tree.node_count() == 1,
    {
        let tree = PrefixTree(Node::new(None, None));
        proof {
            assert forall|key: Seq<K>| tree.0.holds(key) is None by {
                if key.len() > 0 {
                    assert(first_match(tree.0.children@, key[0], 0) is None);
                }
            }
            assert(tree@ =~= Map::<Seq<K>, V>::empty());
        }
        tree
    }

    /// Whether `key` is stored, only begins a stored key, or is unknown.
    pub fn get(&self, key: &[K]) -> (result: QueryResult<&V>)
        requires
            self.wf(),
        ensures
            result == rooted_lookup_ref(self@, key@),
    {
        proof {
            assert(key@.skip(0) =~= key@);
            lemma_answer_is_lookup(self.0, key@);
        }
        self.0.get(key, 0)
    }

    /// The number of nodes of the tree, the root included.
    pub closed spec fn node_count(&self) -> nat {
        self.0.size()
    }

    /// Stores `value` under `key`, replacing what was stored there. The
    /// tree grows by one node for every symbol of `key` past the longest
    /// beginning that `key` shares with a stored key; no node gets a second
    /// child with the same symbol.
    pub fn set(&mut self, key: &[K], value: V)
        requires
            old(self).wf(),
        ensures
            final(self).wf(),
            final(self)@ == old(self)@.insert(key@, value),
            final(self).node_count() == old(self).node_count() + key@.len() - shared_len(
                old(self)@,
                key@,
                0,
            ),
    {
        proof {
            assert(key@.skip(0) =~= key@);
            lemma_walk_is_shared(self.0, key@, 0);
        }
        self.0.set(key, 0, value);
        proof {
            assert(self@ =~= old(self)@.insert(key@, value));
        }
    }
}

/// A set of strings that can also tell whether a string begins one of its
/// members.
pub struct StringPrefixTree(PrefixTree<char, ()>);

/// Whether `key` begins a member of `words`; a member begins itself, and the
/// empty string begins everything.
pub open spec fn begins_a_word(words: Set<Seq<char>>, key: Seq<char>) -> bool {
    key.len() == 0 || exists|w: Seq<char>| words.contains(w) && is_prefix(key, w)
}

impl View for StringPrefixTree {
    type V = Set<Seq<char>>;

    closed spec fn view(&self) -> Set<Seq<char>> {
        self.0@.dom()
    }
}

impl StringPrefixTree {
    /// The invariant of the tree.
    pub closed spec fn wf(&self) -> bool {
        self.0.wf()
    }

    /// A tree without members.
    pub fn empty() -> (tree: Self)
        ensures
            tree.wf(),
            tree@ == Set::<Seq<char>>::empty(),
    {
        let tree = StringPrefixTree(PrefixTree::empty());
        assert(tree@ =~= Set::<Seq<char>>::empty());
        tree
    }

    /// Whether `key` is a member.
    pub fn contains(&self, key: &str) -> (found: bool)
        requires
            self.wf(),
        ensures
            found == self@.contains(key@),
    {
        let chars = chars_of(key);
        match self.0.get(chars.as_slice()) {
            QueryResult::Value(_) => true,
            _ => false,
        }
    }

    /// Whether `key` is a member or begins one.
    pub fn contains_prefix(&self, key: &str) -> (found: bool)
        requires
            self.wf(),
        ensures
            found == begins_a_word(self@, key@),
    {
        let chars = chars_of(key);
        proof {
            if self@.contains(key@) {
                assert(key@.take(key@.len() as int) =~= key@);
                assert(is_prefix(key@, key@));
            }
        }
        match self.0.get(chars.as_slice()) {
            QueryResult::NotFound => false,
            _ => true,
        }
    }

    /// Makes `key` a member.
    pub fn add(&mut self, key: &str)
        requires
            old(self).wf(),
        ensures
            final(self).wf(),
            final(self)@ == old(self)@.insert(key@),
    {
        let chars = chars_of(key);
        self.0.set(chars.as_slice(), ());
        assert(self@ =~= old(self)@.insert(key@));
    }
}

} // verus!
