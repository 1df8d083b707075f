//! A trie whose nodes own their children: the children of a node are kept
//! in the order of their keys and found by bisection, and every node holds
//! the best cost that was pushed through it.

use crate::arena::is_prefix;
use crate::key::Key;
use crate::symbol::{best, Cost, Symbol};
use vstd::prelude::*;

verus! {

/// A symbol with a place in a total order.
pub trait Ordered: Symbol {
    /// The place of the symbol in the order.
    spec fn place(&self) -> int;

    /// Symbols at the same place are the same symbol.
    proof fn lemma_place(a: Self, b: Self)
        requires
            a.place() == b.place(),
        ensures
            a == b,
    ;

    /// Whether `self` comes before `other`.
    fn before(&self, other: &Self) -> (b: bool)
        ensures
            b == (self.place() < other.place()),
    ;
}

impl Ordered for char {
    open spec fn place(&self) -> int {
        *self as int
    }

    proof fn lemma_place(a: Self, b: Self) {
    }

    fn before(&self, other: &Self) -> (b: bool) {
        *self < *other
    }
}

impl Ordered for u8 {
    open spec fn place(&self) -> int {
        *self as int
    }

    proof fn lemma_place(a: Self, b: Self) {
    }

    fn before(&self, other: &Self) -> (b: bool) {
        *self < *other
    }
}

impl Ordered for u32 {
    open spec fn place(&self) -> int {
        *self as int
    }

    proof fn lemma_place(a: Self, b: Self) {
    }

    fn before(&self, other: &Self) -> (b: bool) {
        *self < *other
    }
}

impl Ordered for u64 {
    open spec fn place(&self) -> int {
        *self as int
    }

    proof fn lemma_place(a: Self, b: Self) {
    }

    fn before(&self, other: &Self) -> (b: bool) {
        *self < *other
    }
}

impl Ordered for usize {
    open spec fn place(&self) -> int {
        *self as int
    }

    proof fn lemma_place(a: Self, b: Self) {
    }

    fn before(&self, other: &Self) -> (b: bool) {
        *self < *other
    }
}

/// Where a key stands relative to another.
pub enum Side {
    Before,
    Same,
    After,
}

/// Whether key `a` comes before key `b`: the start sentinel first, then the
/// symbols in their order, then the end sentinel.
pub open spec fn key_before<K: Ordered>(a: Key<K>, b: Key<K>) -> bool {
    match (a, b) {
        (Key::Start, Key::Start) => false,
        (Key::Start, _) => true,
        (Key::Internal(_), Key::Start) => false,
        (Key::Internal(x), Key::Internal(y)) => x.place() < y.place(),
        (Key::Internal(_), Key::End) => true,
        (Key::End, _) => false,
    }
}

/// Of two keys one comes before the other, or they are the same.
pub proof fn lemma_keys_ordered<K: Ordered>(a: Key<K>, b: Key<K>)
    ensures
        key_before(a, b) || key_before(b, a) || a == b,
        !(key_before(a, b) && key_before(b, a)),
        !key_before(a, a),
{
    match (a, b) {
        (Key::Internal(x), Key::Internal(y)) => {
            if x.place() == y.place() {
                K::lemma_place(x, y);
            }
        },
        _ => {},
    }
}

/// Where key `a` stands relative to key `b`.
pub fn key_side<K: Ordered>(a: &Key<K>, b: &Key<K>) -> (side: Side)
    ensures
        side is Before <==> key_before(*a, *b),
        side is Same <==> *a == *b,
        side is After <==> key_before(*b, *a),
{
    proof {
        lemma_keys_ordered(*a, *b);
    }
    match (a, b) {
        (Key::Start, Key::Start) => Side::Same,
        (Key::Start, _) => Side::Before,
        (Key::Internal(_), Key::Start) => Side::After,
        (Key::Internal(x), Key::Internal(y)) => {
            if x.before(y) {
                Side::Before
            } else if y.before(x) {
                Side::After
            } else {
                proof {
                    K::lemma_place(*x, *y);
                }
                Side::Same
            }
        },
        (Key::Internal(_), Key::End) => Side::Before,
        (Key::End, Key::End) => Side::Same,
        (Key::End, _) => Side::After,
    }
}

/// One node of the trie.
pub struct Node<K, V> {
    pub contents: Key<K>,
    pub children: Children<K, V>,
    /// `None` iff nothing was pushed through the node.
    pub min_descendent: Option<V>,
}

/// The children of a node, in the order of their keys.
pub struct Children<K, V>(pub Vec<Node<K, V>>);

/// Whether the nodes stand in the order of their keys, no key twice.
pub open spec fn sorted<K: Ordered, V>(nodes: Seq<Node<K, V>>) -> bool {
    forall|i: int, j: int|
        0 <= i < j < nodes.len() ==> key_before(
            (#[trigger] nodes[i]).contents,
            (#[trigger] nodes[j]).contents,
        )
}

/// The position of the node with the given key among `nodes`, if there is
/// one.
pub open spec fn position_of<K, V>(nodes: Seq<Node<K, V>>, key: Key<K>) -> Option<int> {
    if exists|i: int| 0 <= i < nodes.len() && (#[trigger] nodes[i]).contents == key {
        Some(choose|i: int| 0 <= i < nodes.len() && (#[trigger] nodes[i]).contents == key)
    } else {
        None
    }
}

/// Whether `node` is among `nodes`.
pub open spec fn among<K, V>(nodes: Seq<Node<K, V>>, node: Node<K, V>) -> bool {
    exists|i: int| 0 <= i < nodes.len() && #[trigger] nodes[i] == node
}

/// Among sorted nodes a key has one position at most.
pub proof fn lemma_position<K: Ordered, V>(nodes: Seq<Node<K, V>>, i: int)
    requires
        sorted(nodes),
        0 <= i < nodes.len(),
    ensures
        position_of(nodes, nodes[i].contents) == Some(i),
{
    let j = position_of(nodes, nodes[i].contents)->0;
    lemma_keys_ordered(nodes[i].contents, nodes[j].contents);
    if i < j {
        assert(key_before(nodes[i].contents, nodes[j].contents));
    } else if j < i {
        assert(key_before(nodes[j].contents, nodes[i].contents));
    }
}

/// The better of a cost that may be missing and a new one.
pub open spec fn lowered<V: Cost>(current: Option<V>, value: V) -> V {
    match current {
        None => value,
        Some(c) => best(c, value),
    }
}

impl<K: Ordered, V: Cost> Node<K, V> {
    /// The best cost pushed through this node.
    pub closed spec fn cost(self) -> Option<V> {
        self.min_descendent
    }

    /// The node that the keys `path` lead to from this node.
    pub open spec fn descend(self, path: Seq<Key<K>>) -> Option<Node<K, V>>
        decreases path.len(),
    {
        if path.len() == 0 {
            Some(self)
        } else {
            match position_of(self.children.0@, path[0]) {
                Some(i) => self.children.0@[i].descend(path.drop_first()),
                None => None,
            }
        }
    }

    /// The best cost pushed along `path` from this node.
    pub open spec fn cost_at(self, path: Seq<Key<K>>) -> Option<V> {
        match self.descend(path) {
            Some(node) => node.cost(),
            None => None,
        }
    }

    /// The invariant of the trie below this node: children stand in the
    /// order of their keys, and no child holds a better cost than its
    /// parent.
    pub open spec fn wf(self) -> bool
        decreases self,
    {
        &&& sorted(self.children.0@)
        &&& forall|i: int|
            0 <= i < self.children.0@.len() ==> {
                &&& (#[trigger] self.children.0@[i]).wf()
                &&& self.children.0@[i].cost() is Some
                &&& self.cost() is Some
                &&& self.cost()->0.rank() <= self.children.0@[i].cost()->0.rank()
            }
    }

    /// A root without children.
    pub fn new() -> (node: Self)
        ensures
            node.wf(),
            node.contents == Key::<K>::Start,
            node.cost() is None,
            node.children.0@.len() == 0,
    {
        Self::with_contents(Key::Start)
    }

    /// A node with the given key and without children.
    pub fn with_contents(contents: Key<K>) -> (node: Self)
        ensures
            node.wf(),
            node.contents == contents,
            node.cost() is None,
            node.children.0@.len() == 0,
    {
        Node { min_descendent: None, contents, children: Children(Vec::new()) }
    }

    /// The symbol of the node, if its key is one.
    pub fn key(&self) -> (symbol: Option<&K>)
        ensures
            symbol == match self.contents {
                Key::Internal(k) => Some(&k),
                _ => None::<&K>,
            },
    {
        match &self.contents {
            Key::Internal(k) => Some(k),
            _ => None,
        }
    }

    /// The cost of the node if it ends a sequence, `None` otherwise.
    pub fn value(&self) -> (value: Option<&V>)
        ensures
            value == match (self.contents, self.cost()) {
                (Key::End, Some(v)) => Some(&v),
                _ => None::<&V>,
            },
    {
        match &self.contents {
            Key::End => match &self.min_descendent {
                Some(v) => Some(v),
                None => None,
            },
            _ => None,
        }
    }

    /// The children of the node, in the order of their keys.
    pub fn iter_children(&self) -> (children: &[Node<K, V>])
        ensures
            children@ == self.children.0@,
    {
        self.children.0.as_slice()
    }

    /// Pushes `value` along the keys of `suffix` from position `from` on:
    /// this node and every node on the way take the better of their cost and
    /// `value`, and nodes that are missing on the way are made. The node at
    /// the end of the way is handed back.
    pub fn push(&mut self, suffix: &[Key<K>], from: usize, value: V) -> (end: &Self)
        requires
            old(self).wf(),
            from <= suffix.len(),
        ensures
            final(self).wf(),
            final(self).contents == old(self).contents,
            final(self).cost() == Some(lowered(old(self).cost(), value)),
            forall|path: Seq<Key<K>>|
                #[trigger] final(self).cost_at(path) == (if is_prefix(
                    path,
                    suffix@.skip(from as int),
                ) {
                    Some(lowered(old(self).cost_at(path), value))
                } else {
                    old(self).cost_at(path)
                }),
            final(self).descend(suffix@.skip(from as int)) == Some(*end),
    {
        self.push_along(suffix, from, value);
        proof {
            let rest = suffix@.skip(from as int);
            assert(rest.take(rest.len() as int) =~= rest);
            assert(is_prefix(rest, rest));
            assert(self.cost_at(rest) is Some);
        }
        match self.find_descendent(suffix, from) {
            Some(end) => end,
            None => self,
        }
    }

    /// Pushes `value` along the keys of `suffix` from position `from` on.
    fn push_along(&mut self, suffix: &[Key<K>], from: usize, value: V)
        requires
            old(self).wf(),
            from <= suffix.len(),
        ensures
            final(self).wf(),
            final(self).contents == old(self).contents,
            final(self).cost() == Some(lowered(old(self).cost(), value)),
            forall|path: Seq<Key<K>>|
                #[trigger] final(self).cost_at(path) == (if is_prefix(
                    path,
                    suffix@.skip(from as int),
                ) {
                    Some(lowered(old(self).cost_at(path), value))
                } else {
                    old(self).cost_at(path)
                }),
        decreases suffix.len() - from,
    {
        let ghost before = *self;
        let ghost rest = suffix@.skip(from as int);
        let replace = match &self.min_descendent {
            None => true,
            Some(current) => value.cheaper_than(current),
        };
        if replace {
            // we're at the root, or we're inserting a smaller value
            self.min_descendent = Some(value.duplicate());
        }
        let ghost lowered_here = *self;
        assert(lowered_here.children == before.children);
        if from < suffix.len() {
            // get child and recurse
            let first_key = &suffix[from];
            let ghost first = suffix@[from as int];
            let ghost tail = suffix@.skip(from + 1);
            proof {
                assert(rest[0] == first);
                assert(rest.drop_first() =~= tail);
            }
            let index = self.children.get_or_create(first_key);
            let ghost made = *self;
            let ghost child_before = made.children.0@[index as int];
            self.children.0[index].push_along(suffix, from + 1, value);
            proof {
                let after = *self;
                let child_after = after.children.0@[index as int];
                assert(after.children.0@ =~= made.children.0@.update(index as int, child_after));
                assert forall|i: int, j: int| 0 <= i < j < after.children.0@.len() implies key_before(
                    (#[trigger] after.children.0@[i]).contents,
                    (#[trigger] after.children.0@[j]).contents,
                ) by {
                    assert(key_before(made.children.0@[i].contents, made.children.0@[j].contents));
                }
                assert forall|i: int| 0 <= i < after.children.0@.len() implies {
                    &&& (#[trigger] after.children.0@[i]).wf()
                    &&& after.children.0@[i].cost() is Some
                    &&& after.cost() is Some
                    &&& after.cost()->0.rank() <= after.children.0@[i].cost()->0.rank()
                } by {
                    if i != index {
                        let was = made.children.0@[i];
                        assert(after.children.0@[i] == was);
                        assert(among(lowered_here.children.0@, was));
                        let k = choose|k: int|
                            0 <= k < before.children.0@.len() && #[trigger] before.children.0@[k]
                                == was;
                        assert(before.children.0@[k].wf());
                    } else {
                        if position_of(before.children.0@, first) is Some {
                            let k = position_of(before.children.0@, first)->0;
                            assert(before.children.0@[k].wf());
                        }
                    }
                }
                lemma_position(after.children.0@, index as int);
                assert forall|path: Seq<Key<K>>| #[trigger] after.cost_at(path) == (if is_prefix(
                    path,
                    rest,
                ) {
                    Some(lowered(before.cost_at(path), value))
                } else {
                    before.cost_at(path)
                }) by {
                    if path.len() > 0 {
                        let step = path[0];
                        let more = path.drop_first();
                        if step == first {
                            assert(is_prefix(path, rest) == is_prefix(more, tail)) by {
                                if is_prefix(more, tail) {
                                    assert(rest.take(path.len() as int) =~= seq![first] + tail.take(
                                        more.len() as int,
                                    ));
                                    assert(path =~= seq![first] + more);
                                }
                                if is_prefix(path, rest) {
                                    assert(tail.take(more.len() as int) =~= rest.take(
                                        path.len() as int,
                                    ).drop_first());
                                }
                            }
                            assert(child_after.cost_at(more) == (if is_prefix(more, tail) {
                                Some(lowered(child_before.cost_at(more), value))
                            } else {
                                child_before.cost_at(more)
                            }));
                            if position_of(before.children.0@, first) is Some {
                                let k = position_of(before.children.0@, first)->0;
                                assert(child_before == before.children.0@[k]);
                            } else {
                                assert(child_before.descend(more) == (if more.len() == 0 {
                                    Some(child_before)
                                } else {
                                    None
                                })) by {
                                    if more.len() > 0 {
                                        assert(position_of(child_before.children.0@, more[0]) is None);
                                    }
                                }
                            }
                        } else {
                            assert(!is_prefix(path, rest)) by {
                                if is_prefix(path, rest) {
                                    assert(rest.take(path.len() as int)[0] == path[0]);
                                }
                            }
                            assert forall|i: int|
                                0 <= i < before.children.0@.len() && (
                                #[trigger] before.children.0@[i]).contents != first implies among(
                                after.children.0@,
                                before.children.0@[i],
                            ) by {
                                let was = before.children.0@[i];
                                assert(among(made.children.0@, was));
                                let j = choose|j: int|
                                    0 <= j < made.children.0@.len() && #[trigger] made.children.0@[j]
                                        == was;
                                assert(after.children.0@[j] == was);
                            }
                            Children::lemma_other_keys(
                                before.children.0@,
                                after.children.0@,
                                first,
                                step,
                            );
                        }
                    } else {
                        assert(rest.take(0) =~= path);
                    }
                }
            }
        } else {
            // we're done (suffix is empty slice)
            proof {
                assert forall|path: Seq<Key<K>>| #[trigger] self.cost_at(path) == (if is_prefix(
                    path,
                    rest,
                ) {
                    Some(lowered(before.cost_at(path), value))
                } else {
                    before.cost_at(path)
                }) by {
                    if path.len() == 0 {
                        assert(rest.take(0) =~= path);
                    }
                }
                assert forall|i: int| 0 <= i < self.children.0@.len() implies {
                    &&& (#[trigger] self.children.0@[i]).wf()
                    &&& self.children.0@[i].cost() is Some
                    &&& self.cost() is Some
                    &&& self.cost()->0.rank() <= self.children.0@[i].cost()->0.rank()
                } by {
                    assert(before.children.0@[i].wf());
                }
            }
        }
    }

    /// The node that the keys `suffix` from position `from` on lead to, if
    /// there is one.
    pub fn find_descendent(&self, suffix: &[Key<K>], from: usize) -> (found: Option<&Self>)
        requires
            self.wf(),
            from <= suffix.len(),
        ensures
            found == match self.descend(suffix@.skip(from as int)) {
                Some(node) => Some(&node),
                None => None::<&Self>,
            },
        decreases suffix.len() - from,
    {
        if from < suffix.len() {
            proof {
                assert(suffix@.skip(from as int)[0] == suffix@[from as int]);
                assert(suffix@.skip(from as int).drop_first() =~= suffix@.skip(from + 1));
            }
            match self.children.get(&suffix[from]) {
                Some(child) => child.find_descendent(suffix, from + 1),
                None => None,
            }
        } else {
            Some(self)  // found it!
        }
    }
}

impl<K: Ordered, V: Cost> Children<K, V> {
    /// Where the key is among the children, or where it belongs.
    fn search(&self, key: &Key<K>) -> (found: Result<usize, usize>)
        requires
            sorted(self.0@),
        ensures
            match found {
                Ok(i) => i < self.0@.len() && self.0@[i as int].contents == *key,
                Err(i) => {
                    &&& i <= self.0@.len()
                    &&& forall|k: int| 0 <= k < i ==> key_before((#[trigger] self.0@[k]).contents, *key)
                    &&& forall|k: int|
                        i <= k < self.0@.len() ==> key_before(*key, (#[trigger] self.0@[k]).contents)
                },
            },
    {
        let mut low: usize = 0;
        let mut high: usize = self.0.len();
        while low < high
            invariant
                sorted(self.0@),
                low <= high <= self.0@.len(),
                forall|k: int| 0 <= k < low ==> key_before((#[trigger] self.0@[k]).contents, *key),
                forall|k: int|
                    high <= k < self.0@.len() ==> key_before(*key, (#[trigger] self.0@[k]).contents),
            decreases high - low,
        {
            let mid = low + (high - low) / 2;
            match key_side(&self.0[mid].contents, key) {
                Side::Same => {
                    return Ok(mid);
                },
                Side::Before => {
                    proof {
                        assert forall|k: int| 0 <= k < mid + 1 implies key_before(
                            (#[trigger] self.0@[k]).contents,
                            *key,
                        ) by {
                            if k < mid {
                                assert(key_before(self.0@[k].contents, self.0@[mid as int].contents));
                                lemma_key_before_transitive(
                                    self.0@[k].contents,
                                    self.0@[mid as int].contents,
                                    *key,
                                );
                            }
                        }
                    }
                    low = mid + 1;
                },
                Side::After => {
                    proof {
                        assert forall|k: int| mid <= k < self.0@.len() implies key_before(
                            *key,
                            (#[trigger] self.0@[k]).contents,
                        ) by {
                            if k > mid {
                                assert(key_before(self.0@[mid as int].contents, self.0@[k].contents));
                                lemma_key_before_transitive(
                                    *key,
                                    self.0@[mid as int].contents,
                                    self.0@[k].contents,
                                );
                            }
                        }
                    }
                    high = mid;
                },
            }
        }
        Err(low)
    }

    /// A key that is not among sorted nodes has no position.
    proof fn lemma_absent(nodes: Seq<Node<K, V>>, key: Key<K>, at: int)
        requires
            0 <= at <= nodes.len(),
            forall|k: int| 0 <= k < at ==> key_before((#[trigger] nodes[k]).contents, key),
            forall|k: int| at <= k < nodes.len() ==> key_before(key, (#[trigger] nodes[k]).contents),
        ensures
            position_of(nodes, key) is None,
    {
        if position_of(nodes, key) is Some {
            let i = position_of(nodes, key)->0;
            lemma_keys_ordered(nodes[i].contents, key);
        }
    }

    /// Changing or adding the child with one key leaves the positions of
    /// the other keys' children as they were, and those children too.
    proof fn lemma_other_keys(
        before: Seq<Node<K, V>>,
        after: Seq<Node<K, V>>,
        changed: Key<K>,
        key: Key<K>,
    )
        requires
            sorted(before),
            sorted(after),
            key != changed,
            forall|i: int|
                0 <= i < before.len() && (#[trigger] before[i]).contents != changed ==> among(
                    after,
                    before[i],
                ),
            forall|j: int|
                0 <= j < after.len() && (#[trigger] after[j]).contents != changed ==> among(
                    before,
                    after[j],
                ),
        ensures
            match (position_of(before, key), position_of(after, key)) {
                (Some(i), Some(j)) => before[i] == after[j],
                (None, None) => true,
                _ => false,
            },
    {
        if position_of(before, key) is Some {
            let i = position_of(before, key)->0;
            let j = choose|j: int| 0 <= j < after.len() && #[trigger] after[j] == before[i];
            lemma_position(after, j);
        }
        if position_of(after, key) is Some {
            let j = position_of(after, key)->0;
            let i = choose|i: int| 0 <= i < before.len() && #[trigger] before[i] == after[j];
            lemma_position(before, i);
        }
    }

    /// Gets the child if it exists.
    pub fn get(&self, key: &Key<K>) -> (child: Option<&Node<K, V>>)
        requires
            sorted(self.0@),
        ensures
            child == match position_of(self.0@, *key) {
                Some(i) => Some(&self.0@[i]),
                None => None::<&Node<K, V>>,
            },
    {
        match self.search(key) {
            Ok(index) => {
                proof {
                    lemma_position(self.0@, index as int);
                }
                Some(&self.0[index])
            },
            Err(index) => {
                proof {
                    Self::lemma_absent(self.0@, *key, index as int);
                }
                None
            },
        }
    }

    /// The position of the child with the given key. The child is made,
    /// without a cost and at the place its key gives it, if it does not
    /// exist.
    pub fn get_or_create(&mut self, key: &Key<K>) -> (index: usize)
        requires
            sorted(old(self).0@),
        ensures
            sorted(final(self).0@),
            index < final(self).0@.len(),
            final(self).0@[index as int].contents == *key,
            match position_of(old(self).0@, *key) {
                Some(i) => index == i && final(self).0@ == old(self).0@,
                None => {
                    &&& final(self).0@ == old(self).0@.insert(
                        index as int,
                        final(self).0@[index as int],
                    )
                    &&& final(self).0@[index as int].cost() is None
                    &&& final(self).0@[index as int].children.0@.len() == 0
                    &&& final(self).0@[index as int].wf()
                },
            },
            forall|i: int|
                0 <= i < old(self).0@.len() && (#[trigger] old(self).0@[i]).contents != *key
                    ==> among(final(self).0@, old(self).0@[i]),
            forall|j: int|
                0 <= j < final(self).0@.len() && j != index ==> among(
                    old(self).0@,
                    #[trigger] final(self).0@[j],
                ),
    {
        match self.search(key) {
            // exists, so return it
            Ok(index) => {
                proof {
                    lemma_position(self.0@, index as int);
                    assert forall|i: int| 0 <= i < self.0@.len() implies among(
                        self.0@,
                        #[trigger] self.0@[i],
                    ) by {}
                }
                index
            },
            // doesn't exist, so create and return it
            Err(index) => {
                proof {
                    Self::lemma_absent(self.0@, *key, index as int);
                }
                let child = Node::with_contents(key.duplicate());
                self.0.insert(index, child);
                proof {
                    let before = old(self).0@;
                    let after = self.0@;
                    assert forall|i: int, j: int| 0 <= i < j < after.len() implies key_before(
                        (#[trigger] after[i]).contents,
                        (#[trigger] after[j]).contents,
                    ) by {
                        if i < index && j > index {
                            assert(after[i] == before[i] && after[j] == before[j - 1]);
                        } else if j < index {
                            assert(after[i] == before[i] && after[j] == before[j]);
                        } else if i > index {
                            assert(after[i] == before[i - 1] && after[j] == before[j - 1]);
                        } else if i == index {
                            assert(after[j] == before[j - 1]);
                        } else {
                            assert(after[i] == before[i]);
                        }
                    }
                    assert forall|i: int| 0 <= i < before.len() implies among(
                        after,
                        #[trigger] before[i],
                    ) by {
                        if i < index {
                            assert(after[i] == before[i]);
                        } else {
                            assert(after[i + 1] == before[i]);
                        }
                    }
                    assert forall|j: int| 0 <= j < after.len() && j != index implies among(
                        before,
                        #[trigger] after[j],
                    ) by {
                        if j < index {
                            assert(before[j] == after[j]);
                        } else {
                            assert(before[j - 1] == after[j]);
                        }
                    }
                }
                index
            },
        }
    }
}

/// The order of the keys is transitive.
pub proof fn lemma_key_before_transitive<K: Ordered>(a: Key<K>, b: Key<K>, c: Key<K>)
    requires
        key_before(a, b),
        key_before(b, c),
    ensures
        key_before(a, c),
{
}

} // verus!
