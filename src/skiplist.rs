//! The ordered multi-level index used as the write buffer: a skip list whose
//! nodes live in an arena and link to each other by index.
use rand::Rng;
use vstd::prelude::*;

verus! {

/// Highest level a node can reach.
pub const MAX_HEIGHT: usize = 12;

/// Why an insert was refused.
#[derive(Debug, PartialEq, Eq, Structural)]
pub enum SkipListError {
    /// The key is already present; the caller decides how to update it.
    DuplicateKey,
}

/// A node: its key, its value, and for each of its levels the node before
/// and the node after it (`None` before the first node stands for the head,
/// after the last for the end).
pub struct Node<V> {
    key: u64,
    value: V,
    prev: Vec<Option<usize>>,
    next: Vec<Option<usize>>,
}

impl<V> Node<V> {
    /// The key.
    pub closed spec fn key_spec(&self) -> u64 {
        self.key
    }

    /// The value.
    pub closed spec fn value_spec(&self) -> V {
        self.value
    }

    /// Number of levels.
    pub closed spec fn height_spec(&self) -> nat {
        self.next@.len()
    }

    /// Creates a node that is linked nowhere and has no levels yet.
    pub fn new(key: u64, value: V) -> (r: Node<V>)
        ensures
            r.key_spec() == key,
            r.value_spec() == value,
            r.height_spec() == 0,
    {
        Node { key, value, prev: Vec::new(), next: Vec::new() }
    }

    /// The key.
    pub fn key(&self) -> (r: u64)
        ensures
            r == self.key_spec(),
    {
        self.key
    }

    /// The value.
    pub fn value(&self) -> (r: &V)
        ensures
            *r == self.value_spec(),
    {
        &self.value
    }

    /// Number of levels.
    pub fn height(&self) -> (r: usize)
        ensures
            r == self.height_spec(),
    {
        self.next.len()
    }
}

/// The skip list. The head is the list's entry point at every level; the
/// nodes sit in an arena and are named by their index in it.
pub struct SkipList<V> {
    head: Vec<Option<usize>>,
    nodes: Vec<Node<V>>,
    levels: Ghost<Seq<Seq<usize>>>,
    contents: Ghost<Map<u64, V>>,
}

/// A bracket at each level around a key: the nearest node below it (`None`:
/// the head) and the nearest node above it (`None`: the end); or the node
/// that holds the key.
pub struct Finger {
    prev: Vec<Option<usize>>,
    next: Vec<Option<usize>>,
    found: Option<usize>,
}

impl Finger {
    /// The node below the key at each level.
    pub closed spec fn prev_spec(&self) -> Seq<Option<usize>> {
        self.prev@
    }

    /// The node above the key at each level.
    pub closed spec fn next_spec(&self) -> Seq<Option<usize>> {
        self.next@
    }

    /// The node that holds the key, where one does.
    pub closed spec fn found_spec(&self) -> Option<usize> {
        self.found
    }

    /// The node below the key at each level (`None`: the head).
    pub fn prev_nodes(&self) -> (r: &[Option<usize>])
        ensures
            r@ == self.prev_spec(),
    {
        self.prev.as_slice()
    }

    /// The node above the key at each level (`None`: the end).
    pub fn next_nodes(&self) -> (r: &[Option<usize>])
        ensures
            r@ == self.next_spec(),
    {
        self.next.as_slice()
    }

    /// The node that holds the key, where one does.
    pub fn found(&self) -> (r: Option<usize>)
        ensures
            r == self.found_spec(),
    {
        self.found
    }

    /// A finger with every bracket open at both ends.
    fn empty(levels: usize) -> (r: Finger)
        ensures
            r.prev@.len() == levels,
            r.next@.len() == levels,
            r.found is None,
    {
        let mut prev: Vec<Option<usize>> = Vec::new();
        let mut next: Vec<Option<usize>> = Vec::new();
        let mut i: usize = 0;
        while i < levels
            invariant
                i <= levels,
                prev@.len() == i,
                next@.len() == i,
            decreases levels - i,
        {
            prev.push(None);
            next.push(None);
            i = i + 1;
        }
        Finger { prev, next, found: None }
    }
}

impl<V> SkipList<V> {
    /// Nodes at level `l`, in list order.
    pub closed spec fn level(&self, l: int) -> Seq<usize> {
        self.levels@[l]
    }

    /// Key of node `n`.
    pub closed spec fn key_of(&self, n: int) -> u64 {
        self.nodes@[n].key
    }

    /// Number of levels of node `n`.
    pub closed spec fn height_of(&self, n: int) -> int {
        self.nodes@[n].next@.len() as int
    }

    /// The node after `p` at level `l` (`p` of `None`: the head).
    pub closed spec fn link_after(&self, l: int, p: Option<usize>) -> Option<usize> {
        match p {
            None => self.head@[l],
            Some(x) => self.nodes@[x as int].next@[l],
        }
    }

    /// Number of nodes in the arena.
    pub closed spec fn node_count(&self) -> int {
        self.nodes@.len() as int
    }

    /// The key/value pairs held.
    pub closed spec fn contents(&self) -> Map<u64, V> {
        self.contents@
    }

    /// The keys met when following level 0 from the head.
    pub open spec fn keys(&self) -> Seq<u64> {
        self.level(0).map_values(|n: usize| self.key_of(n as int))
    }

    /// Keys strictly increase along `s`.
    pub open spec fn sorted(&self, s: Seq<usize>) -> bool {
        forall|i: int, j: int|
            0 <= i < j < s.len() ==> self.key_of(#[trigger] s[i] as int) < self.key_of(
                #[trigger] s[j] as int,
            )
    }

    /// The head and the node links at level `l` spell out `level(l)`, in both
    /// directions.
    pub closed spec fn chain_ok(&self, l: int) -> bool {
        let s = self.levels@[l];
        &&& self.head@[l] == (if s.len() == 0 {
            None
        } else {
            Some(s[0])
        })
        &&& forall|i: int|
            0 <= i < s.len() ==> #[trigger] self.nodes@[s[i] as int].next@[l] == (if i + 1
                < s.len() {
                Some(s[i + 1])
            } else {
                None
            })
        &&& forall|i: int|
            0 <= i < s.len() ==> #[trigger] self.nodes@[s[i] as int].prev@[l] == (if i == 0 {
                None
            } else {
                Some(s[i - 1])
            })
    }

    /// The structure holds at every level, with node `pending` linked at its
    /// levels below `done` only and every other node at all of its levels.
    pub closed spec fn inv(&self, pending: int, done: int) -> bool {
        &&& self.head@.len() == MAX_HEIGHT
        &&& self.levels@.len() == MAX_HEIGHT
        &&& forall|n: int|
            0 <= n < self.nodes@.len() ==> {
                &&& 1 <= #[trigger] self.height_of(n) <= MAX_HEIGHT
                &&& self.nodes@[n].prev@.len() == self.height_of(n)
            }
        &&& forall|l: int|
            0 <= l < MAX_HEIGHT ==> {
                &&& #[trigger] self.chain_ok(l)
                &&& self.sorted(self.levels@[l])
            }
        &&& forall|l: int, i: int|
            0 <= l < MAX_HEIGHT && 0 <= i < self.levels@[l].len() ==> {
                &&& 0 <= #[trigger] self.levels@[l][i] < self.nodes@.len()
                &&& l < self.height_of(self.levels@[l][i] as int)
            }
        &&& forall|l: int, n: usize|
            0 <= l < MAX_HEIGHT && n < self.nodes@.len() ==> (#[trigger] self.levels@[
                l
            ].contains(n) <==> if n == pending {
                l < done
            } else {
                l < self.height_of(n as int)
            })
        &&& forall|k: u64|
            #[trigger] self.contents@.contains_key(k) <==> exists|i: int|
                0 <= i < self.levels@[0].len() && self.key_of(#[trigger] self.levels@[0][i] as int)
                    == k
        &&& forall|i: int|
            0 <= i < self.levels@[0].len() ==> self.contents@[self.key_of(
                #[trigger] self.levels@[0][i] as int,
            )] == self.nodes@[self.levels@[0][i] as int].value
    }

    /// The structure holds, every node linked at all of its levels.
    pub closed spec fn wf(&self) -> bool {
        self.inv(self.nodes@.len() as int, 0)
    }

    /// Creates an empty list.
    pub fn new() -> (r: SkipList<V>)
        ensures
            r.wf(),
            r.contents() == Map::<u64, V>::empty(),
            r.node_count() == 0,
    {
        let mut head: Vec<Option<usize>> = Vec::new();
        let mut i: usize = 0;
        while i < MAX_HEIGHT
            invariant
                i <= MAX_HEIGHT,
                head@.len() == i,
                forall|j: int| 0 <= j < i ==> head@[j] is None,
            decreases MAX_HEIGHT - i,
        {
            head.push(None);
            i = i + 1;
        }
        let r = SkipList {
            head,
            nodes: Vec::new(),
            levels: Ghost(Seq::new(MAX_HEIGHT as nat, |l: int| Seq::<usize>::empty())),
            contents: Ghost(Map::empty()),
        };
        assert forall|l: int| 0 <= l < MAX_HEIGHT implies #[trigger] r.chain_ok(l) by {}
        r
    }

    /// The keys, following level 0 from the head.
    pub fn keys_in_order(&self) -> (r: Vec<u64>)
        requires
            self.wf(),
        ensures
            r@ == self.keys(),
    {
        let ghost s = self.levels@[0];
        let mut r: Vec<u64> = Vec::new();
        let mut cur = self.head[0];
        let ghost mut i: int = 0;
        assert(self.chain_ok(0));
        while cur.is_some()
            invariant
                self.wf(),
                s == self.levels@[0],
                0 <= i <= s.len(),
                cur == (if i < s.len() {
                    Some(s[i])
                } else {
                    None::<usize>
                }),
                r@ == s.subrange(0, i).map_values(|n: usize| self.key_of(n as int)),
            decreases s.len() - i,
        {
            let n = cur.unwrap();
            assert(self.chain_ok(0));
            assert(0 <= s[i] < self.nodes@.len() && 0 < self.height_of(s[i] as int));
            r.push(self.nodes[n].key);
            cur = self.nodes[n].next[0];
            proof {
                assert(s.subrange(0, i + 1).map_values(|n: usize| self.key_of(n as int))
                    =~= s.subrange(0, i).map_values(|n: usize| self.key_of(n as int)).push(
                    self.key_of(s[i] as int),
                ));
                i = i + 1;
            }
        }
        assert(s.subrange(0, i) =~= s);
        r
    }
}

impl<V> SkipList<V> {
    /// Position `pos` of level `l` splits it around `key`: the nodes before
    /// it hold smaller keys, the nodes from it on larger ones.
    pub open spec fn brackets(&self, l: int, key: u64, pos: int) -> bool {
        let s = self.level(l);
        &&& 0 <= pos <= s.len()
        &&& forall|i: int| 0 <= i < pos ==> self.key_of(#[trigger] s[i] as int) < key
        &&& forall|i: int| pos <= i < s.len() ==> self.key_of(#[trigger] s[i] as int) > key
    }

    /// `p` and `n` stand on either side of `key` at level `l`.
    pub open spec fn bracket_at(&self, l: int, key: u64, p: Option<usize>, n: Option<usize>) -> bool {
        exists|pos: int| #[trigger]
            self.brackets(l, key, pos) && p == self.before(l, pos) && n == self.at(l, pos)
    }

    /// The node before position `pos` of level `l` (`None`: the head).
    pub open spec fn before(&self, l: int, pos: int) -> Option<usize> {
        if pos == 0 {
            None
        } else {
            Some(self.level(l)[pos - 1])
        }
    }

    /// The node at position `pos` of level `l` (`None`: the end).
    pub open spec fn at(&self, l: int, pos: int) -> Option<usize> {
        if pos == self.level(l).len() {
            None
        } else {
            Some(self.level(l)[pos])
        }
    }

    /// `f` brackets `key`: where a node holds it, `f` names that node and
    /// takes its neighbours at each of its levels; otherwise the key is
    /// absent and at every level `f` holds the nodes on either side of it.
    pub open spec fn finger_ok(&self, f: &Finger, key: u64) -> bool {
        &&& f.prev_spec().len() == MAX_HEIGHT
        &&& f.next_spec().len() == MAX_HEIGHT
        &&& match f.found_spec() {
            Some(n) => {
                &&& 0 <= n < self.node_count()
                &&& self.key_of(n as int) == key
                &&& self.contents().contains_key(key)
                &&& forall|l: int|
                    0 <= l < self.height_of(n as int) ==> {
                        &&& f.prev_spec()[l] == self.neighbour_before(n as int, l)
                        &&& f.next_spec()[l] == self.neighbour_after(n as int, l)
                    }
            },
            None => {
                &&& !self.contents().contains_key(key)
                &&& forall|l: int|
                    0 <= l < MAX_HEIGHT ==> #[trigger] self.bracket_at(
                        l,
                        key,
                        f.prev_spec()[l],
                        f.next_spec()[l],
                    )
            },
        }
    }

    /// The link of node `n` to the node before it at level `l`.
    pub closed spec fn neighbour_before(&self, n: int, l: int) -> Option<usize> {
        self.nodes@[n].prev@[l]
    }

    /// The link of node `n` to the node after it at level `l`.
    pub closed spec fn neighbour_after(&self, n: int, l: int) -> Option<usize> {
        self.nodes@[n].next@[l]
    }

    /// A finger taken from node `n`'s own links at each of its levels.
    fn from_node(&self, n: usize) -> (r: Finger)
        requires
            self.wf(),
            n < self.node_count(),
        ensures
            r.prev@.len() == MAX_HEIGHT,
            r.next@.len() == MAX_HEIGHT,
            r.found == Some(n),
            forall|l: int|
                0 <= l < self.height_of(n as int) ==> {
                    &&& r.prev@[l] == self.neighbour_before(n as int, l)
                    &&& r.next@[l] == self.neighbour_after(n as int, l)
                },
    {
        let node = &self.nodes[n];
        let levels = node.next.len();
        assert(1 <= self.height_of(n as int) <= MAX_HEIGHT);
        let mut finger = Finger::empty(MAX_HEIGHT);
        let mut i: usize = 0;
        while i < levels
            invariant
                i <= levels,
                levels == self.height_of(n as int),
                levels <= MAX_HEIGHT,
                node == &self.nodes@[n as int],
                node.prev@.len() == levels,
                finger.prev@.len() == MAX_HEIGHT,
                finger.next@.len() == MAX_HEIGHT,
                forall|l: int|
                    0 <= l < i ==> {
                        &&& finger.prev@[l] == self.neighbour_before(n as int, l)
                        &&& finger.next@[l] == self.neighbour_after(n as int, l)
                    },
            decreases levels - i,
        {
            finger.prev.set(i, node.prev[i]);
            finger.next.set(i, node.next[i]);
            i = i + 1;
        }
        finger.found = Some(n);
        finger
    }

    /// The node after `cur` at level `l` (`cur` of `None`: the head).
    fn step(&self, l: usize, cur: Option<usize>) -> (r: Option<usize>)
        requires
            self.wf(),
            l < MAX_HEIGHT,
            cur matches Some(c) ==> c < self.node_count() && l < self.height_of(c as int),
        ensures
            r == self.link_after(l as int, cur),
    {
        match cur {
            None => self.head[l],
            Some(c) => self.nodes[c].next[l],
        }
    }

    /// Brackets `key` at every level, walking from the top level down and
    /// going on at each level from where the level above stopped. Stops at
    /// the node that holds `key`, where there is one.
    pub fn bracketing_finger(&self, key: u64) -> (f: Finger)
        requires
            self.wf(),
        ensures
            self.finger_ok(&f, key),
    {
        let mut finger = Finger::empty(MAX_HEIGHT);
        let mut cur: Option<usize> = None;
        let mut level: usize = MAX_HEIGHT;
        while level > 0
            invariant
                self.wf(),
                level <= MAX_HEIGHT,
                finger.prev@.len() == MAX_HEIGHT,
                finger.next@.len() == MAX_HEIGHT,
                finger.found is None,
                cur matches Some(c) ==> {
                    &&& c < self.node_count()
                    &&& self.key_of(c as int) < key
                    &&& level < self.height_of(c as int)
                },
                forall|l: int|
                    level <= l < MAX_HEIGHT ==> #[trigger] self.bracket_at(
                        l,
                        key,
                        finger.prev@[l],
                        finger.next@[l],
                    ),
            decreases level,
        {
            level = level - 1;
            let ghost l = level as int;
            let ghost s = self.level(l);
            proof {
                assert(self.chain_ok(l));
                assert(self.sorted(s));
            }
            let ghost mut pos: int = 0;
            proof {
                if let Some(c) = cur {
                    assert(s.contains(c));
                    let q = choose|q: int| 0 <= q < s.len() && s[q] == c;
                    pos = q + 1;
                    assert forall|i: int| 0 <= i < pos implies self.key_of(#[trigger] s[i] as int)
                        < key by {
                        if i < q {
                            assert(self.key_of(s[i] as int) < self.key_of(s[q] as int));
                        }
                    }
                }
            }
            let mut advancing = true;
            while advancing
                invariant
                    self.wf(),
                    l == level as int,
                    0 <= l < MAX_HEIGHT,
                    s == self.level(l),
                    self.sorted(s),
                    self.chain_ok(l),
                    0 <= pos <= s.len(),
                    cur == self.before(l, pos),
                    cur matches Some(c) ==> {
                        &&& c < self.node_count()
                        &&& self.key_of(c as int) < key
                        &&& l < self.height_of(c as int)
                    },
                    forall|i: int| 0 <= i < pos ==> self.key_of(#[trigger] s[i] as int) < key,
                    !advancing ==> self.brackets(l, key, pos),
                    finger.prev@.len() == MAX_HEIGHT,
                    finger.next@.len() == MAX_HEIGHT,
                    finger.found is None,
                decreases s.len() - pos, (if advancing { 1int } else { 0int }),
            {
                let nx = self.step(level, cur);
                assert(nx == self.at(l, pos));
                match nx {
                    None => {
                        advancing = false;
                    },
                    Some(m) => {
                        assert(0 <= s[pos] < self.node_count() && l < self.height_of(s[pos] as int));
                        let mk = self.nodes[m].key;
                        if mk < key {
                            cur = Some(m);
                            proof {
                                pos = pos + 1;
                            }
                        } else if mk == key {
                            proof {
                                assert(self.level(0).contains(m));
                                let q = choose|q: int| 0 <= q < self.level(0).len() && self.level(0)[q] == m;
                                assert(self.key_of(self.level(0)[q] as int) == key);
                            }
                            return self.from_node(m);
                        } else {
                            proof {
                                assert forall|i: int| pos <= i < s.len() implies self.key_of(
                                    #[trigger] s[i] as int,
                                ) > key by {
                                    if pos < i {
                                        assert(self.key_of(s[pos] as int) < self.key_of(s[i] as int));
                                    }
                                }
                            }
                            advancing = false;
                        }
                    },
                }
            }
            finger.prev.set(level, cur);
            finger.next.set(level, self.step(level, cur));
            assert(self.brackets(l, key, pos));
            assert(self.bracket_at(l, key, finger.prev@[l], finger.next@[l]));
        }
        proof {
            assert(self.bracket_at(0, key, finger.prev@[0], finger.next@[0]));
            let pos = choose|pos: int| #[trigger] self.brackets(0, key, pos) && finger.prev@[0] == self.before(0, pos) && finger.next@[0] == self.at(0, pos);
            if self.contents().contains_key(key) {
                let i = choose|i: int|
                    0 <= i < self.level(0).len() && self.key_of(self.level(0)[i] as int) == key;
            }
        }
        finger
    }
}

impl<V> SkipList<V> {
    /// Links node `n` into level `l` at position `pos`, between the nodes
    /// `p` and `q` that stand there on either side of its key: first the
    /// node's own links, then the link into it from `p`, then the one back
    /// from `q`.
    fn splice(
        &mut self,
        n: usize,
        l: usize,
        p: Option<usize>,
        q: Option<usize>,
        Ghost(pos): Ghost<int>,
    )
        requires
            old(self).inv(n as int, l as int),
            n < old(self).node_count(),
            l < old(self).height_of(n as int),
            old(self).brackets(l as int, old(self).key_of(n as int), pos),
            p == old(self).before(l as int, pos),
            q == old(self).at(l as int, pos),
        ensures
            final(self).inv(n as int, l + 1),
            final(self).node_count() == old(self).node_count(),
            forall|m: int|
                0 <= m < old(self).node_count() ==> {
                    &&& #[trigger] final(self).key_of(m) == old(self).key_of(m)
                },
            forall|m: int|
                0 <= m < old(self).node_count() ==> #[trigger] final(self).nodes@[m].value
                    == old(self).nodes@[m].value,
            forall|m: int|
                0 <= m < old(self).node_count() ==> #[trigger] final(self).height_of(m)
                    == old(self).height_of(m),
            forall|l2: int|
                0 <= l2 < MAX_HEIGHT && l2 != l ==> #[trigger] final(self).level(l2)
                    == old(self).level(l2),
            final(self).level(l as int) == old(self).level(l as int).insert(pos, n),
            l == 0 ==> final(self).contents() == old(self).contents().insert(
                old(self).key_of(n as int),
                old(self).nodes@[n as int].value,
            ),
            l != 0 ==> final(self).contents() == old(self).contents(),
    {
        let _ = self.nodes.len();
        let ghost s = self.levels@[l as int];
        let ghost a = *self;
        let ghost key = self.key_of(n as int);
        proof {
            assert(self.chain_ok(l as int));
            if let Some(pp) = p {
                assert(0 <= s[pos - 1] < self.node_count());
                assert(l < self.height_of(pp as int));
            }
            if let Some(qq) = q {
                assert(0 <= s[pos] < self.node_count());
                assert(l < self.height_of(qq as int));
            }
            if pos > 0 {
                lemma_distinct(a, l as int, pos - 1, n);
            }
            if pos < s.len() {
                lemma_distinct(a, l as int, pos, n);
            }
        }
        self.nodes[n].next.set(l, q);
        self.nodes[n].prev.set(l, p);
        let ghost g1 = self.nodes@;
        assert(g1 == a.nodes@.update(n as int, g1[n as int]));
        assert(g1[n as int].next@ == a.nodes@[n as int].next@.update(l as int, q));
        assert(g1[n as int].prev@ == a.nodes@[n as int].prev@.update(l as int, p));
        assert(g1[n as int].key == a.nodes@[n as int].key);
        assert(g1[n as int].value == a.nodes@[n as int].value);
        match p {
            None => {
                self.head.set(l, Some(n));
            },
            Some(pp) => {
                self.nodes[pp].next.set(l, Some(n));
            },
        }
        let ghost g2 = self.nodes@;
        assert(p matches Some(pp) ==> g2 == g1.update(pp as int, g2[pp as int])
            && g2[pp as int].next@ == g1[pp as int].next@.update(l as int, Some(n))
            && g2[pp as int].prev@ == g1[pp as int].prev@ && g2[pp as int].key == g1[pp as int].key
            && g2[pp as int].value == g1[pp as int].value);
        assert(p is None ==> g2 == g1);
        match q {
            None => {},
            Some(qq) => {
                self.nodes[qq].prev.set(l, Some(n));
            },
        }
        let ghost g3 = self.nodes@;
        assert(q matches Some(qq) ==> g3 == g2.update(qq as int, g3[qq as int])
            && g3[qq as int].prev@ == g2[qq as int].prev@.update(l as int, Some(n))
            && g3[qq as int].next@ == g2[qq as int].next@ && g3[qq as int].key == g2[qq as int].key
            && g3[qq as int].value == g2[qq as int].value);
        assert(q is None ==> g3 == g2);
        self.levels = Ghost(self.levels@.update(l as int, s.insert(pos, n)));
        if l == 0 {
            self.contents = Ghost(self.contents@.insert(key, self.nodes@[n as int].value));
        }
        proof {
            let b = *self;
            assert forall|m: int| #![trigger b.nodes@[m]] 0 <= m < a.nodes@.len() implies {
                &&& b.nodes@[m].key == a.nodes@[m].key
                &&& b.nodes@[m].value == a.nodes@[m].value
                &&& b.nodes@[m].next@.len() == a.nodes@[m].next@.len()
                &&& b.nodes@[m].prev@.len() == a.nodes@[m].prev@.len()
                &&& forall|l2: int|
                    0 <= l2 < b.nodes@[m].next@.len() ==> #[trigger] b.nodes@[m].next@[l2] == (
                    if l2 == l {
                        if m == n {
                            q
                        } else if p == Some(m as usize) {
                            Some(n)
                        } else {
                            a.nodes@[m].next@[l2]
                        }
                    } else {
                        a.nodes@[m].next@[l2]
                    })
                &&& forall|l2: int|
                    0 <= l2 < b.nodes@[m].prev@.len() ==> #[trigger] b.nodes@[m].prev@[l2] == (
                    if l2 == l {
                        if m == n {
                            p
                        } else if q == Some(m as usize) {
                            Some(n)
                        } else {
                            a.nodes@[m].prev@[l2]
                        }
                    } else {
                        a.nodes@[m].prev@[l2]
                    })
            } by {
                assert(b.nodes@ == g3);
                if m == n {
                    assert(p != Some(m as usize));
                    assert(q != Some(m as usize));
                    assert(g2[m] == g1[m]);
                    assert(g3[m] == g2[m]);
                    assert(b.nodes@[m].key == a.nodes@[m].key);
                    assert(b.nodes@[m].next@ == a.nodes@[m].next@.update(l as int, q));
                    assert(b.nodes@[m].prev@ == a.nodes@[m].prev@.update(l as int, p));
                } else if p == Some(m as usize) {
                    assert(q != Some(m as usize));
                    assert(g1[m] == a.nodes@[m]);
                    assert(g3[m] == g2[m]);
                    assert(b.nodes@[m].next@ == a.nodes@[m].next@.update(l as int, Some(n)));
                    assert(b.nodes@[m].prev@ == a.nodes@[m].prev@);
                } else if q == Some(m as usize) {
                    assert(g1[m] == a.nodes@[m]);
                    assert(g2[m] == g1[m]);
                    assert(b.nodes@[m].prev@ == a.nodes@[m].prev@.update(l as int, Some(n)));
                    assert(b.nodes@[m].next@ == a.nodes@[m].next@);
                } else {
                    assert(g1[m] == a.nodes@[m]);
                    assert(g2[m] == g1[m]);
                    assert(g3[m] == g2[m]);
                }
                assert(b.nodes@[m].key == a.nodes@[m].key);
                assert(b.nodes@[m].value == a.nodes@[m].value);
                assert(b.nodes@[m].next@.len() == a.nodes@[m].next@.len());
            }
            lemma_splice_inv(a, b, n as int, l as int, pos, p, q);
        }
    }
}

/// Two places of a level hold different nodes, and none of them is the
/// pending node above its linked levels.
proof fn lemma_distinct<V>(a: SkipList<V>, l: int, i: int, n: usize)
    requires
        a.inv(n as int, l),
        0 <= l < MAX_HEIGHT,
        0 <= i < a.levels@[l].len(),
        n < a.nodes@.len(),
    ensures
        a.levels@[l][i] != n,
        forall|j: int| 0 <= j < a.levels@[l].len() && j != i ==> a.levels@[l][j] != a.levels@[l][i],
{
    assert(a.chain_ok(l));
    assert(a.sorted(a.levels@[l]));
    assert(!a.levels@[l].contains(n));
    assert forall|j: int| 0 <= j < a.levels@[l].len() && j != i implies a.levels@[l][j]
        != a.levels@[l][i] by {
        if j < i {
            assert(a.key_of(a.levels@[l][j] as int) < a.key_of(a.levels@[l][i] as int));
        } else {
            assert(a.key_of(a.levels@[l][i] as int) < a.key_of(a.levels@[l][j] as int));
        }
    }
}

/// What `splice` leaves behind satisfies the structure with one more level
/// of the pending node linked.
#[verifier::rlimit(80)]
#[verifier::spinoff_prover]
proof fn lemma_splice_inv<V>(
    a: SkipList<V>,
    b: SkipList<V>,
    n: int,
    l: int,
    pos: int,
    p: Option<usize>,
    q: Option<usize>,
)
    requires
        a.inv(n, l),
        0 <= n < a.node_count(),
        n <= usize::MAX,
        0 <= l < a.height_of(n),
        a.brackets(l, a.key_of(n), pos),
        p == a.before(l, pos),
        q == a.at(l, pos),
        b.nodes@.len() == a.nodes@.len(),
        b.head@ == (if p is None {
            a.head@.update(l, Some(n as usize))
        } else {
            a.head@
        }),
        b.levels@ == a.levels@.update(l, a.levels@[l].insert(pos, n as usize)),
        l == 0 ==> b.contents@ == a.contents@.insert(a.key_of(n), a.nodes@[n].value),
        l != 0 ==> b.contents@ == a.contents@,
        forall|m: int|
            #![trigger b.nodes@[m]]
            0 <= m < a.nodes@.len() ==> {
                &&& b.nodes@[m].key == a.nodes@[m].key
                &&& b.nodes@[m].value == a.nodes@[m].value
                &&& b.nodes@[m].next@.len() == a.nodes@[m].next@.len()
                &&& b.nodes@[m].prev@.len() == a.nodes@[m].prev@.len()
                &&& forall|l2: int|
                    0 <= l2 < b.nodes@[m].next@.len() ==> #[trigger] b.nodes@[m].next@[l2] == (
                    if l2 == l {
                        if m == n {
                            q
                        } else if p == Some(m as usize) {
                            Some(n as usize)
                        } else {
                            a.nodes@[m].next@[l2]
                        }
                    } else {
                        a.nodes@[m].next@[l2]
                    })
                &&& forall|l2: int|
                    0 <= l2 < b.nodes@[m].prev@.len() ==> #[trigger] b.nodes@[m].prev@[l2] == (
                    if l2 == l {
                        if m == n {
                            p
                        } else if q == Some(m as usize) {
                            Some(n as usize)
                        } else {
                            a.nodes@[m].prev@[l2]
                        }
                    } else {
                        a.nodes@[m].prev@[l2]
                    })
            },
    ensures
        b.inv(n, l + 1),
        forall|m: int| 0 <= m < a.node_count() ==> #[trigger] b.key_of(m) == a.key_of(m),
        forall|m: int| 0 <= m < a.node_count() ==> #[trigger] b.height_of(m) == a.height_of(m),
{
    let s = a.levels@[l];
    let s2 = s.insert(pos, n as usize);
    let key = a.key_of(n);
    assert(a.chain_ok(l));
    assert(a.sorted(s));
    assert(!s.contains(n as usize));
    assert forall|m: int| 0 <= m < a.node_count() implies #[trigger] b.key_of(m) == a.key_of(m) by {
        assert(b.nodes@[m].key == a.nodes@[m].key);
    }
    assert forall|m: int| 0 <= m < a.node_count() implies #[trigger] b.height_of(m) == a.height_of(m) by {
        assert(b.nodes@[m].key == a.nodes@[m].key);
    }
    assert forall|m: int| 0 <= m < b.nodes@.len() implies {
        &&& 1 <= #[trigger] b.height_of(m) <= MAX_HEIGHT
        &&& b.nodes@[m].prev@.len() == b.height_of(m)
    } by {
        assert(b.nodes@[m].key == a.nodes@[m].key);
        assert(1 <= a.height_of(m) <= MAX_HEIGHT);
    }
    assert(b.head@.len() == MAX_HEIGHT);
    assert(b.levels@.len() == MAX_HEIGHT);
    // distinct nodes along the level
    assert forall|i: int, j: int| 0 <= i < s.len() && 0 <= j < s.len() && i != j implies s[i] != s[j] by {
        if i < j {
            assert(a.key_of(s[i] as int) < a.key_of(s[j] as int));
        } else {
            assert(a.key_of(s[j] as int) < a.key_of(s[i] as int));
        }
    }
    // the level that was linked
    assert(b.sorted(s2)) by {
        assert forall|i: int, j: int| 0 <= i < j < s2.len() implies b.key_of(#[trigger] s2[i] as int) < b.key_of(#[trigger] s2[j] as int) by {
            if i < pos && j < pos {
            } else if i < pos && j == pos {
            } else if i < pos {
                assert(s2[j] == s[j - 1]);
            } else if i == pos {
                assert(s2[j] == s[j - 1]);
            } else {
                assert(s2[i] == s[i - 1]);
                assert(s2[j] == s[j - 1]);
            }
        }
    }
    assert(b.chain_ok(l)) by {
        assert forall|i: int| 0 <= i < s2.len() implies #[trigger] b.nodes@[s2[i] as int].next@[l] == (if i + 1 < s2.len() {
            Some(s2[i + 1])
        } else {
            None
        }) by {
            if i < pos - 1 {
                assert(s2[i] == s[i]);
                assert(a.nodes@[s[i] as int].next@[l] == Some(s[i + 1]));
                assert(l < a.height_of(s[i] as int));
            } else if i == pos - 1 {
                assert(s2[i] == s[i]);
                assert(l < a.height_of(s[i] as int));
            } else if i == pos {
            } else {
                assert(s2[i] == s[i - 1]);
                assert(l < a.height_of(s[i - 1] as int));
                assert(s[i - 1] != n);
            }
        }
        assert forall|i: int| 0 <= i < s2.len() implies #[trigger] b.nodes@[s2[i] as int].prev@[l] == (if i == 0 {
            None
        } else {
            Some(s2[i - 1])
        }) by {
            if i < pos {
                assert(s2[i] == s[i]);
                assert(l < a.height_of(s[i] as int));
                if pos < s.len() {
                    assert(s[i] != s[pos]);
                }
            } else if i == pos {
            } else if i == pos + 1 {
                assert(s2[i] == s[pos]);
                assert(l < a.height_of(s[pos] as int));
            } else {
                assert(s2[i] == s[i - 1]);
                assert(l < a.height_of(s[i - 1] as int));
                assert(s[i - 1] != s[pos]);
            }
        }
    }
    // the other levels
    assert forall|l2: int| 0 <= l2 < MAX_HEIGHT implies {
        &&& #[trigger] b.chain_ok(l2)
        &&& b.sorted(b.levels@[l2])
    } by {
        if l2 != l {
            let t = a.levels@[l2];
            assert(a.chain_ok(l2));
            assert(a.sorted(t));
            assert forall|i: int| 0 <= i < t.len() implies #[trigger] b.nodes@[t[i] as int].next@[l2] == a.nodes@[t[i] as int].next@[l2] by {
                assert(l2 < a.height_of(t[i] as int));
            }
            assert forall|i: int| 0 <= i < t.len() implies #[trigger] b.nodes@[t[i] as int].prev@[l2] == a.nodes@[t[i] as int].prev@[l2] by {
                assert(l2 < a.height_of(t[i] as int));
            }
            assert forall|i: int, j: int| 0 <= i < j < t.len() implies b.key_of(#[trigger] t[i] as int) < b.key_of(#[trigger] t[j] as int) by {
                assert(a.key_of(t[i] as int) < a.key_of(t[j] as int));
            }
        }
    }
    assert forall|l2: int, i: int| 0 <= l2 < MAX_HEIGHT && 0 <= i < b.levels@[l2].len() implies {
        &&& 0 <= #[trigger] b.levels@[l2][i] < b.nodes@.len()
        &&& l2 < b.height_of(b.levels@[l2][i] as int)
    } by {
        if l2 == l {
            if i < pos {
                assert(b.levels@[l2][i] == s[i]);
            } else if i > pos {
                assert(b.levels@[l2][i] == s[i - 1]);
            }
        }
    }
    assert forall|l2: int, m: usize| 0 <= l2 < MAX_HEIGHT && m < b.nodes@.len() implies (#[trigger] b.levels@[l2].contains(m) <==> if m == n {
        l2 < l + 1
    } else {
        l2 < b.height_of(m as int)
    }) by {
        if l2 == l {
            assert(a.levels@[l2].contains(m) ==> s2.contains(m)) by {
                if a.levels@[l2].contains(m) {
                    let i = choose|i: int| 0 <= i < s.len() && s[i] == m;
                    if i < pos {
                        assert(s2[i] == m);
                    } else {
                        assert(s2[i + 1] == m);
                    }
                }
            }
            assert(s2.contains(m) ==> (m == n || a.levels@[l2].contains(m))) by {
                if s2.contains(m) {
                    let i = choose|i: int| 0 <= i < s2.len() && s2[i] == m;
                    if i < pos {
                        assert(s[i] == m);
                    } else if i > pos {
                        assert(s[i - 1] == m);
                    }
                }
            }
            assert(s2[pos] == n);
        }
    }
    // contents
    assert forall|i: int| 0 <= i < b.levels@[0].len() implies b.contents@[b.key_of(
        #[trigger] b.levels@[0][i] as int,
    )] == b.nodes@[b.levels@[0][i] as int].value by {
        if l == 0 {
            if i < pos {
                assert(b.levels@[0][i] == s[i]);
                assert(a.key_of(s[i] as int) < key);
            } else if i > pos {
                assert(b.levels@[0][i] == s[i - 1]);
                assert(a.key_of(s[i - 1] as int) > key);
            }
        }
    }
    assert forall|k: u64| #[trigger] b.contents@.contains_key(k) <==> exists|i: int|
        0 <= i < b.levels@[0].len() && b.key_of(#[trigger] b.levels@[0][i] as int) == k by {
        if l == 0 {
            if a.contents@.contains_key(k) {
                let i = choose|i: int| 0 <= i < a.levels@[0].len() && a.key_of(a.levels@[0][i] as int) == k;
                if i < pos {
                    assert(b.levels@[0][i] == s[i]);
                } else {
                    assert(b.levels@[0][i + 1] == s[i]);
                }
            }
            if k == key {
                assert(b.levels@[0][pos] == n);
            }
            if exists|i: int| 0 <= i < b.levels@[0].len() && b.key_of(#[trigger] b.levels@[0][i] as int) == k {
                let i = choose|i: int| 0 <= i < b.levels@[0].len() && b.key_of(#[trigger] b.levels@[0][i] as int) == k;
                if i < pos {
                    assert(b.levels@[0][i] == s[i]);
                } else if i > pos {
                    assert(b.levels@[0][i] == s[i - 1]);
                }
            }
        } else {
            assert(b.levels@[0] == a.levels@[0]);
        }
    }
}

impl<V> SkipList<V> {
    /// Inserts `key` with `value` in a new node of `height` levels, spliced
    /// in level by level from the bottom up, so that between any two steps
    /// a node linked at a level is linked at every level below it. Fails
    /// with `DuplicateKey`, changing nothing, where `key` is present.
    /// Returns the new node's index.
    pub fn insert_at_height(&mut self, key: u64, value: V, height: usize) -> (r: Result<
        usize,
        SkipListError,
    >)
        requires
            old(self).wf(),
            1 <= height <= MAX_HEIGHT,
            old(self).node_count() < usize::MAX,
        ensures
            final(self).wf(),
            old(self).contents().contains_key(key) ==> {
                &&& r == Err::<usize, SkipListError>(SkipListError::DuplicateKey)
                &&& *final(self) == *old(self)
            },
            !old(self).contents().contains_key(key) ==> {
                &&& r == Ok::<usize, SkipListError>(old(self).node_count() as usize)
                &&& final(self).contents() == old(self).contents().insert(key, value)
                &&& final(self).node_count() == old(self).node_count() + 1
                &&& final(self).height_of(old(self).node_count()) == height
                &&& final(self).key_of(old(self).node_count()) == key
                &&& final(self).keeps_nodes_of(*old(self))
                &&& final(self).joins_levels(*old(self), old(self).node_count() as usize, height as int)
            },
    {
        let finger = self.bracketing_finger(key);
        if finger.found.is_some() {
            return Err(SkipListError::DuplicateKey);
        }
        let n = self.nodes.len();
        let mut node = Node { key, value, prev: Vec::new(), next: Vec::new() };
        let mut i: usize = 0;
        while i < height
            invariant
                node.key == key,
                node.value == value,
                node.next@.len() == i,
                node.prev@.len() == i,
                i <= height,
            decreases height - i,
        {
            node.prev.push(None);
            node.next.push(None);
            i = i + 1;
        }
        let ghost a = *self;
        self.nodes.push(node);
        proof {
            lemma_push_pending(a, *self);
            assert forall|m: int| 0 <= m < a.node_count() implies {
                &&& #[trigger] self.key_of(m) == a.key_of(m)
                &&& self.height_of(m) == a.height_of(m)
                &&& self.value_of(m) == a.value_of(m)
            } by {
                assert(self.nodes@[m] == a.nodes@[m]);
            }
            assert forall|l2: int| 0 <= l2 < MAX_HEIGHT implies #[trigger] self.level(l2) == a.level(l2) by {}
            assert forall|l2: int| 0 <= l2 < MAX_HEIGHT implies #[trigger] self.bracket_at(
                l2,
                key,
                finger.prev@[l2],
                finger.next@[l2],
            ) by {
                assert(a.bracket_at(l2, key, finger.prev@[l2], finger.next@[l2]));
                assert(a.chain_ok(l2));
                assert forall|m: int| 0 <= m < a.nodes@.len() implies #[trigger] self.key_of(m) == a.key_of(m) by {
                    assert(self.nodes@[m] == a.nodes@[m]);
                }
                lemma_bracket_frame(a, *self, l2, key, finger.prev@[l2], finger.next@[l2]);
            }
        }
        let mut l: usize = 0;
        while l < height
            invariant
                self.inv(n as int, l as int),
                n == a.node_count(),
                self.node_count() == n + 1,
                height == self.height_of(n as int),
                self.key_of(n as int) == key,
                self.nodes@[n as int].value == value,
                l <= height <= MAX_HEIGHT,
                finger.prev@.len() == MAX_HEIGHT,
                finger.next@.len() == MAX_HEIGHT,
                forall|l2: int|
                    l <= l2 < MAX_HEIGHT ==> #[trigger] self.bracket_at(
                        l2,
                        key,
                        finger.prev@[l2],
                        finger.next@[l2],
                    ),
                l == 0 ==> self.contents() == a.contents(),
                l > 0 ==> self.contents() == a.contents().insert(key, value),
                self.keeps_nodes_of(a),
                self.joins_levels(a, n, l as int),
            decreases height - l,
        {
            let ghost li = l as int;
            assert(self.bracket_at(li, key, finger.prev@[li], finger.next@[li]));
            let ghost pos = choose|pos: int|
                #[trigger] self.brackets(li, key, pos) && finger.prev@[li] == self.before(li, pos)
                    && finger.next@[li] == self.at(li, pos);
            let ghost before = *self;
            self.splice(n, l, finger.prev[l], finger.next[l], Ghost(pos));
            proof {
                assert forall|m: int| 0 <= m < a.node_count() implies {
                    &&& #[trigger] self.key_of(m) == a.key_of(m)
                    &&& self.height_of(m) == a.height_of(m)
                    &&& self.value_of(m) == a.value_of(m)
                } by {
                    assert(self.key_of(m) == before.key_of(m));
                    assert(self.height_of(m) == before.height_of(m));
                    assert(self.nodes@[m].value == before.nodes@[m].value);
                    assert(before.key_of(m) == a.key_of(m));
                }
                assert forall|l2: int| 0 <= l2 < MAX_HEIGHT implies if l2 < l + 1 {
                    &&& 0 <= self.join_pos(a, n, l2) <= a.level(l2).len()
                    &&& #[trigger] self.level(l2) == a.level(l2).insert(self.join_pos(a, n, l2), n)
                } else {
                    self.level(l2) == a.level(l2)
                } by {
                    if l2 < li {
                        assert(self.level(l2) == before.level(l2));
                        let p = before.join_pos(a, n, l2);
                        assert(before.level(l2) == a.level(l2).insert(p, n));
                        assert(0 <= p <= a.level(l2).len() && self.level(l2) == a.level(l2).insert(p, n));
                    } else if l2 == li {
                        assert(before.level(l2) == a.level(l2));
                        assert(0 <= pos <= a.level(l2).len() && self.level(l2) == a.level(l2).insert(pos, n));
                    } else {
                        assert(self.level(l2) == before.level(l2));
                    }
                }
                assert forall|l2: int| l + 1 <= l2 < MAX_HEIGHT implies #[trigger] self.bracket_at(
                    l2,
                    key,
                    finger.prev@[l2],
                    finger.next@[l2],
                ) by {
                    assert(before.bracket_at(l2, key, finger.prev@[l2], finger.next@[l2]));
                    assert(self.level(l2) == before.level(l2));
                    assert(before.chain_ok(l2));
                    lemma_bracket_frame(before, *self, l2, key, finger.prev@[l2], finger.next@[l2]);
                }
            }
            l = l + 1;
        }
        proof {
            lemma_inv_complete(*self, n as int);
        }
        Ok(n)
    }
}

/// With a fresh node pushed that sits at no level yet, the structure holds
/// with that node pending.
#[verifier::spinoff_prover]
proof fn lemma_push_pending<V>(a: SkipList<V>, b: SkipList<V>)
    requires
        a.wf(),
        b.head@ == a.head@,
        b.levels@ == a.levels@,
        b.contents@ == a.contents@,
        b.nodes@.len() == a.nodes@.len() + 1,
        forall|m: int| 0 <= m < a.nodes@.len() ==> #[trigger] b.nodes@[m] == a.nodes@[m],
        1 <= b.height_of(a.nodes@.len() as int) <= MAX_HEIGHT,
        b.nodes@[a.nodes@.len() as int].prev@.len() == b.height_of(a.nodes@.len() as int),
    ensures
        b.inv(a.nodes@.len() as int, 0),
{
    let n = a.nodes@.len() as int;
    assert(b.head@.len() == MAX_HEIGHT);
    assert(b.levels@.len() == MAX_HEIGHT);
    assert forall|l: int| 0 <= l < MAX_HEIGHT implies {
        &&& #[trigger] b.chain_ok(l)
        &&& b.sorted(b.levels@[l])
    } by {
        assert(a.chain_ok(l));
        assert(a.sorted(a.levels@[l]));
        let t = a.levels@[l];
        assert forall|i: int| 0 <= i < t.len() implies #[trigger] b.nodes@[t[i] as int] == a.nodes@[t[i] as int] by {
        }
        assert forall|i: int, j: int| 0 <= i < j < t.len() implies b.key_of(#[trigger] t[i] as int) < b.key_of(#[trigger] t[j] as int) by {
            assert(a.key_of(t[i] as int) < a.key_of(t[j] as int));
            assert(b.nodes@[t[i] as int] == a.nodes@[t[i] as int]);
            assert(b.nodes@[t[j] as int] == a.nodes@[t[j] as int]);
        }
    }
    assert forall|n2: int| 0 <= n2 < b.nodes@.len() implies {
        &&& 1 <= #[trigger] b.height_of(n2) <= MAX_HEIGHT
        &&& b.nodes@[n2].prev@.len() == b.height_of(n2)
    } by {
        if n2 < n {
            assert(b.nodes@[n2] == a.nodes@[n2]);
            assert(1 <= a.height_of(n2));
        }
    }
    assert forall|l: int, i: int| 0 <= l < MAX_HEIGHT && 0 <= i < b.levels@[l].len() implies {
        &&& 0 <= #[trigger] b.levels@[l][i] < b.nodes@.len()
        &&& l < b.height_of(b.levels@[l][i] as int)
    } by {
        assert(0 <= a.levels@[l][i] < a.nodes@.len());
        assert(b.nodes@[a.levels@[l][i] as int] == a.nodes@[a.levels@[l][i] as int]);
    }
    assert forall|l: int, m: usize| 0 <= l < MAX_HEIGHT && m < b.nodes@.len() implies (
    #[trigger] b.levels@[l].contains(m) <==> if m == n {
        l < 0
    } else {
        l < b.height_of(m as int)
    }) by {
        if m == n {
            if a.levels@[l].contains(m) {
                let i = choose|i: int| 0 <= i < a.levels@[l].len() && a.levels@[l][i] == m;
                assert(0 <= a.levels@[l][i] < a.nodes@.len());
            }
        } else {
            assert(b.nodes@[m as int] == a.nodes@[m as int]);
        }
    }
    assert forall|k: u64| #[trigger] b.contents@.contains_key(k) <==> exists|i: int|
        0 <= i < b.levels@[0].len() && b.key_of(#[trigger] b.levels@[0][i] as int) == k by {
        if a.contents@.contains_key(k) {
            let i = choose|i: int| 0 <= i < a.levels@[0].len() && a.key_of(#[trigger] a.levels@[0][i] as int) == k;
            assert(0 <= a.levels@[0][i] < a.nodes@.len());
            assert(b.nodes@[a.levels@[0][i] as int] == a.nodes@[a.levels@[0][i] as int]);
        }
        if exists|i: int| 0 <= i < b.levels@[0].len() && b.key_of(#[trigger] b.levels@[0][i] as int) == k {
            let i = choose|i: int| 0 <= i < b.levels@[0].len() && b.key_of(#[trigger] b.levels@[0][i] as int) == k;
            assert(0 <= a.levels@[0][i] < a.nodes@.len());
            assert(b.nodes@[a.levels@[0][i] as int] == a.nodes@[a.levels@[0][i] as int]);
            assert(a.key_of(a.levels@[0][i] as int) == k);
        }
    }
    assert forall|i: int| 0 <= i < b.levels@[0].len() implies b.contents@[b.key_of(
        #[trigger] b.levels@[0][i] as int,
    )] == b.nodes@[b.levels@[0][i] as int].value by {
        assert(0 <= a.levels@[0][i] < a.nodes@.len());
        assert(b.nodes@[a.levels@[0][i] as int] == a.nodes@[a.levels@[0][i] as int]);
    }
}

/// A bracket at a level stays one while that level and the keys of its
/// nodes stay as they are.
proof fn lemma_bracket_frame<V>(
    a: SkipList<V>,
    b: SkipList<V>,
    l: int,
    key: u64,
    p: Option<usize>,
    q: Option<usize>,
)
    requires
        0 <= l < MAX_HEIGHT,
        a.bracket_at(l, key, p, q),
        b.levels@[l] == a.levels@[l],
        forall|i: int| 0 <= i < a.levels@[l].len() ==> 0 <= #[trigger] a.levels@[l][i] < a.nodes@.len(),
        forall|m: int| 0 <= m < a.nodes@.len() ==> #[trigger] b.key_of(m) == a.key_of(m),
    ensures
        b.bracket_at(l, key, p, q),
{
    let pos = choose|pos: int| #[trigger]
        a.brackets(l, key, pos) && p == a.before(l, pos) && q == a.at(l, pos);
    let s = a.levels@[l];
    assert forall|i: int| 0 <= i < s.len() implies #[trigger] b.key_of(s[i] as int) == a.key_of(s[i] as int) by {
        assert(0 <= s[i] < a.nodes@.len());
    }
    assert(b.brackets(l, key, pos));
}

/// With the pending node linked at all of its levels the structure holds in
/// full.
proof fn lemma_inv_complete<V>(b: SkipList<V>, n: int)
    requires
        b.inv(n, b.height_of(n)),
        0 <= n < b.nodes@.len(),
    ensures
        b.wf(),
{
}

/// Relies on rand's `thread_rng` and `Rng::gen_range` over the non-empty
/// range `0..n`: a number below `n` drawn from the thread's generator.
#[verifier::external_body]
fn draw_below(n: u8) -> (r: u8)
    requires
        n > 0,
    ensures
        r < n,
{
    rand::thread_rng().gen_range(0..n)
}

/// Each further level of a new node is climbed on a draw of 0 among this
/// many equally likely values.
pub const CLIMB_ODDS: u8 = 4;

/// The height that a run of draws gives: one level, and one more for each
/// leading draw of 0 (a chance of one in `CLIMB_ODDS` for a draw below
/// it), up to `MAX_HEIGHT`.
pub open spec fn height_of_draws(d: Seq<u8>) -> nat
    decreases d.len(),
{
    if d.len() == 0 || d[0] != 0 {
        1
    } else {
        let h = 1 + height_of_draws(d.drop_first());
        if h < MAX_HEIGHT {
            h
        } else {
            MAX_HEIGHT as nat
        }
    }
}

/// The height that `draws` gives (see `height_of_draws`).
pub fn height_from_draws(draws: &[u8]) -> (h: usize)
    ensures
        h == height_of_draws(draws@),
        1 <= h <= MAX_HEIGHT,
{
    let ghost d = draws@;
    let n = draws.len();
    let mut h: usize = 1;
    let mut i: usize = 0;
    assert(d.subrange(0, n as int) =~= d);
    assert(height_of_draws(d) <= MAX_HEIGHT);
    while i < n && h < MAX_HEIGHT && draws[i] == 0
        invariant
            d == draws@,
            n == d.len(),
            i <= n,
            h == i + 1,
            h <= MAX_HEIGHT,
            ({
                let t: nat = (i + height_of_draws(d.subrange(i as int, n as int))) as nat;
                height_of_draws(d) == if t < MAX_HEIGHT {
                    t
                } else {
                    MAX_HEIGHT as nat
                }
            }),
        decreases n - i,
    {
        assert(d.subrange(i as int, n as int).drop_first() =~= d.subrange(i + 1, n as int));
        i = i + 1;
        h = h + 1;
    }
    h
}

/// The height of a new node, drawn from the thread's generator: one
/// level, and one more for each leading draw of 0 among `MAX_HEIGHT - 1`
/// draws below `CLIMB_ODDS`.
pub fn random_height() -> (h: usize)
    ensures
        exists|d: Seq<u8>|
            d.len() == MAX_HEIGHT - 1 && (forall|i: int| 0 <= i < d.len() ==> d[i] < CLIMB_ODDS) && h
                == height_of_draws(d),
        1 <= h <= MAX_HEIGHT,
{
    let mut draws: Vec<u8> = Vec::new();
    let mut i: usize = 0;
    while i < MAX_HEIGHT - 1
        invariant
            i <= MAX_HEIGHT - 1,
            draws@.len() == i,
            forall|j: int| 0 <= j < i ==> draws@[j] < CLIMB_ODDS,
        decreases MAX_HEIGHT - 1 - i,
    {
        draws.push(draw_below(CLIMB_ODDS));
        i = i + 1;
    }
    let h = height_from_draws(draws.as_slice());
    assert(draws@.len() == MAX_HEIGHT - 1 && (forall|i: int| 0 <= i < draws@.len() ==> draws@[i] < CLIMB_ODDS));
    h
}

impl<V> Node<V> {
    /// Inserts `key` with `value` into `list` in a node of a randomly drawn
    /// height, and returns the new node's index; fails with `DuplicateKey`,
    /// changing nothing, where `key` is present.
    pub fn insert(key: u64, value: V, list: &mut SkipList<V>) -> (r: Result<usize, SkipListError>)
        requires
            old(list).wf(),
            old(list).node_count() < usize::MAX,
        ensures
            final(list).wf(),
            old(list).contents().contains_key(key) ==> {
                &&& r == Err::<usize, SkipListError>(SkipListError::DuplicateKey)
                &&& *final(list) == *old(list)
            },
            !old(list).contents().contains_key(key) ==> {
                &&& r == Ok::<usize, SkipListError>(old(list).node_count() as usize)
                &&& final(list).contents() == old(list).contents().insert(key, value)
                &&& final(list).node_count() == old(list).node_count() + 1
                &&& 1 <= final(list).height_of(old(list).node_count()) <= MAX_HEIGHT
                &&& final(list).key_of(old(list).node_count()) == key
                &&& final(list).keeps_nodes_of(*old(list))
                &&& final(list).joins_levels(
                    *old(list),
                    old(list).node_count() as usize,
                    final(list).height_of(old(list).node_count()),
                )
            },
    {
        let height = random_height();
        list.insert_at_height(key, value, height)
    }
}

impl<V> SkipList<V> {
    /// The value held under `key`, where there is one.
    pub fn get(&self, key: u64) -> (r: Option<&V>)
        requires
            self.wf(),
        ensures
            self.contents().contains_key(key) ==> r is Some && *r->Some_0 == self.contents()[key],
            !self.contents().contains_key(key) ==> r is None,
    {
        let finger = self.bracketing_finger(key);
        match finger.found {
            Some(n) => {
                proof {
                    assert(self.level(0).contains(n));
                    let i = choose|i: int| 0 <= i < self.level(0).len() && self.level(0)[i] == n;
                    assert(self.contents@[self.key_of(self.levels@[0][i] as int)]
                        == self.nodes@[self.levels@[0][i] as int].value);
                }
                Some(&self.nodes[n].value)
            },
            None => None,
        }
    }

    /// Number of nodes, which is the number of keys held.
    pub fn node_total(&self) -> (r: usize)
        ensures
            r == self.node_count(),
    {
        self.nodes.len()
    }
}

/// In every state that an insert passes through, as in every state between
/// operations, a node linked at a level is linked at each level below it.
pub proof fn lemma_levels_nested<V>(list: &SkipList<V>, pending: int, done: int)
    requires
        list.inv(pending, done),
        0 <= done,
    ensures
        forall|l: int, m: usize|
            0 <= l && l + 1 < MAX_HEIGHT && #[trigger] list.level(l + 1).contains(m)
                ==> list.level(l).contains(m),
{
    assert forall|l: int, m: usize|
        0 <= l && l + 1 < MAX_HEIGHT && #[trigger] list.level(l + 1).contains(m)
            implies list.level(l).contains(m) by {
        let s = list.levels@[l + 1];
        let i = choose|i: int| 0 <= i < s.len() && #[trigger] s[i] == m;
        assert(0 <= s[i] < list.nodes@.len());
    }
}

impl<V> SkipList<V> {
    /// Every node of `old` is still here, with its key, value and height.
    pub open spec fn keeps_nodes_of(&self, old: SkipList<V>) -> bool {
        &&& old.node_count() < self.node_count()
        &&& forall|m: int|
            0 <= m < old.node_count() ==> {
                &&& #[trigger] self.key_of(m) == old.key_of(m)
                &&& self.height_of(m) == old.height_of(m)
                &&& self.value_of(m) == old.value_of(m)
            }
    }

    /// Where node `n` stands at level `l`, if it was put into `old`'s level.
    pub open spec fn join_pos(&self, old: SkipList<V>, n: usize, l: int) -> int {
        choose|pos: int| 0 <= pos <= old.level(l).len() && self.level(l) == old.level(l).insert(pos, n)
    }

    /// Levels below `h` are `old`'s with node `n` put in at one place; the
    /// levels from `h` up are `old`'s.
    pub open spec fn joins_levels(&self, old: SkipList<V>, n: usize, h: int) -> bool {
        forall|l: int|
            0 <= l < MAX_HEIGHT ==> if l < h {
                &&& 0 <= self.join_pos(old, n, l) <= old.level(l).len()
                &&& #[trigger] self.level(l) == old.level(l).insert(self.join_pos(old, n, l), n)
            } else {
                self.level(l) == old.level(l)
            }
    }

    /// Value of node `n`.
    pub closed spec fn value_of(&self, n: int) -> V {
        self.nodes@[n].value
    }
}

/// The structure of a list between operations: each level holds nodes of
/// the arena in strictly increasing key order; node `m` sits at level `l`
/// exactly when `l` is below its height, so a node at a level sits at every
/// level below it; and the links follow each level in both directions.
pub proof fn lemma_wf_structure<V>(list: &SkipList<V>)
    requires
        list.wf(),
    ensures
        forall|n: int| 0 <= n < list.node_count() ==> 1 <= #[trigger] list.height_of(n) <= MAX_HEIGHT,
        forall|l: int| 0 <= l < MAX_HEIGHT ==> #[trigger] list.sorted(list.level(l)),
        forall|l: int, i: int|
            0 <= l < MAX_HEIGHT && 0 <= i < list.level(l).len() ==> 0 <= #[trigger] list.level(
                l,
            )[i] < list.node_count(),
        forall|l: int, m: usize|
            0 <= l < MAX_HEIGHT && m < list.node_count() ==> (#[trigger] list.level(l).contains(m)
                <==> l < list.height_of(m as int)),
        forall|l: int, m: usize|
            0 <= l && l + 1 < MAX_HEIGHT && #[trigger] list.level(l + 1).contains(m)
                ==> list.level(l).contains(m),
        forall|l: int| 0 <= l < MAX_HEIGHT ==> #[trigger] list.link_after(l, None) == list.at(l, 0),
        forall|l: int, i: int|
            0 <= l < MAX_HEIGHT && 0 <= i < list.level(l).len() ==> {
                &&& #[trigger] list.neighbour_after(list.level(l)[i] as int, l) == list.at(l, i + 1)
                &&& list.neighbour_before(list.level(l)[i] as int, l) == list.before(l, i)
            },
{
    assert forall|l: int| 0 <= l < MAX_HEIGHT implies #[trigger] list.sorted(list.level(l)) by {
        assert(list.chain_ok(l));
    }
    assert forall|l: int| 0 <= l < MAX_HEIGHT implies #[trigger] list.link_after(l, None) == list.at(l, 0) by {
        assert(list.chain_ok(l));
    }
    assert forall|l: int, i: int| 0 <= l < MAX_HEIGHT && 0 <= i < list.level(l).len() implies {
        &&& #[trigger] list.neighbour_after(list.level(l)[i] as int, l) == list.at(l, i + 1)
        &&& list.neighbour_before(list.level(l)[i] as int, l) == list.before(l, i)
    } by {
        assert(list.chain_ok(l));
    }
    lemma_levels_nested(list, list.node_count(), 0);
}

/// Going down a level, a finger's brackets only tighten: the node below the
/// key at level `l` is at or after the one at level `l + 1`, and the node
/// above it at level `l` at or before the one at level `l + 1`.
pub proof fn lemma_finger_tightens<V>(list: &SkipList<V>, f: &Finger, key: u64, l: int)
    requires
        list.wf(),
        list.finger_ok(f, key),
        f.found_spec() is None,
        0 <= l,
        l + 1 < MAX_HEIGHT,
    ensures
        f.prev_spec()[l + 1] matches Some(above_prev) ==> (f.prev_spec()[l] matches Some(below_prev)
            && list.key_of(above_prev as int) <= list.key_of(below_prev as int)),
        f.next_spec()[l + 1] matches Some(above_next) ==> (f.next_spec()[l] matches Some(below_next)
            && list.key_of(below_next as int) <= list.key_of(above_next as int)),
{
    lemma_wf_structure(list);
    assert(list.bracket_at(l, key, f.prev_spec()[l], f.next_spec()[l]));
    assert(list.bracket_at(l + 1, key, f.prev_spec()[l + 1], f.next_spec()[l + 1]));
    let pos0 = choose|pos: int| #[trigger]
        list.brackets(l, key, pos) && f.prev_spec()[l] == list.before(l, pos) && f.next_spec()[l]
            == list.at(l, pos);
    let pos1 = choose|pos: int| #[trigger]
        list.brackets(l + 1, key, pos) && f.prev_spec()[l + 1] == list.before(l + 1, pos)
            && f.next_spec()[l + 1] == list.at(l + 1, pos);
    let s0 = list.level(l);
    let s1 = list.level(l + 1);
    assert(list.sorted(s0));
    if let Some(above_prev) = f.prev_spec()[l + 1] {
        assert(s1[pos1 - 1] == above_prev);
        assert(s1.contains(above_prev));
        assert(s0.contains(above_prev));
        let q = choose|q: int| 0 <= q < s0.len() && s0[q] == above_prev;
        assert(list.key_of(s1[pos1 - 1] as int) < key);
        assert(q < pos0);
        if q < pos0 - 1 {
            assert(list.key_of(s0[q] as int) < list.key_of(s0[pos0 - 1] as int));
        }
    }
    if let Some(above_next) = f.next_spec()[l + 1] {
        assert(s1[pos1] == above_next);
        assert(s1.contains(above_next));
        assert(s0.contains(above_next));
        let q = choose|q: int| 0 <= q < s0.len() && s0[q] == above_next;
        assert(list.key_of(s1[pos1] as int) > key);
        assert(q >= pos0);
        if q > pos0 {
            assert(list.key_of(s0[pos0] as int) < list.key_of(s0[q] as int));
        }
    }
}

/// Following level 0 from the head meets every key held exactly once, in
/// strictly increasing order.
pub proof fn lemma_level0_ordered<V>(list: &SkipList<V>)
    requires
        list.wf(),
    ensures
        forall|i: int, j: int|
            0 <= i < j < list.keys().len() ==> list.keys()[i] < list.keys()[j],
        forall|k: u64| list.contents().contains_key(k) <==> list.keys().contains(k),
{
    assert(list.chain_ok(0));
    assert(list.sorted(list.level(0)));
    assert forall|i: int, j: int| 0 <= i < j < list.keys().len() implies list.keys()[i]
        < list.keys()[j] by {
        assert(list.keys()[i] == list.key_of(list.level(0)[i] as int));
        assert(list.keys()[j] == list.key_of(list.level(0)[j] as int));
    }
    assert forall|k: u64| list.contents().contains_key(k) <==> list.keys().contains(k) by {
        if list.contents().contains_key(k) {
            let i = choose|i: int|
                0 <= i < list.level(0).len() && list.key_of(list.level(0)[i] as int) == k;
            assert(list.keys()[i] == k);
        }
        if list.keys().contains(k) {
            let i = choose|i: int| 0 <= i < list.keys().len() && list.keys()[i] == k;
            assert(list.key_of(list.level(0)[i] as int) == k);
        }
    }
}

} // verus!
