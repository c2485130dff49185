//! The memtable index: an ordered, duplicate-free, append-only skip list.
//!
//! Nodes live in an arena (`nodes`) and are addressed by stable integer
//! handles; handle 0 is the permanent head sentinel, and a forward slot
//! holding 0 marks the end of a chain.  The level-0 chain is always the
//! ascending sorted sequence of inserted keys, and every higher level links
//! a subset of the nodes below it.
//!
//! Writers must be serialized by the caller; here the exclusive borrow on
//! `Insert` enforces that at the type level, while lookups and cursors
//! borrow the list shared and take no lock.
use vstd::prelude::*;

verus! {

/// Maximum height of the skip list.
pub const MAX_HEIGHT: usize = 12;

/// A new node grows one level with probability `1 / BRANCHING`.
pub const BRANCHING: usize = 5;

struct Node {
    key: u64,
    height: usize,
    next: Vec<usize>,
}

/// Relies on rand::Rng::gen_range on the thread-local generator: returns a
/// uniformly drawn value of the given half-open range, so below `bound`.
/// Nothing more is assumed of the draw.
#[verifier::external_body]
fn random_below(bound: usize) -> (r: usize)
    requires
        bound > 0,
    ensures
        r < bound,
{
    rand::Rng::gen_range(&mut rand::thread_rng(), 0..bound)
}

pub struct SkipList {
    nodes: Vec<Node>,
    max_height_: usize,
    chains: Ghost<Seq<Seq<int>>>,
}

impl SkipList {
    /// The keys held, in level-0 (ascending) chain order.
    pub closed spec fn key_seq(&self) -> Seq<u64> {
        self.chains@[0].map_values(|i: int| self.nodes@[i].key)
    }

    /// The set of keys held.
    pub open spec fn keys(&self) -> Set<u64> {
        self.key_seq().to_set()
    }

    /// The level-`l` chain `c` is properly linked and sorted inside the
    /// arena `ns`, and holds exactly the nodes tall enough for this level —
    /// except that the node with handle `skip` is not accounted for yet.
    spec fn chain_ok_x(c: Seq<int>, ns: Seq<Node>, l: int, skip: int) -> bool {
        &&& forall|k: int| 0 <= k < c.len() ==> 1 <= #[trigger] c[k] < ns.len()
        &&& (ns[0].next@[l] as int) == (if c.len() == 0 {
            0int
        } else {
            c[0]
        })
        &&& forall|k: int|
            0 <= k < c.len() ==> (ns[#[trigger] c[k]].next@[l] as int) == (if k == c.len() - 1 {
                0int
            } else {
                c[k + 1]
            })
        &&& forall|k1: int, k2: int|
            0 <= k1 < k2 < c.len() ==> ns[#[trigger] c[k1]].key < ns[#[trigger] c[k2]].key
        &&& forall|i: int|
            1 <= i < ns.len() && i != skip ==> (c.contains(i) <==> l < (#[trigger] ns[i]).height)
    }

    spec fn chain_wf(&self, l: int) -> bool {
        let c = self.chains@[l];
        &&& forall|k: int| 0 <= k < c.len() ==> 1 <= #[trigger] c[k] < self.nodes@.len()
        &&& (self.nodes@[0].next@[l] as int) == (if c.len() == 0 {
            0int
        } else {
            c[0]
        })
        &&& forall|k: int|
            0 <= k < c.len() ==> (self.nodes@[#[trigger] c[k]].next@[l] as int) == (if k == c.len()
                - 1 {
                0int
            } else {
                c[k + 1]
            })
        &&& forall|k1: int, k2: int|
            0 <= k1 < k2 < c.len() ==> self.nodes@[#[trigger] c[k1]].key
                < self.nodes@[#[trigger] c[k2]].key
        &&& forall|i: int|
            1 <= i < self.nodes@.len() ==> (c.contains(i) <==> l < (
            #[trigger] self.nodes@[i]).height)
    }

    /// The two forms say the same thing about a well-formed level.
    proof fn lemma_chain_wf_is_ok(&self, l: int)
        requires
            0 <= l < MAX_HEIGHT as int,
        ensures
            self.chain_wf(l) <==> Self::chain_ok_x(self.chains@[l], self.nodes@, l, 0),
    {
    }

    /// Structural invariant of the arena, the per-level chains and the
    /// max-level counter.
    pub closed spec fn wf(&self) -> bool {
        &&& 1 <= self.nodes@.len()
        &&& self.chains@.len() == MAX_HEIGHT as int
        &&& self.max_height_ <= MAX_HEIGHT
        &&& forall|i: int|
            0 <= i < self.nodes@.len() ==> (#[trigger] self.nodes@[i]).next@.len()
                == MAX_HEIGHT as int
        &&& forall|i: int|
            1 <= i < self.nodes@.len() ==> 1 <= (#[trigger] self.nodes@[i]).height
                <= self.max_height_
        &&& forall|l: int| 0 <= l < MAX_HEIGHT as int ==> #[trigger] self.chain_wf(l)
    }

    /// Number of keys on the level-`l` chain that are strictly below `key`;
    /// since each chain is sorted, these occupy exactly its prefix.
    spec fn lt_count(&self, l: int, key: u64) -> int {
        Self::lt_count_rec(self.chains@[l], self.nodes@, key)
    }

    spec fn lt_count_rec(c: Seq<int>, ns: Seq<Node>, key: u64) -> int
        decreases c.len(),
    {
        if c.len() == 0 {
            0
        } else if ns[c[0]].key < key {
            1 + Self::lt_count_rec(c.drop_first(), ns, key)
        } else {
            0
        }
    }

    proof fn lemma_lt_count(c: Seq<int>, ns: Seq<Node>, key: u64)
        requires
            forall|k: int| 0 <= k < c.len() ==> 0 <= #[trigger] c[k] < ns.len(),
            forall|k1: int, k2: int|
                0 <= k1 < k2 < c.len() ==> ns[#[trigger] c[k1]].key < ns[#[trigger] c[k2]].key,
        ensures
            0 <= Self::lt_count_rec(c, ns, key) <= c.len(),
            forall|k: int|
                0 <= k < Self::lt_count_rec(c, ns, key) ==> ns[#[trigger] c[k]].key < key,
            forall|k: int|
                Self::lt_count_rec(c, ns, key) <= k < c.len() ==> ns[#[trigger] c[k]].key >= key,
        decreases c.len(),
    {
        if c.len() == 0 {
        } else if ns[c[0]].key < key {
            let d = c.drop_first();
            assert forall|k1: int, k2: int| 0 <= k1 < k2 < d.len() implies ns[#[trigger] d[k1]].key
                < ns[#[trigger] d[k2]].key by {
                assert(d[k1] == c[k1 + 1]);
                assert(d[k2] == c[k2 + 1]);
            }
            Self::lemma_lt_count(d, ns, key);
            let cnt = Self::lt_count_rec(c, ns, key);
            assert forall|k: int| 0 <= k < cnt implies ns[#[trigger] c[k]].key < key by {
                if k > 0 {
                    assert(d[k - 1] == c[k]);
                }
            }
            assert forall|k: int| cnt <= k < c.len() implies ns[#[trigger] c[k]].key >= key by {
                assert(d[k - 1] == c[k]);
            }
        } else {
            assert forall|k: int| 0 <= k < c.len() implies ns[#[trigger] c[k]].key >= key by {
                if k > 0 {
                    assert(ns[c[0]].key < ns[c[k]].key);
                }
            }
        }
    }

    /// Every chain strictly above the current max level is empty.
    proof fn lemma_high_chain_empty(&self, l: int)
        requires
            self.wf(),
            self.max_height_ <= l < MAX_HEIGHT as int,
        ensures
            self.chains@[l].len() == 0,
    {
        let c = self.chains@[l];
        if c.len() > 0 {
            assert(c.contains(c[0]));
            assert(self.chain_wf(l));
            assert(l < self.nodes@[c[0]].height);
        }
    }

    /// Creates an empty skip list whose head sentinel carries `dummyKey`
    /// (the sentinel's key is never compared against).
    pub fn new(dummyKey: u64) -> (r: SkipList)
        ensures
            r.wf(),
            r.key_seq() == Seq::<u64>::empty(),
    {
        let mut next: Vec<usize> = Vec::new();
        let mut i: usize = 0;
        while i < MAX_HEIGHT
            invariant
                next@.len() == i as int,
                i <= MAX_HEIGHT,
                forall|j: int| 0 <= j < i as int ==> next@[j] == 0usize,
            decreases MAX_HEIGHT - i,
        {
            next.push(0);
            i = i + 1;
        }
        let mut nodes: Vec<Node> = Vec::new();
        nodes.push(Node { key: dummyKey, height: 0, next });
        let r = SkipList {
            nodes,
            max_height_: 0,
            chains: Ghost(Seq::new(MAX_HEIGHT as nat, |l: int| Seq::<int>::empty())),
        };
        proof {
            assert forall|l: int| 0 <= l < MAX_HEIGHT as int implies #[trigger] r.chain_wf(l) by {
                assert(r.chains@[l] =~= Seq::<int>::empty());
            }
            assert(r.key_seq() =~= Seq::<u64>::empty());
        }
        r
    }

    /// The forward handle of node `x` at `level`; 0 marks the chain's end.
    /// `x` must be the head or a node tall enough to sit on this level.
    fn Next(&self, x: usize, level: usize) -> (r: usize)
        requires
            self.wf(),
            x < self.nodes@.len(),
            level < MAX_HEIGHT,
            x == 0 || (level as int) < self.nodes@[x as int].height,
        ensures
            r as int == self.nodes@[x as int].next@[level as int],
            r < self.nodes@.len(),
            r != 0 ==> (level as int) < self.nodes@[r as int].height,
    {
        proof {
            assert(self.chain_wf(level as int));
            let c = self.chains@[level as int];
            if x == 0 {
                if c.len() > 0 {
                    assert(1 <= c[0] < self.nodes@.len());
                    assert(c.contains(c[0]));
                }
            } else {
                assert(c.contains(x as int));
                let k = choose|k: int| 0 <= k < c.len() && c[k] == x as int;
                assert(self.nodes@[c[k]].next@[level as int] as int == (if k == c.len() - 1 {
                    0int
                } else {
                    c[k + 1]
                }));
                if k < c.len() - 1 {
                    assert(1 <= c[k + 1] < self.nodes@.len());
                    assert(c.contains(c[k + 1]));
                }
            }
        }
        self.nodes[x].next[level]
    }

    /// Cursor `x` stands just before position `p` of the level-`l` chain:
    /// at the head for `p == 0`, else on the chain's `p - 1`-th node.
    spec fn at_pos(&self, l: int, p: int, x: int) -> bool {
        &&& 0 <= p <= self.chains@[l].len()
        &&& if p == 0 {
            x == 0
        } else {
            x == self.chains@[l][p - 1]
        }
    }

    /// Walks the level-`level` chain from `x0` while the target compares
    /// greater than the node reached, stopping on the last node whose key
    /// is below `key` (or staying on the head).
    fn walk_level(&self, x0: usize, Ghost(p0): Ghost<int>, level: usize, key: u64) -> (res: (
        usize,
        Ghost<int>,
    ))
        requires
            self.wf(),
            level < MAX_HEIGHT,
            x0 < self.nodes@.len(),
            self.at_pos(level as int, p0, x0 as int),
            p0 <= self.lt_count(level as int, key),
        ensures
            res.0 < self.nodes@.len(),
            self.at_pos(level as int, res.1@, res.0 as int),
            res.1@ == self.lt_count(level as int, key),
    {
        let mut x: usize = x0;
        let ghost mut p: int = p0;
        let ghost c = self.chains@[level as int];
        proof {
            assert(self.chain_wf(level as int));
            Self::lemma_lt_count(c, self.nodes@, key);
            if p > 0 {
                assert(c[p - 1] == x as int);
                assert(c.contains(x as int));
            }
        }
        let mut nxt = self.Next(x, level);
        proof {
            if p > 0 {
                assert(self.nodes@[c[p - 1]].next@[level as int] as int == (if p - 1 == c.len()
                    - 1 {
                    0int
                } else {
                    c[p]
                }));
            }
        }
        while nxt != 0 && self.nodes[nxt].key < key
            invariant
                self.wf(),
                level < MAX_HEIGHT,
                x < self.nodes@.len(),
                nxt < self.nodes@.len(),
                c == self.chains@[level as int],
                self.at_pos(level as int, p, x as int),
                p <= self.lt_count(level as int, key),
                nxt as int == (if p < c.len() {
                    c[p]
                } else {
                    0int
                }),
            decreases c.len() - p,
        {
            proof {
                assert(self.chain_wf(level as int));
                Self::lemma_lt_count(c, self.nodes@, key);
                assert(p < c.len());
                assert(self.nodes@[c[p]].key < key);
                assert(p + 1 <= Self::lt_count_rec(c, self.nodes@, key));
            }
            x = nxt;
            proof {
                p = p + 1;
                assert(c[p - 1] == x as int);
                assert(c.contains(x as int));
            }
            nxt = self.Next(x, level);
            proof {
                assert(self.nodes@[c[p - 1]].next@[level as int] as int == (if p - 1 == c.len()
                    - 1 {
                    0int
                } else {
                    c[p]
                }));
            }
        }
        proof {
            assert(self.chain_wf(level as int));
            Self::lemma_lt_count(c, self.nodes@, key);
            let cnt = Self::lt_count_rec(c, self.nodes@, key);
            if p < cnt {
                assert(1 <= c[p] < self.nodes@.len());
                assert(self.nodes@[c[p]].key < key);
            }
            assert(p == cnt);
        }
        (x, Ghost(p))
    }

    /// Dropping one level keeps the cursor inside the prefix of keys that
    /// are smaller than the target.
    proof fn lemma_drop_level(&self, key: u64, level: int, x: int) -> (q: int)
        requires
            self.wf(),
            1 <= level < MAX_HEIGHT as int,
            self.at_pos(level, self.lt_count(level, key), x),
            0 <= x < self.nodes@.len(),
        ensures
            self.at_pos(level - 1, q, x),
            0 <= q <= self.lt_count(level - 1, key),
    {
        let c = self.chains@[level];
        let lo = level - 1;
        let p = self.lt_count(level, key);
        assert(self.chain_wf(level));
        assert(self.chain_wf(lo));
        Self::lemma_lt_count(c, self.nodes@, key);
        Self::lemma_lt_count(self.chains@[lo], self.nodes@, key);
        if p > 0 {
            assert(c[p - 1] == x);
            assert(c.contains(x));
            assert(level < self.nodes@[x].height);
            assert(self.chains@[lo].contains(x));
            let q = choose|q: int| 0 <= q < self.chains@[lo].len() && self.chains@[lo][q] == x;
            assert(self.nodes@[x].key < key);
            assert(q + 1 <= Self::lt_count_rec(self.chains@[lo], self.nodes@, key));
            q + 1
        } else {
            0
        }
    }

    /// Descends from the current max level: at each level, follows forward
    /// pointers while the target compares greater than the node reached,
    /// then drops a level; at level 0 returns the first node whose key is
    /// `>= key`, or 0 if every key is smaller.
    fn FindGreaterOrEqual(&self, key: u64) -> (r: usize)
        requires
            self.wf(),
        ensures
            r < self.nodes@.len(),
            ({
                let cnt = self.lt_count(0, key);
                if cnt < self.chains@[0].len() {
                    r as int == self.chains@[0][cnt]
                } else {
                    r == 0
                }
            }),
    {
        let mut x: usize = 0;
        let ghost mut p: int = 0;
        let max_level: usize = self.GetMaxLevel();
        let mut level: usize = if max_level == 0 {
            0
        } else {
            max_level - 1
        };
        proof {
            assert(self.chain_wf(level as int));
            Self::lemma_lt_count(self.chains@[level as int], self.nodes@, key);
        }
        loop
            invariant
                self.wf(),
                level < MAX_HEIGHT,
                x < self.nodes@.len(),
                self.at_pos(level as int, p, x as int),
                p <= self.lt_count(level as int, key),
            decreases level,
        {
            let res = self.walk_level(x, Ghost(p), level, key);
            x = res.0;
            proof {
                p = res.1@;
            }
            if level == 0 {
                proof {
                    assert(self.chain_wf(0));
                    if p > 0 {
                        assert(self.chains@[0][p - 1] == x as int);
                        assert(self.chains@[0].contains(x as int));
                    }
                }
                let r = self.Next(x, 0);
                proof {
                    let c = self.chains@[0];
                    if p > 0 {
                        assert(self.nodes@[c[p - 1]].next@[0] as int == (if p - 1 == c.len() - 1 {
                            0int
                        } else {
                            c[p]
                        }));
                    }
                }
                return r;
            }
            proof {
                p = self.lemma_drop_level(key, level as int, x as int);
            }
            level = level - 1;
        }
    }

    /// What insertion needs to know of one level before it splices: the
    /// chain is well formed, `cnt` keys stand strictly before `key`, `pd`
    /// is the splice predecessor and its forward slot holds the successor.
    spec fn level_facts(c: Seq<int>, ns: Seq<Node>, cnt: int, pd: int, key: u64, l: int) -> bool {
        &&& Self::chain_ok_x(c, ns, l, 0)
        &&& 0 <= cnt <= c.len()
        &&& forall|k: int| 0 <= k < cnt ==> ns[#[trigger] c[k]].key < key
        &&& forall|k: int| cnt <= k < c.len() ==> ns[#[trigger] c[k]].key > key
        &&& 0 <= pd < ns.len()
        &&& pd == (if cnt == 0 {
            0int
        } else {
            c[cnt - 1]
        })
        &&& (ns[pd].next@[l] as int) == (if cnt < c.len() {
            c[cnt]
        } else {
            0int
        })
    }

    /// Inserting a value into a sequence inserts it into the set of its
    /// elements.
    proof fn lemma_seq_insert_to_set(s: Seq<u64>, i: int, v: u64)
        requires
            0 <= i <= s.len(),
        ensures
            s.insert(i, v).to_set() == s.to_set().insert(v),
    {
        s.insert_ensures(i, v);
        let s1 = s.insert(i, v);
        assert forall|x: u64| s1.to_set().contains(x) implies s.to_set().insert(v).contains(x) by {
            let k = choose|k: int| 0 <= k < s1.len() && s1[k] == x;
            if k < i {
                assert(s[k] == x);
                assert(s.contains(x));
            } else if k > i {
                assert(s[k - 1] == x);
                assert(s.contains(x));
            }
        }
        assert forall|x: u64| s.to_set().insert(v).contains(x) implies s1.to_set().contains(x) by {
            if x == v {
                assert(s1[i] == x);
                assert(s1.contains(x));
            } else {
                let k = choose|k: int| 0 <= k < s.len() && s[k] == x;
                if k < i {
                    assert(s1[k] == x);
                } else {
                    assert(s1[k + 1] == x);
                }
                assert(s1.contains(x));
            }
        }
        assert(s1.to_set() =~= s.to_set().insert(v));
    }

    /// When `key` is absent, no arena node carries it.
    proof fn lemma_absent_key(&self, key: u64)
        requires
            self.wf(),
            !self.keys().contains(key),
        ensures
            forall|i: int| 1 <= i < self.nodes@.len() ==> (#[trigger] self.nodes@[i]).key != key,
    {
        assert forall|i: int|
            1 <= i < self.nodes@.len() implies (#[trigger] self.nodes@[i]).key != key by {
            assert(self.chain_wf(0));
            if self.nodes@[i].key == key {
                assert(self.chains@[0].contains(i));
                let k = choose|k: int|
                    0 <= k < self.chains@[0].len() && self.chains@[0][k] == i;
                assert(self.key_seq()[k] == key);
                assert(self.key_seq().contains(key));
            }
        }
    }

    /// Appending a fresh node to the arena disturbs no existing chain.
    proof fn lemma_push_keeps_chain(c: Seq<int>, ns0: Seq<Node>, ns1: Seq<Node>, l: int)
        requires
            Self::chain_ok_x(c, ns0, l, 0),
            ns0.len() >= 1,
            ns1.len() == ns0.len() + 1,
            forall|i: int| 0 <= i < ns0.len() ==> ns1[i] == ns0[i],
        ensures
            Self::chain_ok_x(c, ns1, l, ns0.len() as int),
    {
        let n = ns0.len() as int;
        assert(ns1[0] == ns0[0]);
        assert forall|k: int| 0 <= k < c.len() implies (ns1[#[trigger] c[k]].next@[l] as int) == (
        if k == c.len() - 1 {
            0int
        } else {
            c[k + 1]
        }) by {
            assert(1 <= c[k] < ns0.len());
            assert(ns1[c[k]] == ns0[c[k]]);
        }
        assert forall|k1: int, k2: int|
            0 <= k1 < k2 < c.len() implies ns1[#[trigger] c[k1]].key < ns1[#[trigger] c[k2]].key by {
            assert(ns1[c[k1]] == ns0[c[k1]]);
            assert(ns1[c[k2]] == ns0[c[k2]]);
        }
        assert forall|i: int|
            1 <= i < ns1.len() && i != n implies (c.contains(i) <==> l < (
            #[trigger] ns1[i]).height) by {
            assert(ns1[i] == ns0[i]);
            assert(c.contains(i) <==> l < ns0[i].height);
        }
    }

    /// Redirecting one forward slot at level `l` leaves every chain that
    /// does not read that slot exactly as it was.
    proof fn lemma_write_keeps_chain(
        c: Seq<int>,
        ns0: Seq<Node>,
        ns1: Seq<Node>,
        m: int,
        l: int,
        pd: int,
        skip: int,
    )
        requires
            Self::chain_ok_x(c, ns0, m, skip),
            ns0.len() >= 1,
            m != l,
            0 <= pd < ns0.len(),
            ns1.len() == ns0.len(),
            forall|i: int| 0 <= i < ns0.len() && i != pd ==> ns1[i] == ns0[i],
            ns1[pd].key == ns0[pd].key,
            ns1[pd].height == ns0[pd].height,
            ns1[pd].next@.len() == ns0[pd].next@.len(),
            forall|j: int| 0 <= j < ns0[pd].next@.len() && j != l ==> ns1[pd].next@[j] == ns0[pd].next@[j],
            0 <= m < ns0[pd].next@.len(),
        ensures
            Self::chain_ok_x(c, ns1, m, skip),
    {
        assert((ns1[0].next@[m] as int) == (if c.len() == 0 {
            0int
        } else {
            c[0]
        })) by {
            if pd == 0 {
                assert(ns1[0].next@[m] == ns0[0].next@[m]);
            } else {
                assert(ns1[0] == ns0[0]);
            }
        }
        assert forall|k: int| 0 <= k < c.len() implies (ns1[#[trigger] c[k]].next@[m] as int) == (
        if k == c.len() - 1 {
            0int
        } else {
            c[k + 1]
        }) by {
            assert((ns0[c[k]].next@[m] as int) == (if k == c.len() - 1 {
                0int
            } else {
                c[k + 1]
            }));
            if c[k] == pd {
                assert(ns1[pd].next@[m] == ns0[pd].next@[m]);
            } else {
                assert(ns1[c[k]] == ns0[c[k]]);
            }
        }
        assert forall|k1: int, k2: int|
            0 <= k1 < k2 < c.len() implies ns1[#[trigger] c[k1]].key < ns1[#[trigger] c[k2]].key by {
            assert(ns0[c[k1]].key < ns0[c[k2]].key);
            assert(ns1[c[k1]].key == ns0[c[k1]].key);
            assert(ns1[c[k2]].key == ns0[c[k2]].key);
        }
        assert forall|i: int|
            1 <= i < ns1.len() && i != skip implies (c.contains(i) <==> m < (
            #[trigger] ns1[i]).height) by {
            assert(c.contains(i) <==> m < ns0[i].height);
            assert(ns1[i].height == ns0[i].height);
        }
    }

    /// Splicing the fresh node `n` after its predecessor turns the level-`l`
    /// chain into the old chain with `n` standing at position `cnt`.
    #[verifier::rlimit(100)]
    proof fn lemma_splice_level(
        c: Seq<int>,
        ns0: Seq<Node>,
        ns1: Seq<Node>,
        l: int,
        n: int,
        cnt: int,
        pd: int,
        key: u64,
    )
        requires
            Self::chain_ok_x(c, ns0, l, n),
            0 <= cnt <= c.len(),
            1 <= n == ns0.len() - 1,
            forall|k: int| 0 <= k < c.len() ==> #[trigger] c[k] < n,
            forall|k: int| 0 <= k < cnt ==> ns0[#[trigger] c[k]].key < key,
            forall|k: int| cnt <= k < c.len() ==> ns0[#[trigger] c[k]].key > key,
            pd == (if cnt == 0 {
                0int
            } else {
                c[cnt - 1]
            }),
            ns0[n].key == key,
            l < ns0[n].height,
            0 <= l < ns0[n].next@.len(),
            (ns0[n].next@[l] as int) == (if cnt < c.len() {
                c[cnt]
            } else {
                0int
            }),
            ns1.len() == ns0.len(),
            forall|i: int| 0 <= i < ns0.len() && i != pd ==> ns1[i] == ns0[i],
            ns1[pd].key == ns0[pd].key,
            ns1[pd].height == ns0[pd].height,
            ns1[pd].next@.len() == ns0[pd].next@.len(),
            0 <= l < ns0[pd].next@.len(),
            (ns1[pd].next@[l] as int) == n,
            forall|j: int| 0 <= j < ns0[pd].next@.len() && j != l ==> ns1[pd].next@[j] == ns0[pd].next@[j],
        ensures
            Self::chain_ok_x(c.insert(cnt, n), ns1, l, 0),
    {
        let c1 = c.insert(cnt, n);
        c.insert_ensures(cnt, n);
        Self::lemma_splice_core(c, c1, ns0, ns1, l, n, cnt, pd, key);
    }

    #[verifier::rlimit(100)]
    proof fn lemma_splice_core(
        c: Seq<int>,
        c1: Seq<int>,
        ns0: Seq<Node>,
        ns1: Seq<Node>,
        l: int,
        n: int,
        cnt: int,
        pd: int,
        key: u64,
    )
        requires
            Self::chain_ok_x(c, ns0, l, n),
            1 <= n == ns0.len() - 1,
            0 <= cnt <= c.len(),
            c1.len() == c.len() + 1,
            forall|k: int| 0 <= k < cnt ==> #[trigger] c1[k] == c[k],
            c1[cnt] == n,
            forall|k: int| cnt < k < c1.len() ==> #[trigger] c1[k] == c[k - 1],
            forall|k: int| 0 <= k < c.len() ==> #[trigger] c[k] < n,
            0 <= cnt <= c.len(),
            forall|k: int| 0 <= k < cnt ==> ns0[#[trigger] c[k]].key < key,
            forall|k: int| cnt <= k < c.len() ==> ns0[#[trigger] c[k]].key > key,
            pd == (if cnt == 0 {
                0int
            } else {
                c[cnt - 1]
            }),
            ns0[n].key == key,
            l < ns0[n].height,
            0 <= l < ns0[n].next@.len(),
            (ns0[n].next@[l] as int) == (if cnt < c.len() {
                c[cnt]
            } else {
                0int
            }),
            // the write of the splice
            ns1.len() == ns0.len(),
            forall|i: int| 0 <= i < ns0.len() && i != pd ==> ns1[i] == ns0[i],
            ns1[pd].key == ns0[pd].key,
            ns1[pd].height == ns0[pd].height,
            ns1[pd].next@.len() == ns0[pd].next@.len(),
            0 <= l < ns0[pd].next@.len(),
            (ns1[pd].next@[l] as int) == n,
            forall|j: int| 0 <= j < ns0[pd].next@.len() && j != l ==> ns1[pd].next@[j] == ns0[pd].next@[j],
        ensures
            Self::chain_ok_x(c1, ns1, l, 0),
    {
        // distinct handles along the old chain
        assert forall|k1: int, k2: int| 0 <= k1 < k2 < c.len() implies c[k1] != c[k2] by {
            assert(ns0[c[k1]].key < ns0[c[k2]].key);
        }
        assert forall|k: int| 0 <= k < c1.len() implies 1 <= #[trigger] c1[k] < ns1.len() by {
            if k < cnt {
                assert(c1[k] == c[k]);
            } else if k > cnt {
                assert(c1[k] == c[k - 1]);
            }
        }
        // the head points at the chain's first handle
        if cnt == 0 {
            assert(pd == 0);
            assert(c1[0] == n);
        } else {
            assert(pd == c[cnt - 1]);
            assert(pd != 0);
            assert(ns1[0] == ns0[0]);
            assert(c1[0] == c[0]);
        }
        // every link agrees with the spliced chain
        assert forall|k: int|
            0 <= k < c1.len() implies (ns1[#[trigger] c1[k]].next@[l] as int) == (if k == c1.len()
                - 1 {
                0int
            } else {
                c1[k + 1]
            }) by {
            if k < cnt - 1 {
                assert(c1[k] == c[k]);
                assert(c[k] != pd);
                assert(ns1[c[k]] == ns0[c[k]]);
                assert(c1[k + 1] == c[k + 1]);
            } else if cnt > 0 && k == cnt - 1 {
                assert(c1[k] == pd);
                assert(c1[k + 1] == n);
            } else if k == cnt {
                assert(c1[k] == n);
                assert(n != pd);
                assert(ns1[n] == ns0[n]);
            } else {
                assert(c1[k] == c[k - 1]);
                assert(k - 1 >= cnt);
                assert(c[k - 1] != pd);
                assert(ns1[c[k - 1]] == ns0[c[k - 1]]);
                if k < c1.len() - 1 {
                    assert(c1[k + 1] == c[k]);
                }
            }
        }
        // keys stay strictly ascending across the splice point
        assert forall|k1: int, k2: int|
            0 <= k1 < k2 < c1.len() implies ns1[#[trigger] c1[k1]].key < ns1[#[trigger] c1[k2]].key by {
            assert(forall|i: int| 0 <= i < ns1.len() ==> (#[trigger] ns1[i]).key == ns0[i].key);
            if k1 < cnt {
                assert(c1[k1] == c[k1]);
            } else if k1 > cnt {
                assert(c1[k1] == c[k1 - 1]);
            }
            if k2 < cnt {
                assert(c1[k2] == c[k2]);
            } else if k2 > cnt {
                assert(c1[k2] == c[k2 - 1]);
            }
        }
        // membership now covers the fresh node as well
        assert forall|i: int|
            1 <= i < ns1.len() && i != 0 implies (c1.contains(i) <==> l < (
            #[trigger] ns1[i]).height) by {
            assert(ns1[i].height == ns0[i].height);
            if i == n {
                assert(c1[cnt] == n);
                assert(c1.contains(n));
            } else {
                if c.contains(i) {
                    let k = choose|k: int| 0 <= k < c.len() && c[k] == i;
                    if k < cnt {
                        assert(c1[k] == i);
                    } else {
                        assert(c1[k + 1] == i);
                    }
                    assert(c1.contains(i));
                    assert(i < n);
                    assert(c.contains(i) <==> l < ns0[i].height);
                } else {
                    assert(i < n);
                    assert(!(l < ns0[i].height));
                    if c1.contains(i) {
                        let k = choose|k: int| 0 <= k < c1.len() && c1[k] == i;
                        if k < cnt {
                            assert(c[k] == i);
                            assert(c.contains(i));
                        } else if k == cnt {
                            assert(i == n);
                        } else {
                            assert(c[k - 1] == i);
                            assert(c.contains(i));
                        }
                    }
                }
            }
        }
    }

    /// `p` is the handle of the last node of the level-`l` chain whose key
    /// is below `key`, or the head if the chain has no such node.
    spec fn pred_ok(&self, l: int, key: u64, p: int) -> bool {
        let c = self.chains@[l];
        let cnt = self.lt_count(l, key);
        &&& 0 <= p < self.nodes@.len()
        &&& if cnt == 0 {
            p == 0
        } else {
            p == c[cnt - 1]
        }
    }
    /// The predecessor-recording descent used by insertion: returns, for
    /// every level, the last node standing strictly before `key`.
    fn FindPrevs(&self, key: u64) -> (preds: Vec<usize>)
        requires
            self.wf(),
        ensures
            preds@.len() == MAX_HEIGHT as int,
            forall|l: int|
                0 <= l < MAX_HEIGHT as int ==> self.pred_ok(l, key, #[trigger] preds@[l] as int),
    {
        let mut preds: Vec<usize> = Vec::new();
        let mut i: usize = 0;
        while i < MAX_HEIGHT
            invariant
                preds@.len() == i as int,
                i <= MAX_HEIGHT,
                forall|j: int| 0 <= j < i as int ==> preds@[j] == 0usize,
            decreases MAX_HEIGHT - i,
        {
            preds.push(0);
            i = i + 1;
        }
        proof {
            assert forall|l: int|
                self.max_height_ <= l < MAX_HEIGHT as int implies self.pred_ok(
                l,
                key,
                preds@[l] as int,
            ) by {
                self.lemma_high_chain_empty(l);
                assert(self.chains@[l].len() == 0);
            }
        }
        let mut x: usize = 0;
        let ghost mut p: int = 0;
        let max_level: usize = self.GetMaxLevel();
        let mut level: usize = if max_level == 0 {
            0
        } else {
            max_level - 1
        };
        proof {
            assert(self.chain_wf(level as int));
            Self::lemma_lt_count(self.chains@[level as int], self.nodes@, key);
        }
        loop
            invariant
                self.wf(),
                level < MAX_HEIGHT,
                x < self.nodes@.len(),
                self.at_pos(level as int, p, x as int),
                p <= self.lt_count(level as int, key),
                preds@.len() == MAX_HEIGHT as int,
                forall|l: int|
                    (level as int) < l < (MAX_HEIGHT as int) ==> self.pred_ok(
                        l,
                        key,
                        #[trigger] preds@[l] as int,
                    ),
            decreases level,
        {
            let res = self.walk_level(x, Ghost(p), level, key);
            x = res.0;
            proof {
                p = res.1@;
            }
            let ghost preds_before = preds@;
            preds[level] = x;
            proof {
                assert(self.pred_ok(level as int, key, preds@[level as int] as int));
                assert forall|l: int|
                    (level as int) < l < (MAX_HEIGHT as int) implies self.pred_ok(
                    l,
                    key,
                    #[trigger] preds@[l] as int,
                ) by {
                    assert(preds@[l] == preds_before[l]);
                }
            }
            if level == 0 {
                return preds;
            }
            proof {
                p = self.lemma_drop_level(key, level as int, x as int);
            }
            level = level - 1;
        }
    }

    /// Chooses a height in `1..=MAX_HEIGHT` by repeated biased coin flips,
    /// growing one level with probability `1 / BRANCHING`.
    fn RandomHeight(&self) -> (height: usize)
        ensures
            1 <= height <= MAX_HEIGHT,
    {
        let mut height: usize = 1;
        let mut grow: bool = random_below(BRANCHING) == 0;
        while height < MAX_HEIGHT && grow
            invariant
                1 <= height <= MAX_HEIGHT,
            decreases MAX_HEIGHT - height,
        {
            height = height + 1;
            grow = random_below(BRANCHING) == 0;
        }
        height
    }

    /// Establishes, for every level at once, the facts the splice needs.
    proof fn lemma_levels(&self, preds: Seq<usize>, key: u64)
        requires
            self.wf(),
            preds.len() == MAX_HEIGHT as int,
            forall|l: int|
                0 <= l < MAX_HEIGHT as int ==> self.pred_ok(l, key, #[trigger] preds[l] as int),
            forall|i: int| 1 <= i < self.nodes@.len() ==> (#[trigger] self.nodes@[i]).key != key,
        ensures
            forall|l: int|
                0 <= l < MAX_HEIGHT as int ==> Self::level_facts(
                    self.chains@[l],
                    self.nodes@,
                    Self::lt_count_rec(self.chains@[l], self.nodes@, key),
                    #[trigger] preds[l] as int,
                    key,
                    l,
                ),
    {
        let ns0 = self.nodes@;
        assert forall|l: int|
            0 <= l < MAX_HEIGHT as int implies Self::level_facts(
            self.chains@[l],
            ns0,
            Self::lt_count_rec(self.chains@[l], ns0, key),
            #[trigger] preds[l] as int,
            key,
            l,
        ) by {
            assert(self.chain_wf(l));
            self.lemma_chain_wf_is_ok(l);
            Self::lemma_lt_count(self.chains@[l], ns0, key);
            assert(self.pred_ok(l, key, preds[l] as int));
            let c = self.chains@[l];
            let cnt = Self::lt_count_rec(c, ns0, key);
            if cnt > 0 {
                assert((ns0[c[cnt - 1]].next@[l] as int) == (if cnt - 1 == c.len() - 1 {
                    0int
                } else {
                    c[cnt]
                }));
            }
            assert forall|k: int| cnt <= k < c.len() implies ns0[#[trigger] c[k]].key > key by {
                assert(ns0[c[k]].key >= key);
                assert(1 <= c[k] < ns0.len());
                assert(ns0[c[k]].key != key);
            }
        }
    }

    /// Completes well-formedness once every target level is spliced: the
    /// untouched upper chains never account for the new node, whose height
    /// stops below them.
    proof fn lemma_finish_wf(
        &self,
        cs: Seq<Seq<int>>,
        n: int,
        height: int,
    )
        requires
            cs.len() == MAX_HEIGHT as int,
            self.chains@.len() == MAX_HEIGHT as int,
            self.nodes@.len() == n + 1,
            1 <= n,
            1 <= height <= self.max_height_ <= MAX_HEIGHT,
            forall|m: int|
                0 <= m < height ==> Self::chain_ok_x(#[trigger] self.chains@[m], self.nodes@, m, 0),
            forall|m: int| height <= m < MAX_HEIGHT as int ==> self.chains@[m] == cs[m],
            forall|m: int|
                height <= m < MAX_HEIGHT as int ==> Self::chain_ok_x(
                    #[trigger] cs[m],
                    self.nodes@,
                    m,
                    n,
                ),
            forall|m: int, k: int|
                height <= m < MAX_HEIGHT as int && 0 <= k < cs[m].len() ==> 1 <= #[trigger] cs[m][k]
                    < n,
            (#[trigger] self.nodes@[n]).height == height,
            forall|i: int|
                0 <= i < self.nodes@.len() ==> (#[trigger] self.nodes@[i]).next@.len()
                    == MAX_HEIGHT as int,
            forall|i: int|
                1 <= i < n ==> 1 <= (#[trigger] self.nodes@[i]).height <= self.max_height_,
        ensures
            self.wf(),
    {
        assert forall|m: int| 0 <= m < MAX_HEIGHT as int implies #[trigger] self.chain_wf(m) by {
            self.lemma_chain_wf_is_ok(m);
            if m >= height {
                assert(Self::chain_ok_x(cs[m], self.nodes@, m, n));
                assert forall|i: int|
                    1 <= i < self.nodes@.len() implies (cs[m].contains(i) <==> m < (
                #[trigger] self.nodes@[i]).height) by {
                    if i == n {
                        if cs[m].contains(i) {
                            let k = choose|k: int| 0 <= k < cs[m].len() && cs[m][k] == i;
                            assert(cs[m][k] < n);
                        }
                        assert(!cs[m].contains(i));
                    }
                }
            }
        }
    }

    /// After the level-0 splice the key sequence is the old one with `key`
    /// standing at its sorted position, and the key set gained exactly `key`.
    proof fn lemma_finish_keys(
        &self,
        c0: Seq<int>,
        okeys: Seq<u64>,
        cnt0: int,
        n: int,
        key: u64,
    )
        requires
            self.chains@.len() == MAX_HEIGHT as int,
            self.chains@[0] == c0.insert(cnt0, n),
            0 <= cnt0 <= c0.len(),
            self.nodes@.len() == n + 1,
            okeys.len() == c0.len(),
            forall|k: int| 0 <= k < c0.len() ==> 0 <= #[trigger] c0[k] < n,
            forall|k: int| 0 <= k < c0.len() ==> #[trigger] okeys[k] == self.nodes@[c0[k]].key,
            (#[trigger] self.nodes@[n]).key == key,
        ensures
            self.key_seq() == okeys.insert(cnt0, key),
            self.keys() == okeys.to_set().insert(key),
    {
        c0.insert_ensures(cnt0, n);
        okeys.insert_ensures(cnt0, key);
        let c01 = self.chains@[0];
        assert forall|k: int|
            0 <= k < c01.len() implies self.key_seq()[k] == okeys.insert(cnt0, key)[k] by {
            if k < cnt0 {
                assert(c01[k] == c0[k]);
            } else if k == cnt0 {
                assert(c01[k] == n);
            } else {
                assert(c01[k] == c0[k - 1]);
            }
        }
        assert(self.key_seq() =~= okeys.insert(cnt0, key));
        Self::lemma_seq_insert_to_set(okeys, cnt0, key);
    }

    /// One level of the splice: once the predecessor's slot is redirected,
    /// the target level carries the fresh node at its sorted position and
    /// every other level stands as it did.
    #[verifier::rlimit(100)]
    proof fn lemma_splice_step(
        cs: Seq<Seq<int>>,
        chains_pre: Seq<Seq<int>>,
        ns0: Seq<Node>,
        ns_pre: Seq<Node>,
        ns1: Seq<Node>,
        cnts: Seq<int>,
        preds: Seq<usize>,
        key: u64,
        n: int,
        height: int,
        l: int,
    )
        requires
            cs.len() == MAX_HEIGHT as int,
            chains_pre.len() == MAX_HEIGHT as int,
            preds.len() == MAX_HEIGHT as int,
            cnts.len() == MAX_HEIGHT as int,
            0 <= l < height <= MAX_HEIGHT as int,
            1 <= n == ns0.len(),
            ns_pre.len() == n + 1,
            forall|l2: int|
                0 <= l2 < MAX_HEIGHT as int ==> Self::level_facts(
                    cs[l2],
                    ns0,
                    cnts[l2],
                    #[trigger] preds[l2] as int,
                    key,
                    l2,
                ),
            forall|i: int|
                0 <= i < n ==> (#[trigger] ns_pre[i]).key == ns0[i].key && ns_pre[i].height
                    == ns0[i].height && ns_pre[i].next@.len() == MAX_HEIGHT as int,
            ns_pre[n].key == key,
            ns_pre[n].height == height,
            ns_pre[n].next@.len() == MAX_HEIGHT as int,
            (ns_pre[n].next@[l] as int) == (if cnts[l] < cs[l].len() {
                cs[l][cnts[l]]
            } else {
                0int
            }),
            forall|m: int|
                l <= m < MAX_HEIGHT as int ==> Self::chain_ok_x(#[trigger] cs[m], ns_pre, m, n),
            forall|m: int|
                0 <= m < l ==> Self::chain_ok_x(#[trigger] chains_pre[m], ns_pre, m, 0),
            ns1.len() == ns_pre.len(),
            0 <= preds[l] < n,
            forall|i: int| 0 <= i < ns_pre.len() && i != preds[l] as int ==> ns1[i] == ns_pre[i],
            ns1[preds[l] as int].key == ns_pre[preds[l] as int].key,
            ns1[preds[l] as int].height == ns_pre[preds[l] as int].height,
            ns1[preds[l] as int].next@.len() == ns_pre[preds[l] as int].next@.len(),
            (ns1[preds[l] as int].next@[l] as int) == n,
            forall|j2: int|
                0 <= j2 < ns_pre[preds[l] as int].next@.len() && j2 != l ==> ns1[preds[l] as int].next@[j2]
                    == ns_pre[preds[l] as int].next@[j2],
        ensures
            Self::chain_ok_x(cs[l].insert(cnts[l], n), ns1, l, 0),
            forall|m: int|
                l + 1 <= m < MAX_HEIGHT as int ==> Self::chain_ok_x(#[trigger] cs[m], ns1, m, n),
            forall|m: int| 0 <= m < l ==> Self::chain_ok_x(#[trigger] chains_pre[m], ns1, m, 0),
            forall|i: int|
                0 <= i < n ==> (#[trigger] ns1[i]).key == ns0[i].key && ns1[i].height
                    == ns0[i].height && ns1[i].next@.len() == MAX_HEIGHT as int,
            ns1[n] == ns_pre[n],
            forall|i: int, m2: int|
                0 <= i < n && 0 <= m2 < MAX_HEIGHT as int && !(i == preds[l] as int && m2 == l)
                    ==> (#[trigger] ns1[i].next@[m2]) == ns_pre[i].next@[m2],
    {
        let pdi = preds[l] as int;
        let c = cs[l];
        let cnt = cnts[l];
        assert(Self::level_facts(c, ns0, cnt, pdi, key, l));
        assert forall|k: int| 0 <= k < cnt implies ns_pre[#[trigger] c[k]].key < key by {
            assert(1 <= c[k] < ns0.len());
            assert(ns_pre[c[k]].key == ns0[c[k]].key);
        }
        assert forall|k: int| cnt <= k < c.len() implies ns_pre[#[trigger] c[k]].key > key by {
            assert(1 <= c[k] < ns0.len());
            assert(ns_pre[c[k]].key == ns0[c[k]].key);
        }
        assert forall|k: int| 0 <= k < c.len() implies #[trigger] c[k] < n by {
            assert(1 <= c[k] < ns0.len());
        }
        Self::lemma_splice_level(c, ns_pre, ns1, l, n, cnt, pdi, key);
        assert forall|m: int|
            l + 1 <= m < MAX_HEIGHT as int implies Self::chain_ok_x(
            #[trigger] cs[m],
            ns1,
            m,
            n,
        ) by {
            Self::lemma_write_keeps_chain(cs[m], ns_pre, ns1, m, l, pdi, n);
        }
        assert forall|m: int|
            0 <= m < l implies Self::chain_ok_x(#[trigger] chains_pre[m], ns1, m, 0) by {
            Self::lemma_write_keeps_chain(chains_pre[m], ns_pre, ns1, m, l, pdi, 0);
        }
        assert forall|i: int|
            0 <= i < n implies (#[trigger] ns1[i]).key == ns0[i].key && ns1[i].height
                == ns0[i].height && ns1[i].next@.len() == MAX_HEIGHT as int by {
            if i != pdi {
                assert(ns1[i] == ns_pre[i]);
            }
        }
        assert forall|i: int, m2: int|
            0 <= i < n && 0 <= m2 < MAX_HEIGHT as int && !(i == pdi && m2 == l) implies (
        #[trigger] ns1[i].next@[m2]) == ns_pre[i].next@[m2] by {
            if i != pdi {
                assert(ns1[i] == ns_pre[i]);
            }
        }
    }

    /// Inserts a previously-absent key: allocates one node of random
    /// height, then links it into the bottom chains, lowest level first.
    /// May raise the list's max level.
    #[verifier::rlimit(100)]
    pub fn Insert(&mut self, key: u64)
        requires
            old(self).wf(),
            !old(self).keys().contains(key),
        ensures
            final(self).wf(),
            final(self).keys() == old(self).keys().insert(key),
            final(self).key_seq().len() == old(self).key_seq().len() + 1,
    {
        proof {
            self.lemma_absent_key(key);
        }
        let preds = self.FindPrevs(key);
        let height = self.RandomHeight();
        let ghost cs = self.chains@;
        let ghost ns0 = self.nodes@;
        let ghost cnts = Seq::new(
            MAX_HEIGHT as nat,
            |l: int| Self::lt_count_rec(cs[l], ns0, key),
        );
        let ghost okeys = self.key_seq();
        proof {
            self.lemma_levels(preds@, key);
        }
        if height > self.max_height_ {
            let ghost pre = *self;
            self.max_height_ = height;
            proof {
                assert forall|l: int|
                    0 <= l < MAX_HEIGHT as int implies #[trigger] self.chain_wf(l) by {
                    assert(pre.chain_wf(l));
                }
                assert(self.wf());
            }
        }
        let mut nnext: Vec<usize> = Vec::new();
        let mut j: usize = 0;
        while j < MAX_HEIGHT
            invariant
                self.wf(),
                self.nodes@ == ns0,
                self.chains@ == cs,
                height <= self.max_height_,
                1 <= height <= MAX_HEIGHT,
                j <= MAX_HEIGHT,
                preds@.len() == MAX_HEIGHT as int,
                forall|l: int|
                    0 <= l < MAX_HEIGHT as int ==> Self::level_facts(
                        cs[l],
                        ns0,
                        cnts[l],
                        #[trigger] preds@[l] as int,
                        key,
                        l,
                    ),
                nnext@.len() == j as int,
                forall|m: int|
                    0 <= m < j as int && m < height as int ==> (#[trigger] nnext@[m] as int) == (
                    if cnts[m] < cs[m].len() {
                        cs[m][cnts[m]]
                    } else {
                        0int
                    }),
                forall|m: int| height as int <= m < j as int ==> nnext@[m] == 0usize,
            decreases MAX_HEIGHT - j,
        {
            if j < height {
                let pd = preds[j];
                proof {
                    assert(Self::level_facts(
                        cs[j as int],
                        ns0,
                        cnts[j as int],
                        preds@[j as int] as int,
                        key,
                        j as int,
                    ));
                    assert(self.chain_wf(j as int));
                    if pd != 0 {
                        let c = cs[j as int];
                        let cnt = cnts[j as int];
                        assert(pd as int == c[cnt - 1]);
                        assert(c.contains(pd as int));
                    }
                }
                nnext.push(self.Next(pd, j));
            } else {
                nnext.push(0);
            }
            j = j + 1;
        }
        let n = self.nodes.len();
        proof {
            assert(n as int == ns0.len());
            assert(1 <= n);
        }
        self.nodes.push(Node { key, height, next: nnext });
        proof {
            assert forall|m: int|
                0 <= m < MAX_HEIGHT as int implies Self::chain_ok_x(
                cs[m],
                self.nodes@,
                m,
                n as int,
            ) by {
                assert(Self::level_facts(cs[m], ns0, cnts[m], preds@[m] as int, key, m));
                Self::lemma_push_keeps_chain(cs[m], ns0, self.nodes@, m);
            }
        }
        let mut l: usize = 0;
        while l < height
            invariant
                n as int == ns0.len(),
                1 <= n,
                cs.len() == MAX_HEIGHT as int,
                cnts.len() == MAX_HEIGHT as int,
                self.nodes@.len() == n as int + 1,
                self.chains@.len() == MAX_HEIGHT as int,
                l <= height,
                1 <= height <= MAX_HEIGHT,
                height <= self.max_height_ <= MAX_HEIGHT,
                preds@.len() == MAX_HEIGHT as int,
                forall|l2: int|
                    0 <= l2 < MAX_HEIGHT as int ==> Self::level_facts(
                        cs[l2],
                        ns0,
                        cnts[l2],
                        #[trigger] preds@[l2] as int,
                        key,
                        l2,
                    ),
                forall|i: int|
                    0 <= i < n as int ==> (#[trigger] self.nodes@[i]).key == ns0[i].key
                        && self.nodes@[i].height == ns0[i].height && self.nodes@[i].next@.len()
                        == ns0[i].next@.len(),
                forall|i: int, m: int|
                    0 <= i < n as int && 0 <= m < MAX_HEIGHT as int && !(m < l as int && i
                        == preds@[m] as int) ==> (#[trigger] self.nodes@[i].next@[m])
                        == ns0[i].next@[m],
                forall|i: int|
                    1 <= i < n as int ==> 1 <= (#[trigger] self.nodes@[i]).height
                        <= self.max_height_,
                forall|i: int|
                    0 <= i < n as int ==> (#[trigger] self.nodes@[i]).next@.len()
                        == MAX_HEIGHT as int,
                self.nodes@[n as int].key == key,
                self.nodes@[n as int].height == height,
                self.nodes@[n as int].next@.len() == MAX_HEIGHT as int,
                forall|m: int|
                    0 <= m < height as int ==> (#[trigger] self.nodes@[n as int].next@[m] as int)
                        == (if cnts[m] < cs[m].len() {
                        cs[m][cnts[m]]
                    } else {
                        0int
                    }),
                forall|m: int|
                    0 <= m < MAX_HEIGHT as int ==> self.chains@[m] == (if m < l as int {
                        cs[m].insert(cnts[m], n as int)
                    } else {
                        cs[m]
                    }),
                forall|m: int|
                    l as int <= m < MAX_HEIGHT as int ==> Self::chain_ok_x(
                        cs[m],
                        self.nodes@,
                        m,
                        n as int,
                    ),
                forall|m: int|
                    0 <= m < l as int ==> Self::chain_ok_x(
                        #[trigger] self.chains@[m],
                        self.nodes@,
                        m,
                        0,
                    ),
            decreases height - l,
        {
            let pd = preds[l];
            let ghost ns_pre = self.nodes@;
            proof {
                assert(Self::level_facts(
                    cs[l as int],
                    ns0,
                    cnts[l as int],
                    pd as int,
                    key,
                    l as int,
                ));
                assert(pd < n);
            }
            self.nodes[pd].next[l] = n;
            proof {
                Self::lemma_splice_step(
                    cs,
                    self.chains@,
                    ns0,
                    ns_pre,
                    self.nodes@,
                    cnts,
                    preds@,
                    key,
                    n as int,
                    height as int,
                    l as int,
                );
                self.chains@ = self.chains@.update(
                    l as int,
                    cs[l as int].insert(cnts[l as int], n as int),
                );
            }
            l = l + 1;
        }
        proof {
            assert forall|m: int, k: int|
                height as int <= m < MAX_HEIGHT as int && 0 <= k < cs[m].len() implies 1
                <= #[trigger] cs[m][k] < n as int by {
                assert(Self::level_facts(cs[m], ns0, cnts[m], preds@[m] as int, key, m));
            }
            self.lemma_finish_wf(cs, n as int, height as int);
            let c0 = cs[0];
            let cnt0 = cnts[0];
            assert(Self::level_facts(c0, ns0, cnt0, preds@[0] as int, key, 0));
            assert forall|k: int| 0 <= k < c0.len() implies #[trigger] okeys[k]
                == self.nodes@[c0[k]].key by {
                assert(1 <= c0[k] < ns0.len());
                assert(self.nodes@[c0[k]].key == ns0[c0[k]].key);
            }
            self.lemma_finish_keys(c0, okeys, cnt0, n as int, key);
            assert(self.keys() == old(self).keys().insert(key));
        }
    }

    /// Membership test: true exactly when `key` was inserted.
    pub fn Contains(&self, key: &u64) -> (r: bool)
        requires
            self.wf(),
        ensures
            r == self.keys().contains(*key),
    {
        let node = self.FindGreaterOrEqual(*key);
        let r = node != 0 && Self::Equal(key, &self.nodes[node].key);
        proof {
            let c = self.chains@[0];
            assert(self.chain_wf(0));
            Self::lemma_lt_count(c, self.nodes@, *key);
            let cnt = Self::lt_count_rec(c, self.nodes@, *key);
            if r {
                assert(self.key_seq()[cnt] == *key);
                assert(self.key_seq().contains(*key));
            } else {
                assert forall|j: int| 0 <= j < self.key_seq().len() implies self.key_seq()[j]
                    != *key by {
                    if j < cnt {
                        assert(self.nodes@[c[j]].key < *key);
                    } else if j == cnt {
                        assert(node as int == c[cnt]);
                    } else {
                        assert(self.nodes@[c[cnt]].key < self.nodes@[c[j]].key);
                        assert(self.nodes@[c[cnt]].key >= *key);
                    }
                }
                if self.key_seq().contains(*key) {
                    let j = choose|j: int|
                        0 <= j < self.key_seq().len() && self.key_seq()[j] == *key;
                }
            }
        }
        r
    }

    #[inline(always)]
    fn Equal(a: &u64, b: &u64) -> (r: bool)
        ensures
            r == (a == b),
    {
        *a == *b
    }

    #[inline(always)]
    fn GetMaxLevel(&self) -> (r: usize)
        ensures
            r == self.max_height_,
    {
        self.max_height_
    }

    /// A fresh cursor over this list; position it with `seek` or
    /// `seek_to_first` before reading.
    pub fn iter(&self) -> (r: SkipListIter<'_>)
        requires
            self.wf(),
        ensures
            r.wf(),
            r.lst() == *self,
            r.pos() == self.key_seq().len(),
    {
        SkipListIter { list: self, cur: 0, gpos: Ghost(self.key_seq().len() as int) }
    }
}

/// A forward, restartable-by-seek cursor over the list's sorted key
/// sequence; it does not own the list, and `cur == 0` means exhausted.
pub struct SkipListIter<'a> {
    list: &'a SkipList,
    cur: usize,
    gpos: Ghost<int>,
}

impl<'a> SkipListIter<'a> {
    /// The list this cursor walks.
    pub closed spec fn lst(&self) -> SkipList {
        *self.list
    }

    /// The cursor's position in the sorted key sequence; the sequence's
    /// length when exhausted.
    pub closed spec fn pos(&self) -> int {
        self.gpos@
    }

    pub closed spec fn wf(&self) -> bool {
        &&& self.list.wf()
        &&& 0 <= self.gpos@ <= self.list.key_seq().len()
        &&& (self.gpos@ == self.list.key_seq().len() <==> self.cur == 0)
        &&& (self.cur != 0 ==> self.list.chains@[0][self.gpos@] == self.cur as int)
    }

    /// True exactly when the cursor stands on a key.
    pub fn has_next(&self) -> (r: bool)
        requires
            self.wf(),
        ensures
            r == (self.pos() < self.lst().key_seq().len()),
    {
        self.cur != 0
    }

    /// The key under the cursor, without consuming it.
    pub fn key(&self) -> (r: u64)
        requires
            self.wf(),
            self.pos() < self.lst().key_seq().len(),
        ensures
            r == self.lst().key_seq()[self.pos()],
    {
        proof {
            assert(self.list.chain_wf(0));
            assert(1 <= self.list.chains@[0][self.gpos@] < self.list.nodes@.len());
        }
        self.list.nodes[self.cur].key
    }

    /// Advances to the level-0 successor of the current node.
    pub fn next(&mut self)
        requires
            old(self).wf(),
            old(self).pos() < old(self).lst().key_seq().len(),
        ensures
            final(self).wf(),
            final(self).lst() == old(self).lst(),
            final(self).pos() == old(self).pos() + 1,
    {
        proof {
            assert(self.list.chain_wf(0));
            assert(1 <= self.list.chains@[0][self.gpos@] < self.list.nodes@.len());
            assert(self.list.chains@[0].contains(self.list.chains@[0][self.gpos@]));
        }
        self.cur = self.list.nodes[self.cur].next[0];
        proof {
            self.gpos@ = self.gpos@ + 1;
        }
    }

    /// Repositions to the first node whose key is `>= target`; exhausts the
    /// cursor when every present key is smaller.
    pub fn seek(&mut self, target: u64)
        requires
            old(self).wf(),
        ensures
            final(self).wf(),
            final(self).lst() == old(self).lst(),
            0 <= final(self).pos() <= final(self).lst().key_seq().len(),
            forall|k: int|
                0 <= k < final(self).pos() ==> final(self).lst().key_seq()[k] < target,
            final(self).pos() < final(self).lst().key_seq().len() ==> final(self).lst().key_seq()[final(self).pos()]
                >= target,
    {
        let found = self.list.FindGreaterOrEqual(target);
        self.cur = found;
        proof {
            assert(self.list.chain_wf(0));
            let c = self.list.chains@[0];
            SkipList::lemma_lt_count(c, self.list.nodes@, target);
            self.gpos@ = SkipList::lt_count_rec(c, self.list.nodes@, target);
        }
    }

    /// Repositions to the smallest key present; exhausts the cursor when
    /// the list is empty.
    pub fn seek_to_first(&mut self)
        requires
            old(self).wf(),
        ensures
            final(self).wf(),
            final(self).lst() == old(self).lst(),
            final(self).pos() == 0,
    {
        proof {
            assert(self.list.chain_wf(0));
            let c = self.list.chains@[0];
            if c.len() > 0 {
                assert(1 <= c[0] < self.list.nodes@.len());
            }
        }
        self.cur = self.list.nodes[0].next[0];
        proof {
            self.gpos@ = 0;
        }
    }
}

/// Law: right after an insertion, the inserted key is a member, and any
/// other key is a member exactly when it already was one.
pub proof fn lemma_insert_membership(pre: Set<u64>, post: Set<u64>, inserted: u64, other: u64)
    requires
        post == pre.insert(inserted),
    ensures
        post.contains(inserted),
        other != inserted ==> (post.contains(other) <==> pre.contains(other)),
{
}

/// Law: full iteration yields keys in strictly ascending order, and they
/// are exactly the key set held by the list.
pub proof fn lemma_iteration_sorted(s: &SkipList)
    requires
        s.wf(),
    ensures
        forall|i: int, j: int|
            0 <= i < j < s.key_seq().len() ==> s.key_seq()[i] < s.key_seq()[j],
        forall|k: u64| s.keys().contains(k) <==> s.key_seq().contains(k),
{
    assert(s.chain_wf(0));
    assert forall|i: int, j: int|
        0 <= i < j < s.key_seq().len() implies s.key_seq()[i] < s.key_seq()[j] by {
        let c = s.chains@[0];
        assert(s.nodes@[c[i]].key < s.nodes@[c[j]].key);
    }
}

} // verus!
