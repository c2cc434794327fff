//! The consistent-hash ring: an ordered mapping from 32-bit ring coordinate
//! to node index, kept as a vector sorted by coordinate.  Key routing walks
//! the ring clockwise from the key's coordinate, wrapping at the end, and
//! collects distinct node indices until the replication factor is reached.

use vstd::prelude::*;

verus! {

use vstd::set_lib::lemma_len_subset;

/// Coordinates strictly ascend: each coordinate is bound at most once.
pub open spec fn ring_sorted(s: Seq<(u32, usize)>) -> bool {
    forall|i: int, j: int| 0 <= i < j < s.len() ==> s[i].0 < s[j].0
}

/// Every entry addresses a node index below `n`.
pub open spec fn ring_in_bounds(s: Seq<(u32, usize)>, n: int) -> bool {
    forall|i: int| 0 <= i < s.len() ==> s[i].1 < n
}

/// Some entry carries the node index `x`.
pub open spec fn ring_has_value(s: Seq<(u32, usize)>, x: usize) -> bool {
    exists|i: int| 0 <= i < s.len() && s[i].1 == x
}

/// The ring after coordinate `c` is bound to node `idx`: order kept, a
/// previous binding of `c` overwritten (the last writer for a coordinate
/// wins, as when two virtual nodes collide).
pub open spec fn ring_insert_spec(s: Seq<(u32, usize)>, c: u32, idx: usize) -> Seq<(u32, usize)>
    decreases s.len(),
{
    if s.len() == 0 {
        seq![(c, idx)]
    } else if s[0].0 < c {
        seq![s[0]] + ring_insert_spec(s.drop_first(), c, idx)
    } else if s[0].0 == c {
        seq![(c, idx)] + s.drop_first()
    } else {
        seq![(c, idx)] + s
    }
}

/// The first position whose coordinate is at least `c`; the length when
/// every coordinate is below `c`.
pub open spec fn start_pos(s: Seq<(u32, usize)>, c: u32) -> int
    decreases s.len(),
{
    if s.len() == 0 {
        0
    } else if s[0].0 >= c {
        0
    } else {
        1 + start_pos(s.drop_first(), c)
    }
}

/// The ring read clockwise from coordinate `c`, wrapping at the end.
pub open spec fn rotated(s: Seq<(u32, usize)>, c: u32) -> Seq<(u32, usize)> {
    s.skip(start_pos(s, c)) + s.take(start_pos(s, c))
}

/// Walks `s` in order, collecting node indices not yet in `acc`, until `r`
/// distinct indices are held or `s` is exhausted.
pub open spec fn walk_collect(s: Seq<(u32, usize)>, acc: Seq<usize>, r: nat) -> Seq<usize>
    decreases s.len(),
{
    if acc.len() >= r || s.len() == 0 {
        acc
    } else if acc.contains(s[0].1) {
        walk_collect(s.drop_first(), acc, r)
    } else {
        walk_collect(s.drop_first(), acc.push(s[0].1), r)
    }
}

/// The replica set for coordinate `c`: the first `r` distinct node indices
/// met on the clockwise walk from `c`, every distinct index when the ring
/// holds fewer.  The first element is the primary.
pub open spec fn replica_set_spec(s: Seq<(u32, usize)>, c: u32, r: nat) -> Seq<usize> {
    walk_collect(rotated(s, c), Seq::empty(), r)
}

/// The set of distinct node indices the ring carries.
pub open spec fn node_values(s: Seq<(u32, usize)>) -> Set<usize>
    decreases s.len(),
{
    if s.len() == 0 {
        Set::empty()
    } else {
        node_values(s.drop_first()).insert(s[0].1)
    }
}

proof fn lemma_start_pos_bounds(s: Seq<(u32, usize)>, c: u32)
    ensures
        0 <= start_pos(s, c) <= s.len(),
    decreases s.len(),
{
    if s.len() == 0 {
    } else if s[0].0 >= c {
    } else {
        lemma_start_pos_bounds(s.drop_first(), c);
    }
}

proof fn lemma_start_pos_char(s: Seq<(u32, usize)>, c: u32, p: int)
    requires
        0 <= p <= s.len(),
        forall|j: int| 0 <= j < p ==> s[j].0 < c,
        p < s.len() ==> s[p].0 >= c,
    ensures
        start_pos(s, c) == p,
    decreases s.len(),
{
    if s.len() == 0 {
    } else if p == 0 {
    } else {
        assert(s[0].0 < c);
        lemma_start_pos_char(s.drop_first(), c, p - 1);
    }
}

proof fn lemma_ring_insert_at(s: Seq<(u32, usize)>, c: u32, idx: usize, pos: int)
    requires
        0 <= pos <= s.len(),
        forall|j: int| 0 <= j < pos ==> s[j].0 < c,
        pos < s.len() ==> s[pos].0 >= c,
    ensures
        ring_insert_spec(s, c, idx) == (if pos < s.len() && s[pos].0 == c {
            s.update(pos, (c, idx))
        } else {
            s.take(pos) + seq![(c, idx)] + s.skip(pos)
        }),
    decreases s.len(),
{
    if s.len() == 0 {
        assert(ring_insert_spec(s, c, idx) =~= s.take(pos) + seq![(c, idx)] + s.skip(pos));
    } else if pos == 0 {
        if s[0].0 == c {
            assert(ring_insert_spec(s, c, idx) =~= s.update(0, (c, idx)));
        } else {
            assert(s[0].0 > c);
            assert(ring_insert_spec(s, c, idx) =~= s.take(0) + seq![(c, idx)] + s.skip(0));
        }
    } else {
        assert(s[0].0 < c);
        let sub = s.drop_first();
        lemma_ring_insert_at(sub, c, idx, pos - 1);
        if pos < s.len() && s[pos].0 == c {
            assert(sub[pos - 1].0 == c);
            assert(seq![s[0]] + sub.update(pos - 1, (c, idx)) =~= s.update(pos, (c, idx)));
        } else {
            assert(seq![s[0]] + (sub.take(pos - 1) + seq![(c, idx)] + sub.skip(pos - 1)) =~= s.take(
                pos,
            ) + seq![(c, idx)] + s.skip(pos));
        }
    }
}

proof fn lemma_node_values(s: Seq<(u32, usize)>)
    ensures
        node_values(s).finite(),
        forall|x: usize|
            node_values(s).contains(x) <==> exists|i: int| 0 <= i < s.len() && s[i].1 == x,
    decreases s.len(),
{
    if s.len() == 0 {
    } else {
        let sub = s.drop_first();
        lemma_node_values(sub);
        assert forall|x: usize| node_values(s).contains(x) implies exists|i: int|
            0 <= i < s.len() && s[i].1 == x by {
            if x == s[0].1 {
                assert(s[0].1 == x);
            } else {
                let i = choose|i: int| 0 <= i < sub.len() && sub[i].1 == x;
                assert(s[i + 1].1 == x);
            }
        };
        assert forall|x: usize| (exists|i: int| 0 <= i < s.len() && s[i].1 == x)
            implies node_values(s).contains(x) by {
            let i = choose|i: int| 0 <= i < s.len() && s[i].1 == x;
            if i == 0 {
            } else {
                assert(sub[i - 1].1 == x);
            }
        };
    }
}

proof fn lemma_rotated_values(s: Seq<(u32, usize)>, c: u32)
    ensures
        node_values(rotated(s, c)) == node_values(s),
{
    lemma_start_pos_bounds(s, c);
    let p = start_pos(s, c);
    let rot = rotated(s, c);
    lemma_node_values(rot);
    lemma_node_values(s);
    assert forall|x: usize| node_values(rot).contains(x) implies node_values(s).contains(x) by {
        let i = choose|i: int| 0 <= i < rot.len() && rot[i].1 == x;
        if i < s.len() - p {
            assert(s[p + i].1 == x);
        } else {
            assert(s[i - (s.len() - p)].1 == x);
        }
    };
    assert forall|x: usize| node_values(s).contains(x) implies node_values(rot).contains(x) by {
        let i = choose|i: int| 0 <= i < s.len() && s[i].1 == x;
        if i >= p {
            assert(rot[i - p].1 == x);
        } else {
            assert(rot[i + (s.len() - p)].1 == x);
        }
    };
    assert(node_values(rot) =~= node_values(s));
}

proof fn lemma_walk_collect_props(s: Seq<(u32, usize)>, acc: Seq<usize>, r: nat)
    requires
        acc.no_duplicates(),
        acc.len() <= r,
    ensures
        walk_collect(s, acc, r).no_duplicates(),
        acc.len() <= walk_collect(s, acc, r).len() <= r,
        walk_collect(s, acc, r).to_set().subset_of(acc.to_set().union(node_values(s))),
        walk_collect(s, acc, r).len() < r ==> walk_collect(s, acc, r).to_set() == acc.to_set().union(
            node_values(s),
        ),
    decreases s.len(),
{
    if acc.len() >= r || s.len() == 0 {
        if s.len() == 0 {
            assert(acc.to_set().union(node_values(s)) =~= acc.to_set());
        }
    } else {
        let v = s[0].1;
        let sub = s.drop_first();
        if acc.contains(v) {
            lemma_walk_collect_props(sub, acc, r);
            assert(acc.to_set().contains(v));
            assert(acc.to_set().union(node_values(sub)) =~= acc.to_set().union(node_values(s)));
        } else {
            let acc2 = acc.push(v);
            assert(acc2.no_duplicates()) by {
                assert(forall|i: int| 0 <= i < acc.len() ==> acc2[i] == acc[i]);
                assert(acc2[acc.len() as int] == v);
            }
            lemma_walk_collect_props(sub, acc2, r);
            assert forall|x: usize| acc2.contains(x) implies (acc.contains(x) || x == v) by {
                let i = choose|i: int| 0 <= i < acc2.len() && acc2[i] == x;
                if i < acc.len() {
                    assert(acc[i] == x);
                }
            };
            assert forall|x: usize| acc.contains(x) implies acc2.contains(x) by {
                let i = choose|i: int| 0 <= i < acc.len() && acc[i] == x;
                assert(acc2[i] == x);
            };
            assert(acc2[acc.len() as int] == v);
            assert(acc2.to_set() =~= acc.to_set().insert(v));
            assert(acc2.to_set().union(node_values(sub)) =~= acc.to_set().union(node_values(s)));
        }
    }
}

/// Replica-set size: the walk yields distinct indices drawn from the ring,
/// exactly `r` of them when the ring carries at least `r` distinct nodes,
/// and exactly as many as the ring carries otherwise.
pub proof fn lemma_replica_set_size(s: Seq<(u32, usize)>, c: u32, r: nat)
    ensures
        replica_set_spec(s, c, r).no_duplicates(),
        replica_set_spec(s, c, r).to_set().subset_of(node_values(s)),
        replica_set_spec(s, c, r).len() == (if r <= node_values(s).len() {
            r as int
        } else {
            node_values(s).len() as int
        }),
    decreases s.len(),
{
    let rot = rotated(s, c);
    let res = replica_set_spec(s, c, r);
    lemma_rotated_values(s, c);
    lemma_node_values(s);
    lemma_walk_collect_props(rot, Seq::empty(), r);
    assert(Seq::<usize>::empty().to_set().union(node_values(rot)) =~= node_values(s));
    assert(res.to_set().subset_of(node_values(s)));
    if res.len() < r {
        assert(res.to_set() == node_values(s));
        res.unique_seq_to_set();
    } else {
        res.unique_seq_to_set();
        lemma_len_subset(res.to_set(), node_values(s));
    }
}

/// Inserting a binding leaves the ring nonempty.
pub proof fn lemma_ring_insert_nonempty(s: Seq<(u32, usize)>, c: u32, idx: usize)
    ensures
        ring_insert_spec(s, c, idx).len() >= 1,
    decreases s.len(),
{
    if s.len() == 0 {
    } else if s[0].0 < c {
        lemma_ring_insert_nonempty(s.drop_first(), c, idx);
    }
}

/// Every node index a ring within bounds carries is itself within
/// bounds.
pub proof fn lemma_node_values_in_bounds(s: Seq<(u32, usize)>, n: int, x: usize)
    requires
        ring_in_bounds(s, n),
        node_values(s).contains(x),
    ensures
        (x as int) < n,
{
    lemma_node_values(s);
    let i = choose|i: int| 0 <= i < s.len() && s[i].1 == x;
    assert(s[i].1 < n);
}

/// A nonempty ring carries at least one node index.
pub proof fn lemma_ring_nonempty_values(s: Seq<(u32, usize)>)
    requires
        s.len() > 0,
    ensures
        node_values(s).finite(),
        node_values(s).len() >= 1,
{
    lemma_node_values(s);
    assert(node_values(s).contains(s[0].1));
    if node_values(s).len() == 0 {
        node_values(s).lemma_len0_is_empty();
    }
}

/// The ring, sorted by coordinate.
pub struct Ring {
    entries: Vec<(u32, usize)>,
}

impl View for Ring {
    type V = Seq<(u32, usize)>;

    closed spec fn view(&self) -> Seq<(u32, usize)> {
        self.entries@
    }
}

fn vec_set(v: &mut Vec<(u32, usize)>, i: usize, x: (u32, usize))
    requires
        i < old(v)@.len(),
    ensures
        final(v)@ == old(v)@.update(i as int, x),
{
    let r = &mut v[i];
    *r = x;
}

fn contains_idx(v: &Vec<usize>, x: usize) -> (r: bool)
    ensures
        r == v@.contains(x),
{
    let mut i: usize = 0;
    while i < v.len()
        invariant
            0 <= i <= v@.len(),
            forall|j: int| 0 <= j < i ==> v@[j] != x,
        decreases v@.len() - i,
    {
        if v[i] == x {
            assert(v@[i as int] == x);
            return true;
        }
        i += 1;
    }
    false
}

impl Ring {
    pub fn new() -> (r: Ring)
        ensures
            r@ == Seq::<(u32, usize)>::empty(),
    {
        Ring { entries: Vec::new() }
    }

    /// Binds coordinate `c` to node index `idx`, replacing any prior
    /// binding of `c`.
    pub fn insert(&mut self, c: u32, idx: usize)
        requires
            ring_sorted(old(self)@),
        ensures
            final(self)@ == ring_insert_spec(old(self)@, c, idx),
            ring_sorted(final(self)@),
            old(self)@.len() <= final(self)@.len() <= old(self)@.len() + 1,
            forall|x: usize|
                ring_has_value(final(self)@, x) ==> (ring_has_value(old(self)@, x) || x == idx),
    {
        let ghost s = self.entries@;
        let len = self.entries.len();
        let mut pos: usize = 0;
        while pos < len && self.entries[pos].0 < c
            invariant
                len == self.entries@.len(),
                0 <= pos <= len,
                forall|j: int| 0 <= j < pos ==> self.entries@[j].0 < c,
                self.entries@ == s,
            decreases len - pos,
        {
            pos += 1;
        }
        proof {
            lemma_ring_insert_at(s, c, idx, pos as int);
        }
        if pos < len && self.entries[pos].0 == c {
            vec_set(&mut self.entries, pos, (c, idx));
            proof {
                assert(self.entries@ =~= s.update(pos as int, (c, idx)));
                assert forall|i: int, j: int|
                    0 <= i < j < self.entries@.len() implies self.entries@[i].0
                    < self.entries@[j].0 by {
                    assert(self.entries@[i].0 == s[i].0);
                    assert(self.entries@[j].0 == s[j].0);
                }
                assert forall|x: usize| ring_has_value(self.entries@, x) implies (ring_has_value(
                    s,
                    x,
                ) || x == idx) by {
                    let i = choose|i: int| 0 <= i < self.entries@.len() && self.entries@[i].1 == x;
                    if i != pos {
                        assert(s[i].1 == x);
                    }
                }
            }
        } else {
            self.entries.insert(pos, (c, idx));
            proof {
                assert(self.entries@ =~= s.take(pos as int) + seq![(c, idx)] + s.skip(pos as int));
                assert forall|i: int, j: int|
                    0 <= i < j < self.entries@.len() implies self.entries@[i].0
                    < self.entries@[j].0 by {
                    if pos < s.len() {
                        assert(s[pos as int].0 > c);
                    }
                    if i < pos {
                        assert(self.entries@[i] == s[i]);
                    }
                    if i > pos {
                        assert(self.entries@[i] == s[i - 1]);
                    }
                    if j < pos {
                        assert(self.entries@[j] == s[j]);
                    }
                    if j > pos {
                        assert(self.entries@[j] == s[j - 1]);
                    }
                }
                assert forall|x: usize| ring_has_value(self.entries@, x) implies (ring_has_value(
                    s,
                    x,
                ) || x == idx) by {
                    let i = choose|i: int| 0 <= i < self.entries@.len() && self.entries@[i].1 == x;
                    if i < pos {
                        assert(s[i].1 == x);
                    } else if i > pos {
                        assert(s[i - 1].1 == x);
                    }
                }
            }
        }
    }

    /// The replica set for coordinate `c` under replication factor `r`.
    pub fn replica_set(&self, c: u32, r: usize) -> (res: Vec<usize>)
        ensures
            res@ == replica_set_spec(self@, c, r as nat),
            res@.no_duplicates(),
            forall|j: int| 0 <= j < res@.len() ==> ring_has_value(self@, res@[j]),
    {
        let ghost s = self.entries@;
        let ghost rot = rotated(s, c);
        let len = self.entries.len();
        let mut res: Vec<usize> = Vec::new();
        if len == 0 {
            proof {
                assert(rot =~= Seq::<(u32, usize)>::empty());
            }
            return res;
        }
        let start = self.find_start(c);
        let mut k: usize = 0;
        proof {
            lemma_start_pos_bounds(s, c);
            assert(rot.len() == s.len());
            assert(rot.skip(0) =~= rot);
        }
        while k < len && res.len() < r
            invariant
                len == s.len(),
                self.entries@ == s,
                rot == rotated(s, c),
                rot.len() == len,
                start as int == start_pos(s, c),
                start <= len,
                0 <= k <= len,
                res@.len() <= r,
                res@.no_duplicates(),
                forall|j: int| 0 <= j < res@.len() ==> ring_has_value(s, res@[j]),
                walk_collect(rot.skip(k as int), res@, r as nat) == replica_set_spec(
                    s,
                    c,
                    r as nat,
                ),
            decreases len - k,
        {
            let pos = if k < len - start {
                start + k
            } else {
                k - (len - start)
            };
            let e = self.entries[pos];
            let ghost prev = res@;
            proof {
                if k < len - start {
                    assert(rot[k as int] == s.skip(start as int)[k as int]);
                } else {
                    assert(rot[k as int] == s.take(start as int)[k as int - (s.len()
                        - start as int)]);
                }
                assert(e == rot[k as int]);
                assert(rot.skip(k as int)[0] == rot[k as int]);
                assert(rot.skip(k as int).drop_first() =~= rot.skip(k as int + 1));
            }
            if !contains_idx(&res, e.1) {
                res.push(e.1);
                proof {
                    assert(ring_has_value(s, e.1)) by {
                        if k < len - start {
                            assert(s[start as int + k].1 == e.1);
                        } else {
                            assert(s[k as int - (s.len() - start as int)].1 == e.1);
                        }
                    }
                    assert(res@ == prev.push(e.1));
                    assert(res@.no_duplicates()) by {
                        assert(forall|i: int| 0 <= i < prev.len() ==> res@[i] == prev[i]);
                        assert(res@[prev.len() as int] == e.1);
                    }
                    assert(walk_collect(rot.skip(k as int), prev, r as nat) == walk_collect(
                        rot.skip(k as int + 1),
                        res@,
                        r as nat,
                    ));
                }
            } else {
                proof {
                    assert(walk_collect(rot.skip(k as int), prev, r as nat) == walk_collect(
                        rot.skip(k as int + 1),
                        prev,
                        r as nat,
                    ));
                }
            }
            k += 1;
        }
        proof {
            if k == len && res@.len() < r {
                assert(rot.skip(len as int) =~= Seq::<(u32, usize)>::empty());
            }
        }
        res
    }

    fn find_start(&self, c: u32) -> (r: usize)
        ensures
            r as int == start_pos(self@, c),
            r <= self@.len(),
    {
        let len = self.entries.len();
        let mut i: usize = 0;
        while i < len && self.entries[i].0 < c
            invariant
                len == self.entries@.len(),
                0 <= i <= len,
                forall|j: int| 0 <= j < i ==> self.entries@[j].0 < c,
            decreases len - i,
        {
            i += 1;
        }
        proof {
            lemma_start_pos_char(self@, c, i as int);
        }
        i
    }
}

} // verus!
