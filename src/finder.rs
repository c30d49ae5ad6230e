use vstd::prelude::*;

use crate::image::{is_decoded, record_distance, ImageInfo};

verus! {

/// Two records, named by their positions in the record list, and the
/// distance between their histograms.
#[derive(Debug, Clone, Copy, PartialEq, Eq)]
pub struct Pair {
    pub a: usize,
    pub b: usize,
    pub diff: u64,
}

impl Pair {
    pub fn new(a: usize, b: usize, diff: u64) -> (r: Pair)
        ensures
            r == (Pair { a, b, diff }),
    {
        Pair { a, b, diff }
    }
}

/// A set of records (by position) that belong together.
#[derive(Debug)]
pub struct ImageInfoGroup(Vec<usize>);

impl View for ImageInfoGroup {
    type V = Set<usize>;

    closed spec fn view(&self) -> Set<usize> {
        self.0@.to_set()
    }
}

impl ImageInfoGroup {
    #[verifier::type_invariant]
    closed spec fn members_distinct(&self) -> bool {
        self.0@.no_duplicates()
    }

    /// An empty group.
    pub fn new() -> (r: ImageInfoGroup)
        ensures
            r@ == Set::<usize>::empty(),
    {
        let r = ImageInfoGroup(Vec::new());
        assert(r.0@.to_set() =~= Set::<usize>::empty());
        r
    }

    /// The group of the given records; a record listed twice is a member once.
    pub fn from_vec(values: &[usize]) -> (r: ImageInfoGroup)
        ensures
            r@ == values@.to_set(),
    {
        let mut group = ImageInfoGroup::new();
        let mut i: usize = 0;
        while i < values.len()
            invariant
                i <= values@.len(),
                group@ == values@.take(i as int).to_set(),
            decreases values@.len() - i,
        {
            group.insert(values[i]);
            assert(values@.take(i + 1) == values@.take(i as int).push(values@[i as int]));
            proof {
                values@.take(i as int).lemma_push_to_set_commute(values@[i as int]);
            }
            i = i + 1;
        }
        assert(values@.take(values@.len() as int) == values@);
        group
    }

    /// Whether the record is a member.
    pub fn contains(&self, x: usize) -> (r: bool)
        ensures
            r == self@.contains(x),
    {
        let mut i: usize = 0;
        while i < self.0.len()
            invariant
                i <= self.0@.len(),
                forall|j: int| 0 <= j < i ==> self.0@[j] != x,
            decreases self.0@.len() - i,
        {
            if self.0[i] == x {
                assert(self.0@.to_set().contains(x)) by {
                    assert(self.0@.contains(x));
                }
                return true;
            }
            i = i + 1;
        }
        assert(!self.0@.to_set().contains(x)) by {
            assert(!self.0@.contains(x));
        }
        false
    }

    /// Adds a record; adding a member again changes nothing.
    pub fn insert(&mut self, x: usize)
        ensures
            final(self)@ == old(self)@.insert(x),
    {
        proof {
            use_type_invariant(&*self);
        }
        if !self.contains(x) {
            proof {
                self.0@.lemma_push_to_set_commute(x);
            }
            let mut members = self.0.clone();
            members.push(x);
            assert(members@ == old(self).0@.push(x));
            *self = ImageInfoGroup(members);
        } else {
            assert(old(self)@.insert(x) =~= old(self)@);
        }
    }

    /// Adds every member of `other`.
    pub fn absorb(&mut self, other: &ImageInfoGroup)
        ensures
            final(self)@ == old(self)@.union(other@),
    {
        let mut i: usize = 0;
        while i < other.0.len()
            invariant
                i <= other.0@.len(),
                self@ == old(self)@.union(other.0@.take(i as int).to_set()),
            decreases other.0@.len() - i,
        {
            self.insert(other.0[i]);
            assert(other.0@.take(i + 1) == other.0@.take(i as int).push(other.0@[i as int]));
            proof {
                other.0@.take(i as int).lemma_push_to_set_commute(other.0@[i as int]);
            }
            assert(self@ =~= old(self)@.union(other.0@.take(i + 1).to_set()));
            i = i + 1;
        }
        assert(other.0@.take(other.0@.len() as int) == other.0@);
    }

    /// Number of members.
    pub fn len(&self) -> (r: usize)
        ensures
            r == self@.len(),
    {
        proof {
            use_type_invariant(self);
            self.0@.unique_seq_to_set();
        }
        self.0.len()
    }

    /// The members, in the order they joined.
    pub fn members(&self) -> (r: Vec<usize>)
        ensures
            r@.to_set() == self@,
            r@.no_duplicates(),
    {
        proof {
            use_type_invariant(self);
        }
        self.0.clone()
    }
}

/// The pair links `x` and `y`, in either order.
pub open spec fn joins(e: Pair, x: usize, y: usize) -> bool {
    (e.a == x && e.b == y) || (e.a == y && e.b == x)
}

/// One of the first `n` pairs links `x` and `y`.
pub open spec fn linked(pairs: Seq<Pair>, n: int, x: usize, y: usize) -> bool {
    exists|k: int| 0 <= k < n && #[trigger] joins(pairs[k], x, y)
}

/// `x` is one end of the pair, whose two ends are different records.
pub open spec fn ends(e: Pair, x: usize) -> bool {
    e.a != e.b && (e.a == x || e.b == x)
}

/// `x` is one end of one of the first `n` pairs.
pub open spec fn touched(pairs: Seq<Pair>, n: int, x: usize) -> bool {
    exists|k: int| 0 <= k < n && #[trigger] ends(pairs[k], x)
}

/// Some group of `gs` holds both ends of the pair.
pub open spec fn shares_group(gs: Seq<Set<usize>>, e: Pair) -> bool {
    exists|i: int| 0 <= i < gs.len() && #[trigger] gs[i].contains(e.a) && gs[i].contains(e.b)
}

/// `p` is a walk along the first `n` pairs.
pub open spec fn is_walk(pairs: Seq<Pair>, n: int, p: Seq<usize>) -> bool {
    &&& p.len() >= 1
    &&& forall|i: int| 0 <= i < p.len() - 1 ==> #[trigger] linked(pairs, n, p[i], p[i + 1])
}

/// A walk along the first `n` pairs leads from `x` to `y`.
pub open spec fn connected(pairs: Seq<Pair>, n: int, x: usize, y: usize) -> bool {
    exists|p: Seq<usize>| #[trigger] is_walk(pairs, n, p) && p[0] == x && p.last() == y
}

/// The records that a walk along the pairs leads to from `x`.
pub open spec fn component(pairs: Seq<Pair>, x: usize) -> Set<usize> {
    Set::new(|y: usize| connected(pairs, pairs.len() as int, x, y))
}

/// `gs` groups the records touched by the first `n` pairs: the groups are
/// disjoint and have two or more members; two members of a group are
/// connected; the two ends of every pair of two different records share a
/// group; and every member is an end of such a pair. A pair that joins a
/// record with itself puts it in no group.
pub open spec fn is_grouping_upto(pairs: Seq<Pair>, n: int, gs: Seq<Set<usize>>) -> bool {
    &&& forall|i: int, j: int, x: usize|
        0 <= i < gs.len() && 0 <= j < gs.len() && i != j && #[trigger] gs[i].contains(x)
            ==> !#[trigger] gs[j].contains(x)
    &&& forall|i: int| 0 <= i < gs.len() ==> (#[trigger] gs[i]).finite() && gs[i].len() >= 2
    &&& forall|i: int, x: usize, y: usize|
        0 <= i < gs.len() && #[trigger] gs[i].contains(x) && #[trigger] gs[i].contains(y)
            ==> connected(pairs, n, x, y)
    &&& forall|k: int| 0 <= k < n && pairs[k].a != pairs[k].b ==> #[trigger] shares_group(gs, pairs[k])
    &&& forall|i: int, x: usize| 0 <= i < gs.len() && #[trigger] gs[i].contains(x) ==> touched(pairs, n, x)
}

/// `gs` groups the records that `pairs` touch into the connected
/// components of the graph whose edges are the pairs.
pub open spec fn is_grouping(pairs: Seq<Pair>, gs: Seq<Set<usize>>) -> bool {
    is_grouping_upto(pairs, pairs.len() as int, gs)
}

/// The member sets of a list of groups.
pub open spec fn group_sets(groups: Seq<ImageInfoGroup>) -> Seq<Set<usize>> {
    groups.map_values(|g: ImageInfoGroup| g@)
}

proof fn lemma_linked_grows(pairs: Seq<Pair>, n: int, m: int, x: usize, y: usize)
    requires
        n <= m,
        linked(pairs, n, x, y),
    ensures
        linked(pairs, m, x, y),
{
}

proof fn lemma_connected_grows(pairs: Seq<Pair>, n: int, m: int, x: usize, y: usize)
    requires
        n <= m,
        connected(pairs, n, x, y),
    ensures
        connected(pairs, m, x, y),
{
    let p = choose|p: Seq<usize>| #[trigger] is_walk(pairs, n, p) && p[0] == x && p.last() == y;
    assert forall|i: int| 0 <= i < p.len() - 1 implies #[trigger] linked(pairs, m, p[i], p[i + 1]) by {
        lemma_linked_grows(pairs, n, m, p[i], p[i + 1]);
    }
    assert(is_walk(pairs, m, p));
}

proof fn lemma_connected_self(pairs: Seq<Pair>, n: int, x: usize)
    ensures
        connected(pairs, n, x, x),
{
    let p = seq![x];
    assert(is_walk(pairs, n, p));
}

proof fn lemma_connected_pair(pairs: Seq<Pair>, n: int, k: int)
    requires
        0 <= k < n,
    ensures
        connected(pairs, n, pairs[k].a, pairs[k].b),
        connected(pairs, n, pairs[k].b, pairs[k].a),
{
    let a = pairs[k].a;
    let b = pairs[k].b;
    assert(joins(pairs[k], a, b));
    assert(joins(pairs[k], b, a));
    let p = seq![a, b];
    assert(linked(pairs, n, p[0], p[1]));
    assert(is_walk(pairs, n, p));
    let q = seq![b, a];
    assert(linked(pairs, n, q[0], q[1]));
    assert(is_walk(pairs, n, q));
}

proof fn lemma_connected_transitive(pairs: Seq<Pair>, n: int, x: usize, y: usize, z: usize)
    requires
        connected(pairs, n, x, y),
        connected(pairs, n, y, z),
    ensures
        connected(pairs, n, x, z),
{
    let p = choose|p: Seq<usize>| #[trigger] is_walk(pairs, n, p) && p[0] == x && p.last() == y;
    let q = choose|q: Seq<usize>| #[trigger] is_walk(pairs, n, q) && q[0] == y && q.last() == z;
    let w = p + q.subrange(1, q.len() as int);
    assert forall|i: int| 0 <= i < w.len() - 1 implies #[trigger] linked(pairs, n, w[i], w[i + 1]) by {
        if i < p.len() - 1 {
            assert(linked(pairs, n, p[i], p[i + 1]));
        } else {
            let j = i - (p.len() - 1);
            assert(w[i] == q[j]);
            assert(w[i + 1] == q[j + 1]);
            assert(linked(pairs, n, q[j], q[j + 1]));
        }
    }
    assert(is_walk(pairs, n, w));
    if q.len() == 1 {
        assert(w.last() == p.last());
    } else {
        assert(w.last() == q.last());
    }
}

/// Index of the group holding `x`, if any.
fn find_group(groups: &Vec<ImageInfoGroup>, x: usize) -> (r: Option<usize>)
    ensures
        match r {
            Some(i) => i < groups@.len() && groups@[i as int]@.contains(x),
            None => forall|i: int| 0 <= i < groups@.len() ==> !(#[trigger] groups@[i])@.contains(x),
        },
{
    let mut i: usize = 0;
    while i < groups.len()
        invariant
            i <= groups@.len(),
            forall|j: int| 0 <= j < i ==> !(#[trigger] groups@[j])@.contains(x),
        decreases groups@.len() - i,
    {
        if groups[i].contains(x) {
            return Some(i);
        }
        i = i + 1;
    }
    None
}

/// Puts the pairs' records into groups: two records share a group exactly
/// when a chain of pairs links them. Each pair joins the groups of its two
/// ends, or starts a group of its own when neither end has one yet; a pair
/// of a record with itself is passed over, so no group has a single member.
pub fn get_groups(pairs: &Vec<Pair>) -> (r: Vec<ImageInfoGroup>)
    ensures
        is_grouping(pairs@, group_sets(r@)),
        forall|i: int, j: int, x: usize|
            0 <= i < r@.len() && 0 <= j < r@.len() && i != j && #[trigger] r@[i]@.contains(x)
                ==> !#[trigger] r@[j]@.contains(x),
{
    let mut groups: Vec<ImageInfoGroup> = Vec::new();
    let mut n: usize = 0;
    assert(group_sets(groups@) =~= Seq::<Set<usize>>::empty());
    while n < pairs.len()
        invariant
            n <= pairs@.len(),
            is_grouping_upto(pairs@, n as int, group_sets(groups@)),
        decreases pairs@.len() - n,
    {
        let pair = pairs[n];
        let a = pair.a;
        let b = pair.b;
        let ghost gs = group_sets(groups@);
        if a == b {
            proof {
                lemma_step_self_pair(pairs@, n as int, gs);
            }
            n = n + 1;
            continue;
        }
        let ga = find_group(&groups, a);
        let gb = find_group(&groups, b);
        proof {
            lemma_grouping_extends(pairs@, n as int, gs);
            lemma_connected_pair(pairs@, n + 1, n as int);
        }
        match (ga, gb) {
            (None, None) => {
                let mut members: Vec<usize> = Vec::new();
                members.push(a);
                members.push(b);
                let group = ImageInfoGroup::from_vec(members.as_slice());
                groups.push(group);
                proof {
                    let s = set![a, b];
                    assert(members@.to_set() =~= s) by {
                        assert(members@ == seq![a, b]);
                        assert forall|v: usize| members@.contains(v) <==> s.contains(v) by {
                            if v == a {
                                assert(members@[0] == v);
                            }
                            if v == b {
                                assert(members@[1] == v);
                            }
                        }
                    }
                    assert(group_sets(groups@) =~= gs.push(s));
                    lemma_step_new_group(pairs@, n as int, gs);
                }
            },
            (Some(i), None) => {
                groups[i].insert(b);
                proof {
                    assert(group_sets(groups@) =~= gs.update(i as int, gs[i as int].insert(b)));
                    lemma_step_join(pairs@, n as int, gs, i as int, a, b);
                }
            },
            (None, Some(j)) => {
                groups[j].insert(a);
                proof {
                    assert(group_sets(groups@) =~= gs.update(j as int, gs[j as int].insert(a)));
                    lemma_step_join(pairs@, n as int, gs, j as int, b, a);
                }
            },
            (Some(i), Some(j)) => {
                if i != j {
                    let other = groups.remove(j);
                    let target: usize = if j < i {
                        i - 1
                    } else {
                        i
                    };
                    groups[target].absorb(&other);
                    proof {
                        assert(group_sets(groups@) =~= gs.remove(j as int).update(
                            target as int,
                            gs[i as int].union(gs[j as int]),
                        ));
                        lemma_step_merge(pairs@, n as int, gs, i as int, j as int);
                    }
                } else {
                    proof {
                        assert(group_sets(groups@) == gs);
                    }
                }
            },
        }
        n = n + 1;
    }
    assert forall|i: int, j: int, x: usize|
        0 <= i < groups@.len() && 0 <= j < groups@.len() && i != j && #[trigger] groups@[i]@.contains(x)
            implies !#[trigger] groups@[j]@.contains(x) by {
        let gs = group_sets(groups@);
        assert(gs[i] == groups@[i]@);
        assert(gs[j] == groups@[j]@);
        assert(gs[i].contains(x));
    }
    groups
}

/// Everything the grouping of the first `n` pairs says, but the completeness
/// of pair `n`, holds over `n + 1` pairs.
proof fn lemma_grouping_extends(pairs: Seq<Pair>, n: int, gs: Seq<Set<usize>>)
    requires
        0 <= n < pairs.len(),
        is_grouping_upto(pairs, n, gs),
    ensures
        forall|i: int, x: usize, y: usize|
            0 <= i < gs.len() && #[trigger] gs[i].contains(x) && #[trigger] gs[i].contains(y)
                ==> connected(pairs, n + 1, x, y),
        forall|k: int| 0 <= k < n && pairs[k].a != pairs[k].b ==> #[trigger] shares_group(gs, pairs[k]),
        forall|i: int, x: usize|
            0 <= i < gs.len() && #[trigger] gs[i].contains(x) ==> touched(pairs, n + 1, x),
        pairs[n].a != pairs[n].b ==> touched(pairs, n + 1, pairs[n].a),
        pairs[n].a != pairs[n].b ==> touched(pairs, n + 1, pairs[n].b),
{
    assert forall|i: int, x: usize, y: usize|
        0 <= i < gs.len() && #[trigger] gs[i].contains(x) && #[trigger] gs[i].contains(y) implies connected(
        pairs,
        n + 1,
        x,
        y,
    ) by {
        lemma_connected_grows(pairs, n, n + 1, x, y);
    }
    if pairs[n].a != pairs[n].b {
        assert(ends(pairs[n], pairs[n].a));
        assert(ends(pairs[n], pairs[n].b));
    }
}

/// A pair that joins a record with itself leaves the grouping as it is.
proof fn lemma_step_self_pair(pairs: Seq<Pair>, n: int, gs: Seq<Set<usize>>)
    requires
        0 <= n < pairs.len(),
        pairs[n].a == pairs[n].b,
        is_grouping_upto(pairs, n, gs),
    ensures
        is_grouping_upto(pairs, n + 1, gs),
{
    lemma_grouping_extends(pairs, n, gs);
}

proof fn lemma_step_new_group(pairs: Seq<Pair>, n: int, gs: Seq<Set<usize>>)
    requires
        0 <= n < pairs.len(),
        pairs[n].a != pairs[n].b,
        is_grouping_upto(pairs, n, gs),
        forall|i: int| 0 <= i < gs.len() ==> !(#[trigger] gs[i]).contains(pairs[n].a),
        forall|i: int| 0 <= i < gs.len() ==> !(#[trigger] gs[i]).contains(pairs[n].b),
        connected(pairs, n + 1, pairs[n].a, pairs[n].b),
        connected(pairs, n + 1, pairs[n].b, pairs[n].a),
    ensures
        is_grouping_upto(pairs, n + 1, gs.push(set![pairs[n].a, pairs[n].b])),
{
    let a = pairs[n].a;
    let b = pairs[n].b;
    let s = set![a, b];
    let gs2 = gs.push(s);
    lemma_grouping_extends(pairs, n, gs);
    lemma_connected_self(pairs, n + 1, a);
    lemma_connected_self(pairs, n + 1, b);
    assert(s.len() == 2) by {
        assert(s =~= set![a].insert(b));
    }
    assert forall|i: int| 0 <= i < gs2.len() implies (#[trigger] gs2[i]).finite() && gs2[i].len() >= 2 by {
        if i < gs.len() {
            assert(gs2[i] == gs[i]);
        }
    }
    assert forall|i: int, x: usize, y: usize|
        0 <= i < gs2.len() && #[trigger] gs2[i].contains(x) && #[trigger] gs2[i].contains(
            y,
        ) implies connected(pairs, n + 1, x, y) by {
        if i < gs.len() {
            assert(gs2[i] == gs[i]);
        }
    }
    assert forall|k: int| 0 <= k < n + 1 && pairs[k].a != pairs[k].b implies #[trigger] shares_group(gs2, pairs[k]) by {
        if k < n {
            assert(shares_group(gs, pairs[k]));
            let i = choose|i: int| 0 <= i < gs.len() && #[trigger] gs[i].contains(pairs[k].a) && gs[i].contains(pairs[k].b);
            assert(gs2[i] == gs[i]);
            assert(gs2[i].contains(pairs[k].a) && gs2[i].contains(pairs[k].b));
        } else {
            assert(gs2[gs.len() as int] == s);
            assert(gs2[gs.len() as int].contains(pairs[k].a) && gs2[gs.len() as int].contains(pairs[k].b));
        }
    }
    assert forall|i: int, x: usize| 0 <= i < gs2.len() && #[trigger] gs2[i].contains(x) implies touched(
        pairs,
        n + 1,
        x,
    ) by {
        if i < gs.len() {
            assert(gs2[i] == gs[i]);
        }
    }
    assert forall|i: int, j: int, x: usize|
        0 <= i < gs2.len() && 0 <= j < gs2.len() && i != j && #[trigger] gs2[i].contains(x) implies !#[trigger] gs2[j].contains(
        x,
    ) by {
        if i < gs.len() {
            assert(gs2[i] == gs[i]);
        }
        if j < gs.len() {
            assert(gs2[j] == gs[j]);
        }
    }
}

/// Pair `n` links `x`, a member of group `i`, with `y`, which has no group.
proof fn lemma_step_join(pairs: Seq<Pair>, n: int, gs: Seq<Set<usize>>, i: int, x: usize, y: usize)
    requires
        0 <= n < pairs.len(),
        is_grouping_upto(pairs, n, gs),
        0 <= i < gs.len(),
        gs[i].contains(x),
        forall|j: int| 0 <= j < gs.len() ==> !(#[trigger] gs[j]).contains(y),
        (pairs[n].a == x && pairs[n].b == y) || (pairs[n].a == y && pairs[n].b == x),
        x != y,
        connected(pairs, n + 1, x, y),
        connected(pairs, n + 1, y, x),
    ensures
        is_grouping_upto(pairs, n + 1, gs.update(i, gs[i].insert(y))),
{
    let gs2 = gs.update(i, gs[i].insert(y));
    lemma_grouping_extends(pairs, n, gs);
    lemma_connected_self(pairs, n + 1, y);
    assert forall|j: int| 0 <= j < gs2.len() implies (#[trigger] gs2[j]).finite() && gs2[j].len() >= 2 by {
        if j == i {
            assert(gs[i].len() >= 2);
            assert(gs2[i].len() == gs[i].len() + 1);
        }
    }
    assert forall|j: int, u: usize, v: usize|
        0 <= j < gs2.len() && #[trigger] gs2[j].contains(u) && #[trigger] gs2[j].contains(
            v,
        ) implies connected(pairs, n + 1, u, v) by {
        if j == i {
            if u == y && v != y {
                assert(connected(pairs, n + 1, x, v));
                lemma_connected_transitive(pairs, n + 1, y, x, v);
            } else if v == y && u != y {
                assert(connected(pairs, n + 1, u, x));
                lemma_connected_transitive(pairs, n + 1, u, x, y);
            }
        }
    }
    assert forall|k: int| 0 <= k < n + 1 && pairs[k].a != pairs[k].b implies #[trigger] shares_group(gs2, pairs[k]) by {
        if k < n {
            assert(shares_group(gs, pairs[k]));
            let j = choose|j: int| 0 <= j < gs.len() && #[trigger] gs[j].contains(pairs[k].a) && gs[j].contains(pairs[k].b);
            assert(gs2[j].contains(pairs[k].a));
        } else {
            assert(gs2[i].contains(pairs[k].a));
        }
    }
    assert forall|j: int, u: usize| 0 <= j < gs2.len() && #[trigger] gs2[j].contains(u) implies touched(
        pairs,
        n + 1,
        u,
    ) by {
        if j == i && u == y {
            assert(ends(pairs[n], u));
        }
    }
}

/// Pair `n` links members of two different groups `i` and `j`, which merge.
proof fn lemma_step_merge(pairs: Seq<Pair>, n: int, gs: Seq<Set<usize>>, i: int, j: int)
    requires
        0 <= n < pairs.len(),
        is_grouping_upto(pairs, n, gs),
        0 <= i < gs.len(),
        0 <= j < gs.len(),
        i != j,
        pairs[n].a != pairs[n].b,
        gs[i].contains(pairs[n].a),
        gs[j].contains(pairs[n].b),
        connected(pairs, n + 1, pairs[n].a, pairs[n].b),
        connected(pairs, n + 1, pairs[n].b, pairs[n].a),
    ensures
        is_grouping_upto(
            pairs,
            n + 1,
            gs.remove(j).update(if j < i { i - 1 } else { i }, gs[i].union(gs[j])),
        ),
{
    let a = pairs[n].a;
    let b = pairs[n].b;
    let t = if j < i {
        i - 1
    } else {
        i
    };
    let merged = gs[i].union(gs[j]);
    let gs2 = gs.remove(j).update(t, merged);
    lemma_grouping_extends(pairs, n, gs);
    // Where each group of `gs2` came from.
    let src = |q: int| if q == t { i } else if q < j { q } else { q + 1 };
    assert forall|q: int| 0 <= q < gs2.len() && q != t implies #[trigger] gs2[q] == gs[src(q)] by {}
    assert(gs2[t] == merged);
    assert(merged.finite() && merged.len() >= 2) by {
        vstd::set_lib::lemma_len_union(gs[i], gs[j]);
        assert(gs[i].subset_of(merged));
        vstd::set_lib::lemma_len_subset(gs[i], merged);
    }
    assert forall|q: int| 0 <= q < gs2.len() implies (#[trigger] gs2[q]).finite() && gs2[q].len() >= 2 by {
        if q != t {
            assert(gs2[q] == gs[src(q)]);
        }
    }
    assert forall|p: int, q: int, x: usize|
        0 <= p < gs2.len() && 0 <= q < gs2.len() && p != q && #[trigger] gs2[p].contains(x) implies !#[trigger] gs2[q].contains(
        x,
    ) by {
        if gs2[q].contains(x) {
            if p == t {
                assert(gs2[q] == gs[src(q)]);
                assert(src(q) != i && src(q) != j);
                if gs[i].contains(x) {
                    assert(!gs[src(q)].contains(x));
                } else {
                    assert(gs[j].contains(x));
                    assert(!gs[src(q)].contains(x));
                }
            } else if q == t {
                assert(gs2[p] == gs[src(p)]);
                assert(src(p) != i && src(p) != j);
                if gs[i].contains(x) {
                    assert(!gs[src(p)].contains(x));
                } else {
                    assert(!gs[src(p)].contains(x));
                }
            } else {
                assert(gs2[p] == gs[src(p)]);
                assert(gs2[q] == gs[src(q)]);
                assert(src(p) != src(q));
                assert(!gs[src(q)].contains(x));
            }
        }
    }
    assert forall|q: int, u: usize, v: usize|
        0 <= q < gs2.len() && #[trigger] gs2[q].contains(u) && #[trigger] gs2[q].contains(
            v,
        ) implies connected(pairs, n + 1, u, v) by {
        if q == t {
            if gs[i].contains(u) && gs[j].contains(v) {
                assert(connected(pairs, n + 1, u, a));
                assert(connected(pairs, n + 1, b, v));
                lemma_connected_transitive(pairs, n + 1, u, a, b);
                lemma_connected_transitive(pairs, n + 1, u, b, v);
            } else if gs[j].contains(u) && gs[i].contains(v) {
                assert(connected(pairs, n + 1, u, b));
                assert(connected(pairs, n + 1, a, v));
                lemma_connected_transitive(pairs, n + 1, u, b, a);
                lemma_connected_transitive(pairs, n + 1, u, a, v);
            } else if gs[i].contains(u) {
                assert(gs[i].contains(v));
            } else {
                assert(gs[j].contains(u) && gs[j].contains(v));
            }
        } else {
            assert(gs2[q] == gs[src(q)]);
        }
    }
    assert forall|k: int| 0 <= k < n + 1 && pairs[k].a != pairs[k].b implies #[trigger] shares_group(gs2, pairs[k]) by {
        if k < n {
            assert(shares_group(gs, pairs[k]));
            let p = choose|p: int| 0 <= p < gs.len() && #[trigger] gs[p].contains(pairs[k].a) && gs[p].contains(pairs[k].b);
            if p == i || p == j {
                assert(gs2[t].contains(pairs[k].a) && gs2[t].contains(pairs[k].b));
            } else {
                let q = if p < j { p } else { p - 1 };
                assert(q != t);
                assert(src(q) == p);
                assert(gs2[q] == gs[p]);
                assert(gs2[q].contains(pairs[k].a) && gs2[q].contains(pairs[k].b));
            }
        } else {
            assert(gs2[t].contains(pairs[k].a) && gs2[t].contains(pairs[k].b));
        }
    }
    assert forall|q: int, u: usize| 0 <= q < gs2.len() && #[trigger] gs2[q].contains(u) implies touched(
        pairs,
        n + 1,
        u,
    ) by {
        if q == t {
            if gs[i].contains(u) {
            } else {
                assert(gs[j].contains(u));
            }
        } else {
            assert(gs2[q] == gs[src(q)]);
        }
    }
}


proof fn lemma_walk_stays_in_group(pairs: Seq<Pair>, gs: Seq<Set<usize>>, i: int, p: Seq<usize>, j: int)
    requires
        is_grouping(pairs, gs),
        0 <= i < gs.len(),
        is_walk(pairs, pairs.len() as int, p),
        gs[i].contains(p[0]),
        0 <= j < p.len(),
    ensures
        gs[i].contains(p[j]),
    decreases j,
{
    if j > 0 {
        lemma_walk_stays_in_group(pairs, gs, i, p, j - 1);
        let h = j - 1;
        assert(linked(pairs, pairs.len() as int, p[h], p[h + 1]));
        assert(p[h + 1] == p[j]);
        if p[h] != p[h + 1] {
            let k = choose|k: int|
                0 <= k < pairs.len() && #[trigger] joins(pairs[k], p[h], p[h + 1]);
            assert(shares_group(gs, pairs[k]));
            let q = choose|q: int|
                0 <= q < gs.len() && #[trigger] gs[q].contains(pairs[k].a) && gs[q].contains(
                    pairs[k].b,
                );
            assert(gs[q].contains(p[j - 1]));
            assert(q == i);
        }
    }
}

/// Each group is the whole connected component of each of its members.
pub proof fn lemma_group_is_component(pairs: Seq<Pair>, gs: Seq<Set<usize>>, i: int, x: usize)
    requires
        is_grouping(pairs, gs),
        0 <= i < gs.len(),
        gs[i].contains(x),
    ensures
        gs[i] == component(pairs, x),
{
    let n = pairs.len() as int;
    assert forall|y: usize| gs[i].contains(y) <==> #[trigger] component(pairs, x).contains(y) by {
        if component(pairs, x).contains(y) {
            let p = choose|p: Seq<usize>| #[trigger] is_walk(pairs, n, p) && p[0] == x && p.last() == y;
            lemma_walk_stays_in_group(pairs, gs, i, p, p.len() - 1);
        }
    }
    assert(gs[i] =~= component(pairs, x));
}

proof fn lemma_same_links(p1: Seq<Pair>, p2: Seq<Pair>)
    requires
        p1.to_multiset() == p2.to_multiset(),
    ensures
        forall|x: usize, y: usize|
            #[trigger] linked(p1, p1.len() as int, x, y) ==> linked(p2, p2.len() as int, x, y),
        forall|x: usize| #[trigger] touched(p1, p1.len() as int, x) ==> touched(p2, p2.len() as int, x),
{
    p1.to_multiset_ensures();
    p2.to_multiset_ensures();
    assert forall|x: usize, y: usize| #[trigger] linked(p1, p1.len() as int, x, y) implies linked(
        p2,
        p2.len() as int,
        x,
        y,
    ) by {
        let k = choose|k: int| 0 <= k < p1.len() && #[trigger] joins(p1[k], x, y);
        assert(p1.contains(p1[k]));
        assert(p1.to_multiset().count(p1[k]) > 0);
        assert(p2.contains(p1[k]));
        let m = choose|m: int| 0 <= m < p2.len() && p2[m] == p1[k];
        assert(joins(p2[m], x, y));
    }
    assert forall|x: usize| #[trigger] touched(p1, p1.len() as int, x) implies touched(
        p2,
        p2.len() as int,
        x,
    ) by {
        let k = choose|k: int| 0 <= k < p1.len() && #[trigger] ends(p1[k], x);
        assert(p1.contains(p1[k]));
        assert(p1.to_multiset().count(p1[k]) > 0);
        assert(p2.contains(p1[k]));
        let m = choose|m: int| 0 <= m < p2.len() && p2[m] == p1[k];
        assert(ends(p2[m], x));
    }
}

proof fn lemma_same_components(p1: Seq<Pair>, p2: Seq<Pair>, x: usize)
    requires
        p1.to_multiset() == p2.to_multiset(),
    ensures
        component(p1, x) == component(p2, x),
{
    lemma_same_links(p1, p2);
    lemma_same_links(p2, p1);
    let n1 = p1.len() as int;
    let n2 = p2.len() as int;
    assert forall|p: Seq<usize>| #[trigger] is_walk(p1, n1, p) <==> is_walk(p2, n2, p) by {
        if is_walk(p1, n1, p) {
            assert forall|i: int| 0 <= i < p.len() - 1 implies #[trigger] linked(p2, n2, p[i], p[i + 1]) by {
                assert(linked(p1, n1, p[i], p[i + 1]));
            }
        }
        if is_walk(p2, n2, p) {
            assert forall|i: int| 0 <= i < p.len() - 1 implies #[trigger] linked(p1, n1, p[i], p[i + 1]) by {
                assert(linked(p2, n2, p[i], p[i + 1]));
            }
        }
    }
    assert forall|y: usize| #[trigger] component(p1, x).contains(y) <==> component(p2, x).contains(y) by {
        if connected(p1, n1, x, y) {
            let p = choose|p: Seq<usize>| #[trigger] is_walk(p1, n1, p) && p[0] == x && p.last() == y;
            assert(is_walk(p2, n2, p));
        }
        if connected(p2, n2, x, y) {
            let p = choose|p: Seq<usize>| #[trigger] is_walk(p2, n2, p) && p[0] == x && p.last() == y;
            assert(is_walk(p1, n1, p));
        }
    }
    assert(component(p1, x) =~= component(p2, x));
}

proof fn lemma_groups_found_in(p1: Seq<Pair>, p2: Seq<Pair>, g1: Seq<Set<usize>>, g2: Seq<Set<usize>>)
    requires
        p1.to_multiset() == p2.to_multiset(),
        is_grouping(p1, g1),
        is_grouping(p2, g2),
    ensures
        g1.to_set().subset_of(g2.to_set()),
{
    lemma_same_links(p1, p2);
    assert forall|g: Set<usize>| #[trigger] g1.to_set().contains(g) implies g2.to_set().contains(g) by {
        let i = choose|i: int| 0 <= i < g1.len() && g1[i] == g;
        assert(g.finite() && g.len() >= 2);
        let x = g.choose();
        assert(g.contains(x));
        assert(touched(p1, p1.len() as int, x));
        assert(touched(p2, p2.len() as int, x));
        let k = choose|k: int| 0 <= k < p2.len() && #[trigger] ends(p2[k], x);
        assert(shares_group(g2, p2[k]));
        let j = choose|j: int|
            0 <= j < g2.len() && #[trigger] g2[j].contains(p2[k].a) && g2[j].contains(p2[k].b);
        assert(g2[j].contains(x));
        lemma_group_is_component(p1, g1, i, x);
        lemma_group_is_component(p2, g2, j, x);
        lemma_same_components(p1, p2, x);
        assert(g2[j] == g);
        assert(g2.contains(g2[j]));
    }
}

/// The groups do not depend on the order of the pairs: any reordering of
/// the pairs is grouped into the same set of groups.
pub proof fn lemma_grouping_ignores_pair_order(
    p1: Seq<Pair>,
    p2: Seq<Pair>,
    g1: Seq<Set<usize>>,
    g2: Seq<Set<usize>>,
)
    requires
        p1.to_multiset() == p2.to_multiset(),
        is_grouping(p1, g1),
        is_grouping(p2, g2),
    ensures
        g1.to_set() == g2.to_set(),
{
    lemma_groups_found_in(p1, p2, g1, g2);
    lemma_groups_found_in(p2, p1, g2, g1);
    assert(g1.to_set() =~= g2.to_set());
}

/// No record belongs to two groups.
pub proof fn lemma_groups_disjoint(pairs: Seq<Pair>, gs: Seq<Set<usize>>, i: int, j: int)
    requires
        is_grouping(pairs, gs),
        0 <= i < gs.len(),
        0 <= j < gs.len(),
        i != j,
    ensures
        gs[i].disjoint(gs[j]),
{
    assert forall|x: usize| gs[i].contains(x) implies !gs[j].contains(x) by {}
}

/// `e` compares two distinct decoded records, the first listed before the
/// second, and holds their distance.
pub open spec fn is_record_pair(images: Seq<ImageInfo>, e: Pair) -> bool {
    &&& e.a < e.b < images.len()
    &&& is_decoded(images[e.a as int])
    &&& is_decoded(images[e.b as int])
    &&& e.diff == record_distance(images[e.a as int], images[e.b as int])
}

/// The pair `e` comes before the position `(a, b)` in the order by first
/// record, then by second.
pub open spec fn comes_before(e: Pair, a: int, b: int) -> bool {
    e.a < a || (e.a == a && e.b < b)
}

/// `r` lists one pair for each two decoded records, ordered by first
/// record, then by second.
pub open spec fn is_comparison(images: Seq<ImageInfo>, r: Seq<Pair>) -> bool {
    &&& forall|k: int| 0 <= k < r.len() ==> is_record_pair(images, #[trigger] r[k])
    &&& forall|a: int, b: int|
        0 <= a < b < images.len() && is_decoded(#[trigger] images[a]) && is_decoded(
            #[trigger] images[b],
        ) ==> exists|k: int| 0 <= k < r.len() && r[k].a == a && #[trigger] r[k].b == b
    &&& forall|k1: int, k2: int|
        0 <= k1 < k2 < r.len() ==> comes_before(#[trigger] r[k1], (#[trigger] r[k2]).a as int, r[k2].b as int)
}

/// Number of decoded records among the first `n`.
pub open spec fn decoded_count(images: Seq<ImageInfo>, n: int) -> int
    decreases n,
{
    if n <= 0 {
        0
    } else {
        decoded_count(images, n - 1) + if is_decoded(images[n - 1]) {
            1int
        } else {
            0int
        }
    }
}

proof fn lemma_decoded_count_nonnegative(images: Seq<ImageInfo>, n: int)
    ensures
        0 <= decoded_count(images, n),
    decreases n,
{
    if n > 0 {
        lemma_decoded_count_nonnegative(images, n - 1);
    }
}

proof fn lemma_decoded_count_grows(images: Seq<ImageInfo>, m: int, n: int)
    requires
        0 <= m <= n,
    ensures
        0 <= decoded_count(images, m) <= decoded_count(images, n),
    decreases n - m,
{
    if m < n {
        lemma_decoded_count_grows(images, m, n - 1);
    } else {
        lemma_decoded_count_nonnegative(images, m);
    }
}

/// Twice the number of pairs of decoded records that have their first
/// record among the first `i`: all pairs but those of the decoded records
/// from `i` on.
spec fn twice_pairs_before(images: Seq<ImageInfo>, i: int) -> int {
    let d = decoded_count(images, images.len() as int);
    let rest = d - decoded_count(images, i);
    d * (d - 1) - rest * (rest - 1)
}

/// Compares every two decoded records: one pair per two records, with the
/// distance between their histograms. Records that were not decoded are
/// left out.
pub fn compare_images(images: &[ImageInfo]) -> (r: Vec<Pair>)
    ensures
        is_comparison(images@, r@),
        2 * r@.len() == decoded_count(images@, images@.len() as int) * (decoded_count(
            images@,
            images@.len() as int,
        ) - 1),
{
    let n: usize = images.len();
    let mut pairs: Vec<Pair> = Vec::new();
    let mut i: usize = 0;
    while i < n
        invariant
            n == images@.len(),
            i <= n,
            2 * pairs@.len() == twice_pairs_before(images@, i as int),
            forall|k: int| 0 <= k < pairs@.len() ==> is_record_pair(images@, #[trigger] pairs@[k]),
            forall|k: int| 0 <= k < pairs@.len() ==> comes_before(#[trigger] pairs@[k], i as int, 0),
            forall|a: int, b: int|
                0 <= a < b < n && a < i && is_decoded(#[trigger] images@[a]) && is_decoded(
                    #[trigger] images@[b],
                ) ==> exists|k: int| 0 <= k < pairs@.len() && pairs@[k].a == a && #[trigger] pairs@[k].b == b,
            forall|k1: int, k2: int|
                0 <= k1 < k2 < pairs@.len() ==> comes_before(
                    #[trigger] pairs@[k1],
                    (#[trigger] pairs@[k2]).a as int,
                    pairs@[k2].b as int,
                ),
        decreases n - i,
    {
        proof {
            lemma_decoded_count_grows(images@, i + 1, n as int);
        }
        let mut j: usize = i + 1;
        while j < n
            invariant
                n == images@.len(),
                i < n,
                i + 1 <= j <= n,
                2 * pairs@.len() == twice_pairs_before(images@, i as int) + if is_decoded(
                    images@[i as int],
                ) {
                    2 * (decoded_count(images@, j as int) - decoded_count(images@, i + 1))
                } else {
                    0
                },
                forall|k: int| 0 <= k < pairs@.len() ==> is_record_pair(images@, #[trigger] pairs@[k]),
                forall|k: int| 0 <= k < pairs@.len() ==> comes_before(#[trigger] pairs@[k], i as int, j as int),
                forall|a: int, b: int|
                    0 <= a < b < n && (a < i || (a == i && b < j)) && is_decoded(#[trigger] images@[a])
                        && is_decoded(#[trigger] images@[b]) ==> exists|k: int|
                        0 <= k < pairs@.len() && pairs@[k].a == a && #[trigger] pairs@[k].b == b,
                forall|k1: int, k2: int|
                    0 <= k1 < k2 < pairs@.len() ==> comes_before(
                        #[trigger] pairs@[k1],
                        (#[trigger] pairs@[k2]).a as int,
                        pairs@[k2].b as int,
                    ),
            decreases n - j,
        {
            if images[i].is_decoded() && images[j].is_decoded() {
                let d = images[i].diff(&images[j]);
                let ghost before = pairs@;
                pairs.push(Pair::new(i, j, d));
                assert(pairs@[before.len() as int].a == i && pairs@[before.len() as int].b == j);
                assert forall|a: int, b: int|
                    0 <= a < b < n && (a < i || (a == i && b < j + 1)) && is_decoded(
                        #[trigger] images@[a],
                    ) && is_decoded(#[trigger] images@[b]) implies exists|k: int|
                    0 <= k < pairs@.len() && pairs@[k].a == a && #[trigger] pairs@[k].b == b by {
                    if a < i || b < j {
                        let k = choose|k: int| 0 <= k < before.len() && before[k].a == a && #[trigger] before[k].b == b;
                        assert(pairs@[k] == before[k]);
                    } else {
                        assert(pairs@[before.len() as int].b == b);
                    }
                }
                assert forall|k1: int, k2: int| 0 <= k1 < k2 < pairs@.len() implies comes_before(
                    #[trigger] pairs@[k1],
                    (#[trigger] pairs@[k2]).a as int,
                    pairs@[k2].b as int,
                ) by {
                    if k2 < before.len() {
                        assert(pairs@[k1] == before[k1] && pairs@[k2] == before[k2]);
                    } else {
                        assert(pairs@[k1] == before[k1]);
                    }
                }
            }
            j = j + 1;
        }
        proof {
            let d = decoded_count(images@, n as int);
            let m = d - decoded_count(images@, i as int);
            assert(decoded_count(images@, i + 1) == decoded_count(images@, i as int) + if is_decoded(
                images@[i as int],
            ) {
                1int
            } else {
                0int
            });
            if is_decoded(images@[i as int]) {
                assert(m * (m - 1) - 2 * (m - 1) == (m - 1) * (m - 1 - 1)) by (nonlinear_arith);
            }
        }
        i = i + 1;
    }
    proof {
        let d = decoded_count(images@, n as int);
        assert((d - d) * (d - d - 1) == 0) by (nonlinear_arith);
    }
    pairs
}

/// The pairs whose distance is strictly below the threshold.
pub open spec fn is_close(threshold: u64) -> spec_fn(Pair) -> bool {
    |e: Pair| e.diff < threshold
}

/// Keeps the pairs whose distance is strictly below `threshold`, in order.
pub fn close_pairs(pairs: &Vec<Pair>, threshold: u64) -> (r: Vec<Pair>)
    ensures
        r@ == pairs@.filter(is_close(threshold)),
{
    let mut kept: Vec<Pair> = Vec::new();
    let mut i: usize = 0;
    while i < pairs.len()
        invariant
            i <= pairs@.len(),
            kept@ == pairs@.take(i as int).filter(is_close(threshold)),
        decreases pairs@.len() - i,
    {
        let e = pairs[i];
        proof {
            assert(pairs@.take(i + 1) == pairs@.take(i as int).push(e));
            pairs@.take(i as int).lemma_filter_push(e, is_close(threshold));
        }
        if e.diff < threshold {
            kept.push(e);
        }
        i = i + 1;
    }
    assert(pairs@.take(pairs@.len() as int) == pairs@);
    kept
}

/// Groups the decoded records whose histograms are closer than
/// `threshold`: two records share a group exactly when a chain of records,
/// each closer than `threshold` to the next, links them. Records that were
/// not decoded are in no group.
pub fn group(images: &[ImageInfo], threshold: u64) -> (r: Vec<ImageInfoGroup>)
    ensures
        exists|all: Seq<Pair>|
            is_comparison(images@, all) && is_grouping(
                #[trigger] all.filter(is_close(threshold)),
                group_sets(r@),
            ),
        forall|i: int, j: int, x: usize|
            0 <= i < r@.len() && 0 <= j < r@.len() && i != j && #[trigger] r@[i]@.contains(x)
                ==> !#[trigger] r@[j]@.contains(x),
        forall|i: int, x: usize|
            0 <= i < r@.len() && #[trigger] r@[i]@.contains(x) ==> x < images@.len() && is_decoded(
                images@[x as int],
            ),
{
    let all = compare_images(images);
    let close = close_pairs(&all, threshold);
    let groups = get_groups(&close);
    proof {
        all@.filter_lemma(is_close(threshold));
        let gs = group_sets(groups@);
        assert forall|i: int, x: usize|
            0 <= i < groups@.len() && #[trigger] groups@[i]@.contains(x) implies x < images@.len()
            && is_decoded(images@[x as int]) by {
            assert(gs[i] == groups@[i]@);
            assert(touched(close@, close@.len() as int, x));
            let k = choose|k: int| 0 <= k < close@.len() && #[trigger] ends(close@[k], x);
            assert(close@.contains(close@[k]));
            all@.lemma_filter_contains_rev(is_close(threshold), close@[k]);
            let m = choose|m: int| 0 <= m < all@.len() && all@[m] == close@[k];
            assert(is_record_pair(images@, all@[m]));
        }
        assert(is_comparison(images@, all@) && is_grouping(all@.filter(is_close(threshold)), gs));
    }
    groups
}

/// What `str::to_lowercase` makes of a string.
pub uninterp spec fn lower_of(s: Seq<char>) -> Seq<char>;

/// Relies on `str::to_lowercase`: the lowercase form of a string, which
/// depends on its characters alone.
#[verifier::external_body]
fn lowercase(s: &str) -> (r: String)
    ensures
        r@ == lower_of(s@),
{
    s.to_lowercase()
}

/// `s` ends with `suffix`.
pub open spec fn ends_with(s: Seq<char>, suffix: Seq<char>) -> bool {
    suffix.len() <= s.len() && s.subrange(s.len() - suffix.len(), s.len() as int) == suffix
}

/// The name ends with one of the image extensions, written in lowercase.
pub open spec fn has_image_extension(name: Seq<char>) -> bool {
    ||| ends_with(name, seq!['.', 'j', 'p', 'g'])
    ||| ends_with(name, seq!['.', 'j', 'p', 'e', 'g'])
    ||| ends_with(name, seq!['.', 'p', 'n', 'g'])
    ||| ends_with(name, seq!['.', 'b', 'm', 'p'])
    ||| ends_with(name, seq!['.', 'g', 'i', 'f'])
}

fn str_ends_with(s: &str, suffix: &str) -> (r: bool)
    ensures
        r == ends_with(s@, suffix@),
{
    let n: usize = s.unicode_len();
    let m: usize = suffix.unicode_len();
    if m > n {
        return false;
    }
    let start: usize = n - m;
    let mut i: usize = 0;
    while i < m
        invariant
            n == s@.len(),
            m == suffix@.len(),
            m <= n,
            start == n - m,
            i <= m,
            forall|k: int| 0 <= k < i ==> s@[start + k] == suffix@[k],
        decreases m - i,
    {
        if s.get_char(start + i) != suffix.get_char(i) {
            assert(s@.subrange(start as int, n as int)[i as int] != suffix@[i as int]);
            return false;
        }
        i = i + 1;
    }
    assert(s@.subrange(start as int, n as int) =~= suffix@);
    true
}

/// Whether a name written in lowercase ends with an image extension.
pub fn is_image_extension(lowered: &str) -> (r: bool)
    ensures
        r == has_image_extension(lowered@),
{
    proof {
        reveal_strlit(".jpg");
        reveal_strlit(".jpeg");
        reveal_strlit(".png");
        reveal_strlit(".bmp");
        reveal_strlit(".gif");
        assert(".jpg"@ =~= seq!['.', 'j', 'p', 'g']);
        assert(".jpeg"@ =~= seq!['.', 'j', 'p', 'e', 'g']);
        assert(".png"@ =~= seq!['.', 'p', 'n', 'g']);
        assert(".bmp"@ =~= seq!['.', 'b', 'm', 'p']);
        assert(".gif"@ =~= seq!['.', 'g', 'i', 'f']);
    }
    str_ends_with(lowered, ".jpg") || str_ends_with(lowered, ".jpeg") || str_ends_with(
        lowered,
        ".png",
    ) || str_ends_with(lowered, ".bmp") || str_ends_with(lowered, ".gif")
}

/// Whether a path names an image file: its lowercase form ends with one of
/// the image extensions.
pub fn is_image_path(path: &str) -> (r: bool)
    ensures
        r == has_image_extension(lower_of(path@)),
{
    let lowered = lowercase(path);
    is_image_extension(lowered.as_str())
}
} // verus!
