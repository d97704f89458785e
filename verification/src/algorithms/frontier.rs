//! The frontier of the search: a priority queue of discovered nodes that
//! hands out the entry of least estimated total cost.

use vstd::multiset::Multiset;
use vstd::prelude::*;

verus! {

/// A frontier entry: a node together with what was known of it when it was
/// queued.
#[derive(Clone, Copy, Debug, PartialEq, Eq, Structural)]
pub struct Node {
    /// The node's identifier.
    pub id: usize,
    /// The estimated total cost of a path through the node: `reached` plus
    /// `heuristic`.
    pub cost: usize,
    /// The cost of the path by which the node was reached.
    pub reached: usize,
    /// The estimate of the cost that remains from the node to the goal.
    pub heuristic: usize,
}

/// The order in which entries leave the frontier: by estimated total cost,
/// ties going to the lower identifier, then to the lower cost so far, then
/// to the lower estimate. The order is total, so a non-empty frontier has
/// exactly one least entry.
pub open spec fn precedes(a: Node, b: Node) -> bool {
    if a.cost != b.cost {
        a.cost < b.cost
    } else if a.id != b.id {
        a.id < b.id
    } else if a.reached != b.reached {
        a.reached < b.reached
    } else {
        a.heuristic <= b.heuristic
    }
}

/// `n` is an entry of `m` that precedes all of its entries.
pub open spec fn is_least(m: Multiset<Node>, n: Node) -> bool {
    m.contains(n) && forall|o: Node| m.contains(o) ==> precedes(n, o)
}

/// A multiset has at most one least entry.
pub proof fn lemma_least_unique(m: Multiset<Node>, a: Node, b: Node)
    requires
        is_least(m, a),
        is_least(m, b),
    ensures
        a == b,
{
    assert(precedes(a, b) && precedes(b, a));
}

impl Node {
    /// Whether `self` leaves the frontier no later than `other`.
    pub fn goes_before(&self, other: &Node) -> (b: bool)
        ensures
            b == precedes(*self, *other),
    {
        if self.cost != other.cost {
            self.cost < other.cost
        } else if self.id != other.id {
            self.id < other.id
        } else if self.reached != other.reached {
            self.reached < other.reached
        } else {
            self.heuristic <= other.heuristic
        }
    }
}

/// Every entry but the first follows the entry at half its index: the
/// sequence is a binary heap with the least entry in front.
pub open spec fn heap_ordered(s: Seq<Node>) -> bool {
    forall|i: int| 0 < i < s.len() ==> precedes(s[(i - 1) / 2], #[trigger] s[i])
}

/// The entries under `k` follow the entry above `k`.
pub open spec fn bridged(s: Seq<Node>, k: int) -> bool {
    k > 0 ==> forall|c: int| 0 < c < s.len() && (c - 1) / 2 == k ==> precedes(s[(k - 1) / 2], #[trigger] s[c])
}

/// A heap but for the entry at `k`, which may precede the entry above it.
pub open spec fn ordered_above(s: Seq<Node>, k: int) -> bool {
    &&& forall|i: int| 0 < i < s.len() && i != k ==> precedes(s[(i - 1) / 2], #[trigger] s[i])
    &&& bridged(s, k)
}

/// A heap but for the entry at `k`, which the entries under it may precede.
pub open spec fn ordered_below(s: Seq<Node>, k: int) -> bool {
    &&& forall|i: int| 0 < i < s.len() && (i - 1) / 2 != k ==> precedes(s[(i - 1) / 2], #[trigger] s[i])
    &&& bridged(s, k)
}

/// The sequence with the entries at `i` and `j` exchanged.
pub open spec fn swapped(s: Seq<Node>, i: int, j: int) -> Seq<Node> {
    s.update(i, s[j]).update(j, s[i])
}

/// The first entry of a heap precedes every entry.
pub proof fn lemma_front_is_least(s: Seq<Node>, i: int)
    requires
        heap_ordered(s),
        0 <= i < s.len(),
    ensures
        precedes(s[0], s[i]),
    decreases i,
{
    if i > 0 {
        lemma_front_is_least(s, (i - 1) / 2);
        assert(precedes(s[(i - 1) / 2], s[i]));
    }
}

/// Exchanging two entries keeps the entries.
pub proof fn lemma_swapped_same_entries(s: Seq<Node>, i: int, j: int)
    requires
        0 <= i < s.len(),
        0 <= j < s.len(),
    ensures
        swapped(s, i, j).to_multiset() == s.to_multiset(),
{
    broadcast use vstd::multiset::group_multiset_axioms;

    vstd::seq_lib::to_multiset_update(s, i, s[j]);
    vstd::seq_lib::to_multiset_update(s.update(i, s[j]), j, s[i]);
    vstd::seq_lib::to_multiset_contains(s, s[i]);
    vstd::seq_lib::to_multiset_contains(s, s[j]);
    assert(swapped(s, i, j).to_multiset() =~= s.to_multiset());
}

/// Moving an entry that precedes the one above it one level up leaves a heap
/// but for the entry one level up.
proof fn lemma_lift(s: Seq<Node>, k: int)
    requires
        0 < k < s.len(),
        ordered_above(s, k),
        !precedes(s[(k - 1) / 2], s[k]),
    ensures
        ordered_above(swapped(s, (k - 1) / 2, k), (k - 1) / 2),
{
    let p = (k - 1) / 2;
    let t = swapped(s, p, k);
    assert forall|i: int| 0 < i < t.len() && i != p implies precedes(t[(i - 1) / 2], #[trigger] t[i]) by {
        if i == k {
        } else if (i - 1) / 2 == p {
            assert(precedes(s[p], s[i]));
        } else if (i - 1) / 2 == k {
            assert(precedes(s[p], s[i]));
        } else {
            assert(precedes(s[(i - 1) / 2], s[i]));
        }
    }
    if p > 0 {
        assert(precedes(s[(p - 1) / 2], s[p]));
        assert forall|c: int| 0 < c < t.len() && (c - 1) / 2 == p implies precedes(
            t[(p - 1) / 2],
            #[trigger] t[c],
        ) by {
            if c != k {
                assert(precedes(s[p], s[c]));
            }
        }
    }
}

/// Moving an entry that its lesser child precedes one level down leaves a
/// heap but for the entry one level down.
proof fn lemma_sink(s: Seq<Node>, k: int, c: int)
    requires
        0 <= k < c < s.len(),
        (c - 1) / 2 == k,
        ordered_below(s, k),
        !precedes(s[k], s[c]),
        forall|o: int| 0 < o < s.len() && (o - 1) / 2 == k ==> precedes(s[c], #[trigger] s[o]),
    ensures
        ordered_below(swapped(s, k, c), c),
{
    let t = swapped(s, k, c);
    assert forall|i: int| 0 < i < t.len() && (i - 1) / 2 != c implies precedes(
        t[(i - 1) / 2],
        #[trigger] t[i],
    ) by {
        if i == c {
        } else if (i - 1) / 2 == k {
            assert(precedes(s[c], s[i]));
        } else if i == k {
            assert(precedes(s[(k - 1) / 2], s[c]));
        } else {
            assert(precedes(s[(i - 1) / 2], s[i]));
        }
    }
    assert forall|d: int| 0 < d < t.len() && (d - 1) / 2 == c implies precedes(
        t[(c - 1) / 2],
        #[trigger] t[d],
    ) by {
        assert(precedes(s[c], s[d]));
    }
}

/// Exchanges the entries at `i` and `j`.
fn exchange(items: &mut Vec<Node>, i: usize, j: usize)
    requires
        i < old(items).len(),
        j < old(items).len(),
    ensures
        final(items)@ == swapped(old(items)@, i as int, j as int),
        final(items)@.to_multiset() == old(items)@.to_multiset(),
{
    proof {
        lemma_swapped_same_entries(items@, i as int, j as int);
    }
    let a: Node = items[i];
    let b: Node = items[j];
    items.set(i, b);
    items.set(j, a);
}

/// Lets the entry at `at` rise until the entry above it precedes it.
fn sift_up(items: &mut Vec<Node>, at: usize)
    requires
        at < old(items).len(),
        ordered_above(old(items)@, at as int),
    ensures
        heap_ordered(final(items)@),
        final(items)@.to_multiset() == old(items)@.to_multiset(),
{
    let mut k: usize = at;
    while k > 0
        invariant
            k < items.len(),
            ordered_above(items@, k as int),
            items@.to_multiset() == old(items)@.to_multiset(),
        ensures
            heap_ordered(items@),
        decreases k,
    {
        let above: usize = (k - 1) / 2;
        if items[above].goes_before(&items[k]) {
            break ;
        }
        proof {
            lemma_lift(items@, k as int);
        }
        exchange(items, above, k);
        k = above;
    }
}

/// Lets the entry at the front sink until it precedes the entries under it.
fn sift_down(items: &mut Vec<Node>)
    requires
        ordered_below(old(items)@, 0),
    ensures
        heap_ordered(final(items)@),
        final(items)@.to_multiset() == old(items)@.to_multiset(),
{
    let mut k: usize = 0;
    while k < items.len() / 2
        invariant
            ordered_below(items@, k as int),
            items@.to_multiset() == old(items)@.to_multiset(),
        ensures
            heap_ordered(items@),
        decreases items.len() - k,
    {
        let left: usize = 2 * k + 1;
        let right: usize = left + 1;
        let child: usize = if right < items.len() && items[right].goes_before(&items[left]) {
            right
        } else {
            left
        };
        if items[k].goes_before(&items[child]) {
            proof {
                let s = items@;
                assert forall|i: int| 0 < i < s.len() implies precedes(s[(i - 1) / 2], #[trigger] s[i]) by {
                    if (i - 1) / 2 == k {
                        assert(i == left || i == right);
                    }
                }
            }
            break ;
        }
        proof {
            let s = items@;
            assert forall|o: int| 0 < o < s.len() && (o - 1) / 2 == k implies precedes(
                s[child as int],
                #[trigger] s[o],
            ) by {
                assert(o == left || o == right);
            }
            lemma_sink(s, k as int, child as int);
        }
        exchange(items, k, child);
        k = child;
    }
}

/// A min-priority queue of entries, kept as a binary heap.
pub struct Frontier {
    items: Vec<Node>,
}

impl View for Frontier {
    type V = Multiset<Node>;

    closed spec fn view(&self) -> Multiset<Node> {
        self.items@.to_multiset()
    }
}

impl Frontier {
    /// The entries are kept in heap order. Every frontier made by `new` and
    /// changed by `push` and `pop` alone is well formed.
    pub closed spec fn well_formed(&self) -> bool {
        heap_ordered(self.items@)
    }

    /// An empty frontier.
    pub fn new() -> (f: Frontier)
        ensures
            f.well_formed(),
            f@ == Multiset::<Node>::empty(),
    {
        let f = Frontier { items: Vec::new() };
        proof {
            f.items@.to_multiset_ensures();
            assert(f.items@.to_multiset() =~= Multiset::<Node>::empty());
        }
        f
    }

    /// The number of entries.
    pub fn len(&self) -> (n: usize)
        ensures
            n == self@.len(),
    {
        proof {
            self.items@.to_multiset_ensures();
        }
        self.items.len()
    }

    /// Whether the frontier holds no entry.
    pub fn is_empty(&self) -> (b: bool)
        ensures
            b == (self@.len() == 0),
    {
        self.len() == 0
    }

    /// Adds an entry.
    pub fn push(&mut self, node: Node)
        requires
            old(self).well_formed(),
        ensures
            final(self).well_formed(),
            final(self)@ == old(self)@.insert(node),
            final(self)@.len() == old(self)@.len() + 1,
    {
        proof {
            vstd::seq_lib::to_multiset_build(self.items@, node);
            self.items@.to_multiset_ensures();
            self.items@.push(node).to_multiset_ensures();
        }
        insert(&mut self.items, node);
    }

    /// Takes out the least entry, if there is any.
    pub fn pop(&mut self) -> (r: Option<Node>)
        requires
            old(self).well_formed(),
        ensures
            final(self).well_formed(),
            match r {
                Some(n) => {
                    &&& is_least(old(self)@, n)
                    &&& final(self)@ == old(self)@.remove(n)
                    &&& final(self)@.len() == old(self)@.len() - 1
                },
                None => old(self)@.len() == 0 && final(self)@ == old(self)@,
            },
    {
        proof {
            self.items@.to_multiset_ensures();
        }
        let r = take_front(&mut self.items);
        proof {
            self.items@.to_multiset_ensures();
        }
        r
    }
}

/// Adds an entry to a heap.
fn insert(items: &mut Vec<Node>, node: Node)
    requires
        heap_ordered(old(items)@),
    ensures
        heap_ordered(final(items)@),
        final(items)@.to_multiset() == old(items)@.push(node).to_multiset(),
{
    items.push(node);
    let at: usize = items.len() - 1;
    assert(ordered_above(items@, at as int)) by {
        let s = items@;
        assert forall|i: int| 0 < i < s.len() && i != at implies precedes(
            s[(i - 1) / 2],
            #[trigger] s[i],
        ) by {
            assert(precedes(old(items)@[(i - 1) / 2], old(items)@[i]));
        }
    }
    sift_up(items, at);
}

/// Takes the least entry out of a heap.
fn take_front(items: &mut Vec<Node>) -> (r: Option<Node>)
    requires
        heap_ordered(old(items)@),
    ensures
        heap_ordered(final(items)@),
        match r {
            Some(n) => is_least(old(items)@.to_multiset(), n) && final(items)@.to_multiset() == old(
                items,
            )@.to_multiset().remove(n),
            None => old(items)@.len() == 0 && final(items)@ == old(items)@,
        },
{
    broadcast use vstd::multiset::group_multiset_axioms;

    let last: Node = match items.pop() {
        Some(node) => node,
        None => {
            return None;
        },
    };
    let ghost s = old(items)@;
    proof {
        assert(s =~= items@.push(last));
        vstd::seq_lib::to_multiset_build(items@, last);
        assert forall|o: Node| s.to_multiset().contains(o) implies precedes(s[0], o) by {
            vstd::seq_lib::to_multiset_contains(s, o);
            let j = choose|j: int| 0 <= j < s.len() && s[j] == o;
            lemma_front_is_least(s, j);
        }
        vstd::seq_lib::to_multiset_contains(s, s[0]);
    }
    if items.len() == 0 {
        proof {
            assert(items@.to_multiset() =~= s.to_multiset().remove(last));
        }
        return Some(last);
    }
    let front: Node = items[0];
    proof {
        vstd::seq_lib::to_multiset_update(items@, 0, last);
        vstd::seq_lib::to_multiset_contains(items@, items@[0]);
        assert(items@.update(0, last).to_multiset() =~= s.to_multiset().remove(front));
    }
    items.set(0, last);
    assert(ordered_below(items@, 0)) by {
        let t = items@;
        assert forall|i: int| 0 < i < t.len() && (i - 1) / 2 != 0 implies precedes(
            t[(i - 1) / 2],
            #[trigger] t[i],
        ) by {
            assert(precedes(s[(i - 1) / 2], s[i]));
        }
    }
    sift_down(items);
    Some(front)
}

} // verus!
