//! What was found on disk, and the order in which a folder is gone through.

use std::path::PathBuf;
use vstd::prelude::*;
use vstd::slice::slice_to_vec;

verus! {

/// What was found at a path that is to be archived.
pub struct Node<T> {
    pub path: PathBuf,
    /// The last component of the path, as the bytes the system encodes it with,
    /// unless the path has none.
    pub name: Option<Vec<u8>>,
    pub found: Found<T>,
}

/// What is at a path.
pub enum Found<T> {
    /// Nothing that can be looked at, and why.
    Inaccessible { error: String },
    /// A symbolic link.
    Symlink,
    /// A folder, and what it lists, in any order.
    Directory { payload: T, children: Vec<Node<T>> },
    /// Anything else.
    File { payload: T },
}

/// `a` comes before `b` in the order of their bytes: at the first place where
/// they differ it has the smaller byte, or it ends there.
pub open spec fn bytes_before(a: Seq<u8>, b: Seq<u8>) -> bool
    decreases a.len(),
{
    if b.len() == 0 {
        false
    } else if a.len() == 0 {
        true
    } else if a[0] != b[0] {
        a[0] < b[0]
    } else {
        bytes_before(a.drop_first(), b.drop_first())
    }
}

/// The order of names, then of positions for equal names.
pub open spec fn key_before(a: (Seq<u8>, int), b: (Seq<u8>, int)) -> bool {
    bytes_before(a.0, b.0) || (a.0 == b.0 && a.1 < b.1)
}

/// The bytes that a node is sorted by.
pub open spec fn name_bytes<T>(node: Node<T>) -> Seq<u8> {
    match node.name {
        Some(name) => name@,
        None => Seq::empty(),
    }
}

/// The key of the node at position `i`.
pub open spec fn key_at<T>(nodes: Seq<Node<T>>, i: int) -> (Seq<u8>, int) {
    (name_bytes(nodes[i]), i)
}

/// The positions in `order` are in the order of names.
pub open spec fn is_sorted<T>(nodes: Seq<Node<T>>, order: Seq<int>) -> bool {
    forall|i: int, j: int|
        0 <= i < j < order.len() ==> key_before(
            #[trigger] key_at(nodes, order[i]),
            #[trigger] key_at(nodes, order[j]),
        )
}

/// `order` lists every position of `nodes` once, in the order of names.
pub open spec fn is_name_order<T>(nodes: Seq<Node<T>>, order: Seq<int>) -> bool {
    &&& is_sorted(nodes, order)
    &&& forall|i: int| #[trigger] order.contains(i) <==> 0 <= i < nodes.len()
}

/// The positions of `nodes` in the order of names.
pub open spec fn name_order<T>(nodes: Seq<Node<T>>) -> Seq<int> {
    choose|order: Seq<int>| is_name_order(nodes, order)
}

proof fn lemma_bytes_before_is_asymmetric(a: Seq<u8>, b: Seq<u8>)
    requires
        bytes_before(a, b),
    ensures
        !bytes_before(b, a),
        a != b,
    decreases a.len(),
{
    if a.len() > 0 && b.len() > 0 && a[0] == b[0] {
        lemma_bytes_before_is_asymmetric(a.drop_first(), b.drop_first());
    }
}

proof fn lemma_key_before_is_asymmetric(a: (Seq<u8>, int), b: (Seq<u8>, int))
    requires
        key_before(a, b),
    ensures
        !key_before(b, a),
        a != b,
{
    if bytes_before(a.0, b.0) {
        lemma_bytes_before_is_asymmetric(a.0, b.0);
    } else if bytes_before(b.0, a.0) {
        lemma_bytes_before_is_asymmetric(b.0, a.0);
    }
}

/// Only one list of given positions is in the order of names.
proof fn lemma_order_is_unique<T>(nodes: Seq<Node<T>>, p: Seq<int>, q: Seq<int>)
    requires
        is_sorted(nodes, p),
        is_sorted(nodes, q),
        forall|i: int| #[trigger] p.contains(i) <==> q.contains(i),
    ensures
        p == q,
    decreases p.len(),
{
    if p.len() == 0 {
        if q.len() > 0 {
            assert(q.contains(q[0]));
            assert(p.contains(q[0]));
        }
        assert(p =~= q);
    } else {
        assert(p.contains(p[0]));
        assert(q.contains(p[0]));
        let m = q.index_of(p[0]);
        assert(q.contains(q[0]));
        assert(p.contains(q[0]));
        let t = p.index_of(q[0]);
        if p[0] != q[0] {
            assert(key_before(key_at(nodes, q[0]), key_at(nodes, q[m])));
            assert(key_before(key_at(nodes, p[0]), key_at(nodes, p[t])));
            lemma_key_before_is_asymmetric(key_at(nodes, p[0]), key_at(nodes, q[0]));
        }
        let p1 = p.drop_first();
        let q1 = q.drop_first();
        lemma_without_first(nodes, p);
        lemma_without_first(nodes, q);
        assert forall|i: int| #[trigger] p1.contains(i) <==> q1.contains(i) by {
            assert(p1.contains(i) <==> p.contains(i) && i != p[0]);
            assert(q1.contains(i) <==> q.contains(i) && i != q[0]);
        }
        lemma_order_is_unique(nodes, p1, q1);
        assert(p =~= seq![p[0]] + p1);
        assert(q =~= seq![q[0]] + q1);
    }
}

proof fn lemma_without_first<T>(nodes: Seq<Node<T>>, p: Seq<int>)
    requires
        is_sorted(nodes, p),
        p.len() > 0,
    ensures
        is_sorted(nodes, p.drop_first()),
        forall|i: int| #[trigger] p.drop_first().contains(i) <==> p.contains(i) && i != p[0],
{
    let p1 = p.drop_first();
    assert forall|i: int, j: int| 0 <= i < j < p1.len() implies key_before(
        #[trigger] key_at(nodes, p1[i]),
        #[trigger] key_at(nodes, p1[j]),
    ) by {
        assert(p1[i] == p[i + 1] && p1[j] == p[j + 1]);
        assert(key_before(key_at(nodes, p[i + 1]), key_at(nodes, p[j + 1])));
    }
    assert forall|i: int| #[trigger] p1.contains(i) <==> p.contains(i) && i != p[0] by {
        if p1.contains(i) {
            let k = p1.index_of(i);
            assert(p[k + 1] == i);
            assert(key_before(key_at(nodes, p[0]), key_at(nodes, p[k + 1])));
            lemma_key_before_is_asymmetric(key_at(nodes, p[0]), key_at(nodes, p[k + 1]));
        }
        if p.contains(i) && i != p[0] {
            let k = p.index_of(i);
            assert(p1[k - 1] == i);
        }
    }
}

/// An order of names is the order of names.
pub proof fn lemma_name_order<T>(nodes: Seq<Node<T>>, order: Seq<int>)
    requires
        is_name_order(nodes, order),
    ensures
        name_order(nodes) == order,
{
    let chosen = name_order(nodes);
    assert(is_name_order(nodes, chosen));
    assert forall|i: int| #[trigger] chosen.contains(i) <==> order.contains(i) by {}
    lemma_order_is_unique(nodes, chosen, order);
}

/// An order of names lists no position twice.
pub proof fn lemma_order_lists_once<T>(nodes: Seq<Node<T>>, order: Seq<int>)
    requires
        is_name_order(nodes, order),
    ensures
        order.no_duplicates(),
        forall|i: int| 0 <= i < order.len() ==> 0 <= #[trigger] order[i] < nodes.len(),
{
    assert forall|i: int, j: int|
        0 <= i < order.len() && 0 <= j < order.len() && i != j implies order[i] != order[j] by {
        let (a, b) = if i < j {
            (i, j)
        } else {
            (j, i)
        };
        assert(key_before(key_at(nodes, order[a]), key_at(nodes, order[b])));
        lemma_key_before_is_asymmetric(key_at(nodes, order[a]), key_at(nodes, order[b]));
    }
    assert forall|i: int| 0 <= i < order.len() implies 0 <= #[trigger] order[i] < nodes.len() by {
        assert(order.contains(order[i]));
    }
}

proof fn lemma_bytes_before_is_transitive(a: Seq<u8>, b: Seq<u8>, c: Seq<u8>)
    requires
        bytes_before(a, b),
        bytes_before(b, c),
    ensures
        bytes_before(a, c),
    decreases a.len(),
{
    if a.len() > 0 && a[0] == b[0] && b[0] == c[0] {
        lemma_bytes_before_is_transitive(a.drop_first(), b.drop_first(), c.drop_first());
    }
}

/// Every list of nodes has an order of names.
pub proof fn lemma_name_order_exists<T>(nodes: Seq<Node<T>>)
    ensures
        is_name_order(nodes, name_order(nodes)),
{
    let leq = |a: int, b: int| a == b || key_before(key_at(nodes, a), key_at(nodes, b));
    let given = Seq::new(nodes.len(), |i: int| i);
    assert forall|a: int, b: int| #[trigger] leq(a, b) && #[trigger] leq(b, a) implies a == b by {
        if a != b {
            lemma_key_before_is_asymmetric(key_at(nodes, a), key_at(nodes, b));
        }
    }
    assert forall|a: int, b: int, c: int| #[trigger] leq(a, b) && #[trigger] leq(b, c) implies leq(
        a,
        c,
    ) by {
        let (x, y, z) = (name_bytes(nodes[a]), name_bytes(nodes[b]), name_bytes(nodes[c]));
        if bytes_before(x, y) && bytes_before(y, z) {
            lemma_bytes_before_is_transitive(x, y, z);
        }
    }
    assert forall|a: int, b: int| #[trigger] leq(a, b) || #[trigger] leq(b, a) by {
        lemma_bytes_before_is_total(name_bytes(nodes[a]), name_bytes(nodes[b]));
    }
    assert(vstd::relations::total_ordering(leq));
    given.lemma_sort_by_ensures(leq);
    let order = given.sort_by(leq);
    assert(given.no_duplicates());
    given.lemma_multiset_has_no_duplicates();
    order.lemma_multiset_has_no_duplicates_conv();
    assert forall|i: int| #[trigger] order.contains(i) <==> 0 <= i < nodes.len() by {
        vstd::seq_lib::to_multiset_contains(order, i);
        vstd::seq_lib::to_multiset_contains(given, i);
        if 0 <= i < nodes.len() {
            assert(given[i] == i);
        }
    }
    assert forall|i: int, j: int| 0 <= i < j < order.len() implies key_before(
        #[trigger] key_at(nodes, order[i]),
        #[trigger] key_at(nodes, order[j]),
    ) by {
        assert(leq(order[i], order[j]));
        assert(order[i] != order[j]);
    }
    assert(is_name_order(nodes, order));
}

proof fn lemma_first_difference(a: Seq<u8>, b: Seq<u8>) -> (p: int)
    requires
        bytes_before(a, b),
    ensures
        0 <= p <= a.len(),
        p < b.len(),
        forall|i: int| 0 <= i < p ==> a[i] == b[i],
        p == a.len() || a[p] < b[p],
    decreases a.len(),
{
    if a.len() == 0 || a[0] != b[0] {
        0
    } else {
        let q = lemma_first_difference(a.drop_first(), b.drop_first());
        assert forall|i: int| 0 <= i < q + 1 implies a[i] == b[i] by {
            if i > 0 {
                assert(a.drop_first()[i - 1] == a[i] && b.drop_first()[i - 1] == b[i]);
            }
        }
        q + 1
    }
}

/// A folder is gone through in the order of the bytes of the names: each position
/// comes once, and of two positions the earlier one has the same name and was listed
/// earlier, or has, where the names first differ, the smaller byte or none.
pub proof fn law_folders_are_gone_through_by_name<T>(nodes: Seq<Node<T>>, i: int, j: int)
    requires
        0 <= i < j < name_order(nodes).len(),
    ensures
        name_order(nodes).len() == nodes.len(),
        name_order(nodes).no_duplicates(),
        0 <= name_order(nodes)[i] < nodes.len(),
        0 <= name_order(nodes)[j] < nodes.len(),
        ({
            let a = name_bytes(nodes[name_order(nodes)[i]]);
            let b = name_bytes(nodes[name_order(nodes)[j]]);
            (a == b && name_order(nodes)[i] < name_order(nodes)[j]) || exists|p: int|
                {
                    &&& 0 <= p <= a.len()
                    &&& p < b.len()
                    &&& #[trigger] a.take(p) == b.take(p)
                    &&& p == a.len() || a[p] < b[p]
                }
        }),
        forall|k: int|
            0 <= k < nodes.len() ==> name_bytes(#[trigger] nodes[k]) == (match nodes[k].name {
                Some(name) => name@,
                None => Seq::<u8>::empty(),
            }),
{
    let order = name_order(nodes);
    lemma_name_order_exists(nodes);
    lemma_order_lists_once(nodes, order);
    lemma_order_has_every_position(nodes);
    assert(key_before(key_at(nodes, order[i]), key_at(nodes, order[j])));
    let a = name_bytes(nodes[order[i]]);
    let b = name_bytes(nodes[order[j]]);
    if bytes_before(a, b) {
        let p = lemma_first_difference(a, b);
        assert(a.take(p) =~= b.take(p));
        assert(0 <= p <= a.len() && p < b.len() && a.take(p) == b.take(p) && (p == a.len() || a[p]
            < b[p]));
    }
}

/// The order of names has as many positions as there are nodes.
pub proof fn lemma_order_has_every_position<T>(nodes: Seq<Node<T>>)
    ensures
        name_order(nodes).len() == nodes.len(),
{
    let order = name_order(nodes);
    let given = Seq::new(nodes.len(), |i: int| i);
    lemma_name_order_exists(nodes);
    lemma_order_lists_once(nodes, order);
    order.unique_seq_to_set();
    assert(given.no_duplicates());
    given.unique_seq_to_set();
    assert(order.to_set() =~= given.to_set()) by {
        assert forall|i: int| order.to_set().contains(i) <==> given.to_set().contains(i) by {
            if given.to_set().contains(i) {
                let k = given.index_of(i);
            }
            if 0 <= i < nodes.len() {
                assert(given[i] == i);
                assert(given.contains(i));
                assert(order.contains(i));
            }
        }
    }
}

/// A key to be sorted, as a value.
pub open spec fn key_of(key: (Vec<u8>, usize)) -> (Seq<u8>, int) {
    (key.0@, key.1 as int)
}

/// `<[_]>::sort` on pairs of bytes and positions: the same pairs, in the order of
/// their bytes, then of their positions.
#[verifier::external_body]
fn sort_keys(keys: &mut Vec<(Vec<u8>, usize)>)
    ensures
        final(keys)@.to_multiset() == old(keys)@.to_multiset(),
        forall|i: int, j: int|
            0 <= i < j < final(keys)@.len() ==> !key_before(
                key_of(#[trigger] final(keys)@[j]),
                key_of(#[trigger] final(keys)@[i]),
            ),
{
    keys.sort();
}

proof fn lemma_bytes_before_is_total(a: Seq<u8>, b: Seq<u8>)
    ensures
        bytes_before(a, b) || bytes_before(b, a) || a == b,
    decreases a.len(),
{
    if a.len() == 0 {
        if b.len() == 0 {
            assert(a =~= b);
        }
    } else if b.len() > 0 && a[0] == b[0] {
        lemma_bytes_before_is_total(a.drop_first(), b.drop_first());
        if a.drop_first() == b.drop_first() {
            assert(a =~= seq![a[0]] + a.drop_first());
            assert(b =~= seq![b[0]] + b.drop_first());
        }
    }
}

/// Positions, as integers.
pub open spec fn positions(order: Seq<usize>) -> Seq<int> {
    order.map_values(|position: usize| position as int)
}

/// The keys `sorted` are those of `nodes`, and sorted: their positions are in the
/// order of names.
proof fn lemma_sorted_keys<T>(
    nodes: Seq<Node<T>>,
    keys: Seq<(Vec<u8>, usize)>,
    sorted: Seq<(Vec<u8>, usize)>,
    order: Seq<int>,
)
    requires
        keys.len() == nodes.len(),
        forall|i: int|
            0 <= i < keys.len() ==> key_of(#[trigger] keys[i]) == key_at(nodes, i),
        sorted.to_multiset() == keys.to_multiset(),
        forall|i: int, j: int|
            0 <= i < j < sorted.len() ==> !key_before(
                key_of(#[trigger] sorted[j]),
                key_of(#[trigger] sorted[i]),
            ),
        order == sorted.map_values(|key: (Vec<u8>, usize)| key.1 as int),
    ensures
        is_name_order(nodes, order),
{
    assert(keys.no_duplicates()) by {
        assert forall|i: int, j: int|
            0 <= i < keys.len() && 0 <= j < keys.len() && i != j implies keys[i] != keys[j] by {
            assert(key_of(keys[i]) == key_at(nodes, i));
            assert(key_of(keys[j]) == key_at(nodes, j));
        }
    }
    keys.lemma_multiset_has_no_duplicates();
    sorted.lemma_multiset_has_no_duplicates_conv();
    assert forall|x: (Vec<u8>, usize)| #[trigger] sorted.contains(x) <==> keys.contains(x) by {
        vstd::seq_lib::to_multiset_contains(sorted, x);
        vstd::seq_lib::to_multiset_contains(keys, x);
        assert(sorted.to_multiset().count(x) == keys.to_multiset().count(x));
    }
    assert forall|i: int| 0 <= i < sorted.len() implies key_of(#[trigger] sorted[i]) == key_at(
        nodes,
        order[i],
    ) && 0 <= order[i] < nodes.len() by {
        assert(sorted.contains(sorted[i]));
        assert(keys.contains(sorted[i]));
        let k = keys.index_of(sorted[i]);
        assert(key_of(keys[k]) == key_at(nodes, k));
    }
    assert forall|i: int, j: int| 0 <= i < j < order.len() implies key_before(
        #[trigger] key_at(nodes, order[i]),
        #[trigger] key_at(nodes, order[j]),
    ) by {
        assert(key_of(sorted[i]) == key_at(nodes, order[i]));
        assert(key_of(sorted[j]) == key_at(nodes, order[j]));
        assert(sorted[i] != sorted[j]);
        let a = key_of(sorted[i]);
        let b = key_of(sorted[j]);
        assert(!key_before(b, a));
        lemma_bytes_before_is_total(a.0, b.0);
        if a.0 == b.0 && a.1 == b.1 {
            assert(sorted.contains(sorted[i]) && sorted.contains(sorted[j]));
            assert(keys.contains(sorted[i]) && keys.contains(sorted[j]));
            let ki = keys.index_of(sorted[i]);
            let kj = keys.index_of(sorted[j]);
            assert(key_of(keys[ki]) == key_at(nodes, ki));
            assert(key_of(keys[kj]) == key_at(nodes, kj));
        }
    }
    assert forall|i: int| #[trigger] order.contains(i) <==> 0 <= i < nodes.len() by {
        if order.contains(i) {
            let k = order.index_of(i);
            assert(key_of(sorted[k]) == key_at(nodes, order[k]));
        }
        if 0 <= i < nodes.len() {
            assert(key_of(keys[i]) == key_at(nodes, i));
            assert(keys.contains(keys[i]));
            assert(sorted.contains(keys[i]));
            let k = sorted.index_of(keys[i]);
            assert(order[k] == i);
        }
    }
}

/// The positions of `nodes` in the order of names.
pub fn order_by_name<T>(nodes: &Vec<Node<T>>) -> (order: Vec<usize>)
    ensures
        positions(order@) == name_order(nodes@),
        is_name_order(nodes@, positions(order@)),
{
    let mut keys: Vec<(Vec<u8>, usize)> = Vec::new();
    let mut i: usize = 0;
    while i < nodes.len()
        invariant
            i <= nodes@.len(),
            keys@.len() == i,
            forall|j: int| 0 <= j < i ==> key_of(#[trigger] keys@[j]) == key_at(nodes@, j),
        decreases nodes@.len() - i,
    {
        let name: Vec<u8> = match &nodes[i].name {
            Some(name) => slice_to_vec(name.as_slice()),
            None => Vec::new(),
        };
        keys.push((name, i));
        i = i + 1;
    }
    let ghost unsorted = keys@;
    sort_keys(&mut keys);
    let mut order: Vec<usize> = Vec::new();
    let mut k: usize = 0;
    while k < keys.len()
        invariant
            k <= keys@.len(),
            order@.len() == k,
            forall|j: int| 0 <= j < k ==> order@[j] == (#[trigger] keys@[j]).1,
        decreases keys@.len() - k,
    {
        order.push(keys[k].1);
        k = k + 1;
    }
    proof {
        assert(positions(order@) =~= keys@.map_values(|key: (Vec<u8>, usize)| key.1 as int));
        lemma_sorted_keys(nodes@, unsorted, keys@, positions(order@));
        lemma_name_order(nodes@, positions(order@));
    }
    order
}

} // verus!
