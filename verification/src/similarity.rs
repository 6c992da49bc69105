//! How much two snapshots have in common: the edges they share and the
//! edges either of them has, each distinct edge counted once.

use vstd::prelude::*;
use std::collections::HashSet;

verus! {

broadcast use vstd::std_specs::hash::group_hash_axioms;

/// The number under which an edge is filed: its endpoints side by side,
/// the first one in the high 64 bits.
pub open spec fn edge_key(e: (usize, usize)) -> u128 {
    (e.0 as int * 0x1_0000_0000_0000_0000 + e.1 as int) as u128
}

/// Different edges are filed under different numbers.
proof fn lemma_edge_key(e1: (usize, usize), e2: (usize, usize))
    ensures
        edge_key(e1) == e1.0 as int * 0x1_0000_0000_0000_0000 + e1.1 as int,
        edge_key(e1) == edge_key(e2) ==> e1 == e2,
{
    let m: int = 0x1_0000_0000_0000_0000;
    let (a1, b1, a2, b2) = (e1.0 as int, e1.1 as int, e2.0 as int, e2.1 as int);
    assert(0 <= a1 * m + b1 < m * m) by (nonlinear_arith)
        requires
            0 <= a1 < m,
            0 <= b1 < m,
            m == 0x1_0000_0000_0000_0000,
    ;
    assert(0 <= a2 * m + b2 < m * m) by (nonlinear_arith)
        requires
            0 <= a2 < m,
            0 <= b2 < m,
            m == 0x1_0000_0000_0000_0000,
    ;
    assert(a1 * m + b1 == a2 * m + b2 ==> a1 == a2 && b1 == b2) by (nonlinear_arith)
        requires
            0 <= b1 < m,
            0 <= b2 < m,
            0 <= a1,
            0 <= a2,
            m == 0x1_0000_0000_0000_0000,
    ;
}

/// The numbers under which the edges of `s` are filed.
pub open spec fn key_set(s: Set<(usize, usize)>) -> Set<u128> {
    s.map(|e: (usize, usize)| edge_key(e))
}

/// A number is among the keys of `s` exactly when its edge is in `s`.
proof fn lemma_key_set_contains(s: Set<(usize, usize)>, e: (usize, usize))
    ensures
        key_set(s).contains(edge_key(e)) <==> s.contains(e),
{
    if key_set(s).contains(edge_key(e)) {
        let e2 = choose|e2: (usize, usize)| s.contains(e2) && edge_key(e2) == edge_key(e);
        lemma_edge_key(e2, e);
    }
}

/// Adding an edge adds its number.
proof fn lemma_key_set_insert(s: Set<(usize, usize)>, e: (usize, usize))
    ensures
        key_set(s.insert(e)) == key_set(s).insert(edge_key(e)),
{
    assert forall|k: u128| #[trigger] key_set(s.insert(e)).contains(k) <==> key_set(s).insert(edge_key(e)).contains(k) by {
        if key_set(s.insert(e)).contains(k) {
            let x = choose|x: (usize, usize)| s.insert(e).contains(x) && edge_key(x) == k;
            if x != e {
                assert(s.contains(x));
            }
        }
        if key_set(s).contains(k) {
            let x = choose|x: (usize, usize)| s.contains(x) && edge_key(x) == k;
            assert(s.insert(e).contains(x));
        }
        if k == edge_key(e) {
            assert(s.insert(e).contains(e));
        }
    }
    assert(key_set(s.insert(e)) =~= key_set(s).insert(edge_key(e)));
}

/// A finite set of edges has as many keys as edges.
proof fn lemma_key_set_len(s: Set<(usize, usize)>)
    requires
        s.finite(),
    ensures
        key_set(s).finite(),
        key_set(s).len() == s.len(),
{
    let f = |e: (usize, usize)| edge_key(e);
    assert forall|x: (usize, usize), y: (usize, usize)| s.contains(x) && s.contains(y) && #[trigger] f(x) == #[trigger] f(
        y,
    ) implies x == y by {
        lemma_edge_key(x, y);
    }
    vstd::set_lib::lemma_map_size(s, key_set(s), f);
}

/// Files an edge under its number.
fn key_of(e: (usize, usize)) -> (k: u128)
    ensures
        k == edge_key(e),
{
    proof {
        lemma_edge_key(e, e);
    }
    let hi = e.0 as u128;
    assert(hi * 0x1_0000_0000_0000_0000 <= 0xffff_ffff_ffff_ffff_0000_0000_0000_0000) by (nonlinear_arith)
        requires
            hi <= 0xffff_ffff_ffff_ffff,
    ;
    hi * 0x1_0000_0000_0000_0000 + e.1 as u128
}

/// The set of the keys of the edges of `s`.
fn key_set_of(s: &Vec<(usize, usize)>) -> (r: HashSet<u128>)
    ensures
        r@ == key_set(s@.to_set()),
{
    let mut r: HashSet<u128> = HashSet::new();
    for i in 0..s.len()
        invariant
            r@ == key_set(s@.take(i as int).to_set()),
    {
        let k = key_of(s[i]);
        r.insert(k);
        proof {
            assert(s@.take(i + 1) =~= s@.take(i as int).push(s@[i as int]));
            s@.take(i as int).lemma_push_to_set_commute(s@[i as int]);
            lemma_key_set_insert(s@.take(i as int).to_set(), s@[i as int]);
        }
    }
    assert(s@.take(s@.len() as int) =~= s@);
    r
}

/// The number of distinct edges that `a` and `b` share, and the number of
/// distinct edges that at least one of them has.
pub fn edge_overlap(a: &Vec<(usize, usize)>, b: &Vec<(usize, usize)>) -> (r: (usize, usize))
    requires
        a@.len() + b@.len() <= usize::MAX,
    ensures
        r.0 == a@.to_set().intersect(b@.to_set()).len(),
        r.1 == a@.to_set().union(b@.to_set()).len(),
{
    broadcast use vstd::set_lib::group_set_properties;

    let ghost eb = b@.to_set();
    let keys_b = key_set_of(b);
    proof {
        b@.lemma_cardinality_of_set();
        lemma_key_set_len(eb);
    }
    let size_b = keys_b.len();
    let mut seen: HashSet<u128> = HashSet::new();
    let mut distinct: usize = 0;
    let mut common: usize = 0;
    for i in 0..a.len()
        invariant
            keys_b@ == key_set(eb),
            eb == b@.to_set(),
            eb.finite(),
            seen@ == key_set(a@.take(i as int).to_set()),
            a@.take(i as int).to_set().finite(),
            distinct == a@.take(i as int).to_set().len(),
            common == a@.take(i as int).to_set().intersect(eb).len(),
            distinct <= i,
            common <= distinct,
    {
        let ghost before = a@.take(i as int).to_set();
        let e = a[i];
        let k = key_of(e);
        proof {
            assert(a@.take(i + 1) =~= a@.take(i as int).push(e));
            a@.take(i as int).lemma_push_to_set_commute(e);
            lemma_key_set_contains(before, e);
            lemma_key_set_contains(eb, e);
            a@.take(i as int).lemma_cardinality_of_set();
            lemma_key_set_insert(before, e);
            vstd::set_lib::lemma_len_intersect(before, eb);
        }
        let fresh = seen.insert(k);
        if fresh {
            distinct = distinct + 1;
            if keys_b.contains(&k) {
                assert(before.insert(e).intersect(eb) =~= before.intersect(eb).insert(e));
                assert(!before.intersect(eb).contains(e));
                common = common + 1;
            } else {
                assert(before.insert(e).intersect(eb) =~= before.intersect(eb));
            }
        } else {
            assert(before.insert(e) =~= before);
        }
    }
    assert(a@.take(a@.len() as int) =~= a@);
    let ghost ea = a@.to_set();
    assert(ea.union(eb) == ea + eb);
    assert(common <= size_b) by {
        vstd::set_lib::lemma_len_intersect(eb, ea);
        assert(eb.intersect(ea) =~= ea.intersect(eb));
    }
    proof {
        b@.lemma_cardinality_of_set();
    }
    (common, distinct + (size_b - common))
}

} // verus!
