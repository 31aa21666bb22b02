//! What one drone perceives of its surroundings: the nearest enemies and the
//! nearest friendly drones, each list capped at a fixed size.
//!
//! Distances are carried as the IEEE-754 binary64 bit patterns of their
//! values in metres, and compared as `f64` compares them (see `order`).
use vstd::prelude::*;
use vstd::multiset::Multiset;
use arrayvec::ArrayVec;
use crate::ids::{DroneId, EnemyId};
use crate::order::{total_key, total_key_of};

verus! {

broadcast use {vstd::seq_lib::group_to_multiset_ensures, vstd::multiset::group_multiset_axioms};

/// How many enemy contacts a drone keeps.
pub const MAX_TARGET_CONTACTS: usize = 8;

/// How many friendly contacts a drone keeps.
pub const MAX_DRONE_CONTACTS: usize = 8;

/// A sensed enemy.
#[derive(Clone, Copy, Debug, PartialEq, Eq)]
pub struct TargetContact {
    pub id: EnemyId,
    /// Bit pattern of the distance from the sensing drone (see the module docs).
    pub distance: u64,
    /// The drone that held the lock on this enemy when it was sensed.
    pub engaged_by: Option<DroneId>,
}

/// A sensed friendly drone.
#[derive(Clone, Copy, Debug, PartialEq, Eq)]
pub struct DroneContact {
    pub id: DroneId,
    /// Bit pattern of the distance from the sensing drone (see the module docs).
    pub distance: u64,
}

/// Contacts are ranked by distance, then by id.
pub trait Ranked: Copy {
    spec fn rank_distance(&self) -> u64;

    spec fn rank_id(&self) -> u32;

    fn distance_key(&self) -> (r: u64)
        ensures
            r == self.rank_distance(),
    ;

    fn id_key(&self) -> (r: u32)
        ensures
            r == self.rank_id(),
    ;
}

impl Ranked for TargetContact {
    open spec fn rank_distance(&self) -> u64 {
        self.distance
    }

    open spec fn rank_id(&self) -> u32 {
        self.id.0
    }

    fn distance_key(&self) -> (r: u64) {
        self.distance
    }

    fn id_key(&self) -> (r: u32) {
        self.id.0
    }
}

impl Ranked for DroneContact {
    open spec fn rank_distance(&self) -> u64 {
        self.distance
    }

    open spec fn rank_id(&self) -> u32 {
        self.id.0
    }

    fn distance_key(&self) -> (r: u64) {
        self.distance
    }

    fn id_key(&self) -> (r: u32) {
        self.id.0
    }
}

/// `a` comes no later than `b`: nearer by `f64::total_cmp`, or as near
/// with an id no larger.
pub open spec fn ranks_before<C: Ranked>(a: C, b: C) -> bool {
    ||| total_key(a.rank_distance()) < total_key(b.rank_distance())
    ||| (total_key(a.rank_distance()) == total_key(b.rank_distance()) && a.rank_id() <= b.rank_id())
}

/// Contacts listed in rank order.
pub open spec fn ranked<C: Ranked>(s: Seq<C>) -> bool {
    forall|i: int, j: int| 0 <= i < j < s.len() ==> ranks_before(s[i], s[j])
}

/// `a` and `b` rank alike: as near by `f64::total_cmp`, with the same id.
pub open spec fn same_rank<C: Ranked>(a: C, b: C) -> bool {
    &&& total_key(a.rank_distance()) == total_key(b.rank_distance())
    &&& a.rank_id() == b.rank_id()
}

/// Ranking alike with `c`.
pub open spec fn rank_pred<C: Ranked>(c: C) -> spec_fn(C) -> bool {
    |b: C| same_rank(c, b)
}

/// The contacts of `s` that rank alike with `c`, in their order in `s`.
pub open spec fn rank_class<C: Ranked>(s: Seq<C>, c: C) -> Seq<C> {
    s.filter(rank_pred(c))
}

/// `kept` is what a drone keeps of `items` when it keeps at most `cap`:
/// the `min(cap, |items|)` first contacts of `items` in rank order, listed in
/// that order. Every contact left out ranks no earlier than the last one kept.
/// Contacts that rank alike keep their order in `items`, and those kept are
/// the first of them there.
pub open spec fn keeps_nearest<C: Ranked>(kept: Seq<C>, items: Seq<C>, cap: nat) -> bool {
    &&& kept.len() == if items.len() < cap { items.len() } else { cap }
    &&& ranked(kept)
    &&& kept.to_multiset().subset_of(items.to_multiset())
    &&& forall|x: C|
        #[trigger] items.to_multiset().sub(kept.to_multiset()).contains(x) ==> ranks_before(
            kept.last(),
            x,
        )
    &&& forall|c: C|
        #[trigger] rank_class(kept, c) == rank_class(items, c).take(rank_class(kept, c).len() as int)
}

fn ranks_before_exec<C: Ranked>(a: &C, b: &C) -> (r: bool)
    ensures
        r == ranks_before(*a, *b),
{
    let da = total_key_of(a.distance_key());
    let db = total_key_of(b.distance_key());
    da < db || (da == db && a.id_key() <= b.id_key())
}

/// Inserting `x` after every contact that ranks no later than it, and before
/// every one that ranks later, appends `x` to the contacts ranking alike with
/// it and leaves every other class as it was.
proof fn lemma_insert_classes<C: Ranked>(before: Seq<C>, p: int, x: C)
    requires
        0 <= p <= before.len(),
        ranked(before),
        forall|q: int| 0 <= q < p ==> ranks_before(#[trigger] before[q], x),
        p < before.len() ==> !ranks_before(before[p], x),
    ensures
        forall|c: C|
            #[trigger] rank_class(before.insert(p, x), c) == if same_rank(c, x) {
                rank_class(before, c).push(x)
            } else {
                rank_class(before, c)
            },
{
    let a = before.take(p);
    let b = before.skip(p);
    assert(before == a + b);
    assert(before.insert(p, x) == (a + seq![x]) + b);
    assert forall|c: C|
        #[trigger] rank_class(before.insert(p, x), c) == if same_rank(c, x) {
            rank_class(before, c).push(x)
        } else {
            rank_class(before, c)
        } by {
        let pr = rank_pred(c);
        Seq::filter_distributes_over_add(a + seq![x], b, pr);
        Seq::filter_distributes_over_add(a, seq![x], pr);
        Seq::filter_distributes_over_add(a, b, pr);
        Seq::<C>::empty().lemma_filter_len(pr);
        Seq::<C>::empty().lemma_filter_push(x, pr);
        assert(seq![x] == Seq::<C>::empty().push(x));
        if same_rank(c, x) {
            assert forall|k: int| 0 <= k < b.len() implies !#[trigger] pr(b[k]) by {
                assert(b[k] == before[p + k]);
                if same_rank(c, b[k]) {
                    if k > 0 {
                        assert(ranks_before(before[p], before[p + k]));
                    }
                    assert(ranks_before(before[p], x));
                }
            }
            assert(b.all(|y: C| !pr(y)));
            b.lemma_all_neg_filter_empty(pr);
            assert(b.filter(pr) == Seq::<C>::empty());
            assert(rank_class(before.insert(p, x), c) == a.filter(pr).push(x));
            assert(rank_class(before, c) == a.filter(pr));
        } else {
            assert(seq![x].filter(pr) == Seq::<C>::empty());
        }
    }
}

/// Inserts `x` after every element that ranks no later than it, which keeps
/// the order stable.
fn insert_ranked<C: Ranked>(sorted: &mut Vec<C>, x: C)
    requires
        ranked(old(sorted)@),
    ensures
        ranked(final(sorted)@),
        final(sorted)@.to_multiset() == old(sorted)@.to_multiset().insert(x),
        forall|c: C|
            #[trigger] rank_class(final(sorted)@, c) == if same_rank(c, x) {
                rank_class(old(sorted)@, c).push(x)
            } else {
                rank_class(old(sorted)@, c)
            },
{
    let n = sorted.len();
    let mut p: usize = 0;
    while p < n && ranks_before_exec(&sorted[p], &x)
        invariant
            n == sorted@.len(),
            p <= n,
            ranked(sorted@),
            forall|q: int| 0 <= q < p ==> ranks_before(#[trigger] sorted@[q], x),
        decreases n - p,
    {
        p = p + 1;
    }
    let ghost before = sorted@;
    proof {
        if p < n {
            assert forall|q: int| p <= q < n implies ranks_before(x, #[trigger] before[q]) by {
                assert(ranks_before(before[p as int], before[q]));
            }
        }
    }
    proof {
        lemma_insert_classes(before, p as int, x);
    }
    sorted.insert(p, x);
    proof {
        vstd::seq_lib::to_multiset_insert(before, p as int, x);
        let s = sorted@;
        assert forall|i: int, j: int| 0 <= i < j < s.len() implies ranks_before(
            s[i],
            s[j],
        ) by {
            if i < p && j < p {
                assert(s[i] == before[i] && s[j] == before[j]);
            } else if i < p && j == p {
            } else if i < p {
                assert(s[i] == before[i] && s[j] == before[j - 1]);
                if p < n {
                    assert(ranks_before(before[i], before[p as int]));
                }
                assert(ranks_before(before[i], x));
                assert(ranks_before(x, before[j - 1]));
            } else if i == p {
                assert(s[j] == before[j - 1]);
            } else {
                assert(s[i] == before[i - 1] && s[j] == before[j - 1]);
            }
        }
    }
}

/// Every contact of `items` in rank order; ties of rank keep their order in `items`.
fn sort_ranked<C: Ranked>(items: &Vec<C>) -> (sorted: Vec<C>)
    ensures
        ranked(sorted@),
        sorted@.to_multiset() == items@.to_multiset(),
        forall|c: C| #[trigger] rank_class(sorted@, c) == rank_class(items@, c),
{
    let mut sorted: Vec<C> = Vec::new();
    let n = items.len();
    proof {
        assert forall|c: C| #[trigger] rank_class(sorted@, c) == rank_class(items@.take(0), c) by {
            assert(items@.take(0) == sorted@);
        }
    }
    for i in 0..n
        invariant
            n == items@.len(),
            ranked(sorted@),
            sorted@.to_multiset() == items@.take(i as int).to_multiset(),
            forall|c: C| #[trigger] rank_class(sorted@, c) == rank_class(items@.take(i as int), c),
    {
        let ghost prev = sorted@;
        insert_ranked(&mut sorted, items[i]);
        assert(items@.take(i as int + 1) == items@.take(i as int).push(items@[i as int]));
        proof {
            assert forall|c: C| #[trigger] rank_class(sorted@, c) == rank_class(items@.take(i as int + 1), c) by {
                items@.take(i as int).lemma_filter_push(items@[i as int], rank_pred(c));
                assert(rank_class(prev, c) == rank_class(items@.take(i as int), c));
            }
        }
    }
    assert(items@.take(n as int) == items@);
    sorted
}

/// The first `cap` of a ranked list are what a drone keeps.
proof fn lemma_prefix_keeps_nearest<C: Ranked>(sorted: Seq<C>, items: Seq<C>, cap: nat)
    requires
        ranked(sorted),
        sorted.to_multiset() == items.to_multiset(),
        forall|c: C| #[trigger] rank_class(sorted, c) == rank_class(items, c),
        cap > 0,
    ensures
        keeps_nearest(
            if cap <= sorted.len() { sorted.subrange(0, cap as int) } else { sorted },
            items,
            cap,
        ),
{
    let k: int = if sorted.len() <= cap { sorted.len() as int } else { cap as int };
    let kept = sorted.take(k);
    let rest = sorted.skip(k);
    assert(sorted == kept + rest);
    assert(items.len() == sorted.len()) by {
        vstd::seq_lib::to_multiset_len(items);
        vstd::seq_lib::to_multiset_len(sorted);
    }
    assert(ranked(kept)) by {
        assert forall|i: int, j: int| 0 <= i < j < kept.len() implies ranks_before(
            kept[i],
            kept[j],
        ) by {
            assert(kept[i] == sorted[i] && kept[j] == sorted[j]);
        }
    }
    vstd::seq_lib::lemma_multiset_commutative(kept, rest);
    assert(kept.to_multiset().subset_of(items.to_multiset()));
    assert(items.to_multiset().sub(kept.to_multiset()) =~= rest.to_multiset());
    assert forall|x: C| #[trigger]
        items.to_multiset().sub(kept.to_multiset()).contains(x) implies ranks_before(
        kept.last(),
        x,
    ) by {
        assert(rest.to_multiset().contains(x));
        assert(rest.contains(x));
        let j = choose|j: int| 0 <= j < rest.len() && rest[j] == x;
        assert(sorted[k + j] == x);
        assert(k > 0);
        assert(kept.last() == sorted[k - 1]);
    }
    assert forall|c: C| #[trigger] rank_class(kept, c) == rank_class(items, c).take(rank_class(kept, c).len() as int) by {
        Seq::filter_distributes_over_add(kept, rest, rank_pred(c));
        assert(rank_class(sorted, c) == rank_class(kept, c) + rank_class(rest, c));
        assert(rank_class(items, c).take(rank_class(kept, c).len() as int) == rank_class(kept, c));
    }
    if cap <= sorted.len() {
        assert(kept == sorted.subrange(0, cap as int));
    } else {
        assert(kept == sorted);
    }
}

#[verifier::external_type_specification]
#[verifier::external_body]
#[verifier::reject_recursive_types(T)]
pub struct ExArrayVec<T, const CAP: usize>(ArrayVec<T, CAP>);

/// The enemy contacts an `ArrayVec` holds, in order.
pub uninterp spec fn target_slots(v: ArrayVec<TargetContact, 8>) -> Seq<TargetContact>;

/// The friendly contacts an `ArrayVec` holds, in order.
pub uninterp spec fn drone_slots(v: ArrayVec<DroneContact, 8>) -> Seq<DroneContact>;

/// `ArrayVec::new`: an empty vector.
#[verifier::external_body]
pub(crate) fn new_target_slots() -> (r: ArrayVec<TargetContact, 8>)
    ensures
        target_slots(r) == Seq::<TargetContact>::empty(),
{
    ArrayVec::new()
}

/// `ArrayVec::new`: an empty vector.
#[verifier::external_body]
pub(crate) fn new_drone_slots() -> (r: ArrayVec<DroneContact, 8>)
    ensures
        drone_slots(r) == Seq::<DroneContact>::empty(),
{
    ArrayVec::new()
}

/// `FromIterator for ArrayVec` over a `Vec`'s items: the items in order.
/// It panics on more items than the capacity, which `requires` rules out.
#[verifier::external_body]
fn collect_target_slots(v: Vec<TargetContact>) -> (r: ArrayVec<TargetContact, 8>)
    requires
        v@.len() <= 8,
    ensures
        target_slots(r) == v@,
{
    v.into_iter().collect()
}

/// `FromIterator for ArrayVec` over a `Vec`'s items: the items in order.
/// It panics on more items than the capacity, which `requires` rules out.
#[verifier::external_body]
fn collect_drone_slots(v: Vec<DroneContact>) -> (r: ArrayVec<DroneContact, 8>)
    requires
        v@.len() <= 8,
    ensures
        drone_slots(r) == v@,
{
    v.into_iter().collect()
}

/// `ArrayVec::as_slice`: the items in order.
#[verifier::external_body]
pub(crate) fn target_slots_as_slice(v: &ArrayVec<TargetContact, 8>) -> (r: &[TargetContact])
    ensures
        r@ == target_slots(*v),
{
    v.as_slice()
}

/// `ArrayVec::as_slice`: the items in order.
#[verifier::external_body]
pub(crate) fn drone_slots_as_slice(v: &ArrayVec<DroneContact, 8>) -> (r: &[DroneContact])
    ensures
        r@ == drone_slots(*v),
{
    v.as_slice()
}

/// `ArrayVec::clear`: no items are left.
#[verifier::external_body]
pub(crate) fn clear_target_slots(v: &mut ArrayVec<TargetContact, 8>)
    ensures
        target_slots(*final(v)) == Seq::<TargetContact>::empty(),
{
    v.clear()
}

/// `ArrayVec::clear`: no items are left.
#[verifier::external_body]
pub(crate) fn clear_drone_slots(v: &mut ArrayVec<DroneContact, 8>)
    ensures
        drone_slots(*final(v)) == Seq::<DroneContact>::empty(),
{
    v.clear()
}

/// Keeps the `MAX_TARGET_CONTACTS` nearest enemy contacts, ranked by
/// distance and then by id.
pub fn keep_nearest_targets(items: Vec<TargetContact>) -> (r: ArrayVec<
    TargetContact,
    MAX_TARGET_CONTACTS,
>)
    ensures
        keeps_nearest(target_slots(r), items@, MAX_TARGET_CONTACTS as nat),
{
    let mut sorted = sort_ranked(&items);
    proof {
        lemma_prefix_keeps_nearest(sorted@, items@, MAX_TARGET_CONTACTS as nat);
    }
    sorted.truncate(MAX_TARGET_CONTACTS);
    collect_target_slots(sorted)
}

/// Keeps the `MAX_DRONE_CONTACTS` nearest friendly contacts, ranked by
/// distance and then by id.
pub fn keep_nearest_drones(items: Vec<DroneContact>) -> (r: ArrayVec<
    DroneContact,
    MAX_DRONE_CONTACTS,
>)
    ensures
        keeps_nearest(drone_slots(r), items@, MAX_DRONE_CONTACTS as nat),
{
    let mut sorted = sort_ranked(&items);
    proof {
        lemma_prefix_keeps_nearest(sorted@, items@, MAX_DRONE_CONTACTS as nat);
    }
    sorted.truncate(MAX_DRONE_CONTACTS);
    collect_drone_slots(sorted)
}

} // verus!
