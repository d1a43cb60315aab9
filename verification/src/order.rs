//! Stable ordering, and sets of texts kept sorted.

use crate::text::{
    same, text_before, text_less, text_less_irreflexive, text_less_total, text_less_transitive,
    views, Text,
};
use vstd::prelude::*;

verus! {

// ── Ranks ─────────────────────────────────────────────────────────────────

/// What an item is ordered by: two numbers, then a text, each ascending.
pub struct Rank {
    pub first: i128,
    pub second: i128,
    pub text: String,
}

pub ghost struct RankV {
    pub first: int,
    pub second: int,
    pub text: Text,
}

impl View for Rank {
    type V = RankV;

    open spec fn view(&self) -> RankV {
        RankV { first: self.first as int, second: self.second as int, text: self.text@ }
    }
}

pub open spec fn rank_before(a: RankV, b: RankV) -> bool {
    if a.first != b.first {
        a.first < b.first
    } else if a.second != b.second {
        a.second < b.second
    } else {
        text_less(a.text, b.text)
    }
}

proof fn rank_before_transitive(a: RankV, b: RankV, c: RankV)
    requires
        rank_before(a, b),
        rank_before(b, c),
    ensures
        rank_before(a, c),
{
    if a.first == b.first && b.first == c.first && a.second == b.second && b.second == c.second {
        text_less_transitive(a.text, b.text, c.text);
    }
}

/// An item that is not after `b` is not after anything `b` is not after.
proof fn rank_chain(a: RankV, b: RankV, c: RankV)
    requires
        !rank_before(b, a),
        !rank_before(c, b),
    ensures
        !rank_before(c, a),
{
    text_less_irreflexive(a.text);
    text_less_total(a.text, b.text);
    text_less_total(b.text, c.text);
    if rank_before(c, a) {
        if rank_before(a, b) {
            rank_before_transitive(c, a, b);
        } else if rank_before(b, c) {
            rank_before_transitive(b, c, a);
        }
    }
}

fn before(a: &Rank, b: &Rank) -> (r: bool)
    ensures
        r == rank_before(a@, b@),
{
    if a.first != b.first {
        a.first < b.first
    } else if a.second != b.second {
        a.second < b.second
    } else {
        text_before(a.text.as_str(), b.text.as_str())
    }
}

// ── The stable order of a sequence ────────────────────────────────────────

/// Where a new item goes: behind every item it does not come before.
pub open spec fn slot(o: Seq<int>, ranks: Seq<RankV>, item: RankV) -> int
    decreases o.len(),
{
    if o.len() == 0 {
        0
    } else if rank_before(item, ranks[o.last()]) {
        slot(o.drop_last(), ranks, item)
    } else {
        o.len() as int
    }
}

/// The indices of `ranks` in ascending order of rank; equal ranks keep the
/// order in which they stand.
pub open spec fn order(ranks: Seq<RankV>) -> Seq<int>
    decreases ranks.len(),
{
    if ranks.len() == 0 {
        Seq::empty()
    } else {
        let o = order(ranks.drop_last());
        o.insert(slot(o, ranks, ranks.last()), ranks.len() - 1)
    }
}

/// The items of `s` in the order of their ranks.
pub open spec fn arranged<T>(s: Seq<T>, ranks: Seq<RankV>) -> Seq<T> {
    order(ranks).map_values(|i: int| s[i])
}

/// What makes `o` the stable order of `ranks`.
pub open spec fn is_order(o: Seq<int>, ranks: Seq<RankV>) -> bool {
    &&& o.len() == ranks.len()
    &&& forall|i: int| 0 <= i < o.len() ==> 0 <= #[trigger] o[i] < ranks.len()
    &&& forall|i: int, j: int| 0 <= i < j < o.len() ==> precedes(ranks, #[trigger] o[i], #[trigger] o[j])
}

/// `a` stands before `b`: its rank is lower, or equal and it came first.
pub open spec fn precedes(ranks: Seq<RankV>, a: int, b: int) -> bool {
    !rank_before(ranks[b], ranks[a]) && (rank_before(ranks[a], ranks[b]) || a < b)
}

proof fn slot_bounds(o: Seq<int>, ranks: Seq<RankV>, item: RankV)
    ensures
        0 <= slot(o, ranks, item) <= o.len(),
        forall|i: int| slot(o, ranks, item) <= i < o.len() ==> rank_before(item, ranks[#[trigger] o[i]]),
        slot(o, ranks, item) > 0 ==> !rank_before(item, ranks[o[slot(o, ranks, item) - 1]]),
    decreases o.len(),
{
    if o.len() > 0 && rank_before(item, ranks[o.last()]) {
        let p = o.drop_last();
        slot_bounds(p, ranks, item);
        assert forall|i: int| slot(o, ranks, item) <= i < o.len() implies rank_before(
            item,
            ranks[#[trigger] o[i]],
        ) by {
            if i < p.len() {
                assert(p[i] == o[i]);
            }
        }
    }
}

proof fn slot_is(o: Seq<int>, ranks: Seq<RankV>, item: RankV, p: int)
    requires
        0 <= p <= o.len(),
        forall|i: int| p <= i < o.len() ==> rank_before(item, ranks[#[trigger] o[i]]),
        p > 0 ==> !rank_before(item, ranks[o[p - 1]]),
    ensures
        slot(o, ranks, item) == p,
{
    slot_bounds(o, ranks, item);
}

/// `order` gives every index once, in ascending order of rank, and keeps
/// the order of equal ranks.
pub proof fn order_is_stable(ranks: Seq<RankV>)
    ensures
        is_order(order(ranks), ranks),
    decreases ranks.len(),
{
    if ranks.len() > 0 {
        let short = ranks.drop_last();
        let o = order(short);
        let n = ranks.len() - 1;
        let item = ranks.last();
        order_is_stable(short);
        let p = slot(o, ranks, item);
        slot_bounds(o, ranks, item);
        let q = o.insert(p, n);
        assert forall|i: int, j: int| 0 <= i < j < q.len() implies precedes(
            ranks,
            #[trigger] q[i],
            #[trigger] q[j],
        ) by {
            let oi = if i < p { i } else { i - 1 };
            let oj = if j < p { j } else { j - 1 };
            if i == p {
                assert(q[j] == o[oj]);
                assert(rank_before(item, ranks[o[oj]]));
                text_less_irreflexive(item.text);
                if rank_before(ranks[o[oj]], item) {
                    rank_before_transitive(item, ranks[o[oj]], item);
                }
            } else if j == p {
                assert(q[i] == o[oi]);
                if rank_before(item, ranks[o[oi]]) {
                    let l = o[p - 1];
                    assert(!rank_before(item, ranks[l]));
                    if oi < p - 1 {
                        assert(precedes(short, o[oi], l));
                        rank_chain(ranks[o[oi]], ranks[l], item);
                    }
                }
            } else {
                assert(q[i] == o[oi] && q[j] == o[oj]);
                assert(precedes(short, o[oi], o[oj]));
            }
        }
        assert forall|i: int| 0 <= i < q.len() implies 0 <= #[trigger] q[i] < ranks.len() by {
            if i != p {
                let oi = if i < p { i } else { i - 1 };
                assert(q[i] == o[oi]);
            }
        }
    }
}

/// Only one sequence of indices is the stable order.
pub proof fn order_is_unique(o: Seq<int>, p: Seq<int>, ranks: Seq<RankV>)
    requires
        is_order(o, ranks),
        is_order(p, ranks),
    ensures
        o == p,
{
    order_has_all(o, ranks);
    order_has_all(p, ranks);
    assert forall|k: int| 0 <= k < o.len() implies o[k] == p[k] by {
        order_agrees(o, p, ranks, k);
    }
    assert(o =~= p);
}

proof fn order_agrees(o: Seq<int>, p: Seq<int>, ranks: Seq<RankV>, k: int)
    requires
        is_order(o, ranks),
        is_order(p, ranks),
        forall|x: int| 0 <= x < ranks.len() ==> o.contains(x),
        forall|x: int| 0 <= x < ranks.len() ==> p.contains(x),
        0 <= k < o.len(),
    ensures
        o[k] == p[k],
    decreases k,
{
    assert forall|j: int| 0 <= j < k implies o[j] == p[j] by {
        order_agrees(o, p, ranks, j);
    }
    if o[k] != p[k] {
        assert(p.contains(o[k]));
        assert(o.contains(p[k]));
        let a = choose|a: int| 0 <= a < p.len() && p[a] == o[k];
        let b = choose|b: int| 0 <= b < o.len() && o[b] == p[k];
        if a < k {
            assert(o[a] == o[k]);
            assert(precedes(ranks, o[a], o[k]));
        } else if b < k {
            assert(p[b] == p[k]);
            assert(precedes(ranks, p[b], p[k]));
        } else {
            assert(precedes(ranks, p[k], p[a]));
            assert(precedes(ranks, o[k], o[b]));
        }
    }
}

/// The stable order holds every index.
pub proof fn order_has_all(o: Seq<int>, ranks: Seq<RankV>)
    requires
        is_order(o, ranks),
    ensures
        forall|x: int| 0 <= x < ranks.len() ==> o.contains(x),
        o.no_duplicates(),
{
    assert(o.no_duplicates()) by {
        assert forall|i: int, j: int| 0 <= i < o.len() && 0 <= j < o.len() && i != j implies o[i]
            != o[j] by {
            if i < j {
                assert(precedes(ranks, o[i], o[j]));
            } else {
                assert(precedes(ranks, o[j], o[i]));
            }
        }
    }
    let all = vstd::set_lib::set_int_range(0, ranks.len() as int);
    vstd::set_lib::lemma_int_range(0, ranks.len() as int);
    o.unique_seq_to_set();
    assert(o.to_set().subset_of(all)) by {
        assert forall|x: int| o.to_set().contains(x) implies all.contains(x) by {
            let i = choose|i: int| 0 <= i < o.len() && o[i] == x;
            assert(0 <= o[i] < ranks.len());
        }
    }
    vstd::set_lib::lemma_subset_equality(o.to_set(), all);
    assert forall|x: int| 0 <= x < ranks.len() implies o.contains(x) by {
        assert(all.contains(x));
        assert(o.to_set().contains(x));
    }
}

/// The indices of `ranks` in stable ascending order.
pub fn order_of(ranks: &Vec<Rank>) -> (o: Vec<usize>)
    ensures
        o@.map_values(|i: usize| i as int) == order(views(ranks@)),
        is_order(order(views(ranks@)), views(ranks@)),
{
    let ghost all = views(ranks@);
    let mut o: Vec<usize> = Vec::new();
    let mut n: usize = 0;
    assert(all.take(0) =~= Seq::empty());
    while n < ranks.len()
        invariant
            n <= ranks@.len(),
            all == views(ranks@),
            o@.map_values(|i: usize| i as int) == order(all.take(n as int)),
        decreases ranks@.len() - n,
    {
        let ghost oi = o@.map_values(|i: usize| i as int);
        let ghost part = all.take(n as int);
        let ghost next = all.take(n + 1);
        proof {
            order_is_stable(part);
            assert(next.drop_last() =~= part);
            assert(next.last() == ranks@[n as int]@);
        }
        let mut lo: usize = 0;
        let mut hi: usize = o.len();
        while lo < hi
            invariant
                lo <= hi <= o@.len(),
                o@.len() == n,
                n < ranks@.len(),
                all == views(ranks@),
                part == all.take(n as int),
                next == all.take(n + 1),
                oi == o@.map_values(|i: usize| i as int),
                is_order(oi, part),
                forall|i: int| hi <= i < o@.len() ==> rank_before(
                    all[n as int],
                    next[#[trigger] oi[i]],
                ),
                lo > 0 ==> !rank_before(all[n as int], next[oi[lo - 1]]),
            decreases hi - lo,
        {
            let mid: usize = lo + (hi - lo) / 2;
            let at: usize = o[mid];
            assert(oi[mid as int] == at);
            assert(0 <= oi[mid as int] < part.len());
            if before(&ranks[n], &ranks[at]) {
                proof {
                    assert forall|i: int| mid <= i < o@.len() implies rank_before(
                        all[n as int],
                        next[#[trigger] oi[i]],
                    ) by {
                        if mid < i {
                            assert(precedes(part, oi[mid as int], oi[i]));
                            assert(0 <= oi[i] < part.len());
                            if !rank_before(all[n as int], next[oi[i]]) {
                                rank_chain(next[oi[mid as int]], next[oi[i]], all[n as int]);
                            }
                        }
                    }
                }
                hi = mid;
            } else {
                lo = mid + 1;
            }
        }
        proof {
            slot_is(oi, next, all[n as int], lo as int);
        }
        o.insert(lo, n);
        assert(o@.map_values(|i: usize| i as int) =~= oi.insert(lo as int, n as int));
        n = n + 1;
    }
    proof {
        assert(all.take(n as int) =~= all);
        order_is_stable(all);
    }
    o
}

/// The items in the order of their ranks.
pub fn arrange<T>(items: Vec<T>, ranks: &Vec<Rank>) -> (r: Vec<T>)
    requires
        items@.len() == ranks@.len(),
    ensures
        r@ == arranged(items@, views(ranks@)),
{
    let o = order_of(ranks);
    let ghost oi = order(views(ranks@));
    let ghost src = items@;
    let mut slots: Vec<Option<T>> = Vec::new();
    for item in it: items
        invariant
            it.seq() == src,
            slots@ == src.take(it.index() as int).map_values(|x: T| Some(x)),
    {
        slots.push(Some(item));
        assert(slots@ =~= src.take(it.index() + 1).map_values(|x: T| Some(x)));
    }
    assert(src.take(src.len() as int) =~= src);
    let mut r: Vec<T> = Vec::new();
    let mut k: usize = 0;
    while k < o.len()
        invariant
            k <= o@.len(),
            oi == o@.map_values(|i: usize| i as int),
            is_order(oi, views(ranks@)),
            src.len() == ranks@.len(),
            slots@.len() == src.len(),
            r@.len() == k,
            forall|j: int| 0 <= j < k ==> #[trigger] r@[j] == src[oi[j]],
            forall|j: int| k <= j < oi.len() ==> slots@[#[trigger] oi[j]] == Some(src[oi[j]]),
        decreases o@.len() - k,
    {
        let at: usize = o[k];
        assert(oi[k as int] == at);
        assert(0 <= oi[k as int] < src.len());
        let taken = slots[at].take();
        proof {
            assert forall|j: int| k + 1 <= j < oi.len() implies slots@[#[trigger] oi[j]] == Some(
                src[oi[j]],
            ) by {
                assert(precedes(views(ranks@), oi[k as int], oi[j]));
                assert(0 <= oi[j] < src.len());
            }
        }
        match taken {
            Some(x) => r.push(x),
            None => {},
        }
        k = k + 1;
    }
    assert(r@ =~= arranged(src, views(ranks@)));
    r
}

/// The views of arranged items are the arranged views.
pub proof fn arranged_views<T: View>(s: Seq<T>, ranks: Seq<RankV>)
    requires
        s.len() == ranks.len(),
    ensures
        views(arranged(s, ranks)) == arranged(views(s), ranks),
{
    order_is_stable(ranks);
    let o = order(ranks);
    assert(views(arranged(s, ranks)) =~= arranged(views(s), ranks)) by {
        assert forall|k: int| 0 <= k < o.len() implies (#[trigger] views(arranged(s, ranks))[k])
            == views(s)[o[k]] by {
            assert(0 <= o[k] < s.len());
        }
    }
}

/// Arranging keeps exactly the items there were.
pub proof fn arranged_keeps<T>(s: Seq<T>, ranks: Seq<RankV>)
    requires
        s.len() == ranks.len(),
    ensures
        arranged(s, ranks).len() == s.len(),
        forall|x: T| #[trigger] arranged(s, ranks).contains(x) <==> s.contains(x),
{
    order_is_stable(ranks);
    let o = order(ranks);
    order_has_all(o, ranks);
    let r = arranged(s, ranks);
    assert forall|x: T| #[trigger] r.contains(x) <==> s.contains(x) by {
        if s.contains(x) {
            let i = choose|i: int| 0 <= i < s.len() && s[i] == x;
            assert(o.contains(i));
            let k = choose|k: int| 0 <= k < o.len() && o[k] == i;
            assert(r[k] == x);
        }
        if r.contains(x) {
            let k = choose|k: int| 0 <= k < r.len() && r[k] == x;
            assert(0 <= o[k] < s.len());
            assert(s[o[k]] == x);
        }
    }
}

/// Arranging changes how often nothing occurs.
pub proof fn arranged_multiset<T>(s: Seq<T>, ranks: Seq<RankV>)
    requires
        s.len() == ranks.len(),
    ensures
        arranged(s, ranks).to_multiset() == s.to_multiset(),
    decreases s.len(),
{
    broadcast use vstd::seq_lib::group_to_multiset_ensures;

    if s.len() > 0 {
        let short = ranks.drop_last();
        let o = order(short);
        let p = slot(o, ranks, ranks.last());
        let part = s.drop_last();
        arranged_multiset(part, short);
        order_is_stable(short);
        slot_bounds(o, ranks, ranks.last());
        let before = arranged(part, short);
        let whole = arranged(s, ranks);
        assert(slot(o, ranks, ranks.last()) == p);
        assert forall|k: int| 0 <= k < whole.len() implies #[trigger] whole[k] == before.insert(
            p,
            s.last(),
        )[k] by {
            if k != p {
                let b = if k < p {
                    k
                } else {
                    k - 1
                };
                assert(order(ranks)[k] == o[b]);
                assert(0 <= o[b] < part.len());
            }
        }
        assert(whole =~= before.insert(p, s.last()));
        vstd::seq_lib::to_multiset_insert(before, p, s.last());
        assert(s =~= part.push(s.last()));
    } else {
        assert(arranged(s, ranks) =~= s);
    }
}

/// How many items of a sequence have a property does not depend on their
/// order.
pub proof fn filter_counts<T>(s: Seq<T>, p: spec_fn(T) -> bool)
    ensures
        s.filter(p).len() == s.to_multiset().filter(p).len(),
    decreases s.len(),
{
    broadcast use vstd::seq_lib::group_to_multiset_ensures;
    broadcast use vstd::multiset::group_multiset_axioms;

    reveal(Seq::filter);
    if s.len() > 0 {
        let part = s.drop_last();
        filter_counts(part, p);
        assert(s =~= part.push(s.last()));
        let m = part.to_multiset();
        assert(s.to_multiset() =~= m.insert(s.last()));
        if p(s.last()) {
            assert(s.to_multiset().filter(p) =~= m.filter(p).insert(s.last()));
        } else {
            assert(s.to_multiset().filter(p) =~= m.filter(p));
        }
    } else {
        assert(s.to_multiset().filter(p) =~= vstd::multiset::Multiset::empty());
    }
}

/// Filtering keeps exactly the items that have the property, and repeats
/// none that was not repeated.
pub proof fn filter_holds<T>(s: Seq<T>, p: spec_fn(T) -> bool)
    ensures
        forall|x: T| #[trigger] s.filter(p).contains(x) <==> s.contains(x) && p(x),
        s.no_duplicates() ==> s.filter(p).no_duplicates(),
        s.filter(p).len() <= s.len(),
    decreases s.len(),
{
    reveal(Seq::filter);
    if s.len() > 0 {
        let short = s.drop_last();
        let before = short.filter(p);
        let r = s.filter(p);
        filter_holds(short, p);
        assert forall|x: T| #[trigger] r.contains(x) <==> s.contains(x) && p(x) by {
            if r.contains(x) {
                let k = choose|k: int| 0 <= k < r.len() && r[k] == x;
                if k < before.len() {
                    assert(before.contains(x));
                    let m = choose|m: int| 0 <= m < short.len() && short[m] == x;
                    assert(s[m] == x);
                } else {
                    assert(s[s.len() - 1] == x);
                }
            }
            if s.contains(x) && p(x) {
                let m = choose|m: int| 0 <= m < s.len() && s[m] == x;
                if m < short.len() {
                    assert(short[m] == x);
                    assert(before.contains(x));
                    let k = choose|k: int| 0 <= k < before.len() && before[k] == x;
                    assert(r[k] == x);
                } else {
                    assert(r[r.len() - 1] == x);
                }
            }
        }
        if s.no_duplicates() {
            assert(short.no_duplicates());
            assert forall|a: int, b: int| 0 <= a < r.len() && 0 <= b < r.len() && a != b implies
                r[a] != r[b] by {
                if a < before.len() && b < before.len() {
                    assert(before[a] != before[b]);
                } else {
                    let c = if a < before.len() {
                        a
                    } else {
                        b
                    };
                    assert(before.contains(before[c]));
                    let m = choose|m: int| 0 <= m < short.len() && short[m] == before[c];
                    assert(s[m] != s[s.len() - 1]);
                }
            }
        }
    }
}

/// A strictly sorted sequence repeats nothing.
pub proof fn sorted_is_apart(s: Seq<Text>)
    requires
        strictly_sorted(s),
    ensures
        s.no_duplicates(),
{
    assert forall|i: int, j: int| 0 <= i < s.len() && 0 <= j < s.len() && i != j implies s[i]
        != s[j] by {
        text_less_irreflexive(s[i]);
        if i < j {
            assert(text_less(s[i], s[j]));
        } else {
            assert(text_less(s[j], s[i]));
        }
    }
}

/// A key has as many holders as it occurs.
pub proof fn holders_count(keys: Seq<Text>, k: Text)
    ensures
        holders(keys, k).len() == keys.filter(|x: Text| x == k).len(),
    decreases keys.len(),
{
    reveal(Seq::filter);
    if keys.len() > 0 {
        holders_count(keys.drop_last(), k);
    }
}

// ── Sets of texts ─────────────────────────────────────────────────────────

/// Ascending, with no text twice.
pub open spec fn strictly_sorted(s: Seq<Text>) -> bool {
    forall|i: int, j: int| 0 <= i < j < s.len() ==> text_less(#[trigger] s[i], #[trigger] s[j])
}

/// Where `t` belongs in a sorted sequence that lacks it.
pub open spec fn text_slot(s: Seq<Text>, t: Text) -> int
    decreases s.len(),
{
    if s.len() == 0 {
        0
    } else if text_less(t, s.last()) {
        text_slot(s.drop_last(), t)
    } else {
        s.len() as int
    }
}

/// A sorted sequence with `t` in it.
pub open spec fn with_text(s: Seq<Text>, t: Text) -> Seq<Text> {
    if s.contains(t) {
        s
    } else {
        s.insert(text_slot(s, t), t)
    }
}

/// The distinct texts of a sequence, ascending.
pub open spec fn sorted_set(s: Seq<Text>) -> Seq<Text>
    decreases s.len(),
{
    if s.len() == 0 {
        Seq::empty()
    } else {
        with_text(sorted_set(s.drop_last()), s.last())
    }
}

proof fn text_slot_bounds(s: Seq<Text>, t: Text)
    ensures
        0 <= text_slot(s, t) <= s.len(),
        forall|i: int| text_slot(s, t) <= i < s.len() ==> text_less(t, #[trigger] s[i]),
        text_slot(s, t) > 0 ==> !text_less(t, s[text_slot(s, t) - 1]),
    decreases s.len(),
{
    if s.len() > 0 && text_less(t, s.last()) {
        let p = s.drop_last();
        text_slot_bounds(p, t);
        assert forall|i: int| text_slot(s, t) <= i < s.len() implies text_less(
            t,
            #[trigger] s[i],
        ) by {
            if i < p.len() {
                assert(p[i] == s[i]);
            }
        }
    }
}

/// Adding a text keeps a sequence sorted and adds nothing else.
pub proof fn with_text_sorted(s: Seq<Text>, t: Text)
    requires
        strictly_sorted(s),
    ensures
        strictly_sorted(with_text(s, t)),
        forall|x: Text| #[trigger] with_text(s, t).contains(x) <==> s.contains(x) || x == t,
{
    if !s.contains(t) {
        let p = text_slot(s, t);
        text_slot_bounds(s, t);
        let q = s.insert(p, t);
        assert forall|i: int| 0 <= i < p implies text_less(#[trigger] s[i], t) by {
            text_less_total(s[p - 1], t);
            assert(s.contains(s[p - 1]));
            if i < p - 1 {
                text_less_transitive(s[i], s[p - 1], t);
            }
        }
        assert forall|i: int, j: int| 0 <= i < j < q.len() implies text_less(
            #[trigger] q[i],
            #[trigger] q[j],
        ) by {
            let oi = if i < p { i } else { i - 1 };
            let oj = if j < p { j } else { j - 1 };
            if i == p {
                assert(q[j] == s[oj]);
            } else if j == p {
                assert(q[i] == s[oi]);
            } else {
                assert(q[i] == s[oi] && q[j] == s[oj]);
            }
        }
        assert forall|x: Text| #[trigger] q.contains(x) <==> s.contains(x) || x == t by {
            if s.contains(x) {
                let i = choose|i: int| 0 <= i < s.len() && s[i] == x;
                assert(q[if i < p { i } else { i + 1 }] == x);
            }
            if x == t {
                assert(q[p] == t);
            }
            if q.contains(x) && x != t {
                let i = choose|i: int| 0 <= i < q.len() && q[i] == x;
                assert(s[if i < p { i } else { i - 1 }] == x);
            }
        }
    }
}

/// Adding a text adds at most one.
pub proof fn with_text_len(s: Seq<Text>, t: Text)
    ensures
        with_text(s, t).len() == if s.contains(t) {
            s.len()
        } else {
            s.len() + 1
        },
{
    text_slot_bounds(s, t);
}

/// A sorted set is ascending without repeats, and holds exactly the texts
/// of the sequence it was made from.
pub proof fn sorted_set_holds(s: Seq<Text>)
    ensures
        strictly_sorted(sorted_set(s)),
        forall|x: Text| #[trigger] sorted_set(s).contains(x) <==> s.contains(x),
    decreases s.len(),
{
    if s.len() > 0 {
        let p = s.drop_last();
        sorted_set_holds(p);
        with_text_sorted(sorted_set(p), s.last());
        assert forall|x: Text| #[trigger] sorted_set(s).contains(x) <==> s.contains(x) by {
            if s.contains(x) && x != s.last() {
                let i = choose|i: int| 0 <= i < s.len() && s[i] == x;
                assert(p[i] == x);
            }
            if p.contains(x) {
                let i = choose|i: int| 0 <= i < p.len() && p[i] == x;
                assert(s[i] == x);
            }
            if x == s.last() {
                assert(s[s.len() - 1] == x);
            }
        }
    } else {
        assert(forall|x: Text| !s.contains(x));
    }
}

/// Two ascending sequences without repeats that hold the same texts are
/// the same sequence.
pub proof fn sorted_unique(a: Seq<Text>, b: Seq<Text>)
    requires
        strictly_sorted(a),
        strictly_sorted(b),
        forall|x: Text| #[trigger] a.contains(x) <==> b.contains(x),
    ensures
        a == b,
    decreases a.len(),
{
    if a.len() == 0 {
        if b.len() > 0 {
            assert(b.contains(b[0]));
            assert(a.contains(b[0]));
        }
        assert(a =~= b);
    } else {
        assert(a.contains(a.last()));
        assert(b.contains(a.last()));
        let k = choose|k: int| 0 <= k < b.len() && b[k] == a.last();
        assert(b.contains(b.last()));
        assert(a.contains(b.last()));
        let m = choose|m: int| 0 <= m < a.len() && a[m] == b.last();
        if m < a.len() - 1 {
            assert(text_less(a[m], a[a.len() - 1]));
            if k < b.len() - 1 {
                assert(text_less(b[k], b[b.len() - 1]));
                text_less_transitive(a.last(), b.last(), a.last());
            }
            text_less_irreflexive(a.last());
        }
        assert(a.last() == b.last());
        let x = a.drop_last();
        let y = b.drop_last();
        assert forall|t: Text| #[trigger] x.contains(t) <==> y.contains(t) by {
            text_less_irreflexive(t);
            if x.contains(t) {
                let i = choose|i: int| 0 <= i < x.len() && x[i] == t;
                assert(a[i] == t);
                assert(text_less(a[i], a[a.len() - 1]));
                assert(a.contains(t));
                assert(b.contains(t));
                let j = choose|j: int| 0 <= j < b.len() && b[j] == t;
                assert(y[j] == t);
            }
            if y.contains(t) {
                let i = choose|i: int| 0 <= i < y.len() && y[i] == t;
                assert(b[i] == t);
                assert(text_less(b[i], b[b.len() - 1]));
                assert(b.contains(t));
                assert(a.contains(t));
                let j = choose|j: int| 0 <= j < a.len() && a[j] == t;
                assert(x[j] == t);
            }
        }
        sorted_unique(x, y);
        assert(a =~= x.push(a.last()));
        assert(b =~= y.push(b.last()));
    }
}

/// A set of texts, ascending.
#[derive(Debug, PartialEq)]
pub struct TextSet {
    items: Vec<String>,
}

impl View for TextSet {
    type V = Seq<Text>;

    closed spec fn view(&self) -> Seq<Text> {
        views(self.items@)
    }
}

impl TextSet {
    #[verifier::type_invariant]
    spec fn sorted(&self) -> bool {
        strictly_sorted(views(self.items@))
    }

    pub fn new() -> (r: TextSet)
        ensures
            r@ == Seq::<Text>::empty(),
    {
        let items: Vec<String> = Vec::new();
        assert(views(items@) =~= Seq::<Text>::empty());
        TextSet { items }
    }

    /// The texts, ascending.
    pub fn items(&self) -> (r: &Vec<String>)
        ensures
            views(r@) == self@,
            strictly_sorted(self@),
    {
        proof {
            use_type_invariant(self);
        }
        &self.items
    }

    pub fn len(&self) -> (r: usize)
        ensures
            r == self@.len(),
    {
        self.items.len()
    }

    pub fn is_empty(&self) -> (r: bool)
        ensures
            r == (self@.len() == 0),
    {
        self.items.len() == 0
    }

    /// The first index whose text does not come before `t`.
    fn lower_bound(&self, t: &str) -> (p: usize)
        ensures
            p <= self@.len(),
            forall|i: int| 0 <= i < p ==> text_less(#[trigger] self@[i], t@),
            forall|i: int| p <= i < self@.len() ==> !text_less(#[trigger] self@[i], t@),
    {
        proof {
            use_type_invariant(self);
        }
        let mut lo: usize = 0;
        let mut hi: usize = self.items.len();
        while lo < hi
            invariant
                lo <= hi <= self.items@.len(),
                strictly_sorted(self@),
                forall|i: int| 0 <= i < lo ==> text_less(#[trigger] self@[i], t@),
                forall|i: int| hi <= i < self@.len() ==> !text_less(#[trigger] self@[i], t@),
            decreases hi - lo,
        {
            let mid: usize = lo + (hi - lo) / 2;
            if text_before(self.items[mid].as_str(), t) {
                proof {
                    assert forall|i: int| 0 <= i < mid + 1 implies text_less(
                        #[trigger] self@[i],
                        t@,
                    ) by {
                        if i < mid {
                            text_less_transitive(self@[i], self@[mid as int], t@);
                        }
                    }
                }
                lo = mid + 1;
            } else {
                proof {
                    assert forall|i: int| mid <= i < self@.len() implies !text_less(
                        #[trigger] self@[i],
                        t@,
                    ) by {
                        if i > mid && text_less(self@[i], t@) {
                            text_less_transitive(self@[mid as int], self@[i], t@);
                        }
                    }
                }
                hi = mid;
            }
        }
        lo
    }

    /// Where a text stands in the set.
    pub fn position(&self, t: &str) -> (r: Option<usize>)
        ensures
            match r {
                Some(i) => i < self@.len() && self@[i as int] == t@,
                None => !self@.contains(t@),
            },
    {
        let p: usize = self.lower_bound(t);
        proof {
            use_type_invariant(self);
            text_less_irreflexive(t@);
            if self@.contains(t@) {
                let i = choose|i: int| 0 <= i < self@.len() && self@[i] == t@;
                if p < i {
                    assert(text_less(self@[p as int], self@[i]));
                }
            }
        }
        if p < self.items.len() {
            assert(self@[p as int] == self.items@[p as int]@);
            if same(self.items[p].as_str(), t) {
                return Some(p);
            }
        }
        None
    }

    pub fn contains(&self, t: &str) -> (r: bool)
        ensures
            r == self@.contains(t@),
    {
        match self.position(t) {
            Some(i) => {
                assert(self@[i as int] == t@);
                true
            },
            None => false,
        }
    }

    pub fn into_items(self) -> (r: Vec<String>)
        ensures
            views(r@) == self@,
    {
        self.items
    }

    /// Adds a text; true when the set did not hold it.
    pub fn insert(&mut self, t: String) -> (added: bool)
        ensures
            final(self)@ == with_text(old(self)@, t@),
            added == !old(self)@.contains(t@),
            final(self)@.len() == old(self)@.len() + if added {
                1int
            } else {
                0
            },
    {
        if self.contains(t.as_str()) {
            return false;
        }
        let p: usize = self.lower_bound(t.as_str());
        proof {
            use_type_invariant(&*self);
            with_text_sorted(self@, t@);
            text_slot_bounds(self@, t@);
            let k = text_slot(self@, t@);
            if k > 0 {
                text_less_total(self@[k - 1], t@);
                assert(self@.contains(self@[k - 1]));
            }
            if k < p {
                text_less_transitive(self@[k], t@, self@[k]);
                text_less_irreflexive(self@[k]);
            }
            if p < k && p < k - 1 {
                text_less_transitive(self@[p as int], self@[k - 1], t@);
            }
        }
        let ghost before = self@;
        let mut items: Vec<String> = Vec::new();
        assert(views(items@) =~= Seq::<Text>::empty());
        std::mem::swap(&mut items, &mut self.items);
        items.insert(p, t);
        assert(views(items@) =~= before.insert(p as int, t@));
        self.items = items;
        true
    }
}

impl Clone for TextSet {
    fn clone(&self) -> (r: TextSet)
        ensures
            r@ == self@,
    {
        proof {
            use_type_invariant(self);
        }
        let items = self.items.clone();
        assert(views(items@) =~= views(self.items@)) by {
            assert forall|i: int| 0 <= i < items@.len() implies items@[i]@ == self.items@[i]@ by {
                assert(vstd::pervasive::cloned(self.items@[i], items@[i]));
            }
        }
        TextSet { items }
    }
}

/// The distinct texts, ascending.
pub fn sort_set(texts: &Vec<String>) -> (r: Vec<String>)
    ensures
        views(r@) == sorted_set(views(texts@)),
        strictly_sorted(views(r@)),
{
    let mut set = TextSet::new();
    let mut i: usize = 0;
    let ghost all = views(texts@);
    assert(all.take(0) =~= Seq::empty());
    while i < texts.len()
        invariant
            i <= texts@.len(),
            all == views(texts@),
            set@ == sorted_set(all.take(i as int)),
        decreases texts@.len() - i,
    {
        assert(all.take(i + 1).drop_last() =~= all.take(i as int));
        set.insert(texts[i].clone());
        i = i + 1;
    }
    assert(all.take(i as int) =~= all);
    proof {
        sorted_set_holds(all);
    }
    set.into_items()
}

// ── Grouping ──────────────────────────────────────────────────────────────

pub open spec fn ints(v: Seq<usize>) -> Seq<int> {
    v.map_values(|x: usize| x as int)
}

/// The indices that hold a key, ascending.
pub open spec fn holders(keys: Seq<Text>, k: Text) -> Seq<int>
    decreases keys.len(),
{
    if keys.len() == 0 {
        Seq::empty()
    } else {
        let h = holders(keys.drop_last(), k);
        if keys.last() == k {
            h.push(keys.len() - 1)
        } else {
            h
        }
    }
}

/// The holders of a key are the indices where it stands, in order.
pub proof fn holders_hold(keys: Seq<Text>, k: Text)
    ensures
        forall|i: int|
            0 <= i < holders(keys, k).len() ==> 0 <= #[trigger] holders(keys, k)[i] < keys.len()
                && keys[holders(keys, k)[i]] == k,
        forall|i: int, j: int|
            0 <= i < j < holders(keys, k).len() ==> #[trigger] holders(keys, k)[i]
                < #[trigger] holders(keys, k)[j],
        keys.contains(k) ==> holders(keys, k).len() > 0,
    decreases keys.len(),
{
    if keys.len() > 0 {
        let before = keys.drop_last();
        holders_hold(before, k);
        let h = holders(before, k);
        assert forall|i: int| 0 <= i < holders(keys, k).len() implies 0 <= #[trigger] holders(
            keys,
            k,
        )[i] < keys.len() && keys[holders(keys, k)[i]] == k by {
            if i < h.len() {
                assert(holders(keys, k)[i] == h[i]);
                assert(before[h[i]] == keys[h[i]]);
            }
        }
        assert forall|i: int, j: int| 0 <= i < j < holders(keys, k).len() implies
            #[trigger] holders(keys, k)[i] < #[trigger] holders(keys, k)[j] by {
            assert(holders(keys, k)[i] == h[i]);
            if j < h.len() {
                assert(holders(keys, k)[j] == h[j]);
            }
        }
        if keys.contains(k) && keys.last() != k {
            let i = choose|i: int| 0 <= i < keys.len() && keys[i] == k;
            assert(before[i] == k);
        }
    }
}

/// Every index where a key stands is among its holders.
pub proof fn holders_have(keys: Seq<Text>, k: Text, i: int)
    requires
        0 <= i < keys.len(),
        keys[i] == k,
    ensures
        holders(keys, k).contains(i),
    decreases keys.len(),
{
    let h = holders(keys, k);
    if i == keys.len() - 1 {
        assert(h[h.len() - 1] == i);
    } else {
        let before = holders(keys.drop_last(), k);
        holders_have(keys.drop_last(), k, i);
        let x = choose|x: int| 0 <= x < before.len() && before[x] == i;
        assert(h[x] == i);
    }
}

/// Sorts indices into one list per distinct key.
pub fn group_by_text(keys: &Vec<String>) -> (r: (TextSet, Vec<Vec<usize>>))
    ensures
        r.0@ == sorted_set(views(keys@)),
        r.1@.len() == r.0@.len(),
        forall|k: int|
            0 <= k < r.1@.len() ==> ints((#[trigger] r.1@[k])@) == holders(views(keys@), r.0@[k]),
{
    let ghost all = views(keys@);
    let mut set = TextSet::new();
    let mut i: usize = 0;
    assert(all.take(0) =~= Seq::empty());
    while i < keys.len()
        invariant
            i <= keys@.len(),
            all == views(keys@),
            set@ == sorted_set(all.take(i as int)),
        decreases keys@.len() - i,
    {
        assert(all.take(i + 1).drop_last() =~= all.take(i as int));
        set.insert(keys[i].clone());
        i = i + 1;
    }
    assert(all.take(i as int) =~= all);
    proof {
        sorted_set_holds(all);
    }
    let mut groups: Vec<Vec<usize>> = Vec::new();
    let mut g: usize = 0;
    while g < set.len()
        invariant
            g <= set@.len(),
            groups@.len() == g,
            all.take(0) == Seq::<Text>::empty(),
            forall|k: int|
                0 <= k < g ==> ints((#[trigger] groups@[k])@) == holders(all.take(0), set@[k]),
        decreases set@.len() - g,
    {
        let none: Vec<usize> = Vec::new();
        assert(ints(none@) =~= Seq::empty());
        groups.push(none);
        g = g + 1;
    }
    let mut j: usize = 0;
    while j < keys.len()
        invariant
            j <= keys@.len(),
            all == views(keys@),
            strictly_sorted(set@),
            forall|x: Text| #[trigger] set@.contains(x) <==> all.contains(x),
            groups@.len() == set@.len(),
            forall|k: int|
                0 <= k < groups@.len() ==> ints((#[trigger] groups@[k])@) == holders(
                    all.take(j as int),
                    set@[k],
                ),
        decreases keys@.len() - j,
    {
        let ghost next = all.take(j + 1);
        assert(next.drop_last() =~= all.take(j as int));
        let ghost name = all[j as int];
        let ghost before = groups@;
        match set.position(keys[j].as_str()) {
            Some(p) => {
                groups[p].push(j);
                proof {
                    assert forall|k: int| 0 <= k < groups@.len() implies ints(
                        (#[trigger] groups@[k])@,
                    ) == holders(next, set@[k]) by {
                        if k == p {
                            assert(ints(groups@[k]@) =~= ints(before[k]@).push(j as int));
                        } else {
                            assert(groups@[k] == before[k]);
                            if set@[k] == name {
                                text_less_irreflexive(name);
                                if k < p {
                                    assert(text_less(set@[k], set@[p as int]));
                                } else {
                                    assert(text_less(set@[p as int], set@[k]));
                                }
                            }
                        }
                    }
                }
            },
            None => {
                proof {
                    assert(all.contains(name));
                    assert(set@.contains(name));
                }
            },
        }
        j = j + 1;
    }
    assert(all.take(j as int) =~= all);
    (set, groups)
}

} // verus!
