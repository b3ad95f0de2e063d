//! Properties that hold across the operations of the book.
use vstd::prelude::*;
use crate::book::OrderBook;
use crate::level::{ids_of, of_user, not_of_user, other_id};
use crate::side::{
    LevelView, flat, best_price, side_wf, level_wf, inserted, removed, lower_bound, level_inside,
    lemma_lower_bound, lemma_lower_bound_unique, lemma_filter_all, lemma_filter_none, lemma_remove_in_level,
};
use crate::types::{Order, OrderId, Price, Side, UserId, owned_by};

verus! {

broadcast use {vstd::seq_lib::group_seq_properties, vstd::seq_lib::group_filter_ensures};

/// In a well-formed book no price level is empty.
pub proof fn lemma_no_empty_level(b: OrderBook)
    requires
        b.wf(),
    ensures
        forall|i: int| 0 <= i < b.bids@.len() ==> (#[trigger] b.bids@[i]).1.len() > 0,
        forall|i: int| 0 <= i < b.asks@.len() ==> (#[trigger] b.asks@[i]).1.len() > 0,
{
    assert forall|i: int| 0 <= i < b.bids@.len() implies (#[trigger] b.bids@[i]).1.len() > 0 by {
        assert(level_wf(Side::Buy, b.bids@[i]));
    }
    assert forall|i: int| 0 <= i < b.asks@.len() implies (#[trigger] b.asks@[i]).1.len() > 0 by {
        assert(level_wf(Side::Sell, b.asks@[i]));
    }
}

/// The best price of a side is none exactly when the side has no level;
/// otherwise it is the price of one of its levels, the highest for bids
/// and the lowest for asks.
pub proof fn lemma_best_is_extreme(side: Side, s: Seq<LevelView>)
    requires
        side_wf(side, s),
    ensures
        best_price(side, s) is None <==> s.len() == 0,
        forall|p: Price| best_price(side, s) == Some(p) ==> {
            &&& exists|i: int| 0 <= i < s.len() && (#[trigger] s[i]).0 == p
            &&& forall|j: int| 0 <= j < s.len() ==> match side {
                Side::Buy => (#[trigger] s[j]).0 <= p,
                Side::Sell => s[j].0 >= p,
            }
        },
{
    if s.len() > 0 {
        let n = s.len() - 1;
        assert forall|j: int| 0 <= j < s.len() implies match side {
            Side::Buy => (#[trigger] s[j]).0 <= s[n].0,
            Side::Sell => s[j].0 >= s[0].0,
        } by {
            if j < n {
                assert(s[j].0 < s[n].0);
            }
            if j > 0 {
                assert(s[0].0 < s[j].0);
            }
        }
    }
}

/// After every order is cancelled, cancelling every order again finds
/// nothing: the book holds no order.
pub proof fn lemma_cancel_all_again(b: OrderBook)
    requires
        b.bids@ == Seq::<LevelView>::empty(),
        b.asks@ == Seq::<LevelView>::empty(),
    ensures
        ids_of(b.orders()) == Seq::<crate::types::OrderId>::empty(),
{
    assert(flat(b.bids@) =~= Seq::<Order>::empty());
    assert(flat(b.asks@) =~= Seq::<Order>::empty());
    assert(ids_of(b.orders()) =~= Seq::<crate::types::OrderId>::empty());
}

/// Once the orders of a user are cancelled, none of the remaining orders
/// is theirs: a second cancel for that user finds nothing.
pub proof fn lemma_cancel_user_again(s: Seq<Order>, u: UserId)
    ensures
        s.filter(not_of_user(u)).filter(of_user(u)) == Seq::<Order>::empty(),
{
    let f = s.filter(not_of_user(u));
    assert forall|k: int| 0 <= k < f.len() implies !of_user(u)(#[trigger] f[k]) by {
        assert(not_of_user(u)(f[k]));
    }
    lemma_filter_none(f, of_user(u));
}

/// A filter that no level passes leaves no level.
pub proof fn lemma_levels_filter_none(s: Seq<LevelView>, p: spec_fn(LevelView) -> bool)
    requires
        forall|k: int| 0 <= k < s.len() ==> !p(#[trigger] s[k]),
    ensures
        s.filter(p) == Seq::<LevelView>::empty(),
    decreases s.len(),
{
    if s.len() == 0 {
        reveal(Seq::filter);
    } else {
        let r = s.drop_last();
        assert(s =~= r.push(s.last()));
        lemma_levels_filter_none(r, p);
        r.lemma_filter_push(s.last(), p);
    }
}

/// The levels of a side that a range `[p, p]` selects: the level at `p`,
/// if there is one, and nothing else.
pub open spec fn level_at(s: Seq<LevelView>, p: Price) -> Seq<LevelView> {
    let i = lower_bound(s, p);
    if i < s.len() && s[i].0 == p {
        seq![s[i]]
    } else {
        Seq::empty()
    }
}

/// A range whose bounds are equal selects exactly the level at that price,
/// if present.
pub proof fn lemma_range_single_price(side: Side, s: Seq<LevelView>, p: Price)
    requires
        side_wf(side, s),
    ensures
        s.filter(level_inside(p, p)) == level_at(s, p),
    decreases s.len(),
{
    if s.len() == 0 {
        reveal(Seq::filter);
    } else {
        let r = s.drop_last();
        let x = s.last();
        assert(s =~= r.push(x));
        assert(side_wf(side, r)) by {
            assert forall|i: int, j: int| 0 <= i < j < r.len() implies
                (#[trigger] r[i]).0 < (#[trigger] r[j]).0 by {
                assert(r[i] == s[i] && r[j] == s[j]);
            }
            assert forall|j: int| 0 <= j < r.len() implies level_wf(side, #[trigger] r[j]) by {
                assert(r[j] == s[j]);
            }
        }
        lemma_range_single_price(side, r, p);
        r.lemma_filter_push(x, level_inside(p, p));
        lemma_lower_bound(side, r, p);
        assert forall|k: int| 0 <= k < r.len() implies r[k].0 < x.0 by {
            assert(s[k].0 < s[s.len() - 1].0);
        }
        if x.0 == p {
            assert forall|k: int| 0 <= k < r.len() implies !level_inside(p, p)(#[trigger] r[k]) by {
                assert(r[k].0 < x.0);
            }
            lemma_levels_filter_none(r, level_inside(p, p));
            assert(r.filter(level_inside(p, p)).push(x) =~= seq![x]);
        } else if x.0 < p {
            if r.len() > 0 {
                assert(r[r.len() - 1].0 < x.0);
            }
        }
    }
}

/// A range on a side with no levels selects nothing.
pub proof fn lemma_range_on_empty_side(s: Seq<LevelView>, lo: Price, hi: Price)
    requires
        s.len() == 0,
    ensures
        flat(s.filter(level_inside(lo, hi))) == Seq::<Order>::empty(),
{
    reveal(Seq::filter);
    assert(s.filter(level_inside(lo, hi)).len() == 0);
}

/// Adding a new order and then cancelling it gives back the levels as they
/// were.
pub proof fn lemma_add_then_cancel(side: Side, s: Seq<LevelView>, o: Order)
    requires
        side_wf(side, s),
        o.side == side,
        o.price > 0,
        o.remaining_quantity > 0,
        !ids_of(flat(s)).contains(o.id),
    ensures
        removed(inserted(s, o), o.id, o.price) == s,
{
    let p = o.price;
    lemma_lower_bound(side, s, p);
    let i = lower_bound(s, p);
    let n = inserted(s, o);
    if i < s.len() && s[i].0 == p {
        let l = s[i].1;
        assert forall|j: int| 0 <= j < i implies n[j].0 < p by {}
        assert forall|j: int| i <= j < n.len() implies n[j].0 >= p by {}
        assert(side_wf(side, n)) by {
            assert forall|a: int, b: int| 0 <= a < b < n.len() implies
                (#[trigger] n[a]).0 < (#[trigger] n[b]).0 by {}
            assert forall|a: int| 0 <= a < n.len() implies level_wf(side, #[trigger] n[a]) by {
                if a == i {
                    assert(level_wf(side, s[i]));
                    assert forall|k: int| 0 <= k < n[a].1.len() implies {
                        &&& (#[trigger] n[a].1[k]).price == n[a].0
                        &&& n[a].1[k].side == side
                        &&& n[a].1[k].remaining_quantity > 0
                    } by {
                        if k < l.len() {
                            assert(n[a].1[k] == l[k]);
                        }
                    }
                }
            }
        }
        lemma_lower_bound_unique(side, n, p, i);
        lemma_remove_in_level(side, s, i, o.id);
        assert forall|k: int| 0 <= k < l.len() implies #[trigger] other_id(o.id)(l[k]) by {
            assert(l.contains(l[k]));
            assert(flat(s).contains(l[k]));
            let m = choose|m: int| 0 <= m < flat(s).len() && flat(s)[m] == l[k];
            assert(ids_of(flat(s))[m] == l[k].id);
        }
        lemma_filter_all(l, other_id(o.id));
        l.lemma_filter_push(o, other_id(o.id));
        assert(level_wf(side, s[i]));
        assert(removed(n, o.id, p) =~= s);
    } else {
        assert forall|j: int| 0 <= j < i implies n[j].0 < p by {}
        assert forall|j: int| i <= j < n.len() implies n[j].0 >= p by {
            if j > i {
                assert(n[j] == s[j - 1]);
            }
        }
        assert(side_wf(side, n)) by {
            assert forall|a: int, b: int| 0 <= a < b < n.len() implies
                (#[trigger] n[a]).0 < (#[trigger] n[b]).0 by {
                if a < i && b > i {
                    assert(n[b] == s[b - 1]);
                }
            }
            assert forall|a: int| 0 <= a < n.len() implies level_wf(side, #[trigger] n[a]) by {
                if a > i {
                    assert(n[a] == s[a - 1]);
                }
            }
        }
        lemma_lower_bound_unique(side, n, p, i);
        Seq::<Order>::empty().lemma_filter_push(o, other_id(o.id));
        assert(seq![o] =~= Seq::<Order>::empty().push(o));
        reveal(Seq::filter);
        assert(removed(n, o.id, p) =~= s);
    }
}

/// Where the `k`-th order of the levels sits: its level and its place there.
pub proof fn lemma_flat_member(s: Seq<LevelView>, k: int) -> (r: (int, int))
    requires
        0 <= k < flat(s).len(),
    ensures
        0 <= r.0 < s.len(),
        0 <= r.1 < s[r.0].1.len(),
        k == flat(s.take(r.0)).len() + r.1,
        flat(s)[k] == s[r.0].1[r.1],
    decreases s.len(),
{
    let q = s.drop_last();
    if k < flat(q).len() {
        let (j, m) = lemma_flat_member(q, k);
        assert(q.take(j) =~= s.take(j));
        assert(flat(s)[k] == flat(q)[k]);
        (j, m)
    } else {
        let j = s.len() - 1;
        assert(s.take(j) =~= q);
        (j, k - flat(q).len())
    }
}

/// Every resting order resolves through the directory to a level of its
/// side at its price, and that level holds its id exactly once.
pub proof fn lemma_directory_resolves(b: OrderBook, k: int)
    requires
        b.wf(),
        0 <= k < b.orders().len(),
    ensures
        ({
            let o = b.orders()[k];
            let s = b.side_view(o.side);
            exists|j: int, m: int| {
                &&& 0 <= j < s.len()
                &&& s[j].0 == o.price
                &&& 0 <= m < s[j].1.len()
                &&& #[trigger] s[j].1[m] == o
                &&& forall|x: int| 0 <= x < s[j].1.len() && (#[trigger] s[j].1[x]).id == o.id ==> x == m
            }
        }),
{
    let fb = flat(b.bids@);
    let fa = flat(b.asks@);
    let o = b.orders()[k];
    assert(ids_of(fb) =~= ids_of(fb + fa).take(fb.len() as int));
    assert(ids_of(fa) =~= ids_of(fb + fa).skip(fb.len() as int));
    crate::side::lemma_flat_sides(Side::Buy, b.bids@);
    crate::side::lemma_flat_sides(Side::Sell, b.asks@);
    let (s, f, kk) = if k < fb.len() {
        assert(o == fb[k]);
        (b.bids@, fb, k)
    } else {
        assert(o == fa[k - fb.len()]);
        (b.asks@, fa, k - fb.len())
    };
    assert(s == b.side_view(o.side));
    assert(ids_of(f).no_duplicates());
    let (j, m) = lemma_flat_member(s, kk);
    crate::side::lemma_flat_split(s, j);
    assert(level_wf(o.side, s[j]));
    assert forall|x: int| 0 <= x < s[j].1.len() && (#[trigger] s[j].1[x]).id == o.id implies x == m by {
        let a = flat(s.take(j));
        assert(f[a.len() + x] == s[j].1[x]);
        assert(f[a.len() + m] == s[j].1[m]);
        assert(ids_of(f)[a.len() + x] == ids_of(f)[a.len() + m]);
    }
}

/// The user index: the ids of the resting orders of user `u`.
pub open spec fn user_index(b: OrderBook, u: UserId) -> Set<OrderId> {
    ids_of(b.orders().filter(of_user(u))).to_set()
}

/// The user index of `u` is the set of ids of resting orders owned by `u`.
pub proof fn lemma_user_index(b: OrderBook, u: UserId)
    ensures
        user_index(b, u) == Set::new(|id: OrderId| exists|k: int|
            0 <= k < b.orders().len() && (#[trigger] b.orders()[k]).id == id && owned_by(b.orders()[k], u)),
{
    let s = b.orders();
    let f = s.filter(of_user(u));
    let target = Set::new(|id: OrderId| exists|k: int|
        0 <= k < s.len() && (#[trigger] s[k]).id == id && owned_by(s[k], u));
    assert forall|id: OrderId| user_index(b, u).contains(id) implies target.contains(id) by {
        let m = choose|m: int| 0 <= m < ids_of(f).len() && ids_of(f)[m] == id;
        assert(of_user(u)(f[m]));
        s.lemma_filter_contains_rev(of_user(u), f[m]);
        let k = choose|k: int| 0 <= k < s.len() && s[k] == f[m];
        assert(s[k].id == id);
    }
    assert forall|id: OrderId| target.contains(id) implies user_index(b, u).contains(id) by {
        let k = choose|k: int| 0 <= k < s.len() && (#[trigger] s[k]).id == id && owned_by(s[k], u);
        assert(f.contains(s[k]));
        let m = choose|m: int| 0 <= m < f.len() && f[m] == s[k];
        assert(ids_of(f)[m] == id);
    }
    assert(user_index(b, u) =~= target);
}

} // verus!
