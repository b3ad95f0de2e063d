//! One side of the book: price levels kept in ascending order of price.
use vstd::prelude::*;
use crate::types::{Order, OrderId, Price, Quantity, Side, UserId};
use crate::level::{PriceLevel, ids_of, of_user, not_of_user, other_id};

verus! {

broadcast use vstd::seq_lib::group_seq_properties;

/// A price level as a mathematical value: its price and its orders.
pub type LevelView = (Price, Seq<Order>);

/// A level may rest in the index of `side`: positive price, at least one
/// order, and every order of that side, at that price, with open quantity.
pub open spec fn level_wf(side: Side, lv: LevelView) -> bool {
    &&& lv.0 > 0
    &&& lv.1.len() > 0
    &&& forall|k: int|
        0 <= k < lv.1.len() ==> {
            &&& (#[trigger] lv.1[k]).price == lv.0
            &&& lv.1[k].side == side
            &&& lv.1[k].remaining_quantity > 0
        }
}

/// Well-formed levels of one side: each level well formed, prices strictly
/// ascending.
pub open spec fn side_wf(side: Side, s: Seq<LevelView>) -> bool {
    &&& forall|i: int| 0 <= i < s.len() ==> level_wf(side, #[trigger] s[i])
    &&& forall|i: int, j: int| 0 <= i < j < s.len() ==> (#[trigger] s[i]).0 < (#[trigger] s[j]).0
}

/// Every order of the levels: level after level, each level oldest first.
pub open spec fn flat(s: Seq<LevelView>) -> Seq<Order>
    decreases s.len(),
{
    if s.len() == 0 {
        Seq::empty()
    } else {
        flat(s.drop_last()) + s.last().1
    }
}

/// The best price of a side: the highest bid, the lowest ask.
pub open spec fn best_price(side: Side, s: Seq<LevelView>) -> Option<Price> {
    if s.len() == 0 {
        None
    } else {
        match side {
            Side::Buy => Some(s.last().0),
            Side::Sell => Some(s[0].0),
        }
    }
}

/// Keeps the levels whose price lies outside `[lo, hi]`.
pub open spec fn level_outside(lo: Price, hi: Price) -> spec_fn(LevelView) -> bool {
    |lv: LevelView| !(lo <= lv.0 && lv.0 <= hi)
}

/// Keeps the levels whose price lies inside `[lo, hi]`.
pub open spec fn level_inside(lo: Price, hi: Price) -> spec_fn(LevelView) -> bool {
    |lv: LevelView| lo <= lv.0 && lv.0 <= hi
}

/// Keeps the orders of `side` whose price lies outside `[lo, hi]`, and all
/// orders of the other side.
pub open spec fn order_outside(side: Side, lo: Price, hi: Price) -> spec_fn(Order) -> bool {
    |o: Order| !(o.side == side && lo <= o.price && o.price <= hi)
}

/// The levels without the orders of user `u`; levels left empty are gone.
pub open spec fn strip_user(s: Seq<LevelView>, u: UserId) -> Seq<LevelView>
    decreases s.len(),
{
    if s.len() == 0 {
        s
    } else {
        let rest = strip_user(s.drop_last(), u);
        let kept = s.last().1.filter(not_of_user(u));
        if kept.len() == 0 {
            rest
        } else {
            rest.push((s.last().0, kept))
        }
    }
}

/// Index of the first level whose price is at least `p`, in levels sorted
/// by price.
pub open spec fn lower_bound(s: Seq<LevelView>, p: Price) -> int
    decreases s.len(),
{
    if s.len() == 0 {
        0
    } else if s.last().0 < p {
        s.len() as int
    } else {
        lower_bound(s.drop_last(), p)
    }
}

/// The levels after `o` is added: at the back of its price's level, or in
/// a new level at its place in price order.
pub open spec fn inserted(s: Seq<LevelView>, o: Order) -> Seq<LevelView> {
    let i = lower_bound(s, o.price);
    if i < s.len() && s[i].0 == o.price {
        s.update(i, (o.price, s[i].1.push(o)))
    } else {
        s.insert(i, (o.price, seq![o]))
    }
}

/// The levels after the order `id` is taken out of the level at `price`;
/// a level left empty is gone.
pub open spec fn removed(s: Seq<LevelView>, id: OrderId, price: Price) -> Seq<LevelView> {
    let i = lower_bound(s, price);
    if i < s.len() && s[i].0 == price {
        let kept = s[i].1.filter(other_id(id));
        if kept.len() == 0 {
            s.remove(i)
        } else {
            s.update(i, (price, kept))
        }
    } else {
        s
    }
}

/// In sorted levels, `lower_bound` splits the prices below `p` from the rest.
pub proof fn lemma_lower_bound(side: Side, s: Seq<LevelView>, p: Price)
    requires
        side_wf(side, s),
    ensures
        0 <= lower_bound(s, p) <= s.len(),
        forall|j: int| 0 <= j < lower_bound(s, p) ==> s[j].0 < p,
        forall|j: int| lower_bound(s, p) <= j < s.len() ==> s[j].0 >= p,
    decreases s.len(),
{
    if s.len() > 0 {
        let r = s.drop_last();
        assert(side_wf(side, r)) by {
            assert forall|i: int, j: int| 0 <= i < j < r.len() implies
                (#[trigger] r[i]).0 < (#[trigger] r[j]).0 by {
                assert(r[i] == s[i] && r[j] == s[j]);
            }
        }
        lemma_lower_bound(side, r, p);
        if s.last().0 < p {
            assert forall|j: int| 0 <= j < s.len() implies s[j].0 < p by {
                if j < s.len() - 1 {
                    assert(s[j].0 < s[s.len() - 1].0);
                }
            }
        } else {
            assert forall|j: int| lower_bound(s, p) <= j < s.len() implies s[j].0 >= p by {
                if j < s.len() - 1 {
                    assert(r[j] == s[j]);
                }
            }
            assert forall|j: int| 0 <= j < lower_bound(s, p) implies s[j].0 < p by {
                assert(r[j] == s[j]);
            }
        }
    }
}

/// Any index that splits sorted levels at `p` is `lower_bound`.
pub proof fn lemma_lower_bound_unique(side: Side, s: Seq<LevelView>, p: Price, i: int)
    requires
        side_wf(side, s),
        0 <= i <= s.len(),
        forall|j: int| 0 <= j < i ==> s[j].0 < p,
        forall|j: int| i <= j < s.len() ==> s[j].0 >= p,
    ensures
        lower_bound(s, p) == i,
{
    lemma_lower_bound(side, s, p);
    let b = lower_bound(s, p);
    if b < i {
        assert(s[b].0 < p);
    } else if i < b {
        assert(s[i].0 >= p);
    }
}

/// A filter that every element passes keeps the sequence.
pub proof fn lemma_filter_all(s: Seq<Order>, p: spec_fn(Order) -> bool)
    requires
        forall|k: int| 0 <= k < s.len() ==> p(#[trigger] s[k]),
    ensures
        s.filter(p) == s,
    decreases s.len(),
{
    if s.len() == 0 {
        reveal(Seq::filter);
    } else {
        let r = s.drop_last();
        assert(s =~= r.push(s.last()));
        lemma_filter_all(r, p);
        r.lemma_filter_push(s.last(), p);
    }
}

/// A filter that no element passes leaves nothing.
pub proof fn lemma_filter_none(s: Seq<Order>, p: spec_fn(Order) -> bool)
    requires
        forall|k: int| 0 <= k < s.len() ==> !p(#[trigger] s[k]),
    ensures
        s.filter(p) == Seq::<Order>::empty(),
    decreases s.len(),
{
    if s.len() == 0 {
        reveal(Seq::filter);
    } else {
        let r = s.drop_last();
        assert(s =~= r.push(s.last()));
        lemma_filter_none(r, p);
        r.lemma_filter_push(s.last(), p);
    }
}

/// `o` with `fill` taken off its visible quantity.
pub open spec fn reduced(o: Order, fill: Quantity) -> Order {
    Order { remaining_quantity: (o.remaining_quantity - fill) as u64, ..o }
}

/// Orders of two runs of levels are the orders of each, in turn.
pub proof fn lemma_flat_add(a: Seq<LevelView>, b: Seq<LevelView>)
    ensures
        flat(a + b) == flat(a) + flat(b),
    decreases b.len(),
{
    if b.len() == 0 {
        assert(a + b =~= a);
        assert(flat(b) =~= Seq::<Order>::empty());
        assert(flat(a) + flat(b) =~= flat(a));
    } else {
        assert((a + b).drop_last() =~= a + b.drop_last());
        lemma_flat_add(a, b.drop_last());
        assert(flat(a + b) =~= flat(a) + flat(b));
    }
}

/// Orders after pushing a level: those before, then the level's.
pub proof fn lemma_flat_push(s: Seq<LevelView>, lv: LevelView)
    ensures
        flat(s.push(lv)) == flat(s) + lv.1,
{
    assert(s.push(lv).drop_last() =~= s);
}

/// A filter keeps distinct ids distinct.
pub proof fn lemma_no_dup_filter(s: Seq<Order>, p: spec_fn(Order) -> bool)
    requires
        ids_of(s).no_duplicates(),
    ensures
        ids_of(s.filter(p)).no_duplicates(),
    decreases s.len(),
{
    if s.len() > 0 {
        let r = s.drop_last();
        let x = s.last();
        assert(s =~= r.push(x));
        assert(ids_of(r) =~= ids_of(s).drop_last());
        lemma_no_dup_filter(r, p);
        r.lemma_filter_push(x, p);
        if p(x) {
            let f = r.filter(p);
            assert forall|i: int| 0 <= i < f.len() implies f[i].id != x.id by {
                r.lemma_filter_contains_rev(p, f[i]);
                let k = choose|k: int| 0 <= k < r.len() && r[k] == f[i];
                assert(ids_of(s)[k] == f[i].id);
                assert(ids_of(s)[s.len() - 1] == x.id);
            }
            assert(ids_of(f.push(x)) =~= ids_of(f).push(x.id));
        }
    }
}

/// The views of a sequence of levels.
pub open spec fn level_views(v: Seq<PriceLevel>) -> Seq<LevelView> {
    v.map_values(|l: PriceLevel| l@)
}

/// Keeps every order but the one with id `id` at price `price`.
pub open spec fn other_order(id: OrderId, price: Price) -> spec_fn(Order) -> bool {
    |o: Order| !(o.id == id && o.price == price)
}

/// Two predicates that agree on every element filter alike.
pub proof fn lemma_filter_agree(s: Seq<Order>, p: spec_fn(Order) -> bool, q: spec_fn(Order) -> bool)
    requires
        forall|k: int| 0 <= k < s.len() ==> p(#[trigger] s[k]) == q(s[k]),
    ensures
        s.filter(p) == s.filter(q),
    decreases s.len(),
{
    if s.len() == 0 {
        reveal(Seq::filter);
    } else {
        let r = s.drop_last();
        assert(s =~= r.push(s.last()));
        lemma_filter_agree(r, p, q);
        r.lemma_filter_push(s.last(), p);
        r.lemma_filter_push(s.last(), q);
    }
}

/// Orders of well-formed levels carry their level's price.
pub proof fn lemma_flat_prices(side: Side, s: Seq<LevelView>)
    requires
        forall|j: int| 0 <= j < s.len() ==> level_wf(side, #[trigger] s[j]),
    ensures
        forall|k: int| 0 <= k < flat(s).len() ==>
            exists|j: int| 0 <= j < s.len() && (#[trigger] flat(s)[k]).price == s[j].0,
    decreases s.len(),
{
    if s.len() > 0 {
        let r = s.drop_last();
        assert forall|j: int| 0 <= j < r.len() implies level_wf(side, #[trigger] r[j]) by {
            assert(r[j] == s[j]);
        }
        lemma_flat_prices(side, r);
        assert forall|k: int| 0 <= k < flat(s).len() implies
            exists|j: int| 0 <= j < s.len() && (#[trigger] flat(s)[k]).price == s[j].0 by {
            if k < flat(r).len() {
                let j = choose|j: int| 0 <= j < r.len() && flat(r)[k].price == r[j].0;
                assert(flat(s)[k] == flat(r)[k]);
                assert(r[j] == s[j]);
            } else {
                assert(flat(s)[k] == s.last().1[k - flat(r).len()]);
                assert(level_wf(side, s[s.len() - 1]));
            }
        }
    }
}

/// The orders of levels split around level `i`.
pub proof fn lemma_flat_split(s: Seq<LevelView>, i: int)
    requires
        0 <= i < s.len(),
    ensures
        flat(s) == flat(s.take(i)) + s[i].1 + flat(s.skip(i + 1)),
{
    assert(s =~= s.take(i).push(s[i]) + s.skip(i + 1));
    lemma_flat_add(s.take(i).push(s[i]), s.skip(i + 1));
    lemma_flat_push(s.take(i), s[i]);
}

/// Removing the order `id` from level `i` filters the orders of all levels.
pub proof fn lemma_remove_in_level(side: Side, s: Seq<LevelView>, i: int, id: OrderId)
    requires
        side_wf(side, s),
        0 <= i < s.len(),
    ensures
        flat(s).filter(other_order(id, s[i].0))
            == flat(s.take(i)) + s[i].1.filter(other_id(id)) + flat(s.skip(i + 1)),
        (exists|k: int| 0 <= k < flat(s).len()
            && (#[trigger] flat(s)[k]).id == id && flat(s)[k].price == s[i].0)
            <==> ids_of(s[i].1).contains(id),
        forall|o: Order| s[i].1.contains(o) ==> flat(s).contains(o),
{
    let price = s[i].0;
    let a = s.take(i);
    let b = s.skip(i + 1);
    let l = s[i].1;
    let f = flat(s);
    lemma_flat_split(s, i);
    assert(level_wf(side, s[i]));
    lemma_flat_prices(side, a);
    lemma_flat_prices(side, b);
    assert forall|k: int| 0 <= k < flat(a).len() implies #[trigger] other_order(id, price)(flat(a)[k]) by {
        let j = choose|j: int| 0 <= j < a.len() && flat(a)[k].price == a[j].0;
        assert(a[j] == s[j]);
    }
    assert forall|k: int| 0 <= k < flat(b).len() implies #[trigger] other_order(id, price)(flat(b)[k]) by {
        let j = choose|j: int| 0 <= j < b.len() && flat(b)[k].price == b[j].0;
        assert(b[j] == s[i + 1 + j]);
    }
    lemma_filter_all(flat(a), other_order(id, price));
    lemma_filter_all(flat(b), other_order(id, price));
    lemma_filter_agree(l, other_order(id, price), other_id(id));
    Seq::filter_distributes_over_add(flat(a) + l, flat(b), other_order(id, price));
    Seq::filter_distributes_over_add(flat(a), l, other_order(id, price));
    assert forall|o: Order| l.contains(o) implies f.contains(o) by {
        let j = choose|j: int| 0 <= j < l.len() && l[j] == o;
        assert(f[flat(a).len() + j] == o);
    }
    if ids_of(l).contains(id) {
        let j = choose|j: int| 0 <= j < ids_of(l).len() && ids_of(l)[j] == id;
        assert(f[flat(a).len() + j] == l[j]);
    }
    if exists|k: int| 0 <= k < f.len() && (#[trigger] f[k]).id == id && f[k].price == price {
        let k = choose|k: int| 0 <= k < f.len() && (#[trigger] f[k]).id == id && f[k].price == price;
        if flat(a).len() <= k < flat(a).len() + l.len() {
            assert(f[k] == l[k - flat(a).len()]);
            assert(ids_of(l)[k - flat(a).len()] == id);
        } else if k < flat(a).len() {
            assert(f[k] == flat(a)[k]);
            assert(other_order(id, price)(flat(a)[k]));
        } else {
            assert(f[k] == flat(b)[k - flat(a).len() - l.len()]);
            assert(other_order(id, price)(flat(b)[k - flat(a).len() - l.len()]));
        }
    }
}

/// With no level at `price`, no order has that price.
pub proof fn lemma_remove_absent(side: Side, s: Seq<LevelView>, id: OrderId, price: Price)
    requires
        side_wf(side, s),
        lower_bound(s, price) == s.len() || s[lower_bound(s, price)].0 != price,
    ensures
        flat(s).filter(other_order(id, price)) == flat(s),
        forall|k: int| 0 <= k < flat(s).len() ==> (#[trigger] flat(s)[k]).price != price,
{
    lemma_lower_bound(side, s, price);
    lemma_flat_prices(side, s);
    let i = lower_bound(s, price);
    assert forall|k: int| 0 <= k < flat(s).len() implies (#[trigger] flat(s)[k]).price != price by {
        let j = choose|j: int| 0 <= j < s.len() && flat(s)[k].price == s[j].0;
        if j > i {
            assert(s[i].0 < s[j].0);
        }
    }
    assert forall|k: int| 0 <= k < flat(s).len() implies #[trigger] other_order(id, price)(flat(s)[k]) by {
        assert(flat(s)[k].price != price);
    }
    lemma_filter_all(flat(s), other_order(id, price));
}

/// Orders of well-formed levels of a side are orders of that side.
pub proof fn lemma_flat_sides(side: Side, s: Seq<LevelView>)
    requires
        side_wf(side, s),
    ensures
        forall|k: int| 0 <= k < flat(s).len() ==> (#[trigger] flat(s)[k]).side == side,
    decreases s.len(),
{
    if s.len() > 0 {
        let r = s.drop_last();
        assert(side_wf(side, r)) by {
            assert forall|i: int, j: int| 0 <= i < j < r.len() implies
                (#[trigger] r[i]).0 < (#[trigger] r[j]).0 by {
                assert(r[i] == s[i] && r[j] == s[j]);
            }
            assert forall|j: int| 0 <= j < r.len() implies level_wf(side, #[trigger] r[j]) by {
                assert(r[j] == s[j]);
            }
        }
        lemma_flat_sides(side, r);
        assert(level_wf(side, s[s.len() - 1]));
        assert forall|k: int| 0 <= k < flat(s).len() implies (#[trigger] flat(s)[k]).side == side by {
            if k < flat(r).len() {
                assert(flat(s)[k] == flat(r)[k]);
            } else {
                assert(flat(s)[k] == s.last().1[k - flat(r).len()]);
            }
        }
    }
}

/// Adding an order puts it somewhere among the orders of the levels.
pub proof fn lemma_flat_inserted(side: Side, s: Seq<LevelView>, o: Order)
    requires
        side_wf(side, s),
    ensures
        exists|pos: int| 0 <= pos <= flat(s).len() && flat(inserted(s, o)) == #[trigger] flat(s).insert(pos, o),
{
    lemma_lower_bound(side, s, o.price);
    let i = lower_bound(s, o.price);
    let n = inserted(s, o);
    if i < s.len() && s[i].0 == o.price {
        lemma_flat_split(s, i);
        lemma_flat_split(n, i);
        assert(n.take(i) =~= s.take(i));
        assert(n.skip(i + 1) =~= s.skip(i + 1));
        let a = flat(s.take(i));
        let l = s[i].1;
        let b = flat(s.skip(i + 1));
        let pos = (a.len() + l.len()) as int;
        assert(a + l.push(o) + b =~= (a + l + b).insert(pos, o));
        assert(flat(n) == flat(s).insert(pos, o));
    } else {
        lemma_flat_split(n, i);
        assert(n.take(i) =~= s.take(i));
        assert(n.skip(i + 1) =~= s.skip(i));
        assert(s =~= s.take(i) + s.skip(i));
        lemma_flat_add(s.take(i), s.skip(i));
        let a = flat(s.take(i));
        let b = flat(s.skip(i));
        assert(a + seq![o] + b =~= (a + b).insert(a.len() as int, o));
        assert(flat(n) == flat(s).insert(a.len() as int, o));
    }
}

/// Taking the first level out of a vector whose views are the levels of
/// `all` from `i` on.
pub proof fn lemma_take_front(before: Seq<PriceLevel>, after: Seq<PriceLevel>, all: Seq<LevelView>, i: int)
    requires
        0 <= i <= all.len(),
        level_views(before) == all.skip(i),
        before.len() > 0,
        after == before.remove(0),
    ensures
        i < all.len(),
        before[0]@ == all[i],
        level_views(after) == all.skip(i + 1),
        all.take(i + 1) == all.take(i).push(all[i]),
{
    assert(level_views(before).len() == before.len());
    assert(level_views(before)[0] == before[0]@);
    assert(level_views(before)[0] == all.skip(i)[0]);
    assert forall|k: int| 0 <= k < after.len() implies #[trigger] after[k]@ == all.skip(i + 1)[k] by {
        assert(after[k] == before[k + 1]);
        assert(level_views(before)[k + 1] == before[k + 1]@);
        assert(level_views(before)[k + 1] == all.skip(i)[k + 1]);
    }
    assert(level_views(after) =~= all.skip(i + 1));
    assert(all.take(i + 1) =~= all.take(i).push(all[i]));
}

/// The levels of one side of the book.
#[derive(Debug)]
pub struct SideIndex {
    pub side: Side,
    pub levels: Vec<PriceLevel>,
}

impl View for SideIndex {
    type V = Seq<LevelView>;

    open spec fn view(&self) -> Seq<LevelView> {
        level_views(self.levels@)
    }
}

impl SideIndex {
    pub open spec fn wf(&self) -> bool {
        side_wf(self.side, self@)
    }

    /// An index with no levels.
    pub fn new(side: Side) -> (r: SideIndex)
        ensures
            r.side == side,
            r@ == Seq::<LevelView>::empty(),
    {
        SideIndex { side, levels: Vec::new() }
    }

    pub fn is_empty(&self) -> (r: bool)
        ensures
            r == (self@.len() == 0),
    {
        self.levels.len() == 0
    }

    /// Number of price levels.
    pub fn depth(&self) -> (r: usize)
        ensures
            r == self@.len(),
    {
        self.levels.len()
    }

    /// Index of the first level whose price is at least `p`.
    pub fn find_position(&self, p: Price) -> (r: usize)
        requires
            self.wf(),
        ensures
            r == lower_bound(self@, p),
    {
        let ghost s = self@;
        let mut i: usize = self.levels.len();
        proof {
            assert(s.take(i as int) =~= s);
        }
        while i > 0 && self.levels[i - 1].price >= p
            invariant
                s == self@,
                i <= s.len(),
                lower_bound(s, p) == lower_bound(s.take(i as int), p),
            decreases i,
        {
            proof {
                assert(s.take(i as int).drop_last() =~= s.take(i - 1));
            }
            i = i - 1;
        }
        proof {
            if i > 0 {
                assert(s.take(i as int).last() == s[i - 1]);
            }
        }
        i
    }

    /// Adds `o` at the back of the level at its price, creating the level
    /// if there is none.
    pub fn insert(&mut self, o: Order)
        requires
            old(self).wf(),
            o.side == old(self).side,
            o.price > 0,
            o.remaining_quantity > 0,
        ensures
            final(self).side == old(self).side,
            final(self).wf(),
            final(self)@ == inserted(old(self)@, o),
    {
        let ghost s = self@;
        let i = self.find_position(o.price);
        proof {
            lemma_lower_bound(self.side, s, o.price);
        }
        if i < self.levels.len() && self.levels[i].price == o.price {
            let mut lv = self.levels.remove(i);
            lv.push_back(o);
            self.levels.insert(i, lv);
            assert(self@ =~= inserted(s, o));
        } else {
            let mut lv = PriceLevel::new(o.price);
            lv.push_back(o);
            self.levels.insert(i, lv);
            assert(self@ =~= inserted(s, o));
        }
        assert forall|a: int, b: int| 0 <= a < b < self@.len() implies
            (#[trigger] self@[a]).0 < (#[trigger] self@[b]).0 by {
        }
        assert forall|a: int| 0 <= a < self@.len() implies level_wf(self.side, #[trigger] self@[a]) by {
            if a == i {
                assert(self@[a].1.last() == o);
            }
        }
    }

    /// Takes the order `id` out of the level at `price`, dropping the level
    /// if it is left empty.
    #[verifier::rlimit(60)]
    pub fn remove_order(&mut self, id: OrderId, price: Price) -> (r: Option<Order>)
        requires
            old(self).wf(),
        ensures
            final(self).side == old(self).side,
            final(self).wf(),
            final(self)@ == removed(old(self)@, id, price),
            flat(final(self)@) == flat(old(self)@).filter(other_order(id, price)),
            r is Some <==> exists|k: int| 0 <= k < flat(old(self)@).len()
                && (#[trigger] flat(old(self)@)[k]).id == id && flat(old(self)@)[k].price == price,
            r matches Some(o) ==> o.id == id && o.price == price && flat(old(self)@).contains(o),
    {
        let ghost s = self@;
        let ghost side = self.side;
        let i = self.find_position(price);
        proof {
            lemma_lower_bound(side, s, price);
        }
        if i < self.levels.len() && self.levels[i].price == price {
            let mut lv = self.levels.remove(i);
            let ghost l = lv@.1;
            let r = lv.remove(id);
            let ghost a = s.take(i as int);
            let ghost b = s.skip(i + 1);
            proof {
                lemma_remove_in_level(side, s, i as int, id);
                assert(level_wf(side, s[i as int]));
            }
            if !lv.is_empty() {
                self.levels.insert(i, lv);
                proof {
                    assert(self@ =~= removed(s, id, price));
                    assert(self@ =~= a.push(self@[i as int]) + b);
                    lemma_flat_add(a.push(self@[i as int]), b);
                    lemma_flat_push(a, self@[i as int]);
                    assert forall|x: int| 0 <= x < self@.len() implies level_wf(side, #[trigger] self@[x]) by {
                        if x == i {
                            assert forall|k: int| 0 <= k < self@[x].1.len() implies {
                                &&& (#[trigger] self@[x].1[k]).price == self@[x].0
                                &&& self@[x].1[k].side == side
                                &&& self@[x].1[k].remaining_quantity > 0
                            } by {
                                l.lemma_filter_contains_rev(other_id(id), self@[x].1[k]);
                            }
                        }
                    }
                }
            } else {
                proof {
                    assert(self@ =~= removed(s, id, price));
                    assert(self@ =~= a + b);
                    lemma_flat_add(a, b);
                    assert(flat(a) + Seq::<Order>::empty() =~= flat(a));
                }
            }
            r
        } else {
            proof {
                lemma_remove_absent(side, s, id, price);
            }
            None
        }
    }

    /// The price of the level holding the order `id`, if it rests here.
    pub fn locate(&self, id: OrderId) -> (r: Option<Price>)
        requires
            self.wf(),
        ensures
            r is None <==> !ids_of(flat(self@)).contains(id),
            r matches Some(p) ==> exists|k: int| 0 <= k < flat(self@).len()
                && (#[trigger] flat(self@)[k]).id == id && flat(self@)[k].price == p,
    {
        let ghost s = self@;
        let mut i: usize = 0;
        proof {
            assert(s.take(0) =~= Seq::<LevelView>::empty());
            assert(ids_of(flat(s.take(0))) =~= Seq::<OrderId>::empty());
        }
        while i < self.levels.len()
            invariant
                s == self@,
                self.wf(),
                i <= s.len(),
                !ids_of(flat(s.take(i as int))).contains(id),
            decreases s.len() - i,
        {
            let lv = &self.levels[i];
            assert(lv@ == s[i as int]);
            let mut j: usize = 0;
            while j < lv.orders.len()
                invariant
                    s == self@,
                    self.wf(),
                    lv@ == s[i as int],
                    i < s.len(),
                    j <= s[i as int].1.len(),
                    forall|x: int| 0 <= x < j ==> (#[trigger] s[i as int].1[x]).id != id,
                decreases s[i as int].1.len() - j,
            {
                if lv.orders[j].id == id {
                    proof {
                        lemma_flat_split(s, i as int);
                        let a = flat(s.take(i as int));
                        let l = s[i as int].1;
                        let k = a.len() + j;
                        assert((a + l)[k] == l[j as int]);
                        assert(flat(s)[k] == (a + l)[k]);
                        assert(ids_of(flat(s))[k] == id);
                        assert(level_wf(self.side, s[i as int]));
                    }
                    return Some(lv.price);
                }
                j = j + 1;
            }
            proof {
                assert(s.take(i + 1) =~= s.take(i as int).push(s[i as int]));
                lemma_flat_push(s.take(i as int), s[i as int]);
                let f = flat(s.take(i + 1));
                let a = flat(s.take(i as int));
                assert forall|x: int| 0 <= x < f.len() implies #[trigger] f[x].id != id by {
                    if x < a.len() {
                        assert(f[x] == a[x]);
                        assert(ids_of(a)[x] == a[x].id);
                    } else {
                        assert(f[x] == s[i as int].1[x - a.len()]);
                    }
                }
                assert forall|x: int| 0 <= x < ids_of(f).len() implies #[trigger] ids_of(f)[x] != id by {
                    assert(ids_of(f)[x] == f[x].id);
                }
            }
            i = i + 1;
        }
        proof {
            assert(s.take(s.len() as int) =~= s);
        }
        None
    }

    /// Takes `fill` off the order at the head of level `idx`; the order
    /// keeps its place.
    pub fn reduce_head(&mut self, idx: usize, fill: Quantity)
        requires
            old(self).wf(),
            idx < old(self)@.len(),
            0 < fill < old(self)@[idx as int].1[0].remaining_quantity,
        ensures
            final(self).side == old(self).side,
            final(self).wf(),
            final(self)@ == old(self)@.update(
                idx as int,
                (old(self)@[idx as int].0, old(self)@[idx as int].1.update(0, reduced(old(self)@[idx as int].1[0], fill))),
            ),
            ids_of(flat(final(self)@)) == ids_of(flat(old(self)@)),
    {
        let ghost s = self@;
        let ghost side = self.side;
        proof {
            assert(level_wf(side, s[idx as int]));
        }
        let ghost old_levels = self.levels@;
        let mut lv = self.levels.remove(idx);
        let ghost l = lv.orders@;
        assert(lv@ == s[idx as int]);
        let mut head = lv.orders.remove(0);
        head.remaining_quantity = head.remaining_quantity - fill;
        lv.orders.insert(0, head);
        assert(lv.orders@ =~= l.update(0, reduced(l[0], fill)));
        self.levels.insert(idx, lv);
        proof {
            let n = s.update(idx as int, (s[idx as int].0, s[idx as int].1.update(0, reduced(s[idx as int].1[0], fill))));
            assert(self.levels@ =~= old_levels.update(idx as int, lv));
            assert forall|a: int| 0 <= a < n.len() implies #[trigger] self@[a] == n[a] by {
                if a != idx {
                    assert(self.levels@[a] == old_levels[a]);
                }
            }
            assert(self@ =~= n);
            assert forall|a: int| 0 <= a < n.len() implies level_wf(side, #[trigger] n[a]) by {
                assert(level_wf(side, s[a]));
                if a == idx {
                    assert forall|k: int| 0 <= k < n[a].1.len() implies {
                        &&& (#[trigger] n[a].1[k]).price == n[a].0
                        &&& n[a].1[k].side == side
                        &&& n[a].1[k].remaining_quantity > 0
                    } by {
                        assert(s[a].1[k].price == s[a].0);
                    }
                }
            }
            assert forall|a: int, b: int| 0 <= a < b < n.len() implies (#[trigger] n[a]).0 < (#[trigger] n[b]).0 by {
                assert(s[a].0 < s[b].0);
            }
            lemma_flat_split(s, idx as int);
            lemma_flat_split(n, idx as int);
            assert(n.take(idx as int) =~= s.take(idx as int));
            assert(n.skip(idx + 1) =~= s.skip(idx + 1));
            let a = flat(s.take(idx as int));
            let b = flat(s.skip(idx + 1));
            assert(ids_of(n[idx as int].1) =~= ids_of(s[idx as int].1));
            assert(ids_of(a + n[idx as int].1 + b) =~= ids_of(a) + ids_of(n[idx as int].1) + ids_of(b));
            assert(ids_of(a + s[idx as int].1 + b) =~= ids_of(a) + ids_of(s[idx as int].1) + ids_of(b));
        }
    }

    /// The order at the head of the best level, if any.
    pub fn best_head(&self) -> (r: Option<(usize, Order)>)
        requires
            self.wf(),
        ensures
            r is None <==> self@.len() == 0,
            r matches Some(h) ==> {
                &&& h.0 < self@.len()
                &&& best_price(self.side, self@) == Some(self@[h.0 as int].0)
                &&& self@[h.0 as int].1[0] == h.1
            },
    {
        let n = self.levels.len();
        if n == 0 {
            None
        } else {
            let idx: usize = match self.side {
                Side::Buy => n - 1,
                Side::Sell => 0,
            };
            proof {
                assert(self.levels@[idx as int]@ == self@[idx as int]);
                assert(level_wf(self.side, self@[idx as int]));
            }
            Some((idx, self.levels[idx].orders[0]))
        }
    }

    /// Takes out every level; returns their orders, level by level.
    pub fn drain_all(&mut self) -> (r: Vec<Order>)
        ensures
            final(self).side == old(self).side,
            final(self)@ == Seq::<LevelView>::empty(),
            r@ == flat(old(self)@),
    {
        let ghost all = self@;
        let mut levels: Vec<PriceLevel> = Vec::new();
        std::mem::swap(&mut levels, &mut self.levels);
        let mut out: Vec<Order> = Vec::new();
        let ghost mut i: int = 0;
        proof {
            assert(level_views(levels@) =~= all.skip(0));
            assert(all.take(0) =~= Seq::<LevelView>::empty());
        }
        while levels.len() > 0
            invariant
                0 <= i <= all.len(),
                level_views(levels@) == all.skip(i),
                out@ == flat(all.take(i)),
                self@ == Seq::<LevelView>::empty(),
                self.side == old(self).side,
            decreases levels.len(),
        {
            let ghost before = levels@;
            let mut lv = levels.remove(0);
            proof {
                lemma_take_front(before, levels@, all, i);
                lemma_flat_push(all.take(i), lv@);
            }
            let mut os = lv.drain();
            out.append(&mut os);
            proof {
                i = i + 1;
            }
        }
        proof {
            assert(all.skip(i).len() == 0);
            assert(all.take(i) =~= all);
        }
        out
    }

    /// Takes out every level whose price lies in `[lo, hi]`; returns their
    /// orders, level by level. The other levels stay as they were.
    pub fn cancel_range(&mut self, lo: Price, hi: Price) -> (r: Vec<Order>)
        requires
            old(self).wf(),
        ensures
            final(self).side == old(self).side,
            final(self).wf(),
            final(self)@ == old(self)@.filter(level_outside(lo, hi)),
            r@ == flat(old(self)@.filter(level_inside(lo, hi))),
            flat(final(self)@) == flat(old(self)@).filter(order_outside(old(self).side, lo, hi)),
    {
        let ghost all = self@;
        let ghost side = self.side;
        let mut levels: Vec<PriceLevel> = Vec::new();
        std::mem::swap(&mut levels, &mut self.levels);
        let mut out: Vec<Order> = Vec::new();
        let ghost mut i: int = 0;
        proof {
            assert(level_views(levels@) =~= all.skip(0));
            assert(all.take(0) =~= Seq::<LevelView>::empty());
            reveal(Seq::filter);
            assert(flat(Seq::<LevelView>::empty()) =~= Seq::<Order>::empty());
        }
        while levels.len() > 0
            invariant
                side_wf(side, all),
                self.side == side,
                0 <= i <= all.len(),
                level_views(levels@) == all.skip(i),
                self@ == all.take(i).filter(level_outside(lo, hi)),
                out@ == flat(all.take(i).filter(level_inside(lo, hi))),
                flat(self@) == flat(all.take(i)).filter(order_outside(side, lo, hi)),
                side_wf(side, self@),
                forall|k: int, j: int| 0 <= k < self@.len() && i <= j < all.len() ==>
                    (#[trigger] self@[k]).0 < (#[trigger] all[j]).0,
            decreases levels.len(),
        {
            let ghost before = levels@;
            let ghost kept = self@;
            let mut lv = levels.remove(0);
            proof {
                lemma_take_front(before, levels@, all, i);
                all.take(i).lemma_filter_push(lv@, level_outside(lo, hi));
                all.take(i).lemma_filter_push(lv@, level_inside(lo, hi));
                lemma_flat_push(all.take(i), lv@);
                Seq::filter_distributes_over_add(flat(all.take(i)), lv@.1, order_outside(side, lo, hi));
                assert(level_wf(side, all[i]));
            }
            if lo <= lv.price && lv.price <= hi {
                proof {
                    lemma_flat_push(all.take(i).filter(level_inside(lo, hi)), lv@);
                    lemma_filter_none(lv@.1, order_outside(side, lo, hi));
                    assert(flat(all.take(i)).filter(order_outside(side, lo, hi)) + Seq::<Order>::empty()
                        =~= flat(all.take(i)).filter(order_outside(side, lo, hi)));
                }
                let mut os = lv.drain();
                out.append(&mut os);
            } else {
                proof {
                    lemma_flat_push(kept, lv@);
                    lemma_filter_all(lv@.1, order_outside(side, lo, hi));
                }
                self.levels.push(lv);
                proof {
                    assert(self@ =~= kept.push(all[i]));
                }
            }
            proof {
                i = i + 1;
            }
        }
        proof {
            assert(all.take(i) =~= all);
        }
        out
    }

    /// Takes out the orders of user `u` from every level, dropping levels
    /// left empty; returns them, level by level.
    pub fn cancel_user(&mut self, u: UserId) -> (r: Vec<Order>)
        requires
            old(self).wf(),
        ensures
            final(self).side == old(self).side,
            final(self).wf(),
            final(self)@ == strip_user(old(self)@, u),
            r@ == flat(old(self)@).filter(of_user(u)),
            flat(final(self)@) == flat(old(self)@).filter(not_of_user(u)),
    {
        let ghost all = self@;
        let ghost side = self.side;
        let mut levels: Vec<PriceLevel> = Vec::new();
        std::mem::swap(&mut levels, &mut self.levels);
        let mut out: Vec<Order> = Vec::new();
        let ghost mut i: int = 0;
        proof {
            assert(level_views(levels@) =~= all.skip(0));
            assert(all.take(0) =~= Seq::<LevelView>::empty());
            reveal(Seq::filter);
            assert(flat(Seq::<LevelView>::empty()) =~= Seq::<Order>::empty());
        }
        while levels.len() > 0
            invariant
                side_wf(side, all),
                self.side == side,
                0 <= i <= all.len(),
                level_views(levels@) == all.skip(i),
                self@ == strip_user(all.take(i), u),
                out@ == flat(all.take(i)).filter(of_user(u)),
                flat(self@) == flat(all.take(i)).filter(not_of_user(u)),
                side_wf(side, self@),
                forall|k: int, j: int| 0 <= k < self@.len() && i <= j < all.len() ==>
                    (#[trigger] self@[k]).0 < (#[trigger] all[j]).0,
            decreases levels.len(),
        {
            let ghost before = levels@;
            let ghost kept = self@;
            let mut lv = levels.remove(0);
            proof {
                lemma_take_front(before, levels@, all, i);
                assert(all.take(i + 1).drop_last() == all.take(i));
                lemma_flat_push(all.take(i), lv@);
                Seq::filter_distributes_over_add(flat(all.take(i)), lv@.1, of_user(u));
                Seq::filter_distributes_over_add(flat(all.take(i)), lv@.1, not_of_user(u));
                assert(level_wf(side, all[i]));
            }
            let ghost orig = lv@.1;
            let mut os = lv.cancel_user(u);
            out.append(&mut os);
            if !lv.is_empty() {
                proof {
                    lemma_flat_push(kept, lv@);
                    assert forall|k: int| 0 <= k < lv@.1.len() implies {
                        &&& (#[trigger] lv@.1[k]).price == lv@.0
                        &&& lv@.1[k].side == side
                        &&& lv@.1[k].remaining_quantity > 0
                    } by {
                        orig.lemma_filter_contains_rev(not_of_user(u), lv@.1[k]);
                    }
                }
                self.levels.push(lv);
                proof {
                    assert(self@ =~= kept.push(lv@));
                }
            } else {
                proof {
                    assert(flat(kept) + Seq::<Order>::empty() =~= flat(kept));
                }
            }
            proof {
                i = i + 1;
            }
        }
        proof {
            assert(all.take(i) =~= all);
        }
        out
    }

    /// The best price: highest for bids, lowest for asks.
    pub fn best(&self) -> (r: Option<Price>)
        ensures
            r == best_price(self.side, self@),
    {
        let n = self.levels.len();
        if n == 0 {
            None
        } else {
            match self.side {
                Side::Buy => Some(self.levels[n - 1].price),
                Side::Sell => Some(self.levels[0].price),
            }
        }
    }
}

} // verus!
