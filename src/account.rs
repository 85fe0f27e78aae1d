//! Accounts, the quantities they hold, and the algebra over them.

use crate::asset::Asset;
use crate::rate::Rate;
use crate::fixed::{self, fits, product, ONE_BITS};
use std::collections::HashMap;
use vstd::prelude::*;
use vstd::std_specs::hash::obeys_key_model;
use vstd::std_specs::iter::IteratorSpec;

verus! {

broadcast use vstd::std_specs::hash::group_hash_axioms;

/// An amount of an asset: a signed fixed-point number with 32 integer and
/// 32 fractional bits, held as its raw bits (the number times `2^32`).
///
/// Arithmetic on quantities is checked: an operation whose exact result
/// leaves the representable range gives `None` instead of wrapping.
#[derive(Debug, PartialEq, Eq, Structural, Hash, Clone, Copy)]
pub enum Quantity {
    Amount(i64),
}

impl View for Quantity {
    type V = int;

    /// The raw bits: the number of `2^-32` units.
    open spec fn view(&self) -> int {
        match self {
            Quantity::Amount(bits) => *bits as int,
        }
    }
}

/// The quantity that stands for a whole number.
pub fn fixed_amount(amount: i32) -> (r: Quantity)
    ensures
        r@ == amount * ONE_BITS,
{
    Quantity::Amount(fixed::from_int(amount))
}

impl Quantity {
    /// The sum, or `None` where it is out of range.
    pub fn checked_add(self, rhs: Quantity) -> (r: Option<Quantity>)
        ensures
            r is Some <==> fits(self@ + rhs@),
            r matches Some(q) ==> q@ == self@ + rhs@,
    {
        let Quantity::Amount(l) = self;
        let Quantity::Amount(r) = rhs;
        match fixed::checked_add(l, r) {
            Some(bits) => Some(Quantity::Amount(bits)),
            None => None,
        }
    }

    /// The difference, or `None` where it is out of range.
    pub fn checked_sub(self, rhs: Quantity) -> (r: Option<Quantity>)
        ensures
            r is Some <==> fits(self@ - rhs@),
            r matches Some(q) ==> q@ == self@ - rhs@,
    {
        let Quantity::Amount(l) = self;
        let Quantity::Amount(r) = rhs;
        match fixed::checked_sub(l, r) {
            Some(bits) => Some(Quantity::Amount(bits)),
            None => None,
        }
    }

    /// The product rounded toward negative infinity, or `None` where it is
    /// out of range.
    pub fn checked_mul(self, rhs: Quantity) -> (r: Option<Quantity>)
        ensures
            r is Some <==> fits(product(self@, rhs@)),
            r matches Some(q) ==> q@ == product(self@, rhs@),
    {
        let Quantity::Amount(l) = self;
        let Quantity::Amount(r) = rhs;
        match fixed::checked_mul(l, r) {
            Some(bits) => Some(Quantity::Amount(bits)),
            None => None,
        }
    }

    /// Whether the quantity is below zero.
    pub fn is_negative(&self) -> (r: bool)
        ensures
            r == (self@ < 0),
    {
        let Quantity::Amount(bits) = *self;
        bits < 0
    }
}

/// The amount that a mapping gives an asset, absent assets counting as zero.
pub open spec fn level<A>(m: Map<A, int>, a: A) -> int {
    if m.contains_key(a) {
        m[a]
    } else {
        0
    }
}

/// The amounts of a mapping of quantities.
pub open spec fn amounts<A>(m: Map<A, Quantity>) -> Map<A, int> {
    m.map_values(|q: Quantity| q@)
}

/// `x` with an entry of zero added for each asset that only `y` has.
pub open spec fn zero_extended<A>(x: Map<A, int>, y: Map<A, int>) -> Map<A, int> {
    Map::new(|a: A| x.contains_key(a) || y.contains_key(a), |a: A| level(x, a))
}

/// Whether two mappings agree on every asset once absent assets count as
/// zero.
pub open spec fn same_levels<A>(x: Map<A, int>, y: Map<A, int>) -> bool {
    forall|a: A| #[trigger] level(x, a) == level(y, a)
}

/// `g` applied to the amounts of each asset that either mapping has.
pub open spec fn combined<A>(x: Map<A, int>, y: Map<A, int>, g: spec_fn(int, int) -> int) -> Map<
    A,
    int,
> {
    Map::new(|a: A| x.contains_key(a) || y.contains_key(a), |a: A| g(level(x, a), level(y, a)))
}

/// The entrywise sum over the assets of either mapping.
pub open spec fn sum<A>(x: Map<A, int>, y: Map<A, int>) -> Map<A, int> {
    Map::new(|a: A| x.contains_key(a) || y.contains_key(a), |a: A| level(x, a) + level(y, a))
}

/// The entrywise difference over the assets of either mapping.
pub open spec fn difference<A>(x: Map<A, int>, y: Map<A, int>) -> Map<A, int> {
    Map::new(|a: A| x.contains_key(a) || y.contains_key(a), |a: A| level(x, a) - level(y, a))
}

/// Each amount multiplied by the fixed-point number with raw bits `k`.
pub open spec fn scaled<A>(x: Map<A, int>, k: int) -> Map<A, int> {
    x.map_values(|v: int| product(v, k))
}

/// Whether every amount of the mapping is representable.
pub open spec fn all_fit<A>(m: Map<A, int>) -> bool {
    forall|a: A| #[trigger] m.contains_key(a) ==> fits(m[a])
}

/// The buyer's balances after a trade of `k` units at a rate that credits
/// `credit` and debits `debit` per unit.
pub open spec fn buyer_after<A>(
    credit: Map<A, int>,
    debit: Map<A, int>,
    k: int,
    buyer: Map<A, int>,
) -> Map<A, int> {
    sum(difference(buyer, scaled(debit, k)), scaled(credit, k))
}

/// The seller's balances after a trade of `k` units at a rate that credits
/// `credit` and debits `debit` per unit.
pub open spec fn seller_after<A>(
    credit: Map<A, int>,
    debit: Map<A, int>,
    k: int,
    seller: Map<A, int>,
) -> Map<A, int> {
    sum(difference(seller, scaled(credit, k)), scaled(debit, k))
}

/// Whether every amount that a trade computes, on the way to both new
/// balances, is representable.
pub open spec fn trade_fits<A>(
    credit: Map<A, int>,
    debit: Map<A, int>,
    k: int,
    buyer: Map<A, int>,
    seller: Map<A, int>,
) -> bool {
    &&& all_fit(scaled(credit, k))
    &&& all_fit(scaled(debit, k))
    &&& all_fit(difference(buyer, scaled(debit, k)))
    &&& all_fit(buyer_after(credit, debit, k, buyer))
    &&& all_fit(difference(seller, scaled(credit, k)))
    &&& all_fit(seller_after(credit, debit, k, seller))
}

/// The debited assets that a trade would leave negative for the buyer, with
/// the buyer's resulting amounts.
pub open spec fn shortfall<A>(
    credit: Map<A, int>,
    debit: Map<A, int>,
    k: int,
    buyer: Map<A, int>,
) -> Map<A, int> {
    Map::new(
        |a: A| debit.contains_key(a) && level(buyer_after(credit, debit, k, buyer), a) < 0,
        |a: A| level(buyer_after(credit, debit, k, buyer), a),
    )
}

/// The outcome of a trade: both new balances, or, where the buyer cannot
/// afford it, each debited asset that would go negative with the amount it
/// would reach.
pub enum Tranx<A: Asset> {
    Approved(Account<A>, Account<A>),
    Denied(HashMap<A, Quantity>),
}

/// A mapping from assets to quantities, in which an absent asset is the same
/// as an asset held at zero.
#[derive(Debug, Clone)]
pub struct Account<A: Asset>(HashMap<A, Quantity>);

impl<A: Asset> View for Account<A> {
    type V = Map<A, int>;

    /// The amount of each asset that has an entry.
    closed spec fn view(&self) -> Map<A, int> {
        amounts(self.0@)
    }
}

impl<A: Asset> From<HashMap<A, Quantity>> for Account<A> {
    fn from(assets: HashMap<A, Quantity>) -> (r: Account<A>) {
        Account(assets)
    }
}

impl<A: Asset> vstd::std_specs::convert::FromSpecImpl<HashMap<A, Quantity>> for Account<A> {
    open spec fn obeys_from_spec() -> bool {
        true
    }

    closed spec fn from_spec(assets: HashMap<A, Quantity>) -> Account<A> {
        Account(assets)
    }
}

impl<A: Asset> Account<A> {
    /// The amount held of `asset`, zero where it has no entry.
    pub fn quantity(&self, asset: &A) -> (r: Quantity)
        requires
            obeys_key_model::<A>(),
        ensures
            r@ == level(self@, *asset),
    {
        match self.0.get(asset) {
            Some(q) => *q,
            None => fixed_amount(0),
        }
    }

    /// An account built from a mapping holds its entries.
    pub proof fn lemma_from(assets: HashMap<A, Quantity>)
        ensures
            <Account<A> as vstd::std_specs::convert::FromSpec<HashMap<A, Quantity>>>::from_spec(
                assets,
            )@ == amounts(assets@),
    {
    }

    /// Every amount that an account holds is representable.
    pub proof fn lemma_fits(&self)
        ensures
            all_fit(self@),
    {
    }

    /// The entries of the account.
    pub fn assets(&self) -> (r: &HashMap<A, Quantity>)
        ensures
            amounts(r@) == self@,
    {
        &self.0
    }

    /// Adds an entry of zero for each asset that only `rhs` has.
    fn prime(&mut self, rhs: &Account<A>)
        requires
            obeys_key_model::<A>(),
        ensures
            final(self)@ == zero_extended(old(self)@, rhs@),
    {
        for (key, _value) in it: rhs.0.iter()
            invariant
                obeys_key_model::<A>(),
                it.seq() == rhs.0.iter().remaining(),
                forall|a: A| #[trigger]
                    self.0@.contains_key(a) ==> old(self).0@.contains_key(a) || rhs.0@.contains_key(a),
                forall|a: A| #[trigger]
                    old(self).0@.contains_key(a) ==> self.0@.contains_key(a) && self.0@[a] == old(
                        self,
                    ).0@[a],
                forall|a: A| #[trigger]
                    self.0@.contains_key(a) && !old(self).0@.contains_key(a) ==> self.0@[a]@ == 0,
                forall|i: int|
                    0 <= i < it.index() ==> self.0@.contains_key(*#[trigger] it.seq()[i].0),
        {
            if !self.0.contains_key(key) {
                self.0.insert(*key, fixed_amount(0));
            }
        }
        proof {
            let items = rhs.0.iter().remaining();
            assert forall|a: A| rhs.0@.contains_key(a) implies #[trigger] self.0@.contains_key(
                a,
            ) by {
                assert(items.contains((&a, &rhs.0@[a])));
                let i = choose|i: int| 0 <= i < items.len() && items[i] == (&a, &rhs.0@[a]);
                assert(self.0@.contains_key(*items[i].0));
            }
        }
        assert(self@ =~= zero_extended(old(self)@, rhs@));
    }

    /// Trades `quantity` units at `rate`: the buyer gives up the scaled
    /// debit and receives the scaled credit, the seller the reverse. Only
    /// the buyer is checked: where a debited asset would end negative for
    /// the buyer the trade is denied with those assets; the seller may end
    /// negative. `None` where an amount on the way leaves the representable
    /// range.
    pub fn exchange(
        rate: &Rate<A>,
        quantity: Quantity,
        buyer: &Account<A>,
        seller: &Account<A>,
    ) -> (r: Option<Tranx<A>>)
        requires
            obeys_key_model::<A>(),
        ensures
            ({
                let c = amounts(rate.credit@);
                let d = amounts(rate.debit@);
                match r {
                    None => !trade_fits(c, d, quantity@, buyer@, seller@),
                    Some(Tranx::Approved(b, s)) => {
                        &&& trade_fits(c, d, quantity@, buyer@, seller@)
                        &&& shortfall(c, d, quantity@, buyer@) == Map::<A, int>::empty()
                        &&& b@ == buyer_after(c, d, quantity@, buyer@)
                        &&& s@ == seller_after(c, d, quantity@, seller@)
                    },
                    Some(Tranx::Denied(deficit)) => {
                        &&& trade_fits(c, d, quantity@, buyer@, seller@)
                        &&& shortfall(c, d, quantity@, buyer@) != Map::<A, int>::empty()
                        &&& amounts(deficit@) == shortfall(c, d, quantity@, buyer@)
                    },
                }
            }),
    {
        let ghost c = amounts(rate.credit@);
        let ghost d = amounts(rate.debit@);
        let credit = match Account(rate.credit.clone()).checked_scale(quantity) {
            Some(acc) => acc,
            None => return None,
        };
        let debit = match Account(rate.debit.clone()).checked_scale(quantity) {
            Some(acc) => acc,
            None => return None,
        };
        let buyer_next = match buyer.checked_sub(&debit) {
            Some(acc) => match acc.checked_add(&credit) {
                Some(acc) => acc,
                None => return None,
            },
            None => return None,
        };
        let seller_next = match seller.checked_sub(&credit) {
            Some(acc) => match acc.checked_add(&debit) {
                Some(acc) => acc,
                None => return None,
            },
            None => return None,
        };
        let ghost target = shortfall(c, d, quantity@, buyer@);
        let mut success = true;
        let mut deficit: HashMap<A, Quantity> = HashMap::new();
        assert(amounts(deficit@) =~= Map::<A, int>::empty());
        for (asset, _q) in it: debit.0.iter()
            invariant
                obeys_key_model::<A>(),
                debit@ == scaled(d, quantity@),
                buyer_next@ == buyer_after(c, d, quantity@, buyer@),
                target == shortfall(c, d, quantity@, buyer@),
                it.seq() == debit.0.iter().remaining(),
                forall|a: A| #[trigger]
                    amounts(deficit@).contains_key(a) ==> target.contains_key(a)
                        && amounts(deficit@)[a] == target[a],
                forall|i: int|
                    0 <= i < it.index() ==> (target.contains_key(*#[trigger] it.seq()[i].0)
                        ==> amounts(deficit@).contains_key(*it.seq()[i].0)),
                success <==> amounts(deficit@) == Map::<A, int>::empty(),
        {
            proof {
                let items = debit.0.iter().remaining();
                assert(asset == items[it.index()].0);
                assert(debit.0@.contains_key(*items[it.index()].0));
                assert(debit@.contains_key(*asset));
            }
            match buyer_next.0.get(asset) {
                Some(q) => {
                    if q.is_negative() {
                        success = false;
                        let ghost before = deficit@;
                        deficit.insert(*asset, *q);
                        assert(amounts(deficit@) =~= amounts(before).insert(*asset, q@));
                        assert(amounts(deficit@).contains_key(*asset));
                    } else {
                        assert(!target.contains_key(*asset));
                    }
                },
                None => {
                    assert(!target.contains_key(*asset));
                },
            }
        }
        proof {
            let items = debit.0.iter().remaining();
            assert forall|a: A| target.contains_key(a) implies #[trigger] amounts(
                deficit@,
            ).contains_key(a) by {
                assert(items.contains((&a, &debit.0@[a])));
                let i = choose|i: int| 0 <= i < items.len() && items[i] == (&a, &debit.0@[a]);
                assert(amounts(deficit@).contains_key(*items[i].0));
            }
            assert(amounts(deficit@) =~= target);
        }
        if success {
            Some(Tranx::Approved(buyer_next, seller_next))
        } else {
            Some(Tranx::Denied(deficit))
        }
    }

    /// Whether the two accounts hold the same amount of every asset, an
    /// absent asset counting as zero.
    pub fn equals(&self, rhs: &Account<A>) -> (r: bool)
        requires
            obeys_key_model::<A>(),
        ensures
            r == same_levels(self@, rhs@),
    {
        let mut left = Account(self.0.clone());
        let mut right = Account(rhs.0.clone());
        left.prime(&right);
        right.prime(&left);
        assert(forall|a: A| #[trigger] left@.contains_key(a) ==> level(self@, a) == left@[a]);
        assert(forall|a: A| #[trigger] right@.contains_key(a) ==> level(rhs@, a) == right@[a]);
        for (key, lq) in it: left.0.iter()
            invariant
                obeys_key_model::<A>(),
                left@.dom() == right@.dom(),
                forall|a: A| #[trigger]
                    left@.contains_key(a) <==> self@.contains_key(a) || rhs@.contains_key(a),
                forall|a: A| #[trigger] left@.contains_key(a) ==> level(self@, a) == left@[a],
                forall|a: A| #[trigger] right@.contains_key(a) ==> level(rhs@, a) == right@[a],
                it.seq() == left.0.iter().remaining(),
                forall|i: int|
                    0 <= i < it.index() ==> level(self@, *#[trigger] it.seq()[i].0) == level(
                        rhs@,
                        *it.seq()[i].0,
                    ),
        {
            proof {
                let items = left.0.iter().remaining();
                assert(key == items[it.index()].0);
                assert(left.0@.contains_key(*items[it.index()].0));
                assert(left@.contains_key(*key));
                assert(right@.contains_key(*key));
                assert(right.0@.contains_key(*key));
            }
            let rq = right.0.get(key).unwrap();
            assert(left@[*key] == lq@ && right@[*key] == rq@);
            if *lq != *rq {
                assert(level(self@, *key) != level(rhs@, *key));
                return false;
            }
        }
        proof {
            let items = left.0.iter().remaining();
            assert forall|a: A| #[trigger] level(self@, a) == level(rhs@, a) by {
                if left@.contains_key(a) {
                    assert(items.contains((&a, &left.0@[a])));
                    let i = choose|i: int| 0 <= i < items.len() && items[i] == (&a, &left.0@[a]);
                    assert(level(self@, *items[i].0) == level(rhs@, *items[i].0));
                }
            }
        }
        true
    }

    /// The sum of the two accounts over the assets of either, or `None`
    /// where some asset's sum is out of range.
    pub fn checked_add(&self, rhs: &Account<A>) -> (r: Option<Account<A>>)
        requires
            obeys_key_model::<A>(),
        ensures
            r is Some <==> all_fit(sum(self@, rhs@)),
            r matches Some(acc) ==> acc@ == sum(self@, rhs@),
    {
        let ghost g = |l: int, r: int| l + r;
        let r = Account::op(
            self,
            rhs,
            Quantity::checked_add,
            Ghost(g),
        );
        assert(combined(self@, rhs@, g) =~= sum(self@, rhs@));
        r
    }

    /// The difference of the two accounts over the assets of either, or
    /// `None` where some asset's difference is out of range.
    pub fn checked_sub(&self, rhs: &Account<A>) -> (r: Option<Account<A>>)
        requires
            obeys_key_model::<A>(),
        ensures
            r is Some <==> all_fit(difference(self@, rhs@)),
            r matches Some(acc) ==> acc@ == difference(self@, rhs@),
    {
        let ghost g = |l: int, r: int| l - r;
        let r = Account::op(
            self,
            rhs,
            Quantity::checked_sub,
            Ghost(g),
        );
        assert(combined(self@, rhs@, g) =~= difference(self@, rhs@));
        r
    }

    /// Every entry multiplied by `k`, or `None` where some product is out
    /// of range.
    pub fn checked_scale(&self, k: Quantity) -> (r: Option<Account<A>>)
        requires
            obeys_key_model::<A>(),
        ensures
            r is Some <==> all_fit(scaled(self@, k@)),
            r matches Some(acc) ==> acc@ == scaled(self@, k@),
    {
        let ghost target = scaled(self@, k@);
        let mut acc: HashMap<A, Quantity> = HashMap::new();
        for (key, q) in it: self.0.iter()
            invariant
                obeys_key_model::<A>(),
                target == scaled(self@, k@),
                it.seq() == self.0.iter().remaining(),
                forall|a: A| #[trigger]
                    amounts(acc@).contains_key(a) ==> target.contains_key(a) && amounts(acc@)[a]
                        == target[a],
                forall|i: int|
                    0 <= i < it.index() ==> amounts(acc@).contains_key(*#[trigger] it.seq()[i].0),
        {
            proof {
                let items = self.0.iter().remaining();
                assert(key == items[it.index()].0 && q == items[it.index()].1);
                assert(self.0@.contains_key(*items[it.index()].0));
                assert(self.0@[*key] == *q);
            }
            match q.checked_mul(k) {
                Some(p) => {
                    let ghost before = acc@;
                    acc.insert(*key, p);
                    assert(amounts(acc@) =~= amounts(before).insert(*key, p@));
                },
                None => {
                    assert(target.contains_key(*key) && !fits(target[*key]));
                    return None;
                },
            }
        }
        proof {
            let items = self.0.iter().remaining();
            assert forall|a: A| target.contains_key(a) implies #[trigger] amounts(
                acc@,
            ).contains_key(a) by {
                assert(items.contains((&a, &self.0@[a])));
                let i = choose|i: int| 0 <= i < items.len() && items[i] == (&a, &self.0@[a]);
                assert(amounts(acc@).contains_key(*items[i].0));
            }
            assert(amounts(acc@) =~= target);
        }
        Some(Account(acc))
    }

    /// Combines the two accounts entry by entry with `f`, over the assets
    /// of either, absent entries counting as zero; `None` where `f` gives
    /// `None` for some asset. `g` is what `f` computes on amounts.
    fn op<F: Fn(Quantity, Quantity) -> Option<Quantity>>(
        lhs: &Account<A>,
        rhs: &Account<A>,
        f: F,
        Ghost(g): Ghost<spec_fn(int, int) -> int>,
    ) -> (r: Option<Account<A>>)
        requires
            obeys_key_model::<A>(),
            forall|l: Quantity, r: Quantity| #[trigger] f.requires((l, r)),
            forall|l: Quantity, r: Quantity, o: Option<Quantity>| #[trigger]
                f.ensures((l, r), o) ==> (o is Some <==> fits(g(l@, r@))) && (o matches Some(q)
                    ==> q@ == g(l@, r@)),
        ensures
            r is Some <==> all_fit(combined(lhs@, rhs@, g)),
            r matches Some(acc) ==> acc@ == combined(lhs@, rhs@, g),
    {
        let ghost target = combined(lhs@, rhs@, g);
        let mut acc: HashMap<A, Quantity> = HashMap::new();
        let mut left = Account(lhs.0.clone());
        let mut right = Account(rhs.0.clone());
        left.prime(&right);
        right.prime(&left);
        assert(forall|a: A| #[trigger] left@.contains_key(a) ==> level(lhs@, a) == left@[a]);
        assert(forall|a: A| #[trigger] right@.contains_key(a) ==> level(rhs@, a) == right@[a]);
        for (key, lq) in it: left.0.iter()
            invariant
                obeys_key_model::<A>(),
                forall|l: Quantity, r: Quantity| #[trigger] f.requires((l, r)),
                forall|l: Quantity, r: Quantity, o: Option<Quantity>| #[trigger]
                    f.ensures((l, r), o) ==> (o is Some <==> fits(g(l@, r@))) && (o matches Some(
                        q,
                    ) ==> q@ == g(l@, r@)),
                target == combined(lhs@, rhs@, g),
                left@.dom() == target.dom(),
                right@.dom() == target.dom(),
                forall|a: A| #[trigger] left@.contains_key(a) ==> level(lhs@, a) == left@[a],
                forall|a: A| #[trigger] right@.contains_key(a) ==> level(rhs@, a) == right@[a],
                it.seq() == left.0.iter().remaining(),
                forall|a: A| #[trigger]
                    amounts(acc@).contains_key(a) ==> target.contains_key(a) && amounts(acc@)[a]
                        == target[a],
                forall|i: int|
                    0 <= i < it.index() ==> amounts(acc@).contains_key(*#[trigger] it.seq()[i].0),
        {
            proof {
                let items = left.0.iter().remaining();
                assert(key == items[it.index()].0);
                assert(left.0@.contains_key(*items[it.index()].0));
                assert(left@.contains_key(*key));
                assert(target.contains_key(*key));
                assert(right@.contains_key(*key));
                assert(right.0@.contains_key(*key));
            }
            let rq = right.0.get(key).unwrap();
            assert(left@[*key] == lq@ && right@[*key] == rq@);
            match f(*lq, *rq) {
                Some(q) => {
                    assert(q@ == target[*key]);
                    let ghost before = acc@;
                    acc.insert(*key, q);
                    assert(amounts(acc@) =~= amounts(before).insert(*key, q@));
                },
                None => {
                    assert(target.contains_key(*key) && !fits(target[*key]));
                    return None;
                },
            }
        }
        proof {
            let items = left.0.iter().remaining();
            assert forall|a: A| target.contains_key(a) implies #[trigger] amounts(
                acc@,
            ).contains_key(a) by {
                assert(items.contains((&a, &left.0@[a])));
                let i = choose|i: int| 0 <= i < items.len() && items[i] == (&a, &left.0@[a]);
                assert(amounts(acc@).contains_key(*items[i].0));
            }
            assert(amounts(acc@) =~= target);
        }
        Some(Account(acc))
    }
}

} // verus!
