//! Laws of the account algebra and of trades, stated over the models that
//! the operations' contracts use.

use crate::account::{
    all_fit, buyer_after, difference, level, same_levels, scaled, seller_after, shortfall, sum,
    amounts, Account,
};
use crate::asset::Asset;
use crate::fixed::{product, ONE_BITS};
use crate::rate::Rate;
use vstd::arithmetic::div_mod::lemma_div_multiples_vanish;
use vstd::prelude::*;

verus! {

/// Multiplying by a whole number `n` is exact.
pub proof fn lemma_product_whole(v: int, n: int)
    ensures
        product(v, n * ONE_BITS) == v * n,
{
    assert(v * (n * ONE_BITS) == ONE_BITS * (v * n)) by (nonlinear_arith);
    lemma_div_multiples_vanish(v * n, ONE_BITS as int);
}

/// An asset that an account lacks may be added at zero without changing
/// what the account equals; likewise an entry of zero may be removed.
pub proof fn law_zero_extension<A: Asset>(acc: Account<A>, x: A)
    requires
        !acc@.contains_key(x),
    ensures
        same_levels(acc@, sum(acc@, Map::<A, int>::empty().insert(x, 0))),
        same_levels(acc@.insert(x, 0), acc@),
{
    let z = Map::<A, int>::empty().insert(x, 0);
    assert forall|a: A| #[trigger] level(acc@, a) == level(sum(acc@, z), a) by {
        assert(level(z, a) == 0);
    }
    assert forall|a: A| #[trigger] level(acc@.insert(x, 0), a) == level(acc@, a) by {}
}

/// Subtracting and then adding back the same account gives the original
/// balances, and where the subtraction succeeds the addition does too.
pub proof fn law_sub_then_add<A: Asset>(a: Account<A>, b: Account<A>)
    ensures
        same_levels(sum(difference(a@, b@), b@), a@),
        all_fit(difference(a@, b@)) ==> all_fit(sum(difference(a@, b@), b@)),
{
    a.lemma_fits();
    let r = sum(difference(a@, b@), b@);
    assert forall|x: A| #[trigger] level(r, x) == level(a@, x) by {}
    assert forall|x: A| #[trigger] r.contains_key(x) implies crate::fixed::fits(r[x]) by {
        assert(r[x] == level(a@, x));
    }
}

/// Addition is commutative; subtraction is anticommutative, so `a - b`
/// equals `b - a` exactly when `a` equals `b`.
pub proof fn law_commutativity<A: Asset>(a: Account<A>, b: Account<A>)
    ensures
        sum(a@, b@) == sum(b@, a@),
        forall|x: A| #[trigger]
            level(difference(a@, b@), x) == -level(difference(b@, a@), x),
        same_levels(difference(a@, b@), difference(b@, a@)) <==> same_levels(a@, b@),
{
    assert(sum(a@, b@) =~= sum(b@, a@));
    if same_levels(difference(a@, b@), difference(b@, a@)) {
        assert forall|x: A| #[trigger] level(a@, x) == level(b@, x) by {
            assert(level(difference(a@, b@), x) == level(difference(b@, a@), x));
        }
    }
    if same_levels(a@, b@) {
        assert forall|x: A| #[trigger] level(difference(a@, b@), x) == level(
            difference(b@, a@),
            x,
        ) by {
            assert(level(a@, x) == level(b@, x));
        }
    }
}

/// Scaling by a whole number distributes over addition.
pub proof fn law_scale_distributes<A: Asset>(a: Account<A>, b: Account<A>, k: int)
    requires
        k % (ONE_BITS as int) == 0,
    ensures
        scaled(sum(a@, b@), k) == sum(scaled(a@, k), scaled(b@, k)),
{
    let n = k / (ONE_BITS as int);
    assert(k == n * ONE_BITS);
    let l = scaled(sum(a@, b@), k);
    let r = sum(scaled(a@, k), scaled(b@, k));
    assert forall|x: A| #[trigger] l.contains_key(x) implies l[x] == r[x] by {
        lemma_product_whole(level(a@, x) + level(b@, x), n);
        lemma_product_whole(level(a@, x), n);
        lemma_product_whole(level(b@, x), n);
        assert((level(a@, x) + level(b@, x)) * n == level(a@, x) * n + level(b@, x) * n)
            by (nonlinear_arith);
    }
    assert(l =~= r);
}

/// A trade of two units moves exactly what two trades of one unit in a row
/// move, and where the buyer affords both single trades it affords the
/// double one.
pub proof fn law_double_trade<A: Asset>(rate: Rate<A>, buyer: Account<A>, seller: Account<A>)
    requires
        shortfall(amounts(rate.credit@), amounts(rate.debit@), ONE_BITS as int, buyer@)
            == Map::<A, int>::empty(),
        shortfall(
            amounts(rate.credit@),
            amounts(rate.debit@),
            ONE_BITS as int,
            buyer_after(amounts(rate.credit@), amounts(rate.debit@), ONE_BITS as int, buyer@),
        ) == Map::<A, int>::empty(),
    ensures
        ({
            let c = amounts(rate.credit@);
            let d = amounts(rate.debit@);
            let one = ONE_BITS as int;
            &&& buyer_after(c, d, 2 * one, buyer@) == buyer_after(
                c,
                d,
                one,
                buyer_after(c, d, one, buyer@),
            )
            &&& seller_after(c, d, 2 * one, seller@) == seller_after(
                c,
                d,
                one,
                seller_after(c, d, one, seller@),
            )
            &&& shortfall(c, d, 2 * one, buyer@) == Map::<A, int>::empty()
        }),
{
    let c = amounts(rate.credit@);
    let d = amounts(rate.debit@);
    let one = ONE_BITS as int;
    assert forall|v: int| product(v, one) == v && #[trigger] product(v, 2 * one) == 2 * v by {
        lemma_product_whole(v, 1);
        lemma_product_whole(v, 2);
    }
    assert forall|v: int| #[trigger] product(v, one) == v by {
        lemma_product_whole(v, 1);
    }
    let b2 = buyer_after(c, d, 2 * one, buyer@);
    let b11 = buyer_after(c, d, one, buyer_after(c, d, one, buyer@));
    assert(b2 =~= b11);
    let s2 = seller_after(c, d, 2 * one, seller@);
    let s11 = seller_after(c, d, one, seller_after(c, d, one, seller@));
    assert(s2 =~= s11);
    let step = buyer_after(c, d, one, buyer@);
    assert forall|x: A| !#[trigger] shortfall(c, d, 2 * one, buyer@).contains_key(x) by {
        assert(!shortfall(c, d, one, step).contains_key(x));
    }
    assert(shortfall(c, d, 2 * one, buyer@) =~= Map::<A, int>::empty());
}

/// A seller holding none of a credited asset that the rate does not debit
/// ends the trade negative in it. Whether a trade is approved depends on
/// the buyer alone (`shortfall` takes no seller), so such a trade goes
/// through wherever the buyer affords it.
pub proof fn law_seller_unchecked<A: Asset>(
    rate: Rate<A>,
    k: int,
    buyer: Account<A>,
    seller: Account<A>,
    x: A,
)
    requires
        level(seller@, x) == 0,
        level(scaled(amounts(rate.credit@), k), x) > 0,
        !rate.debit@.contains_key(x),
    ensures
        level(seller_after(amounts(rate.credit@), amounts(rate.debit@), k, seller@), x) < 0,
{
}

} // verus!
