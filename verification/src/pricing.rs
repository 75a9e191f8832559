//! Pricing-strategy aggregation: amounts of money in hundredths of a
//! unit, three per-item pricing strategies (plain addition, every n-th
//! batch at a flat total, the cheapest of every n items free), and a
//! total over a mixed list of priced items grouped by strategy.

use vstd::prelude::*;
use vstd::pervasive::VecAdditionalExecFns;
use vstd::relations::sorted_by;
use vstd::seq_lib::lemma_sorted_unique;
use vstd::slice::{slice_subrange, slice_to_vec};
use vstd::string::StringExecFns;

verus! {

pub const STD_DENOMINATOR: u64 = 100;

/// An amount of money, stored in hundredths of the display unit.
#[derive(Copy, Clone, PartialEq, Eq, Structural, Debug)]
pub struct Money {
    pub value: u64,
}

/// The character of one decimal digit.
pub open spec fn digit_char(d: int) -> char {
    if d == 0 {
        '0'
    } else if d == 1 {
        '1'
    } else if d == 2 {
        '2'
    } else if d == 3 {
        '3'
    } else if d == 4 {
        '4'
    } else if d == 5 {
        '5'
    } else if d == 6 {
        '6'
    } else if d == 7 {
        '7'
    } else if d == 8 {
        '8'
    } else {
        '9'
    }
}

/// The decimal digits of `n`, most significant first.
pub open spec fn dec_digits(n: int) -> Seq<char>
    decreases n,
{
    if n < 10 {
        seq![digit_char(n)]
    } else {
        dec_digits(n / 10).push(digit_char(n % 10))
    }
}

/// How an amount is displayed: the whole units, and `.` plus exactly two
/// digits when the hundredths are not zero.
pub open spec fn money_text(value: int) -> Seq<char> {
    let whole = value / 100;
    let rest = value % 100;
    if rest == 0 {
        dec_digits(whole)
    } else {
        dec_digits(whole) + seq!['.', digit_char(rest / 10), digit_char(rest % 10)]
    }
}

fn digit_str(d: u64) -> (r: &'static str)
    requires
        d < 10,
    ensures
        r@ =~= seq![digit_char(d as int)],
{
    proof {
        reveal_strlit("0");
        reveal_strlit("1");
        reveal_strlit("2");
        reveal_strlit("3");
        reveal_strlit("4");
        reveal_strlit("5");
        reveal_strlit("6");
        reveal_strlit("7");
        reveal_strlit("8");
        reveal_strlit("9");
    }
    if d == 0 {
        "0"
    } else if d == 1 {
        "1"
    } else if d == 2 {
        "2"
    } else if d == 3 {
        "3"
    } else if d == 4 {
        "4"
    } else if d == 5 {
        "5"
    } else if d == 6 {
        "6"
    } else if d == 7 {
        "7"
    } else if d == 8 {
        "8"
    } else {
        "9"
    }
}

fn dec_string(n: u64) -> (r: String)
    ensures
        r@ =~= dec_digits(n as int),
    decreases n,
{
    if n < 10 {
        digit_str(n).to_owned()
    } else {
        let mut s = dec_string(n / 10);
        s.append(digit_str(n % 10));
        proof {
            assert(dec_digits(n as int / 10) + seq![digit_char(n as int % 10)] =~= dec_digits(
                n as int,
            ));
        }
        s
    }
}

impl Money {
    /// An amount given in whole display units.
    pub fn new(value: u64) -> (r: Money)
        requires
            value * STD_DENOMINATOR <= u64::MAX,
        ensures
            r.value == value * STD_DENOMINATOR,
    {
        Money { value: value * STD_DENOMINATOR }
    }

    /// An amount given directly in hundredths.
    pub fn raw(value: u64) -> (r: Money)
        ensures
            r.value == value,
    {
        Money { value }
    }

    /// The display text: whole units, then `.` and two digits when the
    /// hundredths are not zero.
    pub fn to_decimal_string(&self) -> (r: String)
        ensures
            r@ =~= money_text(self.value as int),
    {
        let whole = self.value / STD_DENOMINATOR;
        let rest = self.value % STD_DENOMINATOR;
        let mut s = dec_string(whole);
        if rest != 0 {
            proof {
                reveal_strlit(".");
            }
            s.append(".");
            s.append(digit_str(rest / 10));
            s.append(digit_str(rest % 10));
        }
        s
    }
}

/// The sum of the amounts, as an unbounded integer.
pub open spec fn sum_values(s: Seq<Money>) -> int
    decreases s.len(),
{
    if s.len() == 0 {
        0
    } else {
        sum_values(s.drop_last()) + s.last().value
    }
}

pub proof fn lemma_sum_nonneg(s: Seq<Money>)
    ensures
        sum_values(s) >= 0,
    decreases s.len(),
{
    if s.len() > 0 {
        lemma_sum_nonneg(s.drop_last());
    }
}

proof fn lemma_sum_prefix_le(s: Seq<Money>, i: int)
    requires
        0 <= i <= s.len(),
    ensures
        sum_values(s.subrange(0, i)) <= sum_values(s),
    decreases s.len() - i,
{
    if i == s.len() {
        assert(s.subrange(0, i) =~= s);
    } else {
        assert(s.subrange(0, i + 1).drop_last() =~= s.subrange(0, i));
        lemma_sum_prefix_le(s, i + 1);
    }
}

/// Plain addition: the total is the sum of the amounts.
pub fn calculate_ps_add(moneys: &[Money]) -> (r: Money)
    requires
        sum_values(moneys@) <= u64::MAX,
    ensures
        r.value == sum_values(moneys@),
{
    let mut total: u64 = 0;
    let mut i: usize = 0;
    while i < moneys.len()
        invariant
            i <= moneys@.len(),
            sum_values(moneys@) <= u64::MAX,
            total == sum_values(moneys@.subrange(0, i as int)),
        decreases moneys@.len() - i,
    {
        proof {
            assert(moneys@.subrange(0, i + 1).drop_last() =~= moneys@.subrange(0, i as int));
            assert(moneys@.subrange(0, i + 1).last() == moneys@[i as int]);
            lemma_sum_prefix_le(moneys@, i + 1);
        }
        total = total + moneys[i].value;
        i = i + 1;
    }
    proof {
        assert(moneys@.subrange(0, moneys@.len() as int) =~= moneys@);
    }
    Money { value: total }
}

/// What the n-th strategy owes: each full batch of `count` items costs
/// the flat `total`, and the remainder is summed plainly.
pub open spec fn ps_nth_value(s: Seq<Money>, count: int, total: Money) -> int
    recommends
        count > 0,
{
    let nth_count = s.len() as int / count;
    total.value * nth_count + sum_values(s.subrange(nth_count * count, s.len() as int))
}

/// Every full batch of `count` items costs the flat `total`; leftover
/// items are summed plainly.
pub fn calculate_ps_nth(moneys: &[Money], count: usize, total: &Money) -> (r: Money)
    requires
        count > 0,
        ps_nth_value(moneys@, count as int, *total) <= u64::MAX,
    ensures
        r.value == ps_nth_value(moneys@, count as int, *total),
{
    let nth_count = moneys.len() / count;
    proof {
        vstd::arithmetic::div_mod::lemma_fundamental_div_mod(
            moneys@.len() as int,
            count as int,
        );
        vstd::arithmetic::div_mod::lemma_mod_bound(moneys@.len() as int, count as int);
        vstd::arithmetic::mul::lemma_mul_is_commutative(
            nth_count as int,
            count as int,
        );
        assert(nth_count * count <= moneys@.len());
    }
    let rest_index = nth_count * count;
    proof {
        lemma_sum_nonneg(moneys@.subrange(rest_index as int, moneys@.len() as int));
    }
    let rest = slice_subrange(moneys, rest_index, moneys.len());
    let batch_part = total.value * (nth_count as u64);
    let rest_sum = calculate_ps_add(rest);
    Money { value: batch_part + rest_sum.value }
}

/// Amounts ordered by value.
pub open spec fn money_order() -> spec_fn(Money, Money) -> bool {
    |a: Money, b: Money| a.value <= b.value
}

/// Sorts the amounts in place into non-decreasing order, keeping the
/// multiset of amounts.
fn sort_moneys(v: &mut Vec<Money>)
    ensures
        final(v)@.len() == old(v)@.len(),
        final(v)@.to_multiset() == old(v)@.to_multiset(),
        sorted_by(final(v)@, money_order()),
{
    broadcast use vstd::seq_lib::group_to_multiset_ensures;
    broadcast use vstd::multiset::group_multiset_axioms;

    let ghost orig = v@;
    let n = v.len();
    let mut i: usize = 0;
    while i < n
        invariant
            i <= n == v@.len(),
            v@.to_multiset() =~= orig.to_multiset(),
            forall|p: int, q: int| 0 <= p < q < i ==> v@[p].value <= v@[q].value,
            forall|p: int, q: int| 0 <= p < i <= q < n ==> v@[p].value <= v@[q].value,
        decreases n - i,
    {
        let mut m = i;
        let mut j = i + 1;
        while j < n
            invariant
                i <= m < j <= n == v@.len(),
                forall|q: int| i <= q < j ==> v@[m as int].value <= v@[q].value,
            decreases n - j,
        {
            if v[j].value < v[m].value {
                m = j;
            }
            j = j + 1;
        }
        let ghost before = v@;
        let a = v[i];
        let b = v[m];
        v.set(i, b);
        v.set(m, a);
        proof {
            let mid = before.update(i as int, b);
            assert(mid[m as int] == b);
            assert(v@ == mid.update(m as int, a));
            before.to_multiset_ensures();
            assert(before.contains(a));
            assert(before.contains(b));
            assert(before.to_multiset().count(a) > 0);
            assert(before.to_multiset().count(b) > 0);
            vstd::seq_lib::to_multiset_update(before, i as int, b);
            vstd::seq_lib::to_multiset_update(mid, m as int, a);
            assert(v@.to_multiset() =~= before.to_multiset());
            assert forall|p: int, q: int| 0 <= p < q < i + 1 implies v@[p].value
                <= v@[q].value by {
                if q == i {
                    assert(before[p as int].value <= before[m as int].value);
                }
            }
            assert forall|p: int, q: int| 0 <= p < i + 1 <= q < n implies v@[p].value
                <= v@[q].value by {
                if p == i {
                    assert(v@[q] == if q == m {
                        before[i as int]
                    } else {
                        before[q]
                    });
                } else {
                    assert(v@[q] == if q == m {
                        before[i as int]
                    } else {
                        before[q]
                    });
                }
            }
        }
        i = i + 1;
    }
    proof {
        assert forall|p: int, q: int| 0 <= p < q < v@.len() implies #[trigger] money_order()(
            v@[p],
            v@[q],
        ) by {
            assert(v@[p].value <= v@[q].value);
        }
    }
}

/// What the one-free strategy owes: the cheapest `len / count` items are
/// free, the rest are summed.
pub open spec fn ps_onefree_value(s: Seq<Money>, count: int) -> int
    recommends
        count > 0,
{
    let free_count = s.len() as int / count;
    sum_values(s.sort_by(money_order()).subrange(free_count, s.len() as int))
}

/// For every `count` items, the cheapest of them is free: the cheapest
/// `len / count` amounts are skipped and the rest are summed.
pub fn calculate_ps_onefree(moneys: &[Money], count: usize) -> (r: Money)
    requires
        count > 0,
        ps_onefree_value(moneys@, count as int) <= u64::MAX,
    ensures
        r.value == ps_onefree_value(moneys@, count as int),
{
    let free_count = moneys.len() / count;
    proof {
        vstd::arithmetic::div_mod::lemma_fundamental_div_mod(
            moneys@.len() as int,
            count as int,
        );
        vstd::arithmetic::div_mod::lemma_div_nonincreasing(moneys@.len() as int, count as int);
        vstd::arithmetic::div_mod::lemma_div_pos_is_pos(moneys@.len() as int, count as int);
    }
    let mut money_copy: Vec<Money> = slice_to_vec(moneys);
    sort_moneys(&mut money_copy);
    proof {
        moneys@.lemma_sort_by_ensures(money_order());
        lemma_sorted_unique(money_copy@, moneys@.sort_by(money_order()), money_order());
        assert(money_copy@ == moneys@.sort_by(money_order()));
    }
    let rest = slice_subrange(money_copy.as_slice(), free_count, money_copy.len());
    calculate_ps_add(rest)
}

/// How a group of equally priced items is charged.
#[derive(Copy, Clone, PartialEq, Eq, Structural)]
pub enum PricingStrategy {
    /// Every item at its own cost.
    Add,
    /// Every full batch of `count` items costs the flat `total`.
    Nth { count: usize, total: Money },
    /// The cheapest of every `count` items is free.
    OneFree { count: usize },
}

/// What a strategy owes for a group of amounts.
pub open spec fn ps_value(strat: PricingStrategy, s: Seq<Money>) -> int {
    match strat {
        PricingStrategy::Add => sum_values(s),
        PricingStrategy::Nth { count, total } => ps_nth_value(s, count as int, total),
        PricingStrategy::OneFree { count } => ps_onefree_value(s, count as int),
    }
}

/// The inputs a strategy accepts: a positive batch size where one is
/// used, and a total that fits the machine word.
pub open spec fn ps_admits(strat: PricingStrategy, s: Seq<Money>) -> bool {
    ps_value(strat, s) <= u64::MAX && match strat {
        PricingStrategy::Add => true,
        PricingStrategy::Nth { count, total: _ } => count > 0,
        PricingStrategy::OneFree { count } => count > 0,
    }
}

pub proof fn lemma_ps_value_nonneg(strat: PricingStrategy, s: Seq<Money>)
    requires
        ps_admits(strat, s),
    ensures
        ps_value(strat, s) >= 0,
{
    match strat {
        PricingStrategy::Add => {
            lemma_sum_nonneg(s);
        },
        PricingStrategy::Nth { count, total } => {
            vstd::arithmetic::div_mod::lemma_div_pos_is_pos(s.len() as int, count as int);
            vstd::arithmetic::mul::lemma_mul_nonnegative(
                total.value as int,
                s.len() as int / count as int,
            );
            lemma_sum_nonneg(
                s.subrange((s.len() as int / count as int) * count as int, s.len() as int),
            );
        },
        PricingStrategy::OneFree { count } => {
            lemma_sum_nonneg(
                s.sort_by(money_order()).subrange(
                    s.len() as int / count as int,
                    s.len() as int,
                ),
            );
        },
    }
}

impl PricingStrategy {
    /// Dispatches to the strategy's calculation.
    pub fn calculate(&self, moneys: &[Money]) -> (r: Money)
        requires
            ps_admits(*self, moneys@),
        ensures
            r.value == ps_value(*self, moneys@),
    {
        match self {
            PricingStrategy::Add => calculate_ps_add(moneys),
            PricingStrategy::Nth { count, total } => calculate_ps_nth(moneys, *count, total),
            PricingStrategy::OneFree { count } => calculate_ps_onefree(moneys, *count),
        }
    }
}

/// One priced item: its cost and the strategy its group is charged by.
#[derive(Copy, Clone, PartialEq, Eq, Structural)]
pub struct Price {
    pub cost: Money,
    pub strategy: PricingStrategy,
}

impl Price {
    /// An item charged plainly.
    pub fn new(value: u64) -> (r: Price)
        requires
            value * STD_DENOMINATOR <= u64::MAX,
        ensures
            r.cost.value == value * STD_DENOMINATOR,
            r.strategy == PricingStrategy::Add,
    {
        Price { cost: Money::new(value), strategy: PricingStrategy::Add }
    }

    /// An item charged by full batches of `count` at a flat `total`.
    pub fn new_nth(value: u64, count: usize, total: u64) -> (r: Price)
        requires
            value * STD_DENOMINATOR <= u64::MAX,
            total * STD_DENOMINATOR <= u64::MAX,
        ensures
            r.cost.value == value * STD_DENOMINATOR,
            r.strategy == (PricingStrategy::Nth {
                count,
                total: Money { value: (total * STD_DENOMINATOR) as u64 },
            }),
    {
        Price {
            cost: Money::new(value),
            strategy: PricingStrategy::Nth { count, total: Money::new(total) },
        }
    }

    /// An item of which the cheapest of every `count` is free.
    pub fn new_onefree(value: u64, count: usize) -> (r: Price)
        requires
            value * STD_DENOMINATOR <= u64::MAX,
        ensures
            r.cost.value == value * STD_DENOMINATOR,
            r.strategy == (PricingStrategy::OneFree { count }),
    {
        Price { cost: Money::new(value), strategy: PricingStrategy::OneFree { count } }
    }
}

/// The distinct strategies of the items, in first-occurrence order.
pub open spec fn strategies_of(prices: Seq<Price>) -> Seq<PricingStrategy>
    decreases prices.len(),
{
    if prices.len() == 0 {
        Seq::empty()
    } else {
        let init = strategies_of(prices.drop_last());
        if init.contains(prices.last().strategy) {
            init
        } else {
            init.push(prices.last().strategy)
        }
    }
}

/// The costs of the items charged by `strat`, in item order.
pub open spec fn costs_for(prices: Seq<Price>, strat: PricingStrategy) -> Seq<Money>
    decreases prices.len(),
{
    if prices.len() == 0 {
        Seq::empty()
    } else {
        let init = costs_for(prices.drop_last(), strat);
        if prices.last().strategy == strat {
            init.push(prices.last().cost)
        } else {
            init
        }
    }
}

/// The grand total: each strategy's value over its own group, summed.
pub open spec fn total_value(prices: Seq<Price>, strats: Seq<PricingStrategy>) -> int
    decreases strats.len(),
{
    if strats.len() == 0 {
        0
    } else {
        total_value(prices, strats.drop_last()) + ps_value(
            strats.last(),
            costs_for(prices, strats.last()),
        )
    }
}

/// Every group's strategy accepts its group, and the grand total fits.
pub open spec fn total_admits(prices: Seq<Price>) -> bool {
    &&& forall|s: PricingStrategy|
        strategies_of(prices).contains(s) ==> ps_admits(s, #[trigger] costs_for(prices, s))
    &&& total_value(prices, strategies_of(prices)) <= u64::MAX
}

proof fn lemma_total_prefix_le(prices: Seq<Price>, strats: Seq<PricingStrategy>, i: int)
    requires
        0 <= i <= strats.len(),
        forall|s: PricingStrategy|
            strats.contains(s) ==> ps_admits(s, #[trigger] costs_for(prices, s)),
    ensures
        total_value(prices, strats.subrange(0, i)) <= total_value(prices, strats),
    decreases strats.len() - i,
{
    if i == strats.len() {
        assert(strats.subrange(0, i) =~= strats);
    } else {
        assert(strats.subrange(0, i + 1).drop_last() =~= strats.subrange(0, i));
        assert(strats.contains(strats[i]));
        lemma_ps_value_nonneg(strats[i], costs_for(prices, strats[i]));
        lemma_total_prefix_le(prices, strats, i + 1);
    }
}

/// Sums the items grouped by strategy: each group is charged by its own
/// strategy, and the group totals are added.
pub fn calculate_total_price(prices: &[Price]) -> (r: Money)
    requires
        total_admits(prices@),
    ensures
        r.value == total_value(prices@, strategies_of(prices@)),
{
    let mut strats: Vec<PricingStrategy> = Vec::new();
    let mut groups: Vec<Vec<Money>> = Vec::new();
    let mut i: usize = 0;
    proof {
        assert(prices@.subrange(0, 0) =~= Seq::<Price>::empty());
    }
    while i < prices.len()
        invariant
            i <= prices@.len(),
            strats@ =~= strategies_of(prices@.subrange(0, i as int)),
            groups@.len() == strats@.len(),
            forall|k1: int, k2: int|
                0 <= k1 < k2 < strats@.len() ==> strats@[k1] != strats@[k2],
            forall|k: int|
                0 <= k < strats@.len() ==> #[trigger] groups@[k]@ =~= costs_for(
                    prices@.subrange(0, i as int),
                    strats@[k],
                ),
        decreases prices@.len() - i,
    {
        let ghost prefix = prices@.subrange(0, i as int);
        let price = &prices[i];
        let mut found: usize = groups.len();
        let mut j: usize = 0;
        while j < strats.len()
            invariant
                j <= strats@.len(),
                groups@.len() == strats@.len(),
                found == strats@.len() || (found < j && strats@[found as int] == price.strategy),
                found == strats@.len() ==> forall|k: int|
                    0 <= k < j ==> strats@[k] != price.strategy,
            decreases strats@.len() - j,
        {
            if found == groups.len() && strats[j] == price.strategy {
                found = j;
            }
            j = j + 1;
        }
        proof {
            assert(prices@.subrange(0, i + 1).drop_last() =~= prefix);
            assert(prices@.subrange(0, i + 1).last() == prices@[i as int]);
        }
        if found < groups.len() {
            let slot = &mut groups[found];
            slot.push(price.cost);
            proof {
                assert(strats@.contains(price.strategy));
                let next = prices@.subrange(0, i + 1);
                assert forall|k: int| 0 <= k < strats@.len() implies #[trigger] groups@[k]@
                    =~= costs_for(next, strats@[k]) by {
                    assert(costs_for(next, strats@[k]) == if strats@[k] == price.strategy {
                        costs_for(prefix, strats@[k]).push(price.cost)
                    } else {
                        costs_for(prefix, strats@[k])
                    });
                    if k != found {
                        assert(strats@[k] != price.strategy);
                    }
                }
            }
        } else {
            proof {
                assert(!strats@.contains(price.strategy));
            }
            strats.push(price.strategy);
            let mut group: Vec<Money> = Vec::new();
            group.push(price.cost);
            groups.push(group);
            proof {
                let next = prices@.subrange(0, i + 1);
                assert(strats@ =~= strategies_of(next));
                assert forall|k: int| 0 <= k < strats@.len() implies #[trigger] groups@[k]@
                    =~= costs_for(next, strats@[k]) by {
                    if k < strats@.len() - 1 {
                        assert(strats@[k] != price.strategy);
                        assert(costs_for(next, strats@[k]) == costs_for(prefix, strats@[k]));
                    } else {
                        assert(costs_for(prefix, price.strategy) =~= Seq::<Money>::empty()) by {
                            lemma_costs_absent(prefix, price.strategy);
                        }
                    }
                }
            }
        }
        i = i + 1;
    }
    proof {
        assert(prices@.subrange(0, prices@.len() as int) =~= prices@);
    }

    let mut result: u64 = 0;
    let mut k: usize = 0;
    proof {
        assert(strats@.subrange(0, 0) =~= Seq::<PricingStrategy>::empty());
    }
    while k < strats.len()
        invariant
            k <= strats@.len(),
            groups@.len() == strats@.len(),
            strats@ == strategies_of(prices@),
            total_admits(prices@),
            forall|t: int|
                0 <= t < strats@.len() ==> #[trigger] groups@[t]@ =~= costs_for(
                    prices@,
                    strats@[t],
                ),
            result == total_value(prices@, strats@.subrange(0, k as int)),
        decreases strats@.len() - k,
    {
        proof {
            assert(strats@.contains(strats@[k as int]));
            assert(strats@.subrange(0, k + 1).drop_last() =~= strats@.subrange(0, k as int));
            assert(strats@.subrange(0, k + 1).last() == strats@[k as int]);
            lemma_total_prefix_le(prices@, strats@, k + 1);
            lemma_total_prefix_le(prices@, strats@, k as int);
            lemma_ps_value_nonneg(strats@[k as int], costs_for(prices@, strats@[k as int]));
        }
        let part = strats[k].calculate(groups[k].as_slice());
        result = result + part.value;
        k = k + 1;
    }
    proof {
        assert(strats@.subrange(0, strats@.len() as int) =~= strats@);
    }
    Money { value: result }
}

/// A strategy no item uses has an empty group.
proof fn lemma_costs_absent(prices: Seq<Price>, strat: PricingStrategy)
    requires
        !strategies_of(prices).contains(strat),
    ensures
        costs_for(prices, strat) =~= Seq::<Money>::empty(),
    decreases prices.len(),
{
    if prices.len() > 0 {
        let init = strategies_of(prices.drop_last());
        assert forall|s: PricingStrategy| init.contains(s) implies strategies_of(
            prices,
        ).contains(s) by {
            let t = choose|t: int| 0 <= t < init.len() && init[t] == s;
            if !init.contains(prices.last().strategy) {
                assert(strategies_of(prices)[t] == s);
            }
        }
        lemma_costs_absent(prices.drop_last(), strat);
        assert(prices.last().strategy != strat) by {
            if prices.last().strategy == strat {
                let whole = strategies_of(prices);
                if init.contains(strat) {
                } else {
                    assert(whole.last() == strat);
                }
            }
        }
    }
}

} // verus!
