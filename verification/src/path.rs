//! Simulation of price paths.
use crate::args::Args;
use crate::binary64::Binary64;
use crate::laws;
use crate::scale;
use vstd::prelude::*;

verus! {

/// Trading days per year.
pub const TRADING_DAYS_PER_YEAR: u64 = 252;

/// What one simulated path comes to.
#[derive(Debug)]
pub struct SimOutcome {
    pub final_price: Binary64,
    /// The prices from the first day to the last, where they are recorded.
    pub path: Option<Vec<Binary64>>,
}

/// One trading day in years.
pub open spec fn spec_time_step() -> Binary64 {
    Binary64::from_u64(1).div(Binary64::from_u64(TRADING_DAYS_PER_YEAR))
}

/// `days` trading days in years.
pub open spec fn spec_years(days: usize) -> Binary64 {
    Binary64::from_u64(days as u64).div(Binary64::from_u64(TRADING_DAYS_PER_YEAR))
}

/// One trading day in years.
#[verifier::when_used_as_spec(spec_time_step)]
pub fn time_step() -> (dt: Binary64)
    ensures
        dt == spec_time_step(),
        dt == Binary64::from_u64(1).div(Binary64::from_u64(252)),
{
    Binary64::from_u64(1).div(Binary64::from_u64(TRADING_DAYS_PER_YEAR))
}

/// `days` trading days in years.
#[verifier::when_used_as_spec(spec_years)]
pub fn years(days: usize) -> (t: Binary64)
    ensures
        t == spec_years(days),
        t == Binary64::from_u64(days as u64).div(Binary64::from_u64(252)),
{
    Binary64::from_u64(days as u64).div(Binary64::from_u64(TRADING_DAYS_PER_YEAR))
}

/// The parts of a day's logarithmic growth: what it is without a shock, and how
/// much a shock of one adds.
#[derive(Clone, Copy, Debug)]
pub struct StepTerms {
    pub drift_term: Binary64,
    pub vol_term: Binary64,
}

impl StepTerms {
    /// (mu - volatility^2 / 2) * dt and volatility * sqrt(dt).
    pub open spec fn spec_new(volatility: Binary64, mu: Binary64, dt: Binary64) -> StepTerms {
        let half_square = Binary64::ratio(1, 2).mul(volatility).mul(volatility);
        StepTerms {
            drift_term: mu.sub(half_square).mul(dt),
            vol_term: volatility.mul(dt.sqrt()),
        }
    }

    /// The logarithm of a day's growth under the shock `z`.
    pub open spec fn spec_exponent(self, z: Binary64) -> Binary64 {
        self.drift_term.add(self.vol_term.mul(z))
    }

    /// The terms for a volatility, a drift and a time step.
    #[verifier::when_used_as_spec(spec_new)]
    pub fn new(volatility: Binary64, mu: Binary64, dt: Binary64) -> (terms: StepTerms)
        ensures
            terms == StepTerms::spec_new(volatility, mu, dt),
            terms.drift_term == mu.sub(Binary64::ratio(1, 2).mul(volatility).mul(volatility)).mul(
                dt,
            ),
            terms.vol_term == volatility.mul(dt.sqrt()),
    {
        let half_square: Binary64 = Binary64::ratio(1, 2).mul(volatility).mul(volatility);
        StepTerms {
            drift_term: mu.sub(half_square).mul(dt),
            vol_term: volatility.mul(dt.sqrt()),
        }
    }

    /// The logarithm of a day's growth under the shock `z`.
    #[verifier::when_used_as_spec(spec_exponent)]
    pub fn exponent(self, z: Binary64) -> (e: Binary64)
        ensures
            e == self.spec_exponent(z),
            e == self.drift_term.add(self.vol_term.mul(z)),
    {
        self.drift_term.add(self.vol_term.mul(z))
    }
}

/// The prices that growth by one factor after another leads through, the
/// initial one first.
pub open spec fn walk(initial: Binary64, growth: Seq<Binary64>) -> Seq<Binary64>
    decreases growth.len(),
{
    if growth.len() == 0 {
        seq![initial]
    } else {
        let before = walk(initial, growth.drop_last());
        before.push(before.last().mul(growth.last()))
    }
}

/// A path under way.
pub struct PathSim {
    price: Binary64,
    days_left: usize,
    path: Option<Vec<Binary64>>,
    initial: Ghost<Binary64>,
    growth: Ghost<Seq<Binary64>>,
}

impl PathSim {
    /// The price that the path started from.
    pub closed spec fn initial(self) -> Binary64 {
        self.initial@
    }

    /// The factors that the price has grown by so far.
    pub closed spec fn growth(self) -> Seq<Binary64> {
        self.growth@
    }

    /// How many more days the path has to run.
    pub closed spec fn days_left(self) -> nat {
        self.days_left as nat
    }

    /// The path is being recorded.
    pub closed spec fn recording(self) -> bool {
        self.path is Some
    }

    /// The current price is where the walk has led, and the record is the walk.
    pub closed spec fn wf(self) -> bool {
        let prices = walk(self.initial@, self.growth@);
        &&& self.price == prices.last()
        &&& self.path matches Some(p) ==> p@ == prices
    }

    /// A path that has not left its initial price, and has `days` to run.
    pub fn start(initial: Binary64, days: usize, record_path: bool) -> (sim: PathSim)
        ensures
            sim.wf(),
            sim.initial() == initial,
            sim.growth() == Seq::<Binary64>::empty(),
            sim.days_left() == days,
            sim.recording() == record_path,
    {
        let path: Option<Vec<Binary64>> = if record_path {
            let mut p: Vec<Binary64> = Vec::new();
            p.push(initial);
            assert(p@ =~= seq![initial]);
            Some(p)
        } else {
            None
        };
        PathSim {
            price: initial,
            days_left: days,
            path,
            initial: Ghost(initial),
            growth: Ghost(Seq::empty()),
        }
    }

    /// Whether the path has run all its days.
    pub fn done(&self) -> (b: bool)
        ensures
            b == (self.days_left() == 0),
    {
        self.days_left == 0
    }

    /// One day on: the price grows by `factor`.
    pub fn advance(&mut self, factor: Binary64)
        requires
            old(self).wf(),
            old(self).days_left() > 0,
        ensures
            final(self).wf(),
            final(self).initial() == old(self).initial(),
            final(self).growth() == old(self).growth().push(factor),
            final(self).days_left() == old(self).days_left() - 1,
            final(self).recording() == old(self).recording(),
    {
        self.price = self.price.mul(factor);
        self.days_left = self.days_left - 1;
        let price: Binary64 = self.price;
        if let Some(p) = &mut self.path {
            p.push(price);
        }
        proof {
            self.growth@ = self.growth@.push(factor);
            assert(self.growth@.drop_last() =~= old(self).growth@);
        }
    }

    /// What the path has come to.
    pub fn finish(self) -> (outcome: SimOutcome)
        requires
            self.wf(),
            self.days_left() == 0,
        ensures
            outcome.final_price == walk(self.initial(), self.growth()).last(),
            outcome.path is Some == self.recording(),
            outcome.path matches Some(p) ==> p@ == walk(self.initial(), self.growth()),
    {
        SimOutcome { final_price: self.price, path: self.path }
    }
}

/// Simulates one path, given the factor that the price grows by on each day.
pub fn simulate_one_path(args: &Args, growth: &[Binary64], record_path: bool) -> (outcome:
    SimOutcome)
    requires
        growth@.len() == args.days,
    ensures
        outcome.final_price == walk(args.initial_price, growth@).last(),
        outcome.path is Some == record_path,
        outcome.path matches Some(p) ==> p@ == walk(args.initial_price, growth@),
        outcome.path matches Some(p) ==> p@.len() == args.days + 1 && p@[0] == args.initial_price
            && p@[args.days as int] == outcome.final_price && forall|i: int| #![trigger p@[i + 1]]
            0 <= i < args.days ==> p@[i + 1] == p@[i].mul(growth@[i]),
{
    let mut sim: PathSim = PathSim::start(args.initial_price, args.days, record_path);
    let mut day: usize = 0;
    while !sim.done()
        invariant
            growth@.len() == args.days,
            day + sim.days_left() == args.days,
            sim.wf(),
            sim.initial() == args.initial_price,
            sim.growth() == growth@.take(day as int),
            sim.recording() == record_path,
        decreases sim.days_left(),
    {
        sim.advance(growth[day]);
        proof {
            assert(growth@.take(day + 1) =~= growth@.take(day as int).push(growth@[day as int]));
        }
        day = day + 1;
    }
    proof {
        assert(growth@.take(day as int) =~= growth@);
        lemma_walk(args.initial_price, growth@);
    }
    sim.finish()
}

/// The price that each path ended at.
pub open spec fn spec_final_prices(outcomes: Seq<SimOutcome>) -> Seq<Binary64> {
    outcomes.map_values(|o: SimOutcome| o.final_price)
}

/// The price that each path ended at.
pub fn final_prices(outcomes: &[SimOutcome]) -> (prices: Vec<Binary64>)
    ensures
        prices@ == spec_final_prices(outcomes@),
        prices@.len() == outcomes@.len(),
        forall|i: int|
            0 <= i < outcomes@.len() ==> prices@[i] == (#[trigger] outcomes@[i]).final_price,
{
    let n: usize = outcomes.len();
    let mut prices: Vec<Binary64> = Vec::with_capacity(n);
    let mut i: usize = 0;
    while i < n
        invariant
            n == outcomes@.len(),
            i <= n,
            prices@ == spec_final_prices(outcomes@.take(i as int)),
        decreases n - i,
    {
        prices.push(outcomes[i].final_price);
        proof {
            assert(prices@ =~= spec_final_prices(outcomes@.take(i + 1)));
        }
        i = i + 1;
    }
    proof {
        assert(outcomes@.take(i as int) =~= outcomes@);
    }
    prices
}

/// The paths that were recorded, in order.
pub open spec fn recorded(outcomes: Seq<SimOutcome>) -> Seq<Seq<Binary64>>
    decreases outcomes.len(),
{
    if outcomes.len() == 0 {
        Seq::empty()
    } else {
        let before = recorded(outcomes.drop_last());
        match outcomes.last().path {
            Some(p) => before.push(p@),
            None => before,
        }
    }
}

/// The first `limit` members, or all where there are fewer.
pub open spec fn at_most<T>(s: Seq<T>, limit: int) -> Seq<T> {
    if s.len() <= limit {
        s
    } else {
        s.take(limit)
    }
}

/// Later outcomes only add to what is recorded.
proof fn lemma_recorded_grows(outcomes: Seq<SimOutcome>, i: int)
    requires
        0 <= i <= outcomes.len(),
    ensures
        recorded(outcomes.take(i)).len() <= recorded(outcomes).len(),
        recorded(outcomes.take(i)) == recorded(outcomes).take(
            recorded(outcomes.take(i)).len() as int,
        ),
    decreases outcomes.len(),
{
    if i == outcomes.len() {
        assert(outcomes.take(i) =~= outcomes);
        assert(recorded(outcomes) =~= recorded(outcomes).take(recorded(outcomes).len() as int));
    } else {
        lemma_recorded_grows(outcomes.drop_last(), i);
        assert(outcomes.drop_last().take(i) =~= outcomes.take(i));
        let k = recorded(outcomes.take(i)).len() as int;
        assert(recorded(outcomes).take(k) =~= recorded(outcomes.drop_last()).take(k));
    }
}

fn copy(s: &Vec<Binary64>) -> (r: Vec<Binary64>)
    ensures
        r@ == s@,
{
    let mut r: Vec<Binary64> = Vec::with_capacity(s.len());
    let mut i: usize = 0;
    while i < s.len()
        invariant
            i <= s@.len(),
            r@ == s@.take(i as int),
        decreases s@.len() - i,
    {
        r.push(s[i]);
        proof {
            assert(s@.take(i + 1) =~= s@.take(i as int).push(s@[i as int]));
        }
        i = i + 1;
    }
    proof {
        assert(s@.take(i as int) =~= s@);
    }
    r
}

/// The first `limit` of the recorded paths.
pub fn sampled_paths(outcomes: &[SimOutcome], limit: usize) -> (paths: Vec<Vec<Binary64>>)
    ensures
        paths@.map_values(|p: Vec<Binary64>| p@) == at_most(recorded(outcomes@), limit as int),
{
    let n: usize = outcomes.len();
    let mut paths: Vec<Vec<Binary64>> = Vec::new();
    let mut i: usize = 0;
    let ghost view = |p: Vec<Binary64>| p@;
    proof {
        assert(outcomes@.take(0) =~= Seq::<SimOutcome>::empty());
        assert(paths@.map_values(view) =~= Seq::<Seq<Binary64>>::empty());
    }
    while i < n && paths.len() < limit
        invariant
            n == outcomes@.len(),
            i <= n,
            paths@.len() <= limit,
            view == (|p: Vec<Binary64>| p@),
            paths@.map_values(view) == recorded(outcomes@.take(i as int)),
        decreases n - i,
    {
        let ghost before = paths@;
        if let Some(p) = &outcomes[i].path {
            paths.push(copy(p));
        }
        proof {
            assert(outcomes@.take(i + 1).drop_last() =~= outcomes@.take(i as int));
            if outcomes@[i as int].path is Some {
                assert(paths@.map_values(view) =~= before.map_values(view).push(paths@.last()@));
            }
        }
        i = i + 1;
    }
    proof {
        lemma_recorded_grows(outcomes@, i as int);
        assert(outcomes@.take(n as int) =~= outcomes@);
        assert(paths@.map_values(view).len() == paths@.len());
        assert(paths@.map_values(view) =~= at_most(recorded(outcomes@), limit as int));
    }
    paths
}

/// Where each path is recorded or not as the arguments say, the sample is the
/// paths of the first outcomes.
pub proof fn lemma_sample_is_first_paths(args: Args, outcomes: Seq<SimOutcome>)
    requires
        args.paths_output is Some,
        args.sample_paths <= outcomes.len(),
        forall|i: int| 0 <= i < outcomes.len() ==> (#[trigger] outcomes[i]).path is Some
            == args.records(i),
    ensures
        recorded(outcomes).len() == args.sample_paths,
        forall|i: int|
            0 <= i < args.sample_paths ==> #[trigger] recorded(outcomes)[i]
                == outcomes[i].path->Some_0@,
{
    lemma_recorded_prefix(args, outcomes);
}

proof fn lemma_recorded_prefix(args: Args, outcomes: Seq<SimOutcome>)
    requires
        args.paths_output is Some,
        forall|i: int| 0 <= i < outcomes.len() ==> (#[trigger] outcomes[i]).path is Some
            == args.records(i),
    ensures
        recorded(outcomes).len() == if outcomes.len() < args.sample_paths {
            outcomes.len()
        } else {
            args.sample_paths as nat
        },
        forall|i: int|
            0 <= i < recorded(outcomes).len() ==> #[trigger] recorded(outcomes)[i]
                == outcomes[i].path->Some_0@,
    decreases outcomes.len(),
{
    if outcomes.len() > 0 {
        let rest = outcomes.drop_last();
        assert forall|i: int| 0 <= i < rest.len() implies (#[trigger] rest[i]).path is Some
            == args.records(i) by {
            assert(rest[i] == outcomes[i]);
        }
        lemma_recorded_prefix(args, rest);
        assert(outcomes.last() == outcomes[outcomes.len() - 1]);
        assert forall|i: int| 0 <= i < recorded(outcomes).len() implies
            #[trigger] recorded(outcomes)[i] == outcomes[i].path->Some_0@ by {
            if i < recorded(rest).len() {
                assert(recorded(rest)[i] == rest[i].path->Some_0@);
            }
        }
    }
}

/// A path has one price more than days. It starts from the initial price, and
/// each further price is the one before it, grown by that day's factor.
pub proof fn lemma_walk(initial: Binary64, growth: Seq<Binary64>)
    ensures
        walk(initial, growth).len() == growth.len() + 1,
        walk(initial, growth)[0] == initial,
        forall|i: int|
            0 <= i < growth.len() ==> #[trigger] walk(initial, growth)[i + 1] == walk(
                initial,
                growth,
            )[i].mul(growth[i]),
    decreases growth.len(),
{
    if growth.len() > 0 {
        let rest = growth.drop_last();
        lemma_walk(initial, rest);
        let w = walk(initial, growth);
        assert forall|i: int| 0 <= i < growth.len() implies #[trigger] w[i + 1] == w[i].mul(
            growth[i],
        ) by {
            if i < rest.len() {
                assert(walk(initial, rest)[i + 1] == walk(initial, rest)[i].mul(rest[i]));
            }
        }
    }
}

/// The model: where each day's factor is the exponential of the logarithmic
/// growth under that day's shock, the price goes from one day to the next as
/// geometric Brownian motion has it.
pub proof fn lemma_geometric_brownian_motion(
    initial: Binary64,
    terms: StepTerms,
    shocks: Seq<Binary64>,
    exp: spec_fn(Binary64) -> Binary64,
)
    ensures
        ({
            let prices = walk(initial, shocks.map_values(|z: Binary64| exp(terms.exponent(z))));
            &&& prices.len() == shocks.len() + 1
            &&& prices[0] == initial
            &&& forall|i: int|
                0 <= i < shocks.len() ==> #[trigger] prices[i + 1] == prices[i].mul(
                    exp(terms.drift_term.add(terms.vol_term.mul(shocks[i]))),
                )
        }),
{
    let growth = shocks.map_values(|z: Binary64| exp(terms.exponent(z)));
    lemma_walk(initial, growth);
}

/// The first days of a path do not depend on what comes later.
pub proof fn lemma_walk_prefix(initial: Binary64, growth: Seq<Binary64>, days: int)
    requires
        0 <= days <= growth.len(),
    ensures
        walk(initial, growth.take(days)) == walk(initial, growth).take(days + 1),
    decreases growth.len(),
{
    lemma_walk(initial, growth);
    if days == growth.len() {
        assert(growth.take(days) =~= growth);
        assert(walk(initial, growth).take(days + 1) =~= walk(initial, growth));
    } else {
        let rest = growth.drop_last();
        lemma_walk_prefix(initial, rest, days);
        lemma_walk(initial, rest);
        assert(rest.take(days) =~= growth.take(days));
        assert(walk(initial, growth).take(days + 1) =~= walk(initial, rest).take(days + 1));
    }
}

/// A price that starts out without a minus sign, and grows by factors without
/// one, never gets one.
pub proof fn lemma_prices_never_negative(initial: Binary64, growth: Seq<Binary64>)
    requires
        !initial.negative(),
        forall|i: int| 0 <= i < growth.len() ==> !(#[trigger] growth[i]).negative(),
    ensures
        forall|i: int|
            0 <= i < walk(initial, growth).len() ==> !(#[trigger] walk(
                initial,
                growth,
            )[i]).negative(),
    decreases growth.len(),
{
    if growth.len() > 0 {
        let rest = growth.drop_last();
        assert forall|i: int| 0 <= i < rest.len() implies !(#[trigger] rest[i]).negative() by {
            assert(rest[i] == growth[i]);
        }
        lemma_prices_never_negative(initial, rest);
        lemma_walk(initial, rest);
        let before = walk(initial, rest);
        assert(before.last() == before[before.len() - 1]);
        assert(growth.last() == growth[growth.len() - 1]);
        laws::lemma_signs(before.last(), growth.last());
    }
}

/// Prices scale: twice the initial price leads, by the same factors, through
/// twice every price, as long as none overflows and no product loses anything to
/// underflow.
pub proof fn lemma_prices_scale(initial: Binary64, growth: Seq<Binary64>)
    requires
        forall|i: int|
            0 <= i <= growth.len() ==> (#[trigger] walk(scale::twice(initial), growth)[i]).finite(),
        forall|i: int|
            0 <= i < growth.len() ==> scale::product_kept(
                #[trigger] walk(initial, growth)[i],
                growth[i],
            ),
    ensures
        walk(scale::twice(initial), growth).last() == scale::twice(walk(initial, growth).last()),
        walk(scale::twice(initial), growth) == walk(initial, growth).map_values(
            |p: Binary64| scale::twice(p),
        ),
{
    let (a, b) = (walk(initial, growth), walk(scale::twice(initial), growth));
    lemma_walk(initial, growth);
    lemma_walk(scale::twice(initial), growth);
    lemma_price_scales(initial, growth, growth.len() as int);
    assert forall|i: int| 0 <= i <= growth.len() implies b[i] == scale::twice(a[i]) by {
        lemma_price_scales(initial, growth, i);
    }
    assert(b =~= a.map_values(|p: Binary64| scale::twice(p)));
}

proof fn lemma_price_scales(initial: Binary64, growth: Seq<Binary64>, i: int)
    requires
        0 <= i <= growth.len(),
        forall|j: int|
            0 <= j <= growth.len() ==> (#[trigger] walk(scale::twice(initial), growth)[j]).finite(),
        forall|j: int|
            0 <= j < growth.len() ==> scale::product_kept(
                #[trigger] walk(initial, growth)[j],
                growth[j],
            ),
    ensures
        walk(initial, growth)[i].finite(),
        walk(scale::twice(initial), growth)[i] == scale::twice(walk(initial, growth)[i]),
    decreases i,
{
    let (a, b) = (walk(initial, growth), walk(scale::twice(initial), growth));
    lemma_walk(initial, growth);
    lemma_walk(scale::twice(initial), growth);
    assert(b[i].finite());
    if i > 0 {
        lemma_price_scales(initial, growth, i - 1);
        assert(b[i - 1].finite());
        assert(a[(i - 1) + 1] == a[i - 1].mul(growth[i - 1]));
        assert(b[(i - 1) + 1] == b[i - 1].mul(growth[i - 1]));
        scale::lemma_finite_factors(b[i - 1], growth[i - 1]);
        scale::lemma_twice_mul(a[i - 1], growth[i - 1]);
    } else {
        scale::lemma_finite_factors(Binary64::from_u64(2), initial);
    }
}

/// There is one final price for each path, in order.
pub proof fn lemma_final_prices(outcomes: Seq<SimOutcome>)
    ensures
        spec_final_prices(outcomes).len() == outcomes.len(),
        forall|i: int|
            0 <= i < outcomes.len() ==> spec_final_prices(outcomes)[i] == (
            #[trigger] outcomes[i]).final_price,
{
}

/// How many of the first `i` outcomes have a recorded path.
pub open spec fn recorded_before(outcomes: Seq<SimOutcome>, i: int) -> nat
    decreases i,
{
    if i <= 0 {
        0
    } else {
        recorded_before(outcomes, i - 1) + if outcomes[i - 1].path is Some {
            1nat
        } else {
            0nat
        }
    }
}

proof fn lemma_recorded_before_prefix(a: Seq<SimOutcome>, b: Seq<SimOutcome>, i: int)
    requires
        i <= a.len(),
        i <= b.len(),
        forall|j: int| 0 <= j < i ==> a[j] == b[j],
    ensures
        recorded_before(a, i) == recorded_before(b, i),
    decreases i,
{
    if i > 0 {
        lemma_recorded_before_prefix(a, b, i - 1);
    }
}

/// Every recorded path is kept, once, as it is, in the order of the outcomes, and
/// nothing else.
pub proof fn lemma_recorded_in_order(outcomes: Seq<SimOutcome>)
    ensures
        recorded(outcomes).len() == recorded_before(outcomes, outcomes.len() as int),
        forall|i: int|
            0 <= i < outcomes.len() && (#[trigger] outcomes[i]).path is Some ==> recorded_before(
                outcomes,
                i,
            ) < recorded(outcomes).len() && recorded(outcomes)[recorded_before(outcomes, i) as int]
                == outcomes[i].path->Some_0@,
    decreases outcomes.len(),
{
    let n = outcomes.len() as int;
    if n > 0 {
        let rest = outcomes.drop_last();
        lemma_recorded_in_order(rest);
        lemma_recorded_before_prefix(rest, outcomes, n - 1);
        assert(outcomes.last() == outcomes[n - 1]);
        assert forall|i: int|
            0 <= i < n && (#[trigger] outcomes[i]).path is Some implies recorded_before(outcomes, i)
            < recorded(outcomes).len() && recorded(outcomes)[recorded_before(outcomes, i) as int]
            == outcomes[i].path->Some_0@ by {
            if i < n - 1 {
                lemma_recorded_before_prefix(rest, outcomes, i);
                assert(rest[i] == outcomes[i]);
                assert(rest[i].path is Some);
            }
        }
    }
}

/// A limit keeps as many of the first members as it allows, and none other.
pub proof fn lemma_at_most<T>(s: Seq<T>, limit: nat)
    ensures
        at_most(s, limit as int).len() <= limit,
        at_most(s, limit as int).len() <= s.len(),
        at_most(s, limit as int).len() == limit || at_most(s, limit as int).len() == s.len(),
        forall|i: int|
            0 <= i < at_most(s, limit as int).len() ==> #[trigger] at_most(s, limit as int)[i]
                == s[i],
{
}

} // verus!
