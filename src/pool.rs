use vstd::prelude::*;
use crate::constants::{
    EXIT_FEE, INIT_POOL_SUPPLY, MAX_BOUND_TOKENS, MAX_FEE, MAX_TOTAL_WEIGHT, MAX_WEIGHT, MIN_BALANCE,
    MIN_BOUND_TOKENS, MIN_FEE, MIN_WEIGHT,
};
use crate::error::PoolError;
use crate::ledger::ShareLedger;
use crate::math::{
    calc_spot_price, div_result, div_u128, lemma_scaled_div_le_one, lemma_scaled_div_zero,
    lemma_scaled_mul_le, mul_result, mul_u128, scaled_div, scaled_mul, spot_price_result,
};

verus! {

/// The bookkeeping of one bound token.
#[derive(Clone, Copy, Debug, PartialEq, Eq, Structural)]
pub struct Record {
    /// Whether the token is bound to the pool.
    pub bound: bool,
    /// Position of the token in the pool's list of tokens.
    pub index: u64,
    /// Denormalized weight of the token.
    pub denorm: u128,
    /// The pool's balance of the token.
    pub balance: u128,
}

/// What a pool is, as its contracts see it.
pub ghost struct PoolView {
    pub id: u64,
    pub total_weight: u128,
    pub swap_fee: u128,
    pub finalized: bool,
    pub controller: Seq<char>,
    /// Bound tokens, in order.
    pub tokens: Seq<Seq<char>>,
    /// `records[i]` belongs to `tokens[i]`.
    pub records: Seq<Record>,
    /// Shares of each participant.
    pub shares: Map<Seq<char>, nat>,
    pub total_supply: nat,
}

/// Sum of the weights of `records`.
pub open spec fn weight_sum(records: Seq<Record>) -> int
    decreases records.len(),
{
    if records.len() == 0 {
        0
    } else {
        weight_sum(records.drop_last()) + records.last().denorm
    }
}

/// What holds of every pool between operations.
pub open spec fn pool_inv(v: PoolView) -> bool {
    &&& v.tokens.len() == v.records.len()
    &&& v.tokens.len() <= MAX_BOUND_TOKENS
    &&& forall|i: int, j: int|
        0 <= i < j < v.tokens.len() ==> #[trigger] v.tokens[i] != #[trigger] v.tokens[j]
    &&& forall|i: int|
        0 <= i < v.records.len() ==> {
            &&& (#[trigger] v.records[i]).bound
            &&& v.records[i].index == i
            &&& MIN_WEIGHT <= v.records[i].denorm <= MAX_WEIGHT
        }
    &&& v.total_weight == weight_sum(v.records)
    &&& v.total_weight <= MAX_TOTAL_WEIGHT
    &&& MIN_FEE <= v.swap_fee <= MAX_FEE
    &&& !v.finalized ==> v.total_supply == 0
    &&& forall|k: Seq<char>| #[trigger] v.shares.dom().contains(k)
    &&& forall|k: Seq<char>| #[trigger] v.shares[k] <= v.total_supply
}

/// Position of `token` among the bound tokens.
pub open spec fn index_of(v: PoolView, token: Seq<char>) -> int {
    choose|i: int| 0 <= i < v.tokens.len() && v.tokens[i] == token
}

/// What `Pool::new` makes.
pub open spec fn new_result(controller: Seq<char>, id: u64, swap_fee: u128) -> Result<
    PoolView,
    PoolError,
> {
    if swap_fee < MIN_FEE || swap_fee > MAX_FEE {
        Err(PoolError::FeeOutOfRange)
    } else {
        Ok(
            PoolView {
                id,
                total_weight: 0,
                swap_fee,
                finalized: false,
                controller,
                tokens: Seq::empty(),
                records: Seq::empty(),
                shares: Map::new(|k: Seq<char>| true, |k: Seq<char>| 0nat),
                total_supply: 0,
            },
        )
    }
}

/// What `Pool::rebind` makes of `v`.
pub open spec fn rebind_result(
    v: PoolView,
    sender: Seq<char>,
    token: Seq<char>,
    denorm: u128,
    balance: u128,
) -> Result<PoolView, PoolError> {
    if sender != v.controller {
        Err(PoolError::Unauthorized)
    } else if v.finalized {
        Err(PoolError::InvalidLifecycleState)
    } else if !v.tokens.contains(token) {
        Err(PoolError::NotBound)
    } else if denorm < MIN_WEIGHT || denorm > MAX_WEIGHT {
        Err(PoolError::WeightOutOfRange)
    } else if balance < MIN_BALANCE {
        Err(PoolError::BalanceTooLow)
    } else {
        let i = index_of(v, token);
        let rec = v.records[i];
        let total = v.total_weight - rec.denorm + denorm;
        if total > MAX_TOTAL_WEIGHT {
            Err(PoolError::TotalWeightExceeded)
        } else {
            Ok(
                PoolView {
                    total_weight: total as u128,
                    records: v.records.update(i, Record { denorm, balance, ..rec }),
                    ..v
                },
            )
        }
    }
}

/// What `Pool::bind` makes of `v`.
pub open spec fn bind_result(
    v: PoolView,
    sender: Seq<char>,
    token: Seq<char>,
    denorm: u128,
    balance: u128,
) -> Result<PoolView, PoolError> {
    if sender != v.controller {
        Err(PoolError::Unauthorized)
    } else if v.finalized {
        Err(PoolError::InvalidLifecycleState)
    } else if v.tokens.contains(token) {
        Err(PoolError::AlreadyBound)
    } else if v.tokens.len() >= MAX_BOUND_TOKENS {
        Err(PoolError::CapacityExceeded)
    } else if denorm < MIN_WEIGHT || denorm > MAX_WEIGHT {
        Err(PoolError::WeightOutOfRange)
    } else if balance < MIN_BALANCE {
        Err(PoolError::BalanceTooLow)
    } else if v.total_weight + denorm > MAX_TOTAL_WEIGHT {
        Err(PoolError::TotalWeightExceeded)
    } else {
        Ok(
            PoolView {
                total_weight: (v.total_weight + denorm) as u128,
                tokens: v.tokens.push(token),
                records: v.records.push(
                    Record { bound: true, index: v.tokens.len() as u64, denorm, balance },
                ),
                ..v
            },
        )
    }
}

/// What `Pool::unbind` makes of `v`: the last token takes the place of the
/// removed one.
pub open spec fn unbind_result(v: PoolView, sender: Seq<char>, token: Seq<char>) -> Result<
    PoolView,
    PoolError,
> {
    if sender != v.controller {
        Err(PoolError::Unauthorized)
    } else if v.finalized {
        Err(PoolError::InvalidLifecycleState)
    } else if !v.tokens.contains(token) {
        Err(PoolError::NotBound)
    } else {
        let i = index_of(v, token);
        let last = v.tokens.len() - 1;
        Ok(
            PoolView {
                total_weight: (v.total_weight - v.records[i].denorm) as u128,
                tokens: v.tokens.update(i, v.tokens[last]).drop_last(),
                records: v.records.update(i, Record { index: i as u64, ..v.records[last] }).drop_last(),
                ..v
            },
        )
    }
}

/// What `Pool::finalize` makes of `v`.
pub open spec fn finalize_result(v: PoolView, sender: Seq<char>) -> Result<PoolView, PoolError> {
    if sender != v.controller {
        Err(PoolError::Unauthorized)
    } else if v.finalized {
        Err(PoolError::InvalidLifecycleState)
    } else if v.tokens.len() < MIN_BOUND_TOKENS {
        Err(PoolError::InsufficientTokens)
    } else {
        Ok(
            PoolView {
                finalized: true,
                shares: v.shares.insert(sender, (v.shares[sender] + INIT_POOL_SUPPLY) as nat),
                total_supply: (v.total_supply + INIT_POOL_SUPPLY) as nat,
                ..v
            },
        )
    }
}

/// What the spot price of `token_in` in `token_out` is, with `swap_fee`.
pub open spec fn spot_result(
    v: PoolView,
    token_in: Seq<char>,
    token_out: Seq<char>,
    swap_fee: u128,
) -> Result<u128, PoolError> {
    if !v.tokens.contains(token_in) || !v.tokens.contains(token_out) {
        Err(PoolError::NotBound)
    } else {
        let rin = v.records[index_of(v, token_in)];
        let rout = v.records[index_of(v, token_out)];
        spot_price_result(rin.balance, rin.denorm, rout.balance, rout.denorm, swap_fee)
    }
}

/// The amount of one token that a join at `ratio` takes in, or why it cannot.
pub open spec fn join_amount(r: Record, ratio: u128, max_in: u128) -> Result<u128, PoolError> {
    match mul_result(ratio, r.balance) {
        Err(e) => Err(e),
        Ok(a) => if a == 0 {
            Err(PoolError::RoundingTooCoarse)
        } else if a > max_in {
            Err(PoolError::SlippageExceeded)
        } else if r.balance + a > u128::MAX {
            Err(PoolError::ArithmeticOverflow)
        } else {
            Ok(a)
        },
    }
}

/// The amount of one token that an exit at `ratio` pays out, or why it cannot.
pub open spec fn exit_amount(r: Record, ratio: u128, min_out: u128) -> Result<u128, PoolError> {
    match mul_result(ratio, r.balance) {
        Err(e) => Err(e),
        Ok(a) => if a == 0 {
            Err(PoolError::RoundingTooCoarse)
        } else if a < min_out {
            Err(PoolError::SlippageExceeded)
        } else {
            Ok(a)
        },
    }
}

/// The amounts of the first `n` tokens, or the error of the first token
/// that fails (`joining` picks `join_amount`, else `exit_amount`).
pub open spec fn scan_amounts(
    records: Seq<Record>,
    ratio: u128,
    limits: Seq<u128>,
    joining: bool,
    n: nat,
) -> Result<Seq<u128>, PoolError>
    decreases n,
{
    if n == 0 {
        Ok(Seq::empty())
    } else {
        match scan_amounts(records, ratio, limits, joining, (n - 1) as nat) {
            Err(e) => Err(e),
            Ok(s) => {
                let r = records[n - 1];
                let one = if joining {
                    join_amount(r, ratio, limits[n - 1])
                } else {
                    exit_amount(r, ratio, limits[n - 1])
                };
                match one {
                    Err(e) => Err(e),
                    Ok(a) => Ok(s.push(a)),
                }
            },
        }
    }
}

/// `records` with `amounts[i]` added to (`joining`) or taken from each balance.
pub open spec fn apply_amounts(records: Seq<Record>, amounts: Seq<u128>, joining: bool) -> Seq<
    Record,
> {
    Seq::new(
        records.len(),
        |i: int|
            Record {
                balance: if joining {
                    (records[i].balance + amounts[i]) as u128
                } else {
                    (records[i].balance - amounts[i]) as u128
                },
                ..records[i]
            },
    )
}

/// What `Pool::join_pool` makes of `v`.
pub open spec fn join_result(
    v: PoolView,
    sender: Seq<char>,
    shares_out: u128,
    max_amounts_in: Seq<u128>,
) -> Result<PoolView, PoolError> {
    if !v.finalized {
        Err(PoolError::InvalidLifecycleState)
    } else if max_amounts_in.len() != v.tokens.len() {
        Err(PoolError::AmountsLengthMismatch)
    } else {
        match div_result(shares_out, v.total_supply as u128) {
            Err(e) => Err(e),
            Ok(ratio) => if ratio == 0 {
                Err(PoolError::RoundingTooCoarse)
            } else {
                match scan_amounts(v.records, ratio, max_amounts_in, true, v.records.len()) {
                    Err(e) => Err(e),
                    Ok(amounts) => if v.total_supply + shares_out > u128::MAX {
                        Err(PoolError::ArithmeticOverflow)
                    } else {
                        Ok(
                            PoolView {
                                records: apply_amounts(v.records, amounts, true),
                                shares: v.shares.insert(sender, (v.shares[sender] + shares_out) as nat),
                                total_supply: (v.total_supply + shares_out) as nat,
                                ..v
                            },
                        )
                    },
                }
            },
        }
    }
}

/// What `Pool::exit_pool` makes of `v`. The ratio is taken of the supply
/// before the shares handed in are burnt.
pub open spec fn exit_result(
    v: PoolView,
    sender: Seq<char>,
    shares_in: u128,
    min_amounts_out: Seq<u128>,
) -> Result<PoolView, PoolError> {
    if !v.finalized {
        Err(PoolError::InvalidLifecycleState)
    } else if min_amounts_out.len() != v.tokens.len() {
        Err(PoolError::AmountsLengthMismatch)
    } else if shares_in > v.shares[sender] {
        Err(PoolError::InsufficientBalance)
    } else {
        match mul_result(shares_in, EXIT_FEE) {
            Err(e) => Err(e),
            Ok(fee) => match div_result((shares_in - fee) as u128, v.total_supply as u128) {
                Err(e) => Err(e),
                Ok(ratio) => if ratio == 0 {
                    Err(PoolError::RoundingTooCoarse)
                } else {
                    match scan_amounts(v.records, ratio, min_amounts_out, false, v.records.len()) {
                        Err(e) => Err(e),
                        Ok(amounts) => Ok(
                            PoolView {
                                records: apply_amounts(v.records, amounts, false),
                                shares: v.shares.insert(sender, (v.shares[sender] - shares_in) as nat),
                                total_supply: (v.total_supply - shares_in) as nat,
                                ..v
                            },
                        ),
                    }
                },
            },
        }
    }
}


/// `r` is the outcome that `res` describes: on success the pool became
/// the view it gives, on failure the pool is left as it was.
pub open spec fn done(
    r: Result<(), PoolError>,
    res: Result<PoolView, PoolError>,
    pre: PoolView,
    post: PoolView,
) -> bool {
    match res {
        Ok(v) => r == Ok::<(), PoolError>(()) && post == v,
        Err(e) => r == Err::<(), PoolError>(e) && post == pre,
    }
}

proof fn lemma_index_of(v: PoolView, token: Seq<char>, i: int)
    requires
        pool_inv(v),
        0 <= i < v.tokens.len(),
        v.tokens[i] == token,
    ensures
        index_of(v, token) == i,
        v.tokens.contains(token),
{
    let j = index_of(v, token);
    assert(0 <= j < v.tokens.len() && v.tokens[j] == token);
    if i < j {
        assert(v.tokens[i] != v.tokens[j]);
    } else if j < i {
        assert(v.tokens[j] != v.tokens[i]);
    }
}

proof fn lemma_weight_sum_update(records: Seq<Record>, i: int, rec: Record)
    requires
        0 <= i < records.len(),
    ensures
        weight_sum(records.update(i, rec)) == weight_sum(records) - records[i].denorm + rec.denorm,
    decreases records.len(),
{
    let t = records.update(i, rec);
    if i == records.len() - 1 {
        assert(t.drop_last() =~= records.drop_last());
    } else {
        lemma_weight_sum_update(records.drop_last(), i, rec);
        assert(t.drop_last() =~= records.drop_last().update(i, rec));
    }
}

proof fn lemma_weight_le_sum(records: Seq<Record>, i: int)
    requires
        0 <= i < records.len(),
    ensures
        records[i].denorm <= weight_sum(records),
    decreases records.len(),
{
    if i < records.len() - 1 {
        lemma_weight_le_sum(records.drop_last(), i);
    }
    lemma_weight_sum_nonneg(records.drop_last());
}

proof fn lemma_weight_sum_nonneg(records: Seq<Record>)
    ensures
        weight_sum(records) >= 0,
    decreases records.len(),
{
    if records.len() > 0 {
        lemma_weight_sum_nonneg(records.drop_last());
    }
}

/// A pool that is only ever changed by its operations keeps its invariant:
/// each operation that succeeds leads from a valid pool to a valid pool.
pub proof fn lemma_rebind_keeps_inv(
    v: PoolView,
    sender: Seq<char>,
    token: Seq<char>,
    denorm: u128,
    balance: u128,
)
    requires
        pool_inv(v),
        rebind_result(v, sender, token, denorm, balance) is Ok,
    ensures
        pool_inv(rebind_result(v, sender, token, denorm, balance)->Ok_0),
{
    let i = index_of(v, token);
    let rec = v.records[i];
    let w = rebind_result(v, sender, token, denorm, balance)->Ok_0;
    assert(0 <= i < v.tokens.len());
    lemma_weight_sum_update(v.records, i, Record { denorm, balance, ..rec });
    lemma_weight_le_sum(v.records, i);
    assert(w.total_weight == weight_sum(w.records));
    assert forall|j: int| 0 <= j < w.records.len() implies {
        &&& (#[trigger] w.records[j]).bound
        &&& w.records[j].index == j
        &&& MIN_WEIGHT <= w.records[j].denorm <= MAX_WEIGHT
    } by {
        assert(v.records[j].bound);
    }
}

/// See `lemma_rebind_keeps_inv`.
pub proof fn lemma_bind_keeps_inv(
    v: PoolView,
    sender: Seq<char>,
    token: Seq<char>,
    denorm: u128,
    balance: u128,
)
    requires
        pool_inv(v),
        bind_result(v, sender, token, denorm, balance) is Ok,
    ensures
        pool_inv(bind_result(v, sender, token, denorm, balance)->Ok_0),
{
    let w = bind_result(v, sender, token, denorm, balance)->Ok_0;
    assert(w.records.drop_last() =~= v.records);
    assert forall|i: int, j: int| 0 <= i < j < w.tokens.len() implies #[trigger] w.tokens[i]
        != #[trigger] w.tokens[j] by {
        if j == v.tokens.len() {
            assert(v.tokens[i] != token);
        } else {
            assert(v.tokens[i] != v.tokens[j]);
        }
    }
    assert forall|j: int| 0 <= j < w.records.len() implies {
        &&& (#[trigger] w.records[j]).bound
        &&& w.records[j].index == j
        &&& MIN_WEIGHT <= w.records[j].denorm <= MAX_WEIGHT
    } by {
        if j < v.records.len() {
            assert(v.records[j].bound);
        }
    }
}

/// See `lemma_rebind_keeps_inv`.
pub proof fn lemma_unbind_keeps_inv(v: PoolView, sender: Seq<char>, token: Seq<char>)
    requires
        pool_inv(v),
        unbind_result(v, sender, token) is Ok,
    ensures
        pool_inv(unbind_result(v, sender, token)->Ok_0),
{
    let w = unbind_result(v, sender, token)->Ok_0;
    let i = index_of(v, token);
    let last = v.tokens.len() - 1;
    let moved = Record { index: i as u64, ..v.records[last] };
    let upd = v.records.update(i, moved);
    lemma_weight_sum_update(v.records, i, moved);
    lemma_weight_le_sum(v.records, i);
    assert(upd.drop_last() == w.records);
    assert forall|a: int, b: int| 0 <= a < b < w.tokens.len() implies #[trigger] w.tokens[a]
        != #[trigger] w.tokens[b] by {
        if a == i {
            assert(v.tokens[last] != v.tokens[b]);
        } else if b == i {
            assert(v.tokens[a] != v.tokens[last]);
        } else {
            assert(v.tokens[a] != v.tokens[b]);
        }
    }
    assert forall|j: int| 0 <= j < w.records.len() implies {
        &&& (#[trigger] w.records[j]).bound
        &&& w.records[j].index == j
        &&& MIN_WEIGHT <= w.records[j].denorm <= MAX_WEIGHT
    } by {
        assert(v.records[j].bound);
        assert(v.records[last].bound);
    }
}

proof fn lemma_scan_err(
    records: Seq<Record>,
    ratio: u128,
    limits: Seq<u128>,
    joining: bool,
    k: nat,
    n: nat,
)
    requires
        k <= n,
        scan_amounts(records, ratio, limits, joining, k) is Err,
    ensures
        scan_amounts(records, ratio, limits, joining, n) == scan_amounts(
            records,
            ratio,
            limits,
            joining,
            k,
        ),
    decreases n,
{
    if n > k {
        lemma_scan_err(records, ratio, limits, joining, k, (n - 1) as nat);
    }
}

proof fn lemma_scan_ok(records: Seq<Record>, ratio: u128, limits: Seq<u128>, joining: bool, n: nat)
    requires
        scan_amounts(records, ratio, limits, joining, n) is Ok,
    ensures
        ({
            let s = scan_amounts(records, ratio, limits, joining, n)->Ok_0;
            &&& s.len() == n
            &&& forall|j: int|
                0 <= j < n ==> (if joining {
                    join_amount(records[j], ratio, limits[j])
                } else {
                    exit_amount(records[j], ratio, limits[j])
                }) == Ok::<u128, PoolError>(#[trigger] s[j])
        }),
    decreases n,
{
    if n > 0 {
        lemma_scan_ok(records, ratio, limits, joining, (n - 1) as nat);
    }
}

proof fn lemma_weight_sum_same_denorms(a: Seq<Record>, b: Seq<Record>)
    requires
        a.len() == b.len(),
        forall|j: int| 0 <= j < a.len() ==> (#[trigger] a[j]).denorm == b[j].denorm,
    ensures
        weight_sum(a) == weight_sum(b),
    decreases a.len(),
{
    if a.len() > 0 {
        lemma_weight_sum_same_denorms(a.drop_last(), b.drop_last());
    }
}

/// A pool of tokens with weights and balances, and the shares that own it.
pub struct Pool {
    id: u64,
    total_weight: u128,
    swap_fee: u128,
    finalized: bool,
    controller: String,
    token: ShareLedger,
    records: Vec<Record>,
    tokens: Vec<String>,
}

impl View for Pool {
    type V = PoolView;

    closed spec fn view(&self) -> PoolView {
        PoolView {
            id: self.id,
            total_weight: self.total_weight,
            swap_fee: self.swap_fee,
            finalized: self.finalized,
            controller: self.controller@,
            tokens: self.tokens@.map_values(|s: String| s@),
            records: self.records@,
            shares: self.token.shares(),
            total_supply: self.token.supply(),
        }
    }
}

impl Pool {
    /// The pool is consistent: its invariant holds of its view.
    pub closed spec fn wf(&self) -> bool {
        &&& self.token.wf()
        &&& self.tokens@.len() == self.records@.len()
        &&& pool_inv(self@)
    }

    /// The pool is valid and its view satisfies the invariant.
    pub proof fn lemma_wf_inv(&self)
        requires
            self.wf(),
        ensures
            pool_inv(self@),
    {
    }

    /// An open pool with no tokens and no shares. Refuses a fee out of range.
    pub fn new(sender: String, id: u64, swap_fee: u128) -> (r: Result<Pool, PoolError>)
        ensures
            match new_result(sender@, id, swap_fee) {
                Ok(v) => r is Ok && r->Ok_0.wf() && r->Ok_0@ == v,
                Err(e) => r == Err::<Pool, PoolError>(e),
            },
    {
        if swap_fee < MIN_FEE || swap_fee > MAX_FEE {
            return Err(PoolError::FeeOutOfRange);
        }
        let pool = Pool {
            id,
            total_weight: 0,
            swap_fee,
            finalized: false,
            controller: sender,
            token: ShareLedger::new(),
            records: Vec::new(),
            tokens: Vec::new(),
        };
        proof {
            pool.token.lemma_shares_bounded();
            assert(pool@.tokens =~= Seq::<Seq<char>>::empty());
        }
        Ok(pool)
    }

    fn find_token(&self, token: &String) -> (r: Option<usize>)
        requires
            self.wf(),
        ensures
            match r {
                Some(i) => i < self.tokens@.len() && index_of(self@, token@) == i
                    && self@.tokens.contains(token@),
                None => !self@.tokens.contains(token@),
            },
    {
        let mut i: usize = 0;
        while i < self.tokens.len()
            invariant
                self.wf(),
                i <= self.tokens@.len(),
                forall|j: int| 0 <= j < i ==> self@.tokens[j] != token@,
            decreases self.tokens@.len() - i,
        {
            if self.tokens[i] == *token {
                proof {
                    lemma_index_of(self@, token@, i as int);
                }
                return Some(i);
            }
            i = i + 1;
        }
        None
    }

    /// Changes the weight and balance of a bound token of an open pool.
    pub fn rebind(
        &mut self,
        sender: &String,
        token_account_id: &String,
        denorm: u128,
        balance: u128,
    ) -> (r: Result<(), PoolError>)
        requires
            old(self).wf(),
        ensures
            final(self).wf(),
            done(
                r,
                rebind_result(old(self)@, sender@, token_account_id@, denorm, balance),
                old(self)@,
                final(self)@,
            ),
    {
        if !(*sender == self.controller) {
            return Err(PoolError::Unauthorized);
        }
        if self.finalized {
            return Err(PoolError::InvalidLifecycleState);
        }
        let i = match self.find_token(token_account_id) {
            Some(i) => i,
            None => {
                return Err(PoolError::NotBound);
            },
        };
        if denorm < MIN_WEIGHT || denorm > MAX_WEIGHT {
            return Err(PoolError::WeightOutOfRange);
        }
        if balance < MIN_BALANCE {
            return Err(PoolError::BalanceTooLow);
        }
        let ghost pre = self@;
        let mut rec = self.records[i];
        proof {
            lemma_weight_le_sum(self.records@, i as int);
        }
        let rest = self.total_weight - rec.denorm;
        if denorm > MAX_TOTAL_WEIGHT - rest {
            return Err(PoolError::TotalWeightExceeded);
        }
        self.total_weight = rest + denorm;
        rec.denorm = denorm;
        rec.balance = balance;
        self.records.set(i, rec);
        proof {
            lemma_rebind_keeps_inv(pre, sender@, token_account_id@, denorm, balance);
            assert(self@ == rebind_result(pre, sender@, token_account_id@, denorm, balance)->Ok_0);
        }
        Ok(())
    }

    /// Binds a new token to an open pool, with its weight and balance.
    pub fn bind(
        &mut self,
        sender: &String,
        token_account_id: &String,
        denorm: u128,
        balance: u128,
    ) -> (r: Result<(), PoolError>)
        requires
            old(self).wf(),
        ensures
            final(self).wf(),
            done(
                r,
                bind_result(old(self)@, sender@, token_account_id@, denorm, balance),
                old(self)@,
                final(self)@,
            ),
    {
        if !(*sender == self.controller) {
            return Err(PoolError::Unauthorized);
        }
        if self.finalized {
            return Err(PoolError::InvalidLifecycleState);
        }
        if self.find_token(token_account_id).is_some() {
            return Err(PoolError::AlreadyBound);
        }
        let n = self.tokens.len();
        if n as u64 >= MAX_BOUND_TOKENS {
            return Err(PoolError::CapacityExceeded);
        }
        if denorm < MIN_WEIGHT || denorm > MAX_WEIGHT {
            return Err(PoolError::WeightOutOfRange);
        }
        if balance < MIN_BALANCE {
            return Err(PoolError::BalanceTooLow);
        }
        if denorm > MAX_TOTAL_WEIGHT - self.total_weight {
            return Err(PoolError::TotalWeightExceeded);
        }
        let ghost pre = self@;
        self.total_weight = self.total_weight + denorm;
        self.records.push(Record { bound: true, index: n as u64, denorm, balance });
        self.tokens.push(token_account_id.clone());
        proof {
            lemma_bind_keeps_inv(pre, sender@, token_account_id@, denorm, balance);
            assert(self@.tokens =~= pre.tokens.push(token_account_id@));
            assert(self@ == bind_result(pre, sender@, token_account_id@, denorm, balance)->Ok_0);
        }
        Ok(())
    }

    /// Removes a bound token from an open pool; the last token takes its place.
    pub fn unbind(&mut self, sender: &String, token_account_id: &String) -> (r: Result<
        (),
        PoolError,
    >)
        requires
            old(self).wf(),
        ensures
            final(self).wf(),
            done(r, unbind_result(old(self)@, sender@, token_account_id@), old(self)@, final(self)@),
    {
        if !(*sender == self.controller) {
            return Err(PoolError::Unauthorized);
        }
        if self.finalized {
            return Err(PoolError::InvalidLifecycleState);
        }
        let i = match self.find_token(token_account_id) {
            Some(i) => i,
            None => {
                return Err(PoolError::NotBound);
            },
        };
        let ghost pre = self@;
        proof {
            lemma_weight_le_sum(self.records@, i as int);
        }
        self.total_weight = self.total_weight - self.records[i].denorm;
        let last = self.records.len() - 1;
        let mut moved = self.records[last];
        moved.index = i as u64;
        self.records.set(i, moved);
        self.records.pop();
        self.tokens.swap_remove(i);
        proof {
            lemma_unbind_keeps_inv(pre, sender@, token_account_id@);
            assert(self@.tokens =~= pre.tokens.update(i as int, pre.tokens[last as int]).drop_last());
            assert(self@.records =~= pre.records.update(i as int, moved).drop_last());
            assert(self@ == unbind_result(pre, sender@, token_account_id@)->Ok_0);
        }
        Ok(())
    }

    /// Finalizes an open pool of at least two tokens, minting the initial
    /// share supply to its controller.
    pub fn finalize(&mut self, sender: &String) -> (r: Result<(), PoolError>)
        requires
            old(self).wf(),
        ensures
            final(self).wf(),
            done(r, finalize_result(old(self)@, sender@), old(self)@, final(self)@),
    {
        if !(*sender == self.controller) {
            return Err(PoolError::Unauthorized);
        }
        if self.finalized {
            return Err(PoolError::InvalidLifecycleState);
        }
        if (self.tokens.len() as u64) < MIN_BOUND_TOKENS {
            return Err(PoolError::InsufficientTokens);
        }
        let ghost pre = self@;
        let minted = self.token.mint(INIT_POOL_SUPPLY, sender);
        proof {
            assert(minted is Ok);
        }
        self.finalized = true;
        proof {
            self.token.lemma_shares_bounded();
            assert(self@ == finalize_result(pre, sender@)->Ok_0);
        }
        Ok(())
    }

    fn price_with_fee(&self, token_in: &String, token_out: &String, swap_fee: u128) -> (r: Result<
        u128,
        PoolError,
    >)
        requires
            self.wf(),
        ensures
            r == spot_result(self@, token_in@, token_out@, swap_fee),
    {
        let i = match self.find_token(token_in) {
            Some(i) => i,
            None => {
                return Err(PoolError::NotBound);
            },
        };
        let o = match self.find_token(token_out) {
            Some(o) => o,
            None => {
                return Err(PoolError::NotBound);
            },
        };
        let rin = self.records[i];
        let rout = self.records[o];
        calc_spot_price(rin.balance, rin.denorm, rout.balance, rout.denorm, swap_fee)
    }

    /// Spot price of `token_in` in units of `token_out`, with the swap fee.
    pub fn get_spot_price(&self, token_in: &String, token_out: &String) -> (r: Result<
        u128,
        PoolError,
    >)
        requires
            self.wf(),
        ensures
            r == spot_result(self@, token_in@, token_out@, self@.swap_fee),
    {
        self.price_with_fee(token_in, token_out, self.swap_fee)
    }

    /// Spot price of `token_in` in units of `token_out`, without fee.
    pub fn get_spot_price_sans_fee(&self, token_in: &String, token_out: &String) -> (r: Result<
        u128,
        PoolError,
    >)
        requires
            self.wf(),
        ensures
            r == spot_result(self@, token_in@, token_out@, 0),
    {
        self.price_with_fee(token_in, token_out, 0)
    }

    /// Spot price of `token_in` in units of `token_out`, with the swap fee
    /// where `with_fee` holds and without fee otherwise.
    pub fn spot_price(&self, token_in: &String, token_out: &String, with_fee: bool) -> (r: Result<
        u128,
        PoolError,
    >)
        requires
            self.wf(),
        ensures
            r == spot_result(self@, token_in@, token_out@, if with_fee {
                self@.swap_fee
            } else {
                0
            }),
    {
        if with_fee {
            self.get_spot_price(token_in, token_out)
        } else {
            self.get_spot_price_sans_fee(token_in, token_out)
        }
    }

    /// The amount of each token that a join (or an exit) at `ratio` moves,
    /// or the error of the first token that refuses.
    fn scan(&self, ratio: u128, limits: &Vec<u128>, joining: bool) -> (r: Result<
        Vec<u128>,
        PoolError,
    >)
        requires
            self.wf(),
            limits@.len() == self.records@.len(),
        ensures
            match scan_amounts(self.records@, ratio, limits@, joining, self.records@.len()) {
                Ok(s) => r is Ok && r->Ok_0@ == s,
                Err(e) => r == Err::<Vec<u128>, PoolError>(e),
            },
    {
        let ghost recs = self.records@;
        let ghost n = recs.len();
        let mut amounts: Vec<u128> = Vec::new();
        let mut i: usize = 0;
        while i < self.records.len()
            invariant
                recs == self.records@,
                n == recs.len(),
                limits@.len() == n,
                i <= n,
                scan_amounts(recs, ratio, limits@, joining, i as nat) == Ok::<Seq<u128>, PoolError>(
                    amounts@,
                ),
            decreases n - i,
        {
            let rec = self.records[i];
            let one: Result<u128, PoolError> = match mul_u128(ratio, rec.balance) {
                Err(e) => Err(e),
                Ok(a) => {
                    if a == 0 {
                        Err(PoolError::RoundingTooCoarse)
                    } else if joining {
                        if a > limits[i] {
                            Err(PoolError::SlippageExceeded)
                        } else if a > u128::MAX - rec.balance {
                            Err(PoolError::ArithmeticOverflow)
                        } else {
                            Ok(a)
                        }
                    } else if a < limits[i] {
                        Err(PoolError::SlippageExceeded)
                    } else {
                        Ok(a)
                    }
                },
            };
            match one {
                Err(e) => {
                    proof {
                        assert(scan_amounts(recs, ratio, limits@, joining, (i + 1) as nat) == Err::<
                            Seq<u128>,
                            PoolError,
                        >(e));
                        lemma_scan_err(recs, ratio, limits@, joining, (i + 1) as nat, n);
                    }
                    return Err(e);
                },
                Ok(a) => {
                    amounts.push(a);
                },
            }
            i = i + 1;
        }
        Ok(amounts)
    }

    /// The records with each amount added to (or taken from) its balance.
    fn applied(&self, amounts: &Vec<u128>, joining: bool) -> (r: Vec<Record>)
        requires
            amounts@.len() == self.records@.len(),
            forall|j: int|
                0 <= j < amounts@.len() ==> if joining {
                    self.records@[j].balance + #[trigger] amounts@[j] <= u128::MAX
                } else {
                    amounts@[j] <= self.records@[j].balance
                },
        ensures
            r@ == apply_amounts(self.records@, amounts@, joining),
    {
        let mut out: Vec<Record> = Vec::new();
        let mut i: usize = 0;
        while i < self.records.len()
            invariant
                amounts@.len() == self.records@.len(),
                forall|j: int|
                    0 <= j < amounts@.len() ==> if joining {
                        self.records@[j].balance + #[trigger] amounts@[j] <= u128::MAX
                    } else {
                        amounts@[j] <= self.records@[j].balance
                    },
                i <= self.records@.len(),
                out@.len() == i,
                forall|j: int|
                    0 <= j < i ==> #[trigger] out@[j] == apply_amounts(
                        self.records@,
                        amounts@,
                        joining,
                    )[j],
            decreases self.records@.len() - i,
        {
            let mut rec = self.records[i];
            if joining {
                rec.balance = rec.balance + amounts[i];
            } else {
                rec.balance = rec.balance - amounts[i];
            }
            out.push(rec);
            i = i + 1;
        }
        proof {
            assert(out@ =~= apply_amounts(self.records@, amounts@, joining));
        }
        out
    }

    proof fn lemma_applied_keeps_inv(&self, new_records: Seq<Record>, amounts: Seq<u128>, joining: bool)
        requires
            self.wf(),
            amounts.len() == self.records@.len(),
            new_records == apply_amounts(self.records@, amounts, joining),
        ensures
            pool_inv(PoolView { records: new_records, ..self@ }),
    {
        lemma_weight_sum_same_denorms(new_records, self.records@);
        assert forall|j: int| 0 <= j < new_records.len() implies {
            &&& (#[trigger] new_records[j]).bound
            &&& new_records[j].index == j
            &&& MIN_WEIGHT <= new_records[j].denorm <= MAX_WEIGHT
        } by {
            assert(self@.records[j].bound);
        }
    }

    /// Takes in from `sender`, for each bound token, the share of the pool's
    /// balance that `pool_amount_out` new shares stand for, and mints those
    /// shares to `sender`. Checks every token before it changes anything.
    pub fn join_pool(&mut self, sender: &String, pool_amount_out: u128, max_amounts_in: Vec<u128>) -> (r:
        Result<(), PoolError>)
        requires
            old(self).wf(),
        ensures
            final(self).wf(),
            done(
                r,
                join_result(old(self)@, sender@, pool_amount_out, max_amounts_in@),
                old(self)@,
                final(self)@,
            ),
    {
        if !self.finalized {
            return Err(PoolError::InvalidLifecycleState);
        }
        if max_amounts_in.len() != self.tokens.len() {
            return Err(PoolError::AmountsLengthMismatch);
        }
        let ghost pre = self@;
        let pool_total = self.token.total_supply();
        let ratio = div_u128(pool_amount_out, pool_total)?;
        if ratio == 0 {
            return Err(PoolError::RoundingTooCoarse);
        }
        let amounts = self.scan(ratio, &max_amounts_in, true)?;
        if pool_amount_out > u128::MAX - pool_total {
            return Err(PoolError::ArithmeticOverflow);
        }
        proof {
            lemma_scan_ok(self.records@, ratio, max_amounts_in@, true, self.records@.len());
            if pool_amount_out == 0 {
                lemma_scaled_div_zero(pool_total as int);
            }
        }
        let new_records = self.applied(&amounts, true);
        proof {
            self.lemma_applied_keeps_inv(new_records@, amounts@, true);
        }
        let minted = self.token.mint(pool_amount_out, sender);
        proof {
            assert(minted is Ok);
        }
        self.records = new_records;
        proof {
            self.token.lemma_shares_bounded();
            assert(self@ == join_result(pre, sender@, pool_amount_out, max_amounts_in@)->Ok_0);
        }
        Ok(())
    }

    /// Burns `pool_amount_in` shares of `sender` (less the exit fee, which
    /// the pool keeps) and pays out, for each bound token, the share of the
    /// pool's balance that they stand for. The ratio is taken of the supply
    /// before the burn. Checks every token before it changes anything.
    pub fn exit_pool(&mut self, sender: &String, pool_amount_in: u128, min_amounts_out: Vec<u128>) -> (r:
        Result<(), PoolError>)
        requires
            old(self).wf(),
        ensures
            final(self).wf(),
            done(
                r,
                exit_result(old(self)@, sender@, pool_amount_in, min_amounts_out@),
                old(self)@,
                final(self)@,
            ),
    {
        if !self.finalized {
            return Err(PoolError::InvalidLifecycleState);
        }
        if min_amounts_out.len() != self.tokens.len() {
            return Err(PoolError::AmountsLengthMismatch);
        }
        if pool_amount_in > self.token.balance_of(sender) {
            return Err(PoolError::InsufficientBalance);
        }
        let ghost pre = self@;
        let pool_total = self.token.total_supply();
        let exit_fee = mul_u128(pool_amount_in, EXIT_FEE)?;
        proof {
            lemma_scaled_mul_le(pool_amount_in as int, EXIT_FEE as int);
        }
        let ratio = div_u128(pool_amount_in - exit_fee, pool_total)?;
        if ratio == 0 {
            return Err(PoolError::RoundingTooCoarse);
        }
        let amounts = self.scan(ratio, &min_amounts_out, false)?;
        proof {
            lemma_scan_ok(self.records@, ratio, min_amounts_out@, false, self.records@.len());
            assert(pre.shares[sender@] <= pre.total_supply);
            lemma_scaled_div_le_one((pool_amount_in - exit_fee) as int, pool_total as int);
            assert forall|j: int| 0 <= j < amounts@.len() implies #[trigger] amounts@[j]
                <= self.records@[j].balance by {
                let s = scan_amounts(
                    self.records@,
                    ratio,
                    min_amounts_out@,
                    false,
                    self.records@.len(),
                )->Ok_0;
                assert(s[j] == amounts@[j]);
                assert(exit_amount(self.records@[j], ratio, min_amounts_out@[j]) is Ok);
                lemma_scaled_mul_le(self.records@[j].balance as int, ratio as int);
            }
        }
        let new_records = self.applied(&amounts, false);
        proof {
            self.lemma_applied_keeps_inv(new_records@, amounts@, false);
        }
        let burnt = self.token.burn(pool_amount_in, sender);
        proof {
            assert(burnt is Ok);
        }
        self.records = new_records;
        proof {
            self.token.lemma_shares_bounded();
            assert(self@ == exit_result(pre, sender@, pool_amount_in, min_amounts_out@)->Ok_0);
        }
        Ok(())
    }

    /// Whether the pool is finalized.
    pub fn is_finalized(&self) -> (r: bool)
        ensures
            r == self@.finalized,
    {
        self.finalized
    }

    /// Whether `token_account_id` is bound to the pool.
    pub fn is_bound(&self, token_account_id: &String) -> (r: bool)
        requires
            self.wf(),
        ensures
            r == self@.tokens.contains(token_account_id@),
    {
        self.find_token(token_account_id).is_some()
    }

    /// The identity allowed to configure the pool.
    pub fn get_controller(&self) -> (r: String)
        ensures
            r@ == self@.controller,
    {
        self.controller.clone()
    }

    /// Number of bound tokens.
    pub fn get_num_tokens(&self) -> (r: u64)
        requires
            self.wf(),
        ensures
            r == self@.tokens.len(),
    {
        self.tokens.len() as u64
    }

    /// The bound tokens, in order.
    pub fn get_current_tokens(&self) -> (r: Vec<String>)
        ensures
            r@.map_values(|s: String| s@) == self@.tokens,
    {
        let mut out: Vec<String> = Vec::new();
        let mut i: usize = 0;
        while i < self.tokens.len()
            invariant
                i <= self.tokens@.len(),
                out@.len() == i,
                forall|j: int| 0 <= j < i ==> (#[trigger] out@[j])@ == self.tokens@[j]@,
            decreases self.tokens@.len() - i,
        {
            out.push(self.tokens[i].clone());
            i = i + 1;
        }
        proof {
            assert(out@.map_values(|s: String| s@) =~= self@.tokens);
        }
        out
    }

    /// The bound tokens of a finalized pool, in order.
    pub fn get_final_tokens(&self) -> (r: Result<Vec<String>, PoolError>)
        ensures
            !self@.finalized ==> r == Err::<Vec<String>, PoolError>(PoolError::InvalidLifecycleState),
            self@.finalized ==> r is Ok && r->Ok_0@.map_values(|s: String| s@) == self@.tokens,
    {
        if !self.finalized {
            return Err(PoolError::InvalidLifecycleState);
        }
        Ok(self.get_current_tokens())
    }

    /// The pool's balance of a bound token.
    pub fn get_balance(&self, token_account_id: &String) -> (r: Result<u128, PoolError>)
        requires
            self.wf(),
        ensures
            !self@.tokens.contains(token_account_id@) ==> r == Err::<u128, PoolError>(
                PoolError::NotBound,
            ),
            self@.tokens.contains(token_account_id@) ==> r == Ok::<u128, PoolError>(
                self@.records[index_of(self@, token_account_id@)].balance,
            ),
    {
        match self.find_token(token_account_id) {
            Some(i) => Ok(self.records[i].balance),
            None => Err(PoolError::NotBound),
        }
    }

    /// Shares held by `account_id`.
    pub fn get_pool_token_balance(&self, account_id: &String) -> (r: u128)
        requires
            self.wf(),
        ensures
            r == self@.shares[account_id@],
    {
        self.token.balance_of(account_id)
    }

    /// Shares in existence.
    pub fn get_pool_token_total_supply(&self) -> (r: u128)
        ensures
            r == self@.total_supply,
    {
        self.token.total_supply()
    }

    /// The pool's swap fee.
    pub fn get_swap_fee(&self) -> (r: u128)
        ensures
            r == self@.swap_fee,
    {
        self.swap_fee
    }
}

} // verus!
