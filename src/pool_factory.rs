use vstd::prelude::*;
use crate::error::PoolError;
use crate::pool::{
    bind_result, done, exit_result, finalize_result, index_of, join_result, new_result,
    rebind_result, spot_result, unbind_result, Pool, PoolView,
};

verus! {

/// A separator of the parts of an account identifier.
pub open spec fn is_separator(c: char) -> bool {
    c == '-' || c == '_' || c == '.'
}

/// A character that may stand in an account identifier.
pub open spec fn is_id_char(c: char) -> bool {
    ('a' <= c && c <= 'z') || ('0' <= c && c <= '9') || is_separator(c)
}

/// A well-formed account identifier: 2 to 64 characters out of `a-z`,
/// `0-9`, `-`, `_` and `.`, where a separator neither begins nor ends the
/// identifier nor follows another separator.
pub open spec fn valid_account_id(s: Seq<char>) -> bool {
    &&& 2 <= s.len() <= 64
    &&& forall|i: int|
        0 <= i < s.len() ==> {
            &&& is_id_char(#[trigger] s[i])
            &&& is_separator(s[i]) ==> 0 < i < s.len() - 1 && !is_separator(s[i - 1])
        }
}

/// Relies on `near_sdk::env::is_valid_account_id`, which checks the bytes
/// of an identifier against the rules of `valid_account_id` (a character
/// outside ASCII has bytes outside the allowed set).
#[verifier::external_body]
fn account_id_is_valid(s: &String) -> (r: bool)
    ensures
        r == valid_account_id(s@),
{
    near_sdk::env::is_valid_account_id(s.as_bytes())
}

/// What a registry of pools is, as its contracts see it.
pub ghost struct FactoryView {
    pub owner: Seq<char>,
    pub nonce: u64,
    /// `pools[k]` has the identifier `k + 1`.
    pub pools: Seq<PoolView>,
}

/// Position of the pool `pool_id` in the registry, where there is one.
pub open spec fn slot(f: FactoryView, pool_id: u64) -> Option<int> {
    if 1 <= pool_id && pool_id <= f.pools.len() {
        Some(pool_id - 1)
    } else {
        None
    }
}

/// `r` and `post` are the outcome of `res` on the pool in slot `k` of `pre`.
pub open spec fn done_at(
    r: Result<(), PoolError>,
    res: Result<PoolView, PoolError>,
    pre: FactoryView,
    post: FactoryView,
    k: int,
) -> bool {
    match res {
        Ok(v) => r == Ok::<(), PoolError>(()) && post == FactoryView {
            pools: pre.pools.update(k, v),
            ..pre
        },
        Err(e) => r == Err::<(), PoolError>(e) && post == pre,
    }
}

/// `r` and `post` are the outcome of `res` on the registry `pre`.
pub open spec fn factory_done(
    r: Result<(), PoolError>,
    res: Result<FactoryView, PoolError>,
    pre: FactoryView,
    post: FactoryView,
) -> bool {
    match res {
        Ok(v) => r == Ok::<(), PoolError>(()) && post == v,
        Err(e) => r == Err::<(), PoolError>(e) && post == pre,
    }
}

/// A registry owned by `owner`, without pools.
pub open spec fn empty_factory(owner: Seq<char>) -> FactoryView {
    FactoryView { owner, nonce: 0, pools: Seq::empty() }
}

/// What `PoolFactory::set_owner` makes of `f`.
pub open spec fn set_owner_result(f: FactoryView, sender: Seq<char>, new_owner: Seq<char>) -> Result<
    FactoryView,
    PoolError,
> {
    if sender != f.owner {
        Err(PoolError::Unauthorized)
    } else if !valid_account_id(new_owner) {
        Err(PoolError::InvalidAccountId)
    } else {
        Ok(FactoryView { owner: new_owner, ..f })
    }
}

/// What `PoolFactory::new_pool` makes of `f`: a new pool under the next
/// identifier.
pub open spec fn new_pool_result(f: FactoryView, sender: Seq<char>, swap_fee: u128) -> Result<
    FactoryView,
    PoolError,
> {
    match new_result(sender, (f.nonce + 1) as u64, swap_fee) {
        Err(e) => Err(e),
        Ok(v) => if f.nonce == u64::MAX {
            Err(PoolError::ArithmeticOverflow)
        } else {
            Ok(FactoryView { nonce: (f.nonce + 1) as u64, pools: f.pools.push(v), ..f })
        },
    }
}

/// What an operation `op` on the pool `pool_id` makes of `f`.
pub open spec fn pool_op_result(
    f: FactoryView,
    pool_id: u64,
    op: spec_fn(PoolView) -> Result<PoolView, PoolError>,
) -> Result<FactoryView, PoolError> {
    match slot(f, pool_id) {
        None => Err(PoolError::NoPool),
        Some(k) => match op(f.pools[k]) {
            Err(e) => Err(e),
            Ok(v) => Ok(FactoryView { pools: f.pools.update(k, v), ..f }),
        },
    }
}

/// `bind_result`, for a well-formed token identifier only.
pub open spec fn bind_checked(
    v: PoolView,
    sender: Seq<char>,
    token: Seq<char>,
    denorm: u128,
    balance: u128,
) -> Result<PoolView, PoolError> {
    if !valid_account_id(token) {
        Err(PoolError::InvalidAccountId)
    } else {
        bind_result(v, sender, token, denorm, balance)
    }
}

/// `rebind_result`, for a well-formed token identifier only.
pub open spec fn rebind_checked(
    v: PoolView,
    sender: Seq<char>,
    token: Seq<char>,
    denorm: u128,
    balance: u128,
) -> Result<PoolView, PoolError> {
    if !valid_account_id(token) {
        Err(PoolError::InvalidAccountId)
    } else {
        rebind_result(v, sender, token, denorm, balance)
    }
}

/// The registry of pools, each under an identifier counted up from one.
pub struct PoolFactory {
    owner: String,
    nonce: u64,
    pools: Vec<Pool>,
}

impl View for PoolFactory {
    type V = FactoryView;

    closed spec fn view(&self) -> FactoryView {
        FactoryView {
            owner: self.owner@,
            nonce: self.nonce,
            pools: self.pools@.map_values(|p: Pool| p@),
        }
    }
}

impl PoolFactory {
    /// Every pool is valid and has the identifier of its slot; the nonce is
    /// the number of pools.
    pub closed spec fn wf(&self) -> bool {
        &&& self.nonce == self.pools@.len()
        &&& forall|k: int| 0 <= k < self.pools@.len() ==> (#[trigger] self.pools@[k]).wf()
        &&& forall|k: int| 0 <= k < self.pools@.len() ==> (#[trigger] self.pools@[k])@.id == k + 1
    }

    /// Every pool of a valid registry is valid.
    pub proof fn lemma_pools_valid(&self)
        requires
            self.wf(),
        ensures
            self@.nonce == self@.pools.len(),
            forall|k: int|
                0 <= k < self@.pools.len() ==> crate::pool::pool_inv(#[trigger] self@.pools[k]),
            forall|k: int| 0 <= k < self@.pools.len() ==> (#[trigger] self@.pools[k]).id == k + 1,
    {
        assert forall|k: int| 0 <= k < self@.pools.len() implies crate::pool::pool_inv(
            #[trigger] self@.pools[k],
        ) by {
            self.pools@[k].lemma_wf_inv();
        }
    }

    /// An empty registry owned by `owner`. Refuses a malformed identifier.
    pub fn init(owner: String) -> (r: Result<PoolFactory, PoolError>)
        ensures
            !valid_account_id(owner@) ==> r == Err::<PoolFactory, PoolError>(
                PoolError::InvalidAccountId,
            ),
            valid_account_id(owner@) ==> (r is Ok),
            r is Ok ==> r->Ok_0.wf() && r->Ok_0@ == empty_factory(owner@),
    {
        if !account_id_is_valid(&owner) {
            return Err(PoolError::InvalidAccountId);
        }
        let f = PoolFactory { owner, nonce: 0, pools: Vec::new() };
        proof {
            assert(f@.pools =~= Seq::<PoolView>::empty());
        }
        Ok(f)
    }

    /// The owner of the registry.
    pub fn get_owner(&self) -> (r: &String)
        ensures
            r@ == self@.owner,
    {
        &self.owner
    }

    /// The identifier of the newest pool; zero while there is none.
    pub fn get_nonce(&self) -> (r: u64)
        ensures
            r == self@.nonce,
    {
        self.nonce
    }

    /// Hands the registry to `new_owner`. Only the owner may, and only to a
    /// well-formed identifier.
    pub fn set_owner(&mut self, sender: &String, new_owner: String) -> (r: Result<(), PoolError>)
        requires
            old(self).wf(),
        ensures
            final(self).wf(),
            factory_done(r, set_owner_result(old(self)@, sender@, new_owner@), old(self)@, final(self)@),
    {
        if !(*sender == self.owner) {
            return Err(PoolError::Unauthorized);
        }
        if !account_id_is_valid(&new_owner) {
            return Err(PoolError::InvalidAccountId);
        }
        self.owner = new_owner;
        Ok(())
    }

    /// Whether a pool has the identifier `pool_id`.
    pub fn pool_exists(&self, pool_id: u64) -> (r: bool)
        requires
            self.wf(),
        ensures
            r == slot(self@, pool_id) is Some,
    {
        1 <= pool_id && pool_id <= self.nonce
    }

    /// Creates an open pool controlled by `sender`, under the next
    /// identifier, and returns that identifier.
    pub fn new_pool(&mut self, sender: &String, swap_fee: u128) -> (r: Result<u64, PoolError>)
        requires
            old(self).wf(),
        ensures
            final(self).wf(),
            match new_pool_result(old(self)@, sender@, swap_fee) {
                Ok(v) => r == Ok::<u64, PoolError>(v.nonce) && final(self)@ == v,
                Err(e) => r == Err::<u64, PoolError>(e) && final(self)@ == old(self)@,
            },
    {
        if self.nonce == u64::MAX {
            let checked = Pool::new(sender.clone(), self.nonce, swap_fee);
            return match checked {
                Ok(_) => Err(PoolError::ArithmeticOverflow),
                Err(e) => Err(e),
            };
        }
        let id = self.nonce + 1;
        let pool = Pool::new(sender.clone(), id, swap_fee)?;
        let ghost pre = self@;
        self.pools.push(pool);
        self.nonce = id;
        proof {
            assert(self@.pools =~= pre.pools.push(pool@));
        }
        Ok(id)
    }

    fn slot_of(&self, pool_id: u64) -> (r: Result<usize, PoolError>)
        requires
            self.wf(),
        ensures
            match slot(self@, pool_id) {
                Some(k) => r is Ok && r->Ok_0 as int == k,
                None => r == Err::<usize, PoolError>(PoolError::NoPool),
            },
    {
        let n = self.pools.len();
        if 1 <= pool_id && pool_id <= self.nonce {
            assert(pool_id - 1 < n);
            Ok((pool_id - 1) as usize)
        } else {
            Err(PoolError::NoPool)
        }
    }

    proof fn lemma_replaced(&self, pre: PoolFactory, k: int)
        requires
            pre.wf(),
            0 <= k < pre.pools@.len(),
            self.pools@.len() == pre.pools@.len(),
            self.owner == pre.owner,
            self.nonce == pre.nonce,
            forall|j: int| 0 <= j < pre.pools@.len() && j != k ==> self.pools@[j] == pre.pools@[j],
            self.pools@[k].wf(),
            self.pools@[k]@.id == pre.pools@[k]@.id,
        ensures
            self.wf(),
            self@ == (FactoryView { pools: pre@.pools.update(k, self.pools@[k]@), ..pre@ }),
            self.pools@[k]@ == pre.pools@[k]@ ==> self@ == pre@,
    {
        assert(self@.pools =~= pre@.pools.update(k, self.pools@[k]@));
        if self.pools@[k]@ == pre.pools@[k]@ {
            assert(self@.pools =~= pre@.pools);
        }
    }

    /// Binds a token to the pool `pool_id`; see `Pool::bind`. Refuses a
    /// malformed token identifier.
    pub fn bind_pool(
        &mut self,
        sender: &String,
        pool_id: u64,
        token_account_id: &String,
        denorm: u128,
        balance: u128,
    ) -> (r: Result<(), PoolError>)
        requires
            old(self).wf(),
        ensures
            final(self).wf(),
            factory_done(
                r,
                pool_op_result(
                    old(self)@,
                    pool_id,
                    |v: PoolView| bind_checked(v, sender@, token_account_id@, denorm, balance),
                ),
                old(self)@,
                final(self)@,
            ),
    {
        let k = self.slot_of(pool_id)?;
        if !account_id_is_valid(token_account_id) {
            return Err(PoolError::InvalidAccountId);
        }
        let ghost pre = *self;
        let r = self.pools[k].bind(sender, token_account_id, denorm, balance);
        proof {
            self.lemma_replaced(pre, k as int);
        }
        r
    }

    /// Changes a token of the pool `pool_id`; see `Pool::rebind`. Refuses a
    /// malformed token identifier.
    pub fn rebind_pool(
        &mut self,
        sender: &String,
        pool_id: u64,
        token_account_id: &String,
        denorm: u128,
        balance: u128,
    ) -> (r: Result<(), PoolError>)
        requires
            old(self).wf(),
        ensures
            final(self).wf(),
            factory_done(
                r,
                pool_op_result(old(self)@, pool_id, |v: PoolView| rebind_checked(v, sender@, token_account_id@, denorm, balance)),
                old(self)@,
                final(self)@,
            ),
    {
        let k = self.slot_of(pool_id)?;
        if !account_id_is_valid(token_account_id) {
            return Err(PoolError::InvalidAccountId);
        }
        let ghost pre = *self;
        let r = self.pools[k].rebind(sender, token_account_id, denorm, balance);
        proof {
            self.lemma_replaced(pre, k as int);
        }
        r
    }

    /// Removes a token from the pool `pool_id`; see `Pool::unbind`.
    pub fn unbind_pool(
        &mut self,
        sender: &String,
        pool_id: u64,
        token_account_id: &String,
    ) -> (r: Result<(), PoolError>)
        requires
            old(self).wf(),
        ensures
            final(self).wf(),
            factory_done(
                r,
                pool_op_result(old(self)@, pool_id, |v: PoolView| unbind_result(v, sender@, token_account_id@)),
                old(self)@,
                final(self)@,
            ),
    {
        let k = self.slot_of(pool_id)?;
        let ghost pre = *self;
        let r = self.pools[k].unbind(sender, token_account_id);
        proof {
            self.lemma_replaced(pre, k as int);
        }
        r
    }

    /// Finalizes the pool `pool_id`; see `Pool::finalize`.
    pub fn finalize_pool(
        &mut self,
        sender: &String,
        pool_id: u64,
    ) -> (r: Result<(), PoolError>)
        requires
            old(self).wf(),
        ensures
            final(self).wf(),
            factory_done(
                r,
                pool_op_result(old(self)@, pool_id, |v: PoolView| finalize_result(v, sender@)),
                old(self)@,
                final(self)@,
            ),
    {
        let k = self.slot_of(pool_id)?;
        let ghost pre = *self;
        let r = self.pools[k].finalize(sender);
        proof {
            self.lemma_replaced(pre, k as int);
        }
        r
    }

    /// Joins the pool `pool_id`; see `Pool::join_pool`.
    pub fn join_pool(
        &mut self,
        sender: &String,
        pool_id: u64,
        pool_amount_out: u128,
        max_amounts_in: Vec<u128>,
    ) -> (r: Result<(), PoolError>)
        requires
            old(self).wf(),
        ensures
            final(self).wf(),
            factory_done(
                r,
                pool_op_result(old(self)@, pool_id, |v: PoolView| join_result(v, sender@, pool_amount_out, max_amounts_in@)),
                old(self)@,
                final(self)@,
            ),
    {
        let k = self.slot_of(pool_id)?;
        let ghost pre = *self;
        let r = self.pools[k].join_pool(sender, pool_amount_out, max_amounts_in);
        proof {
            self.lemma_replaced(pre, k as int);
        }
        r
    }

    /// Exits the pool `pool_id`; see `Pool::exit_pool`.
    pub fn exit_pool(
        &mut self,
        sender: &String,
        pool_id: u64,
        pool_amount_in: u128,
        min_amounts_out: Vec<u128>,
    ) -> (r: Result<(), PoolError>)
        requires
            old(self).wf(),
        ensures
            final(self).wf(),
            factory_done(
                r,
                pool_op_result(old(self)@, pool_id, |v: PoolView| exit_result(v, sender@, pool_amount_in, min_amounts_out@)),
                old(self)@,
                final(self)@,
            ),
    {
        let k = self.slot_of(pool_id)?;
        let ghost pre = *self;
        let r = self.pools[k].exit_pool(sender, pool_amount_in, min_amounts_out);
        proof {
            self.lemma_replaced(pre, k as int);
        }
        r
    }

    /// Whether the pool `pool_id` is finalized.
    pub fn pool_is_finalized(&self, pool_id: u64) -> (r: Result<bool, PoolError>)
        requires
            self.wf(),
        ensures
            match slot(self@, pool_id) {
                None => r == Err::<bool, PoolError>(PoolError::NoPool),
                Some(k) => r == Ok::<bool, PoolError>(self@.pools[k].finalized),
            },
    {
        let k = self.slot_of(pool_id)?;
        Ok(self.pools[k].is_finalized())
    }

    /// Whether `token_account_id` is bound to the pool `pool_id`; a token
    /// without a record is refused.
    pub fn pool_token_is_bound(&self, token_account_id: &String, pool_id: u64) -> (r: Result<bool, PoolError>)
        requires
            self.wf(),
        ensures
            match slot(self@, pool_id) {
                None => r == Err::<bool, PoolError>(PoolError::NoPool),
                Some(k) => r == (if self@.pools[k].tokens.contains(token_account_id@) {
                    Ok::<bool, PoolError>(true)
                } else {
                    Err::<bool, PoolError>(PoolError::NotBound)
                }),
            },
    {
        let k = self.slot_of(pool_id)?;
        if self.pools[k].is_bound(token_account_id) {
            Ok(true)
        } else {
            Err(PoolError::NotBound)
        }
    }

    /// Number of tokens bound to the pool `pool_id`.
    pub fn get_pool_num_tokens(&self, pool_id: u64) -> (r: Result<u64, PoolError>)
        requires
            self.wf(),
        ensures
            match slot(self@, pool_id) {
                None => r == Err::<u64, PoolError>(PoolError::NoPool),
                Some(k) => r == Ok::<u64, PoolError>(self@.pools[k].tokens.len() as u64),
            },
    {
        let k = self.slot_of(pool_id)?;
        Ok(self.pools[k].get_num_tokens())
    }

    /// Tokens bound to the pool `pool_id`, in order.
    pub fn get_pool_current_tokens(&self, pool_id: u64) -> (r: Result<Vec<String>, PoolError>)
        requires
            self.wf(),
        ensures
            match slot(self@, pool_id) {
                None => r == Err::<Vec<String>, PoolError>(PoolError::NoPool),
                Some(k) => r is Ok && r->Ok_0@.map_values(|s: String| s@) == self@.pools[k].tokens,
            },
    {
        let k = self.slot_of(pool_id)?;
        Ok(self.pools[k].get_current_tokens())
    }

    /// Tokens bound to the pool `pool_id`, which must be finalized.
    pub fn get_pool_final_tokens(&self, pool_id: u64) -> (r: Result<Vec<String>, PoolError>)
        requires
            self.wf(),
        ensures
            match slot(self@, pool_id) {
                None => r == Err::<Vec<String>, PoolError>(PoolError::NoPool),
                Some(k) => if self@.pools[k].finalized {
                    r is Ok && r->Ok_0@.map_values(|s: String| s@) == self@.pools[k].tokens
                } else {
                    r == Err::<Vec<String>, PoolError>(PoolError::InvalidLifecycleState)
                },
            },
    {
        let k = self.slot_of(pool_id)?;
        self.pools[k].get_final_tokens()
    }

    /// The balance of `token_account_id` in the pool `pool_id`.
    pub fn get_pool_balance(&self, pool_id: u64, token_account_id: &String) -> (r: Result<u128, PoolError>)
        requires
            self.wf(),
        ensures
            match slot(self@, pool_id) {
                None => r == Err::<u128, PoolError>(PoolError::NoPool),
                Some(k) => if self@.pools[k].tokens.contains(token_account_id@) {
                    r == Ok::<u128, PoolError>(
                        self@.pools[k].records[index_of(self@.pools[k], token_account_id@)].balance,
                    )
                } else {
                    r == Err::<u128, PoolError>(PoolError::NotBound)
                },
            },
    {
        let k = self.slot_of(pool_id)?;
        self.pools[k].get_balance(token_account_id)
    }

    /// The swap fee of the pool `pool_id`.
    pub fn pool_get_swap_fee(&self, pool_id: u64) -> (r: Result<u128, PoolError>)
        requires
            self.wf(),
        ensures
            match slot(self@, pool_id) {
                None => r == Err::<u128, PoolError>(PoolError::NoPool),
                Some(k) => r == Ok::<u128, PoolError>(self@.pools[k].swap_fee),
            },
    {
        let k = self.slot_of(pool_id)?;
        Ok(self.pools[k].get_swap_fee())
    }

    /// Spot price, with the fee, of `token_in` in `token_out` in the pool
    /// `pool_id`.
    pub fn get_pool_spot_price(&self, pool_id: u64, token_in: &String, token_out: &String) -> (r: Result<u128, PoolError>)
        requires
            self.wf(),
        ensures
            match slot(self@, pool_id) {
                None => r == Err::<u128, PoolError>(PoolError::NoPool),
                Some(k) => r == spot_result(self@.pools[k], token_in@, token_out@, self@.pools[k].swap_fee),
            },
    {
        let k = self.slot_of(pool_id)?;
        self.pools[k].get_spot_price(token_in, token_out)
    }

    /// Spot price, without fee, of `token_in` in `token_out` in the pool
    /// `pool_id`.
    pub fn get_pool_spot_price_sans_fee(&self, pool_id: u64, token_in: &String, token_out: &String) -> (r: Result<u128, PoolError>)
        requires
            self.wf(),
        ensures
            match slot(self@, pool_id) {
                None => r == Err::<u128, PoolError>(PoolError::NoPool),
                Some(k) => r == spot_result(self@.pools[k], token_in@, token_out@, 0),
            },
    {
        let k = self.slot_of(pool_id)?;
        self.pools[k].get_spot_price_sans_fee(token_in, token_out)
    }

    /// Shares of the pool `pool_id` held by `account_id`.
    pub fn get_pool_token_balance(&self, pool_id: u64, account_id: &String) -> (r: Result<u128, PoolError>)
        requires
            self.wf(),
        ensures
            match slot(self@, pool_id) {
                None => r == Err::<u128, PoolError>(PoolError::NoPool),
                Some(k) => r == Ok::<u128, PoolError>(self@.pools[k].shares[account_id@] as u128),
            },
    {
        let k = self.slot_of(pool_id)?;
        Ok(self.pools[k].get_pool_token_balance(account_id))
    }

    /// Shares of the pool `pool_id` in existence.
    pub fn get_pool_token_total_supply(&self, pool_id: u64) -> (r: Result<u128, PoolError>)
        requires
            self.wf(),
        ensures
            match slot(self@, pool_id) {
                None => r == Err::<u128, PoolError>(PoolError::NoPool),
                Some(k) => r == Ok::<u128, PoolError>(self@.pools[k].total_supply as u128),
            },
    {
        let k = self.slot_of(pool_id)?;
        Ok(self.pools[k].get_pool_token_total_supply())
    }
}

} // verus!
