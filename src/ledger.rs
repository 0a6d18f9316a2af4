use vstd::prelude::*;
use crate::error::PoolError;

verus! {

/// Sum of a sequence of amounts.
pub open spec fn seq_sum(s: Seq<u128>) -> int
    decreases s.len(),
{
    if s.len() == 0 {
        0
    } else {
        seq_sum(s.drop_last()) + s.last()
    }
}

proof fn lemma_sum_update(s: Seq<u128>, i: int, v: u128)
    requires
        0 <= i < s.len(),
    ensures
        seq_sum(s.update(i, v)) == seq_sum(s) - s[i] + v,
    decreases s.len(),
{
    let t = s.update(i, v);
    if i == s.len() - 1 {
        assert(t.drop_last() =~= s.drop_last());
    } else {
        lemma_sum_update(s.drop_last(), i, v);
        assert(t.drop_last() =~= s.drop_last().update(i, v));
    }
}

proof fn lemma_elem_le_sum(s: Seq<u128>, i: int)
    requires
        0 <= i < s.len(),
    ensures
        s[i] <= seq_sum(s),
    decreases s.len(),
{
    if i < s.len() - 1 {
        lemma_elem_le_sum(s.drop_last(), i);
    }
    lemma_sum_nonneg(s.drop_last());
}

proof fn lemma_sum_nonneg(s: Seq<u128>)
    ensures
        seq_sum(s) >= 0,
    decreases s.len(),
{
    if s.len() > 0 {
        lemma_sum_nonneg(s.drop_last());
    }
}

/// The pool's shares: how many each participant holds, and how many exist.
pub struct ShareLedger {
    holders: Vec<String>,
    amounts: Vec<u128>,
    supply: u128,
}

impl ShareLedger {
    /// Holders are distinct, each has one amount, and the amounts add up
    /// to the supply.
    pub closed spec fn wf(&self) -> bool {
        &&& self.holders@.len() == self.amounts@.len()
        &&& forall|i: int, j: int|
            0 <= i < j < self.holders@.len() ==> #[trigger] self.holders@[i]@
                != #[trigger] self.holders@[j]@
        &&& seq_sum(self.amounts@) == self.supply
    }

    closed spec fn holds_at(&self, k: Seq<char>, i: int) -> bool {
        0 <= i < self.holders@.len() && self.holders@[i]@ == k
    }

    closed spec fn balance_at(&self, k: Seq<char>) -> nat {
        if exists|i: int| self.holds_at(k, i) {
            self.amounts@[choose|i: int| self.holds_at(k, i)] as nat
        } else {
            0
        }
    }

    /// Shares held by each participant; zero for one who holds none.
    pub closed spec fn shares(&self) -> Map<Seq<char>, nat> {
        Map::new(|k: Seq<char>| true, |k: Seq<char>| self.balance_at(k))
    }

    /// Shares in existence.
    pub closed spec fn supply(&self) -> nat {
        self.supply as nat
    }

    proof fn lemma_at(&self, k: Seq<char>, i: int)
        requires
            self.wf(),
            self.holds_at(k, i),
        ensures
            self.shares()[k] == self.amounts@[i],
    {
        let j = choose|j: int| self.holds_at(k, j);
        assert(self.holds_at(k, j));
        if i < j {
            assert(self.holders@[i]@ != self.holders@[j]@);
        } else if j < i {
            assert(self.holders@[j]@ != self.holders@[i]@);
        }
    }

    /// No participant holds more shares than exist.
    pub proof fn lemma_share_le_supply(&self, k: Seq<char>)
        requires
            self.wf(),
        ensures
            self.shares()[k] <= self.supply(),
    {
        if exists|i: int| self.holds_at(k, i) {
            let i = choose|i: int| self.holds_at(k, i);
            self.lemma_at(k, i);
            lemma_elem_le_sum(self.amounts@, i);
        }
    }

    /// Every participant has an entry, and none holds more than exists.
    pub proof fn lemma_shares_bounded(&self)
        requires
            self.wf(),
        ensures
            forall|k: Seq<char>| #[trigger] self.shares().dom().contains(k),
            forall|k: Seq<char>| #[trigger] self.shares()[k] <= self.supply(),
    {
        assert forall|k: Seq<char>| #[trigger] self.shares()[k] <= self.supply() by {
            self.lemma_share_le_supply(k);
        }
    }

    /// An empty ledger.
    pub fn new() -> (r: ShareLedger)
        ensures
            r.wf(),
            r.supply() == 0,
            r.shares() == Map::new(|k: Seq<char>| true, |k: Seq<char>| 0nat),
    {
        let r = ShareLedger { holders: Vec::new(), amounts: Vec::new(), supply: 0 };
        assert(r.shares() =~= Map::new(|k: Seq<char>| true, |k: Seq<char>| 0nat));
        r
    }

    fn find(&self, id: &String) -> (r: Option<usize>)
        requires
            self.wf(),
        ensures
            match r {
                Some(i) => self.holds_at(id@, i as int),
                None => forall|i: int| !self.holds_at(id@, i),
            },
    {
        let mut i: usize = 0;
        while i < self.holders.len()
            invariant
                self.wf(),
                i <= self.holders@.len(),
                forall|j: int| 0 <= j < i ==> !self.holds_at(id@, j),
            decreases self.holders@.len() - i,
        {
            if self.holders[i] == *id {
                return Some(i);
            }
            i = i + 1;
        }
        None
    }

    /// Shares held by `id`.
    pub fn balance_of(&self, id: &String) -> (r: u128)
        requires
            self.wf(),
        ensures
            r == self.shares()[id@],
    {
        match self.find(id) {
            Some(i) => {
                proof {
                    self.lemma_at(id@, i as int);
                }
                self.amounts[i]
            },
            None => 0,
        }
    }

    /// Shares in existence.
    pub fn total_supply(&self) -> (r: u128)
        ensures
            r == self.supply(),
    {
        self.supply
    }

    /// Creates `amount` shares for `to`. Refuses zero, and a supply that
    /// would not fit in 128 bits.
    pub fn mint(&mut self, amount: u128, to: &String) -> (r: Result<(), PoolError>)
        requires
            old(self).wf(),
        ensures
            final(self).wf(),
            amount == 0 ==> r == Err::<(), PoolError>(PoolError::ZeroAmount),
            amount != 0 && old(self).supply() + amount > u128::MAX ==> r == Err::<(), PoolError>(
                PoolError::ArithmeticOverflow,
            ),
            r is Ok <==> amount != 0 && old(self).supply() + amount <= u128::MAX,
            r is Ok ==> final(self).supply() == old(self).supply() + amount && final(self).shares()
                == old(self).shares().insert(to@, (old(self).shares()[to@] + amount) as nat),
            r is Err ==> *final(self) == *old(self),
    {
        if amount == 0 {
            return Err(PoolError::ZeroAmount);
        }
        if amount > u128::MAX - self.supply {
            return Err(PoolError::ArithmeticOverflow);
        }
        let ghost pre = *self;
        match self.find(to) {
            Some(i) => {
                proof {
                    pre.lemma_at(to@, i as int);
                    lemma_elem_le_sum(pre.amounts@, i as int);
                    lemma_sum_update(pre.amounts@, i as int, (pre.amounts@[i as int] + amount) as u128);
                }
                let v = self.amounts[i] + amount;
                self.amounts.set(i, v);
                self.supply = self.supply + amount;
                proof {
                    self.lemma_update_shares(pre, to@, i as int);
                }
            },
            None => {
                self.holders.push(to.clone());
                self.amounts.push(amount);
                self.supply = self.supply + amount;
                proof {
                    assert(self.amounts@.drop_last() =~= pre.amounts@);
                    assert(self.holders@.drop_last() =~= pre.holders@);
                    self.lemma_push_shares(pre, to@);
                }
            },
        }
        Ok(())
    }

    /// Removes `amount` of the shares of `from`. Refuses more than it holds.
    pub fn burn(&mut self, amount: u128, from: &String) -> (r: Result<(), PoolError>)
        requires
            old(self).wf(),
        ensures
            final(self).wf(),
            r is Ok <==> amount <= old(self).shares()[from@],
            r is Err ==> r == Err::<(), PoolError>(PoolError::InsufficientBalance) && *final(self)
                == *old(self),
            r is Ok ==> final(self).supply() == old(self).supply() - amount && final(self).shares()
                == old(self).shares().insert(from@, (old(self).shares()[from@] - amount) as nat),
    {
        let ghost pre = *self;
        match self.find(from) {
            Some(i) => {
                proof {
                    pre.lemma_at(from@, i as int);
                }
                if self.amounts[i] < amount {
                    return Err(PoolError::InsufficientBalance);
                }
                proof {
                    lemma_elem_le_sum(pre.amounts@, i as int);
                    lemma_sum_update(pre.amounts@, i as int, (pre.amounts@[i as int] - amount) as u128);
                }
                let v = self.amounts[i] - amount;
                self.amounts.set(i, v);
                self.supply = self.supply - amount;
                proof {
                    self.lemma_update_shares(pre, from@, i as int);
                }
                Ok(())
            },
            None => {
                if amount > 0 {
                    return Err(PoolError::InsufficientBalance);
                }
                proof {
                    assert(self.shares() =~= pre.shares().insert(from@, (pre.shares()[from@] - amount) as nat));
                }
                Ok(())
            },
        }
    }

    proof fn lemma_update_shares(&self, pre: ShareLedger, k: Seq<char>, i: int)
        requires
            pre.wf(),
            pre.holds_at(k, i),
            self.holders@ == pre.holders@,
            self.amounts@ == pre.amounts@.update(i, self.amounts@[i]),
            seq_sum(self.amounts@) == self.supply,
        ensures
            self.wf(),
            self.shares() == pre.shares().insert(k, self.amounts@[i] as nat),
    {
        assert(self.holds_at(k, i));
        self.lemma_at(k, i);
        assert forall|x: Seq<char>| #[trigger] self.shares()[x] == pre.shares().insert(
            k,
            self.amounts@[i] as nat,
        )[x] by {
            if x != k {
                if exists|j: int| self.holds_at(x, j) {
                    let j = choose|j: int| self.holds_at(x, j);
                    self.lemma_at(x, j);
                    assert(pre.holds_at(x, j));
                    pre.lemma_at(x, j);
                } else {
                    assert forall|j: int| !pre.holds_at(x, j) by {
                        assert(!self.holds_at(x, j));
                    }
                }
            }
        }
        assert(self.shares() =~= pre.shares().insert(k, self.amounts@[i] as nat));
    }

    proof fn lemma_push_shares(&self, pre: ShareLedger, k: Seq<char>)
        requires
            pre.wf(),
            forall|i: int| !pre.holds_at(k, i),
            self.holders@.len() == pre.holders@.len() + 1,
            self.holders@.drop_last() == pre.holders@,
            self.holders@.last()@ == k,
            self.amounts@ == pre.amounts@.push(self.amounts@.last()),
            seq_sum(self.amounts@) == self.supply,
        ensures
            self.wf(),
            self.shares() == pre.shares().insert(k, self.amounts@.last() as nat),
    {
        let n = pre.holders@.len() as int;
        assert forall|i: int, j: int|
            0 <= i < j < self.holders@.len() implies #[trigger] self.holders@[i]@
            != #[trigger] self.holders@[j]@ by {
            assert(self.holders@[i] == self.holders@.drop_last()[i]);
            if j < n {
                assert(self.holders@[j] == self.holders@.drop_last()[j]);
            } else {
                assert(!pre.holds_at(k, i));
            }
        }
        assert(self.holds_at(k, n));
        self.lemma_at(k, n);
        assert forall|x: Seq<char>| #[trigger] self.shares()[x] == pre.shares().insert(
            k,
            self.amounts@.last() as nat,
        )[x] by {
            if x != k {
                if exists|j: int| self.holds_at(x, j) {
                    let j = choose|j: int| self.holds_at(x, j);
                    self.lemma_at(x, j);
                    assert(self.holders@[j] == self.holders@.drop_last()[j]);
                    assert(pre.holds_at(x, j));
                    pre.lemma_at(x, j);
                } else {
                    assert forall|j: int| !pre.holds_at(x, j) by {
                        if 0 <= j < n {
                            assert(self.holders@[j] == self.holders@.drop_last()[j]);
                            assert(!self.holds_at(x, j));
                        }
                    }
                }
            }
        }
        assert(self.shares() =~= pre.shares().insert(k, self.amounts@.last() as nat));
    }
}

} // verus!
