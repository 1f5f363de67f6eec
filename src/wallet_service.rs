//! A registry of wallets by identifier, with deposits, withdrawals and
//! queries addressed by wallet identifier.
use vstd::prelude::*;
use crate::wallet::{DomainError, Money, Wallet, WalletEvent, WalletId, WalletView};

verus! {

/// `e` reports that no wallet has identifier `id`.
pub open spec fn not_found(e: DomainError, id: Seq<char>) -> bool {
    match e {
        DomainError::WalletNotFound(w) => w@ == id,
        _ => false,
    }
}

/// The wallets, at most one for each identifier.
pub struct WalletService {
    wallets: Vec<Wallet>,
}

impl View for WalletService {
    type V = Map<Seq<char>, WalletView>;

    closed spec fn view(&self) -> Map<Seq<char>, WalletView> {
        Map::new(
            |k: Seq<char>| exists|i: int| 0 <= i < self.wallets@.len() && (#[trigger] self.wallets@[i])@.id == k,
            |k: Seq<char>|
                self.wallets@[choose|i: int|
                    0 <= i < self.wallets@.len() && (#[trigger] self.wallets@[i])@.id == k]@,
        )
    }
}

impl WalletService {
    /// Every wallet is well formed, and no two share an identifier.
    pub closed spec fn wf(&self) -> bool {
        &&& forall|i: int| 0 <= i < self.wallets@.len() ==> (#[trigger] self.wallets@[i]).wf()
        &&& forall|i: int, j: int|
            0 <= i < j < self.wallets@.len() ==> (#[trigger] self.wallets@[i])@.id != (#[trigger] self.wallets@[j])@.id
    }

    proof fn lemma_view_at(&self, i: int)
        requires
            self.wf(),
            0 <= i < self.wallets@.len(),
        ensures
            self@.contains_key(self.wallets@[i]@.id),
            self@[self.wallets@[i]@.id] == self.wallets@[i]@,
    {
        let k = self.wallets@[i]@.id;
        assert(self@.contains_key(k));
        let j = choose|j: int| 0 <= j < self.wallets@.len() && (#[trigger] self.wallets@[j])@.id == k;
        if j < i {
        } else if i < j {
        }
    }

    /// Every wallet of a well-formed service holds the balance that its events
    /// replay to, and never a negative one.
    pub proof fn lemma_wallets_wf(&self, id: Seq<char>)
        requires
            self.wf(),
            self@.contains_key(id),
        ensures
            self@[id].id == id,
            self@[id].balance == crate::wallet::replay(self@[id].events),
            0 <= self@[id].balance <= i64::MAX,
    {
        let i = choose|i: int| 0 <= i < self.wallets@.len() && (#[trigger] self.wallets@[i])@.id == id;
        self.lemma_view_at(i);
        assert(self.wallets@[i].wf());
    }

    /// The wallet kept under an identifier has that identifier.
    pub proof fn lemma_keys_are_ids(&self)
        requires
            self.wf(),
        ensures
            forall|k: Seq<char>| #[trigger] self@.contains_key(k) ==> self@[k].id == k,
    {
        assert forall|k: Seq<char>| #[trigger] self@.contains_key(k) implies self@[k].id == k by {
            let i = choose|i: int| 0 <= i < self.wallets@.len() && (#[trigger] self.wallets@[i])@.id == k;
            self.lemma_view_at(i);
        }
    }

    fn find(&self, id: &WalletId) -> (r: Option<usize>)
        requires
            self.wf(),
        ensures
            match r {
                Some(i) => i < self.wallets@.len() && self.wallets@[i as int]@.id == id@
                    && self@.contains_key(id@) && self@[id@] == self.wallets@[i as int]@,
                None => !self@.contains_key(id@),
            },
    {
        let mut i: usize = 0;
        while i < self.wallets.len()
            invariant
                self.wf(),
                i <= self.wallets@.len(),
                forall|j: int| 0 <= j < i ==> (#[trigger] self.wallets@[j])@.id != id@,
            decreases self.wallets@.len() - i,
        {
            if self.wallets[i].id().0 == id.0 {
                proof {
                    self.lemma_view_at(i as int);
                }
                return Some(i);
            }
            i = i + 1;
        }
        None
    }

    pub fn new() -> (s: Self)
        ensures
            s.wf(),
            s@ == Map::<Seq<char>, WalletView>::empty(),
    {
        let s = WalletService { wallets: Vec::new() };
        assert(s@ =~= Map::<Seq<char>, WalletView>::empty());
        s
    }

    /// The wallet with identifier `id`, created empty if there is none yet.
    pub fn create_wallet(&mut self, id: WalletId) -> (w: &Wallet)
        requires
            old(self).wf(),
        ensures
            final(self).wf(),
            w@.id == id@,
            old(self)@.contains_key(id@) ==> final(self)@ == old(self)@ && w@ == old(self)@[id@],
            !old(self)@.contains_key(id@) ==> final(self)@ == old(self)@.insert(id@, w@)
                && w@.events.len() == 0 && w@.balance == 0 && w@.id == id@,
    {
        match self.find(&id) {
            Some(i) => &self.wallets[i],
            None => {
                let ghost before = *self;
                let w = Wallet::new(id);
                self.wallets.push(w);
                let n = self.wallets.len() - 1;
                proof {
                    assert(self.wallets@[n as int] == w);
                    assert(forall|j: int|
                        0 <= j < n ==> #[trigger] self.wallets@[j] == before.wallets@[j]);
                    assert forall|j: int| 0 <= j < n implies (#[trigger] self.wallets@[j])@.id != w@.id by {
                        before.lemma_view_at(j);
                    }
                    assert(self.wf());
                    assert forall|k: Seq<char>| #[trigger] self@.contains_key(k) <==> before@.insert(
                        w@.id,
                        w@,
                    ).contains_key(k) by {
                        if self@.contains_key(k) && k != w@.id {
                            let j = choose|j: int|
                                0 <= j < self.wallets@.len() && (#[trigger] self.wallets@[j])@.id == k;
                            assert(j < n);
                            before.lemma_view_at(j);
                        }
                        if before@.contains_key(k) {
                            let j = choose|j: int|
                                0 <= j < before.wallets@.len() && (#[trigger] before.wallets@[j])@.id == k;
                            self.lemma_view_at(j);
                        }
                        if k == w@.id {
                            self.lemma_view_at(n as int);
                        }
                    }
                    assert forall|k: Seq<char>| #[trigger] self@.contains_key(k) implies self@[k]
                        == before@.insert(w@.id, w@)[k] by {
                        if k == w@.id {
                            self.lemma_view_at(n as int);
                        } else {
                            let j = choose|j: int|
                                0 <= j < before.wallets@.len() && (#[trigger] before.wallets@[j])@.id == k;
                            before.lemma_view_at(j);
                            self.lemma_view_at(j);
                        }
                    }
                    assert(self@ =~= before@.insert(w@.id, w@));
                }
                &self.wallets[n]
            },
        }
    }

    proof fn lemma_replace(before: &Self, after: &Self, i: int, w: Wallet)
        requires
            before.wf(),
            0 <= i < before.wallets@.len(),
            w.wf(),
            w@.id == before.wallets@[i]@.id,
            after.wallets@ == before.wallets@.update(i, w),
        ensures
            after.wf(),
            after@ == before@.insert(w@.id, w@),
    {
        assert forall|j: int| 0 <= j < after.wallets@.len() && j != i implies (#[trigger] after.wallets@[j]) == before.wallets@[j] by {}
        assert(after.wallets@[i] == w);
        assert forall|a: int, b: int| 0 <= a < b < after.wallets@.len() implies (#[trigger] after.wallets@[a])@.id != (#[trigger] after.wallets@[b])@.id by {
            assert(before.wallets@[a]@.id != before.wallets@[b]@.id);
        }
        assert(after.wf());
        assert forall|k: Seq<char>| #[trigger] after@.contains_key(k) <==> before@.contains_key(k) by {
            if after@.contains_key(k) {
                let j = choose|j: int| 0 <= j < after.wallets@.len() && (#[trigger] after.wallets@[j])@.id == k;
                before.lemma_view_at(j);
            }
            if before@.contains_key(k) {
                let j = choose|j: int| 0 <= j < before.wallets@.len() && (#[trigger] before.wallets@[j])@.id == k;
                after.lemma_view_at(j);
            }
        }
        before.lemma_view_at(i);
        assert forall|k: Seq<char>| #[trigger] after@.contains_key(k) implies after@[k] == before@.insert(w@.id, w@)[k] by {
            let j = choose|j: int| 0 <= j < after.wallets@.len() && (#[trigger] after.wallets@[j])@.id == k;
            before.lemma_view_at(j);
            after.lemma_view_at(j);
        }
        assert(after@ =~= before@.insert(w@.id, w@));
    }

    /// Deposits a positive `amount` into the wallet with identifier `id`.
    pub fn deposit(&mut self, id: &WalletId, amount: Money) -> (r: Result<(), DomainError>)
        requires
            old(self).wf(),
            old(self)@.contains_key(id@) && amount > 0 ==> old(self)@[id@].balance + amount
                <= i64::MAX,
        ensures
            final(self).wf(),
            !old(self)@.contains_key(id@) ==> final(self)@ == old(self)@ && (r matches Err(e)
                && not_found(e, id@)),
            old(self)@.contains_key(id@) && amount <= 0 ==> final(self)@ == old(self)@ && r
                == Err::<(), DomainError>(DomainError::InvalidAmount(amount)),
            old(self)@.contains_key(id@) && amount > 0 ==> r is Ok && final(self)@ == old(
                self,
            )@.insert(
                id@,
                (WalletView {
                    id: id@,
                    events: old(self)@[id@].events.push(WalletEvent::Deposited { amount }),
                    balance: old(self)@[id@].balance + amount,
                }),
            ),
    {
        match self.get_wallet_mut(id) {
            Ok(wallet) => wallet.deposit(amount),
            Err(e) => Err(e),
        }
    }

    /// Withdraws a positive `amount` that the balance of the wallet with
    /// identifier `id` covers.
    pub fn withdraw(&mut self, id: &WalletId, amount: Money) -> (r: Result<(), DomainError>)
        requires
            old(self).wf(),
        ensures
            final(self).wf(),
            !old(self)@.contains_key(id@) ==> final(self)@ == old(self)@ && (r matches Err(e)
                && not_found(e, id@)),
            old(self)@.contains_key(id@) && amount <= 0 ==> final(self)@ == old(self)@ && r
                == Err::<(), DomainError>(DomainError::InvalidAmount(amount)),
            old(self)@.contains_key(id@) && amount > 0 && old(self)@[id@].balance < amount
                ==> final(self)@ == old(self)@ && r == Err::<(), DomainError>(
                DomainError::InsufficientFunds {
                    balance: old(self)@[id@].balance as i64,
                    attempted: amount,
                },
            ),
            old(self)@.contains_key(id@) && amount > 0 && old(self)@[id@].balance >= amount
                ==> r is Ok && final(self)@ == old(self)@.insert(
                id@,
                (WalletView {
                    id: id@,
                    events: old(self)@[id@].events.push(WalletEvent::Withdrawn { amount }),
                    balance: old(self)@[id@].balance - amount,
                }),
            ),
    {
        match self.get_wallet_mut(id) {
            Ok(wallet) => wallet.withdraw(amount),
            Err(e) => Err(e),
        }
    }

    /// The wallet with identifier `id`, to change in place. The service stays
    /// well formed as long as the wallet keeps its identifier and stays well
    /// formed, which every method of `Wallet` ensures.
    pub fn get_wallet_mut(&mut self, id: &WalletId) -> (r: Result<&mut Wallet, DomainError>)
        requires
            old(self).wf(),
        ensures
            match r {
                Ok(w) => old(self)@.contains_key(id@) && (*w)@ == old(self)@[id@] && (*w)@.id == id@
                    && (final(w).wf() && final(w)@.id == id@ ==> final(self).wf()
                    && final(self)@ == old(self)@.insert(id@, final(w)@)),
                Err(e) => !old(self)@.contains_key(id@) && not_found(e, id@) && final(self)@
                    == old(self)@ && final(self).wf(),
            },
    {
        match self.find(id) {
            None => Err(DomainError::WalletNotFound(id.duplicate())),
            Some(i) => {
                let ghost before = *self;
                proof {
                    before.lemma_view_at(i as int);
                }
                proof {
                    assert forall|w2: Wallet, after: WalletService|
                        #[trigger] w2.wf() && w2@.id == id@ && after.wallets@ == before.wallets@.update(
                            i as int,
                            w2,
                        ) implies #[trigger] after.wf() && after@ == before@.insert(id@, w2@) by {
                        WalletService::lemma_replace(&before, &after, i as int, w2);
                    }
                }
                let w = &mut self.wallets[i];
                Ok(w)
            },
        }
    }

    pub fn get_wallet(&self, id: &WalletId) -> (r: Result<&Wallet, DomainError>)
        requires
            self.wf(),
        ensures
            match r {
                Ok(w) => self@.contains_key(id@) && w@ == self@[id@] && w@.id == id@,
                Err(e) => !self@.contains_key(id@) && not_found(e, id@),
            },
    {
        match self.find(id) {
            Some(i) => Ok(&self.wallets[i]),
            None => Err(DomainError::WalletNotFound(id.duplicate())),
        }
    }

    pub fn balance(&self, id: &WalletId) -> (r: Result<Money, DomainError>)
        requires
            self.wf(),
        ensures
            match r {
                Ok(b) => self@.contains_key(id@) && b == self@[id@].balance,
                Err(e) => !self@.contains_key(id@) && not_found(e, id@),
            },
    {
        match self.get_wallet(id) {
            Ok(w) => Ok(w.balance()),
            Err(e) => Err(e),
        }
    }

    pub fn events(&self, id: &WalletId) -> (r: Result<&[WalletEvent], DomainError>)
        requires
            self.wf(),
        ensures
            match r {
                Ok(es) => self@.contains_key(id@) && es@ == self@[id@].events,
                Err(e) => !self@.contains_key(id@) && not_found(e, id@),
            },
    {
        match self.get_wallet(id) {
            Ok(w) => Ok(w.events()),
            Err(e) => Err(e),
        }
    }
}

} // verus!
