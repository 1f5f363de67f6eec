//! An event-sourced wallet: every change of balance is recorded as an event,
//! and the balance is always what replaying the events gives.
use vstd::prelude::*;
use vstd::string::to_string_from_display_ensures;

verus! {

pub type Money = i64;

#[derive(Debug, Clone, PartialEq, Eq, Hash)]
pub struct WalletId(pub String);

impl View for WalletId {
    type V = Seq<char>;

    open spec fn view(&self) -> Seq<char> {
        self.0@
    }
}

impl WalletId {
    pub fn new(id: &str) -> (r: Self)
        ensures
            r@ == id@,
    {
        WalletId(id.to_owned())
    }

    /// A copy of this identifier.
    pub fn duplicate(&self) -> (r: Self)
        ensures
            r@ == self@,
    {
        WalletId(self.0.clone())
    }
}

#[derive(Debug, Clone, Copy, PartialEq, Eq, Structural)]
pub enum WalletEvent {
    Deposited { amount: Money },
    Withdrawn { amount: Money },
}

#[derive(Debug)]
pub enum DomainError {
    WalletNotFound(WalletId),
    InsufficientFunds { balance: Money, attempted: Money },
    InvalidAmount(Money),
}

impl DomainError {
    /// A line of text that describes the error, with amounts in decimal.
    pub fn message(&self) -> (r: String)
        ensures
            match self {
                DomainError::WalletNotFound(id) => r@ == "wallet not found: "@ + id@,
                DomainError::InsufficientFunds { balance, attempted } => exists|b: String, a: String|
                    to_string_from_display_ensures::<i64>(balance, b)
                        && to_string_from_display_ensures::<i64>(attempted, a) && r@
                        == "insufficient funds: balance="@ + b@ + ", attempted="@ + a@,
                DomainError::InvalidAmount(amount) => exists|d: String|
                    to_string_from_display_ensures::<i64>(amount, d) && r@ == "invalid amount: "@
                        + d@,
            },
    {
        match self {
            DomainError::WalletNotFound(id) => {
                String::from_str("wallet not found: ").concat(id.0.as_str())
            },
            DomainError::InsufficientFunds { balance, attempted } => {
                let b = balance.to_string();
                let a = attempted.to_string();
                let r = String::from_str("insufficient funds: balance=").concat(b.as_str()).concat(
                    ", attempted=",
                ).concat(a.as_str());
                assert(r@ == "insufficient funds: balance="@ + b@ + ", attempted="@ + a@);
                r
            },
            DomainError::InvalidAmount(amount) => {
                let d = amount.to_string();
                String::from_str("invalid amount: ").concat(d.as_str())
            },
        }
    }
}

/// What the balance gains (or loses) through one event.
pub open spec fn event_delta(e: WalletEvent) -> int {
    match e {
        WalletEvent::Deposited { amount } => amount as int,
        WalletEvent::Withdrawn { amount } => -amount,
    }
}

/// The balance that a history of events leads to from zero.
pub open spec fn replay(events: Seq<WalletEvent>) -> int
    decreases events.len(),
{
    if events.len() == 0 {
        0
    } else {
        replay(events.drop_last()) + event_delta(events.last())
    }
}

/// What a wallet holds, as mathematical values.
pub struct WalletView {
    pub id: Seq<char>,
    pub events: Seq<WalletEvent>,
    pub balance: int,
}

#[derive(Debug, Clone)]
pub struct Wallet {
    id: WalletId,
    events: Vec<WalletEvent>,
    balance: Money,
}

impl View for Wallet {
    type V = WalletView;

    closed spec fn view(&self) -> WalletView {
        WalletView { id: self.id@, events: self.events@, balance: self.balance as int }
    }
}

impl Wallet {
    /// The balance is the replay of the recorded events, and never negative.
    pub open spec fn wf(&self) -> bool {
        &&& self@.balance == replay(self@.events)
        &&& 0 <= self@.balance <= i64::MAX
    }

    pub fn new(id: WalletId) -> (w: Self)
        ensures
            w@.id == id@,
            w@.events == Seq::<WalletEvent>::empty(),
            w@.balance == 0,
            w.wf(),
    {
        let w = Wallet { id, events: Vec::new(), balance: 0 };
        assert(w.events@ =~= Seq::<WalletEvent>::empty());
        w
    }

    pub fn id(&self) -> (r: &WalletId)
        ensures
            r@ == self@.id,
    {
        &self.id
    }

    pub fn balance(&self) -> (r: Money)
        ensures
            r == self@.balance,
    {
        self.balance
    }

    pub fn events(&self) -> (r: &[WalletEvent])
        ensures
            r@ == self@.events,
    {
        self.events.as_slice()
    }

    fn apply_event(&mut self, event: WalletEvent)
        requires
            old(self)@.balance == replay(old(self)@.events),
            i64::MIN <= old(self)@.balance + event_delta(event) <= i64::MAX,
        ensures
            final(self)@.balance == replay(final(self)@.events),
            final(self)@.balance >= 0 ==> final(self).wf(),
            final(self)@.id == old(self)@.id,
            final(self)@.events == old(self)@.events.push(event),
            final(self)@.balance == old(self)@.balance + event_delta(event),
    {
        match event {
            WalletEvent::Deposited { amount } => {
                self.balance = self.balance + amount;
            },
            WalletEvent::Withdrawn { amount } => {
                self.balance = self.balance - amount;
            },
        }
        let ghost before = self.events@;
        self.events.push(event);
        assert(self.events@.drop_last() =~= before);
    }

    /// Records a deposit of a positive `amount`.
    pub fn deposit(&mut self, amount: Money) -> (r: Result<(), DomainError>)
        requires
            old(self).wf(),
            amount > 0 ==> old(self)@.balance + amount <= i64::MAX,
        ensures
            final(self).wf(),
            final(self)@.id == old(self)@.id,
            amount <= 0 ==> r == Err::<(), DomainError>(DomainError::InvalidAmount(amount))
                && final(self)@ == old(self)@,
            amount > 0 ==> r is Ok && final(self)@.events == old(self)@.events.push(
                WalletEvent::Deposited { amount },
            ) && final(self)@.balance == old(self)@.balance + amount,
    {
        if amount <= 0 {
            return Err(DomainError::InvalidAmount(amount));
        }
        self.apply_event(WalletEvent::Deposited { amount });
        Ok(())
    }

    /// Records a withdrawal of a positive `amount` that the balance covers.
    pub fn withdraw(&mut self, amount: Money) -> (r: Result<(), DomainError>)
        requires
            old(self).wf(),
        ensures
            final(self).wf(),
            final(self)@.id == old(self)@.id,
            amount <= 0 ==> r == Err::<(), DomainError>(DomainError::InvalidAmount(amount))
                && final(self)@ == old(self)@,
            amount > 0 && old(self)@.balance < amount ==> r == Err::<(), DomainError>(
                DomainError::InsufficientFunds {
                    balance: old(self)@.balance as i64,
                    attempted: amount,
                },
            ) && final(self)@ == old(self)@,
            amount > 0 && old(self)@.balance >= amount ==> r is Ok && final(self)@.events == old(
                self,
            )@.events.push(WalletEvent::Withdrawn { amount }) && final(self)@.balance == old(
                self,
            )@.balance - amount,
    {
        if amount <= 0 {
            return Err(DomainError::InvalidAmount(amount));
        }
        if self.balance < amount {
            return Err(DomainError::InsufficientFunds { balance: self.balance, attempted: amount });
        }
        self.apply_event(WalletEvent::Withdrawn { amount });
        Ok(())
    }
}

/// A wallet's balance is always the replay of its history of events.
pub proof fn lemma_balance_is_replay(w: &Wallet)
    requires
        w.wf(),
    ensures
        w@.balance == replay(w@.events),
        w@.balance >= 0,
{
}

} // verus!
