use vstd::prelude::*;

verus! {

/// A currency or asset, identified by `id`.
#[derive(Debug)]
pub struct Currency {
    pub name: String,
    pub id: String,
}

impl Currency {
    pub fn new(name: String, id: String) -> (r: Currency)
        ensures
            r.name@ == name@,
            r.id@ == id@,
    {
        Currency { name, id }
    }
}

/// What the ledger holds for one currency: its name and its amount.
pub type BalanceView = (Seq<char>, i64);

/// A currency together with the amount held of it, in hundred-millionths
/// of a unit.
#[derive(Debug)]
pub struct CurrencyBalance {
    pub currency: Currency,
    pub amount: i64,
}

impl CurrencyBalance {
    pub fn new(currency: Currency, initial_amount: i64) -> (r: CurrencyBalance)
        ensures
            r.currency.name@ == currency.name@,
            r.currency.id@ == currency.id@,
            r.amount == initial_amount,
    {
        CurrencyBalance { currency, amount: initial_amount }
    }

    /// The identifier of this balance's currency.
    pub open spec fn key(&self) -> Seq<char> {
        self.currency.id@
    }

    /// The name and the amount, as the ledger records them under the key.
    pub open spec fn entry(&self) -> BalanceView {
        (self.currency.name@, self.amount)
    }
}

} // verus!
