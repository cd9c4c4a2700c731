use vstd::prelude::*;
use crate::domain::{BalanceView, Currency, CurrencyBalance};
use crate::repo::{lists_ledger, duplicate_message, not_found_message, CurrencyRepo, RepoError};

verus! {

/// Prefix put before the message of an error of the ledger.
pub open spec fn repo_error_prefix() -> Seq<char> {
    "Repo error: "@
}

/// Message of the error returned when a new amount does not fit in an `i64`.
pub open spec fn out_of_range_message() -> Seq<char> {
    "Amount out of range!"@
}

/// The amount held of `id` in the ledger `m`, if `id` is there.
pub open spec fn amount_of(m: Map<Seq<char>, BalanceView>, id: Seq<char>) -> Option<i64> {
    if m.contains_key(id) {
        Some(m[id].1)
    } else {
        None
    }
}

/// `m` with the amount of `id`, which is present, set to `a`.
pub open spec fn with_amount(m: Map<Seq<char>, BalanceView>, id: Seq<char>, a: i64) -> Map<
    Seq<char>,
    BalanceView,
> {
    m.insert(id, (m[id].0, a))
}

/// Whether `x` fits in an `i64`.
pub open spec fn fits(x: int) -> bool {
    i64::MIN <= x <= i64::MAX
}

/// Adding an identifier that was absent, then asking for its amount, gives
/// the amount it was added with.
pub proof fn lemma_add_then_amount(
    m: Map<Seq<char>, BalanceView>,
    name: Seq<char>,
    id: Seq<char>,
    amount: i64,
)
    requires
        !m.contains_key(id),
    ensures
        amount_of(m.insert(id, (name, amount)), id) == Some(amount),
{
}

/// Buying `x` of a present identifier, then asking for its amount, gives the
/// amount before plus `x`; selling gives the amount before minus `x`, also
/// below zero.
pub proof fn lemma_trade_then_amount(m: Map<Seq<char>, BalanceView>, id: Seq<char>, x: i64)
    requires
        m.contains_key(id),
    ensures
        fits(m[id].1 + x) ==> amount_of(with_amount(m, id, (m[id].1 + x) as i64), id) == Some(
            (m[id].1 + x) as i64,
        ),
        fits(m[id].1 - x) ==> amount_of(with_amount(m, id, (m[id].1 - x) as i64), id) == Some(
            (m[id].1 - x) as i64,
        ),
{
}

/// After removing an identifier, asking for its amount finds nothing.
pub proof fn lemma_remove_then_amount(m: Map<Seq<char>, BalanceView>, id: Seq<char>)
    ensures
        amount_of(m.remove(id), id) is None,
{
}

/// An error of the service, carrying a human-readable message.
#[derive(Debug, Clone)]
pub struct ServiceError {
    message: String,
}

impl View for ServiceError {
    type V = Seq<char>;

    closed spec fn view(&self) -> Seq<char> {
        self.message@
    }
}

impl ServiceError {
    pub fn new(message: String) -> (r: ServiceError)
        ensures
            r@ == message@,
    {
        ServiceError { message }
    }

    pub fn get_message(&self) -> (r: String)
        ensures
            r@ == self@,
    {
        self.message.clone()
    }

    fn from_repo(e: RepoError) -> (r: ServiceError)
        ensures
            r@ == repo_error_prefix() + e@,
    {
        proof {
            reveal_strlit("Repo error: ");
        }
        let mut message = "Repo error: ".to_owned();
        message.append(e.get_message().as_str());
        ServiceError::new(message)
    }

    fn not_found() -> (r: ServiceError)
        ensures
            r@ == not_found_message(),
    {
        proof {
            reveal_strlit("No such currency found!");
        }
        ServiceError::new("No such currency found!".to_owned())
    }

    fn out_of_range() -> (r: ServiceError)
        ensures
            r@ == out_of_range_message(),
    {
        proof {
            reveal_strlit("Amount out of range!");
        }
        ServiceError::new("Amount out of range!".to_owned())
    }
}

/// Business rules over the ledger: existence checks for buying, selling and
/// removing, and errors with messages for the user.
pub struct Service {
    currency_repo: CurrencyRepo,
}

impl View for Service {
    type V = Map<Seq<char>, BalanceView>;

    closed spec fn view(&self) -> Map<Seq<char>, BalanceView> {
        self.currency_repo@
    }
}

impl Service {
    pub closed spec fn wf(&self) -> bool {
        self.currency_repo.wf()
    }

    /// The path of the file that stores the ledger.
    pub closed spec fn path(&self) -> Seq<char> {
        self.currency_repo.path()
    }

    pub fn new(currency_repo: CurrencyRepo) -> (r: Service)
        requires
            currency_repo.wf(),
        ensures
            r.wf(),
            r@ == currency_repo@,
            r.path() == currency_repo.path(),
    {
        Service { currency_repo }
    }

    /// The ledger, to be written to storage.
    pub fn repo(&self) -> (r: &CurrencyRepo)
        ensures
            r.wf() == self.wf(),
            r@ == self@,
            r.path() == self.path(),
    {
        &self.currency_repo
    }

    /// Adds `currency` with `initial_amount`, unless its identifier is
    /// already present.
    pub fn add_currency(&mut self, currency: Currency, initial_amount: i64) -> (r: Result<
        (),
        ServiceError,
    >)
        requires
            old(self).wf(),
        ensures
            final(self).wf(),
            final(self).path() == old(self).path(),
            old(self)@.contains_key(currency.id@) ==> (r matches Err(e) && e@ == repo_error_prefix()
                + duplicate_message()) && final(self)@ == old(self)@,
            !old(self)@.contains_key(currency.id@) ==> r is Ok && final(self)@ == old(self)@.insert(
                currency.id@,
                (currency.name@, initial_amount),
            ),
    {
        match self.currency_repo.add_currency(currency, initial_amount) {
            Ok(()) => Ok(()),
            Err(e) => Err(ServiceError::from_repo(e)),
        }
    }

    /// Every entry of the ledger, one per identifier, in no particular order.
    pub fn get_summary(&self) -> (r: &[CurrencyBalance])
        requires
            self.wf(),
        ensures
            lists_ledger(r@, self@),
    {
        self.currency_repo.iter()
    }

    /// The amount held of `id`, if it is in the ledger.
    pub fn get_amount(&self, id: &str) -> (r: Option<i64>)
        requires
            self.wf(),
        ensures
            r == amount_of(self@, id@),
    {
        self.currency_repo.get_amount(id)
    }

    /// Adds `amount` to the amount held of `id`.
    pub fn buy_currency(&mut self, id: &str, amount: i64) -> (r: Result<(), ServiceError>)
        requires
            old(self).wf(),
        ensures
            final(self).wf(),
            final(self).path() == old(self).path(),
            !old(self)@.contains_key(id@) ==> (r matches Err(e) && e@ == not_found_message())
                && final(self)@ == old(self)@,
            old(self)@.contains_key(id@) && !fits(old(self)@[id@].1 + amount) ==> (r matches Err(e)
                && e@ == out_of_range_message()) && final(self)@ == old(self)@,
            old(self)@.contains_key(id@) && fits(old(self)@[id@].1 + amount) ==> r is Ok
                && final(self)@ == with_amount(old(self)@, id@, (old(self)@[id@].1 + amount) as i64),
    {
        match self.currency_repo.get_amount(id) {
            Some(initial_amount) => match initial_amount.checked_add(amount) {
                Some(new_amount) => {
                    self.currency_repo.modify_amount(id, new_amount);
                    Ok(())
                },
                None => Err(ServiceError::out_of_range()),
            },
            None => Err(ServiceError::not_found()),
        }
    }

    /// Takes `amount` from the amount held of `id`; the result may be negative.
    pub fn sell_currency(&mut self, id: &str, amount: i64) -> (r: Result<(), ServiceError>)
        requires
            old(self).wf(),
        ensures
            final(self).wf(),
            final(self).path() == old(self).path(),
            !old(self)@.contains_key(id@) ==> (r matches Err(e) && e@ == not_found_message())
                && final(self)@ == old(self)@,
            old(self)@.contains_key(id@) && !fits(old(self)@[id@].1 - amount) ==> (r matches Err(e)
                && e@ == out_of_range_message()) && final(self)@ == old(self)@,
            old(self)@.contains_key(id@) && fits(old(self)@[id@].1 - amount) ==> r is Ok
                && final(self)@ == with_amount(old(self)@, id@, (old(self)@[id@].1 - amount) as i64),
    {
        match self.currency_repo.get_amount(id) {
            Some(initial_amount) => match initial_amount.checked_sub(amount) {
                Some(new_amount) => {
                    self.currency_repo.modify_amount(id, new_amount);
                    Ok(())
                },
                None => Err(ServiceError::out_of_range()),
            },
            None => Err(ServiceError::not_found()),
        }
    }

    /// Removes `id` from the ledger.
    pub fn remove_currency(&mut self, id: &str) -> (r: Result<(), ServiceError>)
        requires
            old(self).wf(),
        ensures
            final(self).wf(),
            final(self).path() == old(self).path(),
            old(self)@.contains_key(id@) ==> r is Ok && final(self)@ == old(self)@.remove(id@),
            !old(self)@.contains_key(id@) ==> (r matches Err(e) && e@ == repo_error_prefix()
                + not_found_message()) && final(self)@ == old(self)@,
    {
        match self.currency_repo.remove_currency(id) {
            Ok(()) => Ok(()),
            Err(e) => Err(ServiceError::from_repo(e)),
        }
    }
}

} // verus!
