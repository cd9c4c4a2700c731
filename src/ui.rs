use vstd::prelude::*;
use crate::amount::{amount_text, amount_value, parse_amount, push_amount_text};
use crate::domain::{BalanceView, Currency, CurrencyBalance};
use crate::repo::{duplicate_message, lists_ledger, not_found_message};
use crate::service::{fits, out_of_range_message, repo_error_prefix, with_amount, Service};
use crate::text::{chars_of, push_chars, string_of};

verus! {

/// A choice of the main menu.
#[derive(Debug, Clone, Copy)]
pub enum MenuOption {
    Exit,
    AddCurrency,
    Summary,
    Buy,
    Sell,
}

/// The menu choice that the (trimmed) input `s` names: a single digit from
/// `0` to `4`.
pub open spec fn menu_option_of(s: Seq<char>) -> Option<MenuOption> {
    if s == seq!['0'] {
        Some(MenuOption::Exit)
    } else if s == seq!['1'] {
        Some(MenuOption::AddCurrency)
    } else if s == seq!['2'] {
        Some(MenuOption::Summary)
    } else if s == seq!['3'] {
        Some(MenuOption::Buy)
    } else if s == seq!['4'] {
        Some(MenuOption::Sell)
    } else {
        None
    }
}

/// Message shown when an amount typed by the user is not a number.
pub open spec fn invalid_number_message() -> Seq<char> {
    "Error! Please enter a valid number!"@
}

/// Prefix of the message shown for an error of the service.
pub open spec fn error_prefix() -> Seq<char> {
    "Error: "@
}

/// The summary line of a balance.
pub open spec fn summary_text(b: CurrencyBalance) -> Seq<char> {
    "You have "@ + amount_text(b.amount as int) + " "@ + b.currency.id@ + " ("@ + b.currency.name@
        + ")"@
}

/// The menu choice that `input` names.
pub fn menu_option(input: &str) -> (r: Option<MenuOption>)
    ensures
        r == menu_option_of(input@),
{
    let c = chars_of(input);
    if c.len() != 1 {
        assert(c@ != seq!['0'] && c@ != seq!['1'] && c@ != seq!['2'] && c@ != seq!['3'] && c@
            != seq!['4']);
        return None;
    }
    let ch = c[0];
    assert(c@ =~= seq![ch]);
    if ch == '0' {
        Some(MenuOption::Exit)
    } else if ch == '1' {
        Some(MenuOption::AddCurrency)
    } else if ch == '2' {
        Some(MenuOption::Summary)
    } else if ch == '3' {
        Some(MenuOption::Buy)
    } else if ch == '4' {
        Some(MenuOption::Sell)
    } else {
        assert(c@ != seq!['0'] && c@ != seq!['1'] && c@ != seq!['2'] && c@ != seq!['3'] && c@
            != seq!['4']);
        None
    }
}

/// The summary line of `b`.
pub fn summary_line(b: &CurrencyBalance) -> (r: String)
    ensures
        r@ == summary_text(*b),
{
    proof {
        reveal_strlit("You have ");
        reveal_strlit(" ");
        reveal_strlit(" (");
        reveal_strlit(")");
    }
    let mut out: Vec<char> = Vec::new();
    push_chars("You have ", &mut out);
    push_amount_text(b.amount, &mut out);
    push_chars(" ", &mut out);
    push_chars(b.currency.id.as_str(), &mut out);
    push_chars(" (", &mut out);
    push_chars(b.currency.name.as_str(), &mut out);
    push_chars(")", &mut out);
    assert(out@ =~= summary_text(*b));
    string_of(out.as_slice())
}

/// The amount typed by the user as `text`.
fn read_amount(text: &str) -> (r: Option<i64>)
    ensures
        r == amount_value(text@),
{
    let c = chars_of(text);
    parse_amount(c.as_slice())
}

fn invalid_number() -> (r: String)
    ensures
        r@ == invalid_number_message(),
{
    proof {
        reveal_strlit("Error! Please enter a valid number!");
    }
    "Error! Please enter a valid number!".to_owned()
}

fn error_text(message: String) -> (r: String)
    ensures
        r@ == error_prefix() + message@,
{
    proof {
        reveal_strlit("Error: ");
    }
    let mut r = "Error: ".to_owned();
    r.append(message.as_str());
    r
}

/// The user's side of the ledger: turns what the user typed into calls of
/// the service, and the results into text to show.
pub struct Ui {
    service: Service,
}

impl View for Ui {
    type V = Map<Seq<char>, BalanceView>;

    closed spec fn view(&self) -> Map<Seq<char>, BalanceView> {
        self.service@
    }
}

impl Ui {
    pub closed spec fn wf(&self) -> bool {
        self.service.wf()
    }

    /// The path of the file that stores the ledger.
    pub closed spec fn path(&self) -> Seq<char> {
        self.service.path()
    }

    pub fn new(service: Service) -> (r: Ui)
        requires
            service.wf(),
        ensures
            r.wf(),
            r@ == service@,
            r.path() == service.path(),
    {
        Ui { service }
    }

    pub fn service(&self) -> (r: &Service)
        ensures
            r.wf() == self.wf(),
            r@ == self@,
            r.path() == self.path(),
    {
        &self.service
    }

    /// Adds a currency named `name` with identifier `id` and the amount
    /// typed as `amount`; on failure returns the message to show.
    pub fn add_currency(&mut self, name: String, id: String, amount: &str) -> (r: Result<
        (),
        String,
    >)
        requires
            old(self).wf(),
        ensures
            final(self).wf(),
            final(self).path() == old(self).path(),
            amount_value(amount@) is None ==> (r matches Err(m) && m@ == invalid_number_message())
                && final(self)@ == old(self)@,
            amount_value(amount@) is Some && old(self)@.contains_key(id@) ==> (r matches Err(m)
                && m@ == error_prefix() + repo_error_prefix() + duplicate_message())
                && final(self)@ == old(self)@,
            amount_value(amount@) is Some && !old(self)@.contains_key(id@) ==> r is Ok
                && final(self)@ == old(self)@.insert(id@, (name@, amount_value(amount@)->0)),
    {
        match read_amount(amount) {
            Some(a) => match self.service.add_currency(Currency::new(name, id), a) {
                Ok(()) => Ok(()),
                Err(e) => Err(error_text(e.get_message())),
            },
            None => Err(invalid_number()),
        }
    }

    /// Buys the amount typed as `amount` of `id`; on failure returns the
    /// message to show.
    pub fn buy_currency(&mut self, id: &str, amount: &str) -> (r: Result<(), String>)
        requires
            old(self).wf(),
        ensures
            final(self).wf(),
            final(self).path() == old(self).path(),
            amount_value(amount@) is None ==> (r matches Err(m) && m@ == invalid_number_message())
                && final(self)@ == old(self)@,
            amount_value(amount@) is Some && !old(self)@.contains_key(id@) ==> (r matches Err(m)
                && m@ == error_prefix() + not_found_message()) && final(self)@ == old(self)@,
            amount_value(amount@) is Some && old(self)@.contains_key(id@) && !fits(
                old(self)@[id@].1 + amount_value(amount@)->0,
            ) ==> (r matches Err(m) && m@ == error_prefix() + out_of_range_message())
                && final(self)@ == old(self)@,
            amount_value(amount@) is Some && old(self)@.contains_key(id@) && fits(
                old(self)@[id@].1 + amount_value(amount@)->0,
            ) ==> r is Ok && final(self)@ == with_amount(
                old(self)@,
                id@,
                (old(self)@[id@].1 + amount_value(amount@)->0) as i64,
            ),
    {
        match read_amount(amount) {
            Some(x) => match self.service.buy_currency(id, x) {
                Ok(()) => Ok(()),
                Err(e) => Err(error_text(e.get_message())),
            },
            None => Err(invalid_number()),
        }
    }

    /// Sells the amount typed as `amount` of `id`; on failure returns the
    /// message to show.
    pub fn sell_currency(&mut self, id: &str, amount: &str) -> (r: Result<(), String>)
        requires
            old(self).wf(),
        ensures
            final(self).wf(),
            final(self).path() == old(self).path(),
            amount_value(amount@) is None ==> (r matches Err(m) && m@ == invalid_number_message())
                && final(self)@ == old(self)@,
            amount_value(amount@) is Some && !old(self)@.contains_key(id@) ==> (r matches Err(m)
                && m@ == error_prefix() + not_found_message()) && final(self)@ == old(self)@,
            amount_value(amount@) is Some && old(self)@.contains_key(id@) && !fits(
                old(self)@[id@].1 - amount_value(amount@)->0,
            ) ==> (r matches Err(m) && m@ == error_prefix() + out_of_range_message())
                && final(self)@ == old(self)@,
            amount_value(amount@) is Some && old(self)@.contains_key(id@) && fits(
                old(self)@[id@].1 - amount_value(amount@)->0,
            ) ==> r is Ok && final(self)@ == with_amount(
                old(self)@,
                id@,
                (old(self)@[id@].1 - amount_value(amount@)->0) as i64,
            ),
    {
        match read_amount(amount) {
            Some(x) => match self.service.sell_currency(id, x) {
                Ok(()) => Ok(()),
                Err(e) => Err(error_text(e.get_message())),
            },
            None => Err(invalid_number()),
        }
    }

    /// One summary line per entry of the ledger, in no particular order.
    pub fn summary(&self) -> (r: Vec<String>)
        requires
            self.wf(),
        ensures
            exists|s: Seq<CurrencyBalance>|
                lists_ledger(s, self@) && r@.len() == s.len() && forall|i: int|
                    0 <= i < s.len() ==> #[trigger] r@[i]@ == summary_text(s[i]),
    {
        let items = self.service.get_summary();
        let mut r: Vec<String> = Vec::new();
        let mut i: usize = 0;
        while i < items.len()
            invariant
                i <= items@.len(),
                r@.len() == i,
                forall|j: int| 0 <= j < i ==> #[trigger] r@[j]@ == summary_text(items@[j]),
            decreases items@.len() - i,
        {
            r.push(summary_line(&items[i]));
            i = i + 1;
        }
        assert(lists_ledger(items@, self@));
        r
    }
}

} // verus!
