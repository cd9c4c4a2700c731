use vstd::prelude::*;
use crate::domain::{BalanceView, Currency, CurrencyBalance};
use crate::storage::{
    balance_line, format_line, invalid_line_message, lemma_line_round_trip, line_value, load_into,
    no_delimiter, parse_line,
};

verus! {

/// Message of the error returned when an identifier is already in the ledger.
pub open spec fn duplicate_message() -> Seq<char> {
    "Currency with given ID already exists"@
}

/// Message of the error returned when an identifier is not in the ledger.
pub open spec fn not_found_message() -> Seq<char> {
    "No such currency found!"@
}

/// An error of the ledger, carrying a human-readable message.
#[derive(Debug, Clone)]
pub struct RepoError {
    message: String,
}

impl RepoError {
    pub fn new(message: String) -> (r: RepoError)
        ensures
            r@ == message@,
    {
        RepoError { message }
    }

    pub fn get_message(&self) -> (r: String)
        ensures
            r@ == self@,
    {
        self.message.clone()
    }

    fn duplicate() -> (r: RepoError)
        ensures
            r@ == duplicate_message(),
    {
        proof {
            reveal_strlit("Currency with given ID already exists");
        }
        RepoError::new("Currency with given ID already exists".to_owned())
    }

    fn not_found() -> (r: RepoError)
        ensures
            r@ == not_found_message(),
    {
        proof {
            reveal_strlit("No such currency found!");
        }
        RepoError::new("No such currency found!".to_owned())
    }
}

impl View for RepoError {
    type V = Seq<char>;

    closed spec fn view(&self) -> Seq<char> {
        self.message@
    }
}

/// `s` lists exactly the entries of `m`, one element per identifier.
pub open spec fn lists_ledger(s: Seq<CurrencyBalance>, m: Map<Seq<char>, BalanceView>) -> bool {
    &&& forall|i: int|
        0 <= i < s.len() ==> m.contains_key(#[trigger] s[i].key()) && m[s[i].key()]
            == s[i].entry()
    &&& forall|k: Seq<char>|
        #[trigger] m.contains_key(k) ==> exists|i: int| 0 <= i < s.len() && #[trigger] s[i].key() == k
    &&& forall|i: int, j: int|
        0 <= i < s.len() && 0 <= j < s.len() && i != j ==> #[trigger] s[i].key()
            != #[trigger] s[j].key()
    &&& m.dom().finite()
    &&& m.dom().len() == s.len()
}

/// The ledger: a mapping from currency identifier to name and amount, and
/// the path of the file that stores it.
pub struct CurrencyRepo {
    currencies: Vec<CurrencyBalance>,
    model: Ghost<Map<Seq<char>, BalanceView>>,
    file_name: String,
}

impl View for CurrencyRepo {
    type V = Map<Seq<char>, BalanceView>;

    closed spec fn view(&self) -> Map<Seq<char>, BalanceView> {
        self.model@
    }
}

impl CurrencyRepo {
    pub closed spec fn wf(&self) -> bool {
        lists_ledger(self.currencies@, self.model@)
    }

    /// The entries of the ledger, in the order in which they are stored.
    pub closed spec fn entries(&self) -> Seq<CurrencyBalance> {
        self.currencies@
    }

    /// The lines that store the ledger.
    pub open spec fn stored_lines(&self) -> Seq<Seq<char>> {
        self.entries().map_values(|b: CurrencyBalance| balance_line(b))
    }

    /// The path of the storage file.
    pub closed spec fn path(&self) -> Seq<char> {
        self.file_name@
    }

    /// An empty ledger stored at `file_name`.
    pub fn new(file_name: String) -> (r: CurrencyRepo)
        ensures
            r.wf(),
            r@ == Map::<Seq<char>, BalanceView>::empty(),
            r.path() == file_name@,
    {
        CurrencyRepo { currencies: Vec::new(), model: Ghost(Map::empty()), file_name }
    }

    pub fn file_name(&self) -> (r: &str)
        ensures
            r@ == self.path(),
    {
        self.file_name.as_str()
    }

    /// Index of the entry for `id`, if there is one.
    fn find(&self, id: &str) -> (r: Option<usize>)
        requires
            self.wf(),
        ensures
            match r {
                Some(i) => i < self.currencies@.len() && self.currencies@[i as int].key() == id@,
                None => !self@.contains_key(id@),
            },
    {
        let key = id.to_owned();
        let mut i: usize = 0;
        while i < self.currencies.len()
            invariant
                self.wf(),
                key@ == id@,
                i <= self.currencies@.len(),
                forall|j: int| 0 <= j < i ==> #[trigger] self.currencies@[j].key() != id@,
            decreases self.currencies@.len() - i,
        {
            if self.currencies[i].currency.id == key {
                return Some(i);
            }
            i = i + 1;
        }
        None
    }

    /// Appends `b`, whose identifier is not yet in the ledger.
    fn push_new(&mut self, b: CurrencyBalance)
        requires
            old(self).wf(),
            !old(self)@.contains_key(b.key()),
        ensures
            final(self).wf(),
            final(self).path() == old(self).path(),
            final(self)@ == old(self)@.insert(b.key(), b.entry()),
    {
        let ghost key = b.key();
        let ghost entry = b.entry();
        let ghost old_s = self.currencies@;
        let ghost old_m = self.model@;
        self.currencies.push(b);
        self.model = Ghost(self.model@.insert(key, entry));
        proof {
            let s = self.currencies@;
            let m = self.model@;
            assert(s.last().key() == key);
            assert forall|i: int| 0 <= i < s.len() implies m.contains_key(#[trigger] s[i].key())
                && m[s[i].key()] == s[i].entry() by {
                if i < s.len() - 1 {
                    assert(s[i] == old_s[i]);
                    assert(old_m.contains_key(old_s[i].key()));
                }
            }
            assert forall|k: Seq<char>| #[trigger] m.contains_key(k) implies exists|i: int|
                0 <= i < s.len() && #[trigger] s[i].key() == k by {
                if k == key {
                    assert(s[s.len() - 1].key() == k);
                } else {
                    assert(old_m.contains_key(k));
                    let i = choose|i: int| 0 <= i < old_s.len() && #[trigger] old_s[i].key() == k;
                    assert(s[i] == old_s[i]);
                }
            }
            assert forall|i: int, j: int|
                0 <= i < s.len() && 0 <= j < s.len() && i != j implies #[trigger] s[i].key()
                != #[trigger] s[j].key() by {
                if i < s.len() - 1 {
                    assert(s[i] == old_s[i]);
                    assert(old_m.contains_key(old_s[i].key()));
                }
                if j < s.len() - 1 {
                    assert(s[j] == old_s[j]);
                    assert(old_m.contains_key(old_s[j].key()));
                }
            }
        }
    }

    /// Replaces the entry at `i` by `b`, which has the same identifier.
    fn replace_at(&mut self, i: usize, b: CurrencyBalance)
        requires
            old(self).wf(),
            i < old(self).currencies@.len(),
            old(self).currencies@[i as int].key() == b.key(),
        ensures
            final(self).wf(),
            final(self).path() == old(self).path(),
            final(self)@ == old(self)@.insert(b.key(), b.entry()),
    {
        let ghost key = b.key();
        let ghost entry = b.entry();
        let ghost old_s = self.currencies@;
        let ghost old_m = self.model@;
        self.currencies.set(i, b);
        self.model = Ghost(self.model@.insert(key, entry));
        proof {
            let s = self.currencies@;
            let m = self.model@;
            assert(old_m.contains_key(key));
            assert(m.dom() =~= old_m.dom());
            assert forall|j: int| 0 <= j < s.len() implies m.contains_key(#[trigger] s[j].key())
                && m[s[j].key()] == s[j].entry() by {
                if j != i {
                    assert(s[j] == old_s[j]);
                    assert(old_s[j].key() != old_s[i as int].key());
                }
            }
            assert forall|k: Seq<char>| #[trigger] m.contains_key(k) implies exists|j: int|
                0 <= j < s.len() && #[trigger] s[j].key() == k by {
                let j = choose|j: int| 0 <= j < old_s.len() && #[trigger] old_s[j].key() == k;
                if j == i {
                    assert(s[j].key() == k);
                } else {
                    assert(s[j] == old_s[j]);
                }
            }
            assert forall|a: int, c: int|
                0 <= a < s.len() && 0 <= c < s.len() && a != c implies #[trigger] s[a].key()
                != #[trigger] s[c].key() by {
                assert(old_s[a].key() != old_s[c].key());
                if a != i {
                    assert(s[a] == old_s[a]);
                }
                if c != i {
                    assert(s[c] == old_s[c]);
                }
            }
        }
    }

    /// Records `b` under its identifier, replacing any entry already there.
    fn put(&mut self, b: CurrencyBalance)
        requires
            old(self).wf(),
        ensures
            final(self).wf(),
            final(self).path() == old(self).path(),
            final(self)@ == old(self)@.insert(b.key(), b.entry()),
    {
        match self.find(b.currency.id.as_str()) {
            Some(i) => self.replace_at(i, b),
            None => self.push_new(b),
        }
    }

    /// Adds `currency` with `amount`, unless its identifier is already present.
    pub fn add_currency(&mut self, currency: Currency, amount: i64) -> (r: Result<(), RepoError>)
        requires
            old(self).wf(),
        ensures
            final(self).wf(),
            final(self).path() == old(self).path(),
            old(self)@.contains_key(currency.id@) ==> (r matches Err(e) && e@ == duplicate_message())
                && final(self)@ == old(self)@,
            !old(self)@.contains_key(currency.id@) ==> r is Ok && final(self)@ == old(self)@.insert(
                currency.id@,
                (currency.name@, amount),
            ),
    {
        if self.find(currency.id.as_str()).is_some() {
            return Err(RepoError::duplicate());
        }
        self.push_new(CurrencyBalance::new(currency, amount));
        Ok(())
    }

    pub fn get_number_of_currencies(&self) -> (r: usize)
        requires
            self.wf(),
        ensures
            r == self@.dom().len(),
    {
        self.currencies.len()
    }

    /// The amount held of `id`, if it is in the ledger.
    pub fn get_amount(&self, id: &str) -> (r: Option<i64>)
        requires
            self.wf(),
        ensures
            r == (if self@.contains_key(id@) {
                Some(self@[id@].1)
            } else {
                None
            }),
    {
        match self.find(id) {
            Some(i) => Some(self.currencies[i].amount),
            None => None,
        }
    }

    /// Sets the amount of `id` to `new_amount`; does nothing if `id` is absent.
    pub fn modify_amount(&mut self, id: &str, new_amount: i64)
        requires
            old(self).wf(),
        ensures
            final(self).wf(),
            final(self).path() == old(self).path(),
            final(self)@ == (if old(self)@.contains_key(id@) {
                old(self)@.insert(id@, (old(self)@[id@].0, new_amount))
            } else {
                old(self)@
            }),
    {
        if let Some(i) = self.find(id) {
            let c = &self.currencies[i].currency;
            let b = CurrencyBalance::new(Currency::new(c.name.clone(), c.id.clone()), new_amount);
            self.replace_at(i, b);
        }
    }

    /// Removes the entry of `id`, if there is one.
    pub fn remove_currency(&mut self, id: &str) -> (r: Result<(), RepoError>)
        requires
            old(self).wf(),
        ensures
            final(self).wf(),
            final(self).path() == old(self).path(),
            old(self)@.contains_key(id@) ==> r is Ok && final(self)@ == old(self)@.remove(id@),
            !old(self)@.contains_key(id@) ==> (r matches Err(e) && e@ == not_found_message())
                && final(self)@ == old(self)@,
    {
        match self.find(id) {
            Some(i) => {
                let ghost old_s = self.currencies@;
                let ghost old_m = self.model@;
                let ghost key = id@;
                self.currencies.remove(i);
                self.model = Ghost(self.model@.remove(key));
                proof {
                    let s = self.currencies@;
                    let m = self.model@;
                    assert forall|j: int| 0 <= j < s.len() implies m.contains_key(
                        #[trigger] s[j].key(),
                    ) && m[s[j].key()] == s[j].entry() by {
                        if j < i {
                            assert(s[j] == old_s[j]);
                            assert(old_s[j].key() != old_s[i as int].key());
                        } else {
                            assert(s[j] == old_s[j + 1]);
                            assert(old_s[j + 1].key() != old_s[i as int].key());
                        }
                    }
                    assert forall|k: Seq<char>| #[trigger] m.contains_key(k) implies exists|j: int|
                        0 <= j < s.len() && #[trigger] s[j].key() == k by {
                        assert(old_m.contains_key(k));
                        let j = choose|j: int| 0 <= j < old_s.len() && #[trigger] old_s[j].key() == k;
                        if j < i {
                            assert(s[j] == old_s[j]);
                        } else {
                            assert(j != i);
                            assert(s[j - 1] == old_s[j]);
                        }
                    }
                    assert forall|a: int, c: int|
                        0 <= a < s.len() && 0 <= c < s.len() && a != c implies #[trigger] s[a].key()
                        != #[trigger] s[c].key() by {
                        let oa = if a < i { a } else { a + 1 };
                        let oc = if c < i { c } else { c + 1 };
                        assert(s[a] == old_s[oa]);
                        assert(s[c] == old_s[oc]);
                        assert(old_s[oa].key() != old_s[oc].key());
                    }
                }
                Ok(())
            },
            None => Err(RepoError::not_found()),
        }
    }

    /// The entries of the ledger, one per identifier, in no particular order.
    pub fn iter(&self) -> (r: &[CurrencyBalance])
        requires
            self.wf(),
        ensures
            r@ == self.entries(),
            lists_ledger(r@, self@),
    {
        self.currencies.as_slice()
    }

    /// The lines that store the ledger, one per entry, each without its
    /// line break.
    pub fn to_lines(&self) -> (r: Vec<String>)
        requires
            self.wf(),
        ensures
            r@.map_values(|l: String| l@) == self.stored_lines(),
    {
        let mut r: Vec<String> = Vec::new();
        let mut i: usize = 0;
        while i < self.currencies.len()
            invariant
                i <= self.currencies@.len(),
                r@.len() == i,
                r@.map_values(|l: String| l@) == self.stored_lines().take(i as int),
            decreases self.currencies@.len() - i,
        {
            let line = format_line(&self.currencies[i]);
            assert(self.stored_lines()[i as int] == line@);
            let ghost prev = r@;
            let ghost lv = line@;
            r.push(line);
            assert(r@[i as int]@ == lv);
            assert forall|j: int| 0 <= j < i implies r@[j]@ == prev[j]@ by {}
            i = i + 1;
            assert(r@.map_values(|l: String| l@) =~= self.stored_lines().take(i as int));
        }
        assert(self.stored_lines().take(i as int) =~= self.stored_lines());
        r
    }

    /// Reads `lines` in order into the ledger, stopping at the first line
    /// that cannot be read; entries read before it stay.
    pub fn read_data(&mut self, lines: &[String]) -> (r: Result<(), RepoError>)
        requires
            old(self).wf(),
        ensures
            final(self).wf(),
            final(self).path() == old(self).path(),
            (final(self)@, r is Ok) == load_into(old(self)@, lines@.map_values(|l: String| l@)),
            r matches Err(e) ==> exists|i: int|
                0 <= i < lines@.len() && line_value(#[trigger] lines@[i]@) is None && e@
                    == invalid_line_message(lines@[i]@),
    {
        let ghost all = lines@.map_values(|l: String| l@);
        let ghost start = self@;
        let mut i: usize = 0;
        assert(all.skip(0) =~= all);
        while i < lines.len()
            invariant
                i <= lines@.len(),
                all == lines@.map_values(|l: String| l@),
                start == old(self)@,
                self.wf(),
                self.path() == old(self).path(),
                load_into(start, all) == load_into(self@, all.skip(i as int)),
            decreases lines@.len() - i,
        {
            assert(all.skip(i as int)[0] == lines@[i as int]@);
            assert(all.skip(i as int).drop_first() =~= all.skip(i + 1));
            match parse_line(lines[i].as_str()) {
                Some(b) => self.put(b),
                None => {
                    proof {
                        reveal_strlit("Invalid line: ");
                        assert(load_into(self@, all.skip(i as int)) == (self@, false));
                        assert(load_into(start, all) == (self@, false));
                        assert(start == old(self)@);
                        assert(all == lines@.map_values(|l: String| l@));
                    }
                    let mut message = "Invalid line: ".to_owned();
                    message.append(lines[i].as_str());
                    return Err(RepoError::new(message));
                },
            }
            i = i + 1;
        }
        assert(all.skip(i as int).len() == 0);
        Ok(())
    }
}

/// Whether some element of `s` has the identifier `k`.
spec fn lists_key(s: Seq<CurrencyBalance>, k: Seq<char>) -> bool {
    exists|i: int| 0 <= i < s.len() && #[trigger] s[i].key() == k
}

/// The ledger `acc` after recording each of `s` in order.
spec fn insert_all(acc: Map<Seq<char>, BalanceView>, s: Seq<CurrencyBalance>) -> Map<
    Seq<char>,
    BalanceView,
>
    decreases s.len(),
{
    if s.len() == 0 {
        acc
    } else {
        insert_all(acc.insert(s[0].key(), s[0].entry()), s.drop_first())
    }
}

proof fn lemma_load_lines(acc: Map<Seq<char>, BalanceView>, s: Seq<CurrencyBalance>)
    requires
        forall|i: int|
            0 <= i < s.len() ==> no_delimiter(#[trigger] s[i].currency.name@) && no_delimiter(
                s[i].key(),
            ),
    ensures
        load_into(acc, s.map_values(|b: CurrencyBalance| balance_line(b))) == (
            insert_all(acc, s),
            true,
        ),
    decreases s.len(),
{
    let lines = s.map_values(|b: CurrencyBalance| balance_line(b));
    if s.len() > 0 {
        let t = s.drop_first();
        assert forall|i: int| 0 <= i < t.len() implies no_delimiter(#[trigger] t[i].currency.name@)
            && no_delimiter(t[i].key()) by {
            assert(t[i] == s[i + 1]);
        }
        lemma_line_round_trip(s[0].currency.name@, s[0].key(), s[0].amount);
        assert(lines.drop_first() =~= t.map_values(|b: CurrencyBalance| balance_line(b)));
        lemma_load_lines(acc.insert(s[0].key(), s[0].entry()), t);
    }
}

proof fn lemma_insert_all(acc: Map<Seq<char>, BalanceView>, s: Seq<CurrencyBalance>)
    requires
        forall|i: int, j: int|
            0 <= i < s.len() && 0 <= j < s.len() && i != j ==> #[trigger] s[i].key()
                != #[trigger] s[j].key(),
    ensures
        forall|i: int|
            0 <= i < s.len() ==> insert_all(acc, s).contains_key(#[trigger] s[i].key())
                && insert_all(acc, s)[s[i].key()] == s[i].entry(),
        forall|k: Seq<char>|
            !lists_key(s, k) ==> (#[trigger] insert_all(acc, s).contains_key(k)
                == acc.contains_key(k) && (acc.contains_key(k) ==> insert_all(acc, s)[k] == acc[k])),
    decreases s.len(),
{
    if s.len() > 0 {
        let t = s.drop_first();
        let acc1 = acc.insert(s[0].key(), s[0].entry());
        assert forall|i: int, j: int|
            0 <= i < t.len() && 0 <= j < t.len() && i != j implies #[trigger] t[i].key()
            != #[trigger] t[j].key() by {
            assert(t[i] == s[i + 1]);
            assert(t[j] == s[j + 1]);
        }
        lemma_insert_all(acc1, t);
        let r = insert_all(acc, s);
        assert(r == insert_all(acc1, t));
        assert forall|i: int| 0 <= i < s.len() implies r.contains_key(#[trigger] s[i].key())
            && r[s[i].key()] == s[i].entry() by {
            if i > 0 {
                assert(s[i] == t[i - 1]);
                assert(t[i - 1].key() == s[i].key());
                assert(insert_all(acc1, t).contains_key(t[i - 1].key()));
                assert(insert_all(acc1, t)[t[i - 1].key()] == t[i - 1].entry());
            } else {
                if lists_key(t, s[0].key()) {
                    let j = choose|j: int| 0 <= j < t.len() && #[trigger] t[j].key() == s[0].key();
                    assert(t[j] == s[j + 1]);
                    assert(s[j + 1].key() == s[0].key());
                }
                assert(!lists_key(t, s[0].key()));
                assert(insert_all(acc1, t).contains_key(s[0].key()));
            }
        }
        assert forall|k: Seq<char>| !lists_key(s, k) implies (#[trigger] r.contains_key(k)
            == acc.contains_key(k) && (acc.contains_key(k) ==> r[k] == acc[k])) by {
            if lists_key(t, k) {
                let j = choose|j: int| 0 <= j < t.len() && #[trigger] t[j].key() == k;
                assert(t[j] == s[j + 1]);
                assert(s[j + 1].key() == k);
            }
            assert(s[0].key() != k);
            assert(insert_all(acc1, t).contains_key(k) == acc1.contains_key(k));
        }
    }
}

/// Writing a ledger's lines and reading them into an empty ledger gives the
/// same ledger back, when no name or identifier holds the delimiter.
pub proof fn lemma_storage_round_trip(repo: &CurrencyRepo)
    requires
        repo.wf(),
        forall|k: Seq<char>|
            #[trigger] repo@.contains_key(k) ==> no_delimiter(k) && no_delimiter(repo@[k].0),
    ensures
        load_into(Map::empty(), repo.stored_lines()) == (repo@, true),
{
    let s = repo.entries();
    let m = repo@;
    assert forall|i: int| 0 <= i < s.len() implies no_delimiter(#[trigger] s[i].currency.name@)
        && no_delimiter(s[i].key()) by {
        assert(m.contains_key(s[i].key()));
    }
    lemma_load_lines(Map::empty(), s);
    lemma_insert_all(Map::empty(), s);
    let r = insert_all(Map::empty(), s);
    assert forall|k: Seq<char>| r.contains_key(k) <==> m.contains_key(k) by {
        if m.contains_key(k) {
            let i = choose|i: int| 0 <= i < s.len() && #[trigger] s[i].key() == k;
            assert(s[i].key() == k);
        } else if exists|i: int| 0 <= i < s.len() && #[trigger] s[i].key() == k {
            let i = choose|i: int| 0 <= i < s.len() && #[trigger] s[i].key() == k;
            assert(m.contains_key(s[i].key()));
        } else {
            assert(!lists_key(s, k));
            assert(!Map::<Seq<char>, BalanceView>::empty().contains_key(k));
            assert(r.contains_key(k) == Map::<Seq<char>, BalanceView>::empty().contains_key(k));
        }
    }
    assert forall|k: Seq<char>| #[trigger] r.contains_key(k) implies r[k] == m[k] by {
        let i = choose|i: int| 0 <= i < s.len() && #[trigger] s[i].key() == k;
    }
    assert(r =~= m);
}

} // verus!
