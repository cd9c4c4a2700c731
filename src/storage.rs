use vstd::prelude::*;
use crate::amount::{
    amount_text, amount_value, is_digit, lemma_amount_round_trip, lemma_amount_text_digits,
    parse_amount, push_amount_text,
};
use crate::domain::{BalanceView, Currency, CurrencyBalance};
use crate::text::{chars_of, push_chars, string_of};

verus! {

/// The fields of a stored line: the text between the `'|'` delimiters.
pub open spec fn split_fields(s: Seq<char>) -> Seq<Seq<char>>
    decreases s.len(),
{
    if s.len() == 0 {
        seq![Seq::empty()]
    } else {
        let f = split_fields(s.drop_last());
        if s.last() == '|' {
            f.push(Seq::empty())
        } else {
            f.update(f.len() - 1, f.last().push(s.last()))
        }
    }
}

/// The name, identifier and amount that a stored line holds: exactly three
/// fields, the last an amount's text.
pub open spec fn line_value(s: Seq<char>) -> Option<(Seq<char>, Seq<char>, i64)> {
    let f = split_fields(s);
    if f.len() == 3 {
        match amount_value(f[2]) {
            Some(a) => Some((f[0], f[1], a)),
            None => None,
        }
    } else {
        None
    }
}

/// The stored line of a name, an identifier and an amount.
pub open spec fn line_text(name: Seq<char>, id: Seq<char>, a: i64) -> Seq<char> {
    name + seq!['|'] + id + seq!['|'] + amount_text(a as int)
}

/// The stored line of a balance.
pub open spec fn balance_line(b: CurrencyBalance) -> Seq<char> {
    line_text(b.currency.name@, b.currency.id@, b.amount)
}

/// Message of the error returned for a stored line that cannot be read.
pub open spec fn invalid_line_message(line: Seq<char>) -> Seq<char> {
    "Invalid line: "@ + line
}

/// The stored line of `b`.
pub fn format_line(b: &CurrencyBalance) -> (r: String)
    ensures
        r@ == balance_line(*b),
{
    let mut out: Vec<char> = Vec::new();
    push_chars(b.currency.name.as_str(), &mut out);
    out.push('|');
    push_chars(b.currency.id.as_str(), &mut out);
    out.push('|');
    push_amount_text(b.amount, &mut out);
    assert(out@ =~= balance_line(*b));
    string_of(out.as_slice())
}

/// The currency and amount that `line` holds.
pub fn parse_line(line: &str) -> (r: Option<CurrencyBalance>)
    ensures
        match line_value(line@) {
            Some(v) => r matches Some(b) && b.currency.name@ == v.0 && b.currency.id@ == v.1
                && b.amount == v.2,
            None => r is None,
        },
{
    let c = chars_of(line);
    let mut fields: Vec<Vec<char>> = Vec::new();
    let mut cur: Vec<char> = Vec::new();
    let mut i: usize = 0;
    assert(c@.take(0) =~= Seq::<char>::empty());
    assert(fields@.map_values(|v: Vec<char>| v@).push(cur@) =~= seq![Seq::<char>::empty()]);
    while i < c.len()
        invariant
            i <= c@.len(),
            c@ == line@,
            split_fields(c@.take(i as int)) == fields@.map_values(|v: Vec<char>| v@).push(cur@),
        decreases c@.len() - i,
    {
        let ghost before = fields@.map_values(|v: Vec<char>| v@).push(cur@);
        assert(c@.take(i + 1).drop_last() =~= c@.take(i as int));
        if c[i] == '|' {
            fields.push(cur);
            cur = Vec::new();
            assert(fields@.map_values(|v: Vec<char>| v@).push(cur@) =~= before.push(
                Seq::empty(),
            ));
        } else {
            cur.push(c[i]);
            assert(fields@.map_values(|v: Vec<char>| v@).push(cur@) =~= before.update(
                before.len() - 1,
                before.last().push(c@[i as int]),
            ));
        }
        i = i + 1;
    }
    assert(c@.take(c@.len() as int) =~= c@);
    if fields.len() != 2 {
        return None;
    }
    match parse_amount(cur.as_slice()) {
        Some(a) => {
            let name = string_of(fields[0].as_slice());
            let id = string_of(fields[1].as_slice());
            Some(CurrencyBalance::new(Currency::new(name, id), a))
        },
        None => None,
    }
}

/// Whether `s` holds no `'|'`, so that it can stand as one field of a line.
pub open spec fn no_delimiter(s: Seq<char>) -> bool {
    forall|i: int| 0 <= i < s.len() ==> s[i] != '|'
}

/// The ledger `m` after reading `lines` in order into it, and whether every
/// line could be read: reading stops at the first line that cannot, and
/// what came before it stays; a later line replaces an earlier one with the
/// same identifier.
pub open spec fn load_into(m: Map<Seq<char>, BalanceView>, lines: Seq<Seq<char>>) -> (Map<
    Seq<char>,
    BalanceView,
>, bool)
    decreases lines.len(),
{
    if lines.len() == 0 {
        (m, true)
    } else {
        match line_value(lines[0]) {
            Some(v) => load_into(m.insert(v.1, (v.0, v.2)), lines.drop_first()),
            None => (m, false),
        }
    }
}

proof fn lemma_split_len(s: Seq<char>)
    ensures
        split_fields(s).len() >= 1,
    decreases s.len(),
{
    if s.len() > 0 {
        lemma_split_len(s.drop_last());
    }
}

proof fn lemma_split_field(p: Seq<char>, q: Seq<char>)
    requires
        no_delimiter(q),
    ensures
        split_fields(p + q) == split_fields(p).update(
            split_fields(p).len() - 1,
            split_fields(p).last() + q,
        ),
    decreases q.len(),
{
    lemma_split_len(p);
    let f = split_fields(p);
    if q.len() == 0 {
        assert(p + q =~= p);
        assert(f.last() + q =~= f.last());
        assert(f.update(f.len() - 1, f.last() + q) =~= f);
    } else {
        let q1 = q.drop_last();
        assert(no_delimiter(q1)) by {
            assert forall|i: int| 0 <= i < q1.len() implies q1[i] != '|' by {
                assert(q1[i] == q[i]);
            }
        }
        lemma_split_field(p, q1);
        assert((p + q).drop_last() =~= p + q1);
        assert((p + q).last() == q.last());
        assert((f.last() + q1).push(q.last()) =~= f.last() + q);
        assert(split_fields(p + q) =~= f.update(f.len() - 1, f.last() + q));
    }
}

proof fn lemma_split_delimiter(p: Seq<char>)
    ensures
        split_fields(p.push('|')) == split_fields(p).push(Seq::empty()),
{
    assert(p.push('|').drop_last() =~= p);
}

/// Reading a stored line gives back its name, identifier and amount, when
/// neither the name nor the identifier holds the delimiter.
pub proof fn lemma_line_round_trip(name: Seq<char>, id: Seq<char>, a: i64)
    requires
        no_delimiter(name),
        no_delimiter(id),
    ensures
        line_value(line_text(name, id, a)) == Some((name, id, a)),
{
    let at = amount_text(a as int);
    lemma_amount_text_digits(a);
    assert(no_delimiter(at)) by {
        assert forall|i: int| 0 <= i < at.len() implies at[i] != '|' by {
            assert(is_digit(at[i]) || at[i] == '-' || at[i] == '.');
        }
    }
    let e = Seq::<char>::empty();
    lemma_split_field(e, name);
    assert(e + name =~= name);
    assert(split_fields(e) =~= seq![e]);
    assert(split_fields(name) =~= seq![name]);
    let p1 = name.push('|');
    lemma_split_delimiter(name);
    lemma_split_field(p1, id);
    assert(split_fields(p1 + id) =~= seq![name, id]);
    let p2 = (p1 + id).push('|');
    lemma_split_delimiter(p1 + id);
    lemma_split_field(p2, at);
    assert(split_fields(p2 + at) =~= seq![name, id, at]);
    assert(p2 + at =~= line_text(name, id, a));
    lemma_amount_round_trip(a);
}

} // verus!
