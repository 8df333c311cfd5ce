//! The account store: each name holds exactly one balance.
use vstd::prelude::*;

use crate::balance::{
    balance_text, encodable_balance, lemma_balance_round_trip, parse_balance, Balance,
    BalanceError, BalanceView,
};
use crate::text::{
    chars_of, find_char, join, lacks, lemma_split_join, lemma_split_once_at, lemma_trim_end_plain,
    push_char, push_str, slice_chars, split, split_chars, split_once, string_of, trim_end,
    trim_end_chars,
};
use crate::operation::{
    apply_result, default_description, step, BalanceOpError, KindView, Operation, OperationType,
    OperationView, Status,
};

verus! {

/// An account's name.
pub type Name = String;

/// The accounts of a store, by name.
pub type Accounts = Map<Seq<char>, BalanceView>;

/// Why an operation on the store failed.
#[derive(Debug, Clone, PartialEq)]
pub enum BalanceManagerError {
    /// No account has this name.
    UserNotFound(Name),
    /// The account to be debited holds less than the amount.
    NotEnoughMoney { required: u64, available: i128 },
    /// The account to be credited would pass the largest value it can hold.
    OverLimit,
}

/// Why the text of a store could not be read.
#[derive(Debug, Clone, PartialEq)]
pub enum StorageError {
    /// A line holds no `;`; it carries the line.
    InvalidLine(String),
    /// The balance of a line is malformed.
    InvalidBalance(BalanceError),
}

/// The accounts, by name: a list of entries in which no two share a name,
/// so that every lookup by name is proved against the map it stands for.
pub struct Storage {
    accounts: Vec<(Name, Balance)>,
}

/// The map that a list of entries with distinct names stands for.
pub open spec fn entries_map(s: Seq<(Name, Balance)>) -> Accounts
    decreases s.len(),
{
    if s.len() == 0 {
        Map::empty()
    } else {
        entries_map(s.drop_last()).insert(s.last().0@, s.last().1@)
    }
}

pub open spec fn distinct_names(s: Seq<(Name, Balance)>) -> bool {
    forall|i: int, j: int| 0 <= i < s.len() && 0 <= j < s.len() && i != j ==> s[i].0@ != s[j].0@
}

proof fn lemma_entries_lookup(s: Seq<(Name, Balance)>)
    requires
        distinct_names(s),
    ensures
        forall|i: int|
            0 <= i < s.len() ==> entries_map(s).contains_key(#[trigger] s[i].0@) && entries_map(
                s,
            )[s[i].0@] == s[i].1@,
        forall|k: Seq<char>|
            #[trigger] entries_map(s).contains_key(k) ==> exists|i: int|
                0 <= i < s.len() && s[i].0@ == k,
    decreases s.len(),
{
    if s.len() > 0 {
        let init = s.drop_last();
        lemma_entries_lookup(init);
        assert forall|i: int|
            0 <= i < s.len() implies entries_map(s).contains_key(#[trigger] s[i].0@) && entries_map(
            s,
        )[s[i].0@] == s[i].1@ by {
            if i < s.len() - 1 {
                assert(init[i] == s[i]);
                assert(s[i].0@ != s[s.len() - 1].0@);
            }
        }
        assert forall|k: Seq<char>| #[trigger] entries_map(s).contains_key(k) implies exists|i: int|
            0 <= i < s.len() && s[i].0@ == k by {
            if k != s.last().0@ {
                assert(entries_map(init).contains_key(k));
                let i = choose|i: int| 0 <= i < init.len() && init[i].0@ == k;
                assert(s[i] == init[i]);
            } else {
                assert(s[s.len() - 1].0@ == k);
            }
        }
    }
}

proof fn lemma_entries_update(s: Seq<(Name, Balance)>, i: int, e: (Name, Balance))
    requires
        distinct_names(s),
        0 <= i < s.len(),
        e.0@ == s[i].0@,
    ensures
        distinct_names(s.update(i, e)),
        entries_map(s.update(i, e)) == entries_map(s).insert(e.0@, e.1@),
    decreases s.len(),
{
    let t = s.update(i, e);
    assert forall|a: int, b: int| 0 <= a < t.len() && 0 <= b < t.len() && a != b implies t[a].0@
        != t[b].0@ by {
        assert(t[a].0@ == s[a].0@);
        assert(t[b].0@ == s[b].0@);
    }
    if i == s.len() - 1 {
        assert(t.drop_last() =~= s.drop_last());
        assert(entries_map(t) =~= entries_map(s).insert(e.0@, e.1@));
    } else {
        let init = s.drop_last();
        assert(distinct_names(init));
        lemma_entries_update(init, i, e);
        assert(t.drop_last() =~= init.update(i, e));
        assert(s.last().0@ != e.0@) by {
            assert(s[s.len() - 1].0@ != s[i].0@);
        }
        assert(entries_map(t) =~= entries_map(s).insert(e.0@, e.1@));
    }
}

proof fn lemma_entries_remove(s: Seq<(Name, Balance)>, i: int)
    requires
        distinct_names(s),
        0 <= i < s.len(),
    ensures
        distinct_names(s.remove(i)),
        entries_map(s.remove(i)) == entries_map(s).remove(s[i].0@),
    decreases s.len(),
{
    let t = s.remove(i);
    assert forall|a: int, b: int| 0 <= a < t.len() && 0 <= b < t.len() && a != b implies t[a].0@
        != t[b].0@ by {
        let a1 = if a < i { a } else { a + 1 };
        let b1 = if b < i { b } else { b + 1 };
        assert(t[a] == s[a1]);
        assert(t[b] == s[b1]);
    }
    let init = s.drop_last();
    if i == s.len() - 1 {
        assert(t =~= init);
        lemma_entries_lookup(init);
        assert forall|k: Seq<char>| #[trigger] entries_map(init).contains_key(k) implies k
            != s[i].0@ by {
            let q = choose|q: int| 0 <= q < init.len() && init[q].0@ == k;
            assert(init[q] == s[q]);
        }
        assert(entries_map(t) =~= entries_map(s).remove(s[i].0@));
    } else {
        assert(distinct_names(init));
        lemma_entries_remove(init, i);
        assert(t.drop_last() =~= init.remove(i));
        assert(t.last() == s.last());
        assert(s.last().0@ != s[i].0@) by {
            assert(s[s.len() - 1].0@ != s[i].0@);
        }
        assert(entries_map(t) =~= entries_map(s).remove(s[i].0@));
    }
}

proof fn lemma_entries_push(s: Seq<(Name, Balance)>, e: (Name, Balance))
    requires
        distinct_names(s),
        !entries_map(s).contains_key(e.0@),
    ensures
        distinct_names(s.push(e)),
        entries_map(s.push(e)) == entries_map(s).insert(e.0@, e.1@),
{
    lemma_entries_lookup(s);
    let t = s.push(e);
    assert(t.drop_last() =~= s);
    assert forall|a: int, b: int| 0 <= a < t.len() && 0 <= b < t.len() && a != b implies t[a].0@
        != t[b].0@ by {
        if a < s.len() && b < s.len() {
            assert(t[a] == s[a] && t[b] == s[b]);
        } else if a < s.len() {
            assert(t[a] == s[a]);
            assert(entries_map(s).contains_key(s[a].0@));
        } else {
            assert(t[b] == s[b]);
            assert(entries_map(s).contains_key(s[b].0@));
        }
    }
}

/// The id of the next operation an account records: one past the number it
/// has recorded.
pub open spec fn next_id(b: BalanceView) -> u64 {
    if b.history.len() < u64::MAX {
        (b.history.len() + 1) as u64
    } else {
        u64::MAX
    }
}

/// The pending operation of kind `k` that an account holding `b` creates
/// next, stamped `ts`.
pub open spec fn next_op(b: BalanceView, k: KindView, ts: u64) -> OperationView {
    OperationView {
        id: next_id(b),
        timestamp: ts,
        kind: k,
        status: Status::PENDING,
        description: default_description(next_id(b)),
    }
}

/// `after` is `b` once its next operation of kind `k` has been applied,
/// whatever time that operation was stamped with.
pub open spec fn records(b: BalanceView, k: KindView, after: BalanceView) -> bool {
    after == step(b, next_op(b, k, after.history.last().timestamp))
}

/// The accounts after an operation of kind `k` on the account `name`: where
/// there is such an account, it records the operation and nothing else
/// changes; where there is none, nothing changes.
pub open spec fn single_post(s: Accounts, name: Seq<char>, k: KindView, after: Accounts) -> bool {
    if s.contains_key(name) {
        after == s.insert(name, after[name]) && records(s[name], k, after[name])
    } else {
        after == s
    }
}

/// What an operation of kind `k` on the account `name` returns.
pub open spec fn single_result(
    s: Accounts,
    name: Seq<char>,
    k: KindView,
    r: Result<(), BalanceManagerError>,
) -> bool {
    if !s.contains_key(name) {
        r matches Err(BalanceManagerError::UserNotFound(n)) && n@ == name
    } else {
        match apply_result(s[name].value, k) {
            Ok(_) => r is Ok,
            Err(BalanceOpError::NotEnoughMoney { required, available }) => r == Err::<
                (),
                BalanceManagerError,
            >(BalanceManagerError::NotEnoughMoney { required, available }),
            Err(_) => r == Err::<(), BalanceManagerError>(BalanceManagerError::OverLimit),
        }
    }
}

/// The accounts after a transfer of `amount` from `from` to `to`. Where either
/// is missing, both are the same account, `from` holds less than `amount` or
/// `to` cannot take `amount`, nothing changes; otherwise both accounts record
/// their side of the transfer.
pub open spec fn transfer_post(
    s: Accounts,
    from: Seq<char>,
    to: Seq<char>,
    amount: u64,
    after: Accounts,
) -> bool {
    let out_kind = KindView::Transfer(to, amount, false);
    let in_kind = KindView::Transfer(from, amount, true);
    if !s.contains_key(from) || !s.contains_key(to) || from == to || s[from].value < amount
        || s[to].value + amount > i128::MAX {
        after == s
    } else {
        after == s.insert(from, after[from]).insert(to, after[to]) && records(
            s[from],
            out_kind,
            after[from],
        ) && records(s[to], in_kind, after[to])
    }
}

/// What a transfer of `amount` from `from` to `to` returns.
pub open spec fn transfer_result(
    s: Accounts,
    from: Seq<char>,
    to: Seq<char>,
    amount: u64,
    r: Result<(), BalanceManagerError>,
) -> bool {
    if !s.contains_key(from) {
        r matches Err(BalanceManagerError::UserNotFound(n)) && n@ == from
    } else if !s.contains_key(to) || from == to {
        r matches Err(BalanceManagerError::UserNotFound(n)) && n@ == to
    } else if s[from].value < amount {
        r == Err::<(), BalanceManagerError>(
            BalanceManagerError::NotEnoughMoney { required: amount, available: s[from].value },
        )
    } else if s[to].value + amount > i128::MAX {
        r == Err::<(), BalanceManagerError>(BalanceManagerError::OverLimit)
    } else {
        r is Ok
    }
}

/// The balance of a newly opened account.
pub open spec fn zero_balance() -> BalanceView {
    BalanceView { value: 0, history: Seq::empty() }
}

/// The accounts after opening `name`, and whether it was opened: a name that
/// is taken is left as it is.
pub open spec fn add_account(s: Accounts, name: Seq<char>) -> (Accounts, bool) {
    if s.contains_key(name) {
        (s, false)
    } else {
        (s.insert(name, zero_balance()), true)
    }
}

/// Opening the same name twice leaves exactly one balance under it, the one it
/// had or a zero one; the second attempt reports the name as taken and changes
/// nothing.
pub proof fn lemma_add_account_twice(s: Accounts, name: Seq<char>)
    ensures
        ({
            let (s1, _) = add_account(s, name);
            let (s2, opened) = add_account(s1, name);
            &&& !opened
            &&& s2 == s1
            &&& s2.contains_key(name)
            &&& s2[name] == if s.contains_key(name) {
                s[name]
            } else {
                zero_balance()
            }
            &&& s2.remove(name) == s.remove(name)
        }),
{
    let (s1, _) = add_account(s, name);
    if !s.contains_key(name) {
        assert(s1.remove(name) =~= s.remove(name));
    }
}

/// The lines of a store's text: split at each newline, without the empty
/// piece after a final newline.
pub open spec fn store_lines(t: Seq<char>) -> Seq<Seq<char>> {
    let f = split(t, '\n');
    if f.last().len() == 0 {
        f.drop_last()
    } else {
        f
    }
}

/// Reads one line, `<name>;<balance>`: blanks at its end (a CRLF line end,
/// trailing spaces) are dropped, and it is split at its first `;`, so that
/// the name is everything before that `;`.
pub open spec fn parse_line(l: Seq<char>) -> Option<(Seq<char>, BalanceView)> {
    match split_once(trim_end(l), ';') {
        Some((name, rest)) => match parse_balance(rest) {
            Some(b) => Some((name, b)),
            None => None,
        },
        None => None,
    }
}

/// The accounts that well-formed lines describe; a later line for a name
/// replaces an earlier one.
pub open spec fn load_accounts(ls: Seq<Seq<char>>) -> Accounts
    decreases ls.len(),
{
    if ls.len() == 0 {
        Map::empty()
    } else {
        let p = parse_line(ls.last())->Some_0;
        load_accounts(ls.drop_last()).insert(p.0, p.1)
    }
}

/// The accounts that a list of names and balances stands for.
pub open spec fn pairs_map(es: Seq<(Seq<char>, BalanceView)>) -> Accounts
    decreases es.len(),
{
    if es.len() == 0 {
        Map::empty()
    } else {
        pairs_map(es.drop_last()).insert(es.last().0, es.last().1)
    }
}

/// The text of accounts listed in the order of `es`: one line
/// `<name>;<balance>` each.
pub open spec fn lines_text(es: Seq<(Seq<char>, BalanceView)>) -> Seq<char>
    decreases es.len(),
{
    if es.len() == 0 {
        Seq::empty()
    } else {
        lines_text(es.drop_last()) + line_of(es.last()) + seq!['\n']
    }
}

/// Whether `es` lists the accounts `s`, each once.
pub open spec fn lists(es: Seq<(Seq<char>, BalanceView)>, s: Accounts) -> bool {
    &&& pairs_map(es) == s
    &&& forall|i: int, j: int| 0 <= i < j < es.len() ==> es[i].0 != es[j].0
}

/// The line of one account: `<name>;<balance>`.
pub open spec fn line_of(e: (Seq<char>, BalanceView)) -> Seq<char> {
    e.0 + seq![';'] + balance_text(e.1)
}

/// Whether an account can be written as a line and read back: its name holds
/// no `;` or newline, and the text of its balance holds no newline.
pub open spec fn encodable_account(e: (Seq<char>, BalanceView)) -> bool {
    &&& lacks(e.0, ';')
    &&& lacks(e.0, '\n')
    &&& encodable_balance(e.1)
    &&& lacks(balance_text(e.1), '\n')
}

proof fn lemma_lines_join(es: Seq<(Seq<char>, BalanceView)>, x: Seq<char>)
    ensures
        lines_text(es) + x == join(
            es.map_values(|e: (Seq<char>, BalanceView)| line_of(e)).push(x),
            '\n',
        ),
    decreases es.len(),
{
    let ls = es.map_values(|e: (Seq<char>, BalanceView)| line_of(e));
    if es.len() == 0 {
        assert(ls.push(x) =~= seq![x]);
        assert(lines_text(es) + x =~= x);
    } else {
        let init = es.drop_last();
        let last = line_of(es.last());
        lemma_lines_join(init, last);
        assert(init.map_values(|e: (Seq<char>, BalanceView)| line_of(e)).push(last) =~= ls);
        assert(ls.push(x).drop_last() =~= ls);
        assert(ls.push(x).last() == x);
        assert(lines_text(es) =~= lines_text(init) + last + seq!['\n']);
        assert(lines_text(es) + x =~= (lines_text(init) + last) + seq!['\n'] + x);
    }
}

proof fn lemma_line_round_trip(e: (Seq<char>, BalanceView))
    requires
        encodable_account(e),
    ensures
        parse_line(line_of(e)) == Some(e),
        lacks(line_of(e), '\n'),
{
    let l = line_of(e);
    let bt = balance_text(e.1);
    assert(l.last() == bt.last());
    assert(bt.last() == ']');
    lemma_trim_end_plain(l);
    lemma_split_once_at(e.0, bt, ';');
    lemma_balance_round_trip(e.1);
    assert forall|i: int| 0 <= i < line_of(e).len() implies #[trigger] line_of(e)[i] != '\n' by {
        if i < e.0.len() {
            assert(line_of(e)[i] == e.0[i]);
        } else if i > e.0.len() {
            assert(line_of(e)[i] == balance_text(e.1)[i - e.0.len() - 1]);
        }
    }
}

proof fn lemma_load_pairs(es: Seq<(Seq<char>, BalanceView)>)
    requires
        forall|i: int| 0 <= i < es.len() ==> encodable_account(#[trigger] es[i]),
    ensures
        load_accounts(es.map_values(|e: (Seq<char>, BalanceView)| line_of(e))) == pairs_map(es),
    decreases es.len(),
{
    if es.len() > 0 {
        let init = es.drop_last();
        assert forall|i: int| 0 <= i < init.len() implies encodable_account(#[trigger] init[i]) by {
            assert(init[i] == es[i]);
        }
        lemma_load_pairs(init);
        let ls = es.map_values(|e: (Seq<char>, BalanceView)| line_of(e));
        assert(ls.drop_last() =~= init.map_values(|e: (Seq<char>, BalanceView)| line_of(e)));
        assert(es.last() == es[es.len() - 1]);
        lemma_line_round_trip(es.last());
    }
}

/// The text of accounts reads back as those accounts, line by line: a store
/// written out and read in again is the store it was.
pub proof fn lemma_store_round_trip(es: Seq<(Seq<char>, BalanceView)>, s: Accounts)
    requires
        lists(es, s),
        forall|i: int| 0 <= i < es.len() ==> encodable_account(#[trigger] es[i]),
    ensures
        forall|i: int|
            0 <= i < store_lines(lines_text(es)).len() ==> (#[trigger] parse_line(
                store_lines(lines_text(es))[i],
            )) is Some,
        load_accounts(store_lines(lines_text(es))) == s,
{
    let ls = es.map_values(|e: (Seq<char>, BalanceView)| line_of(e));
    let e = Seq::<char>::empty();
    lemma_lines_join(es, e);
    assert(lines_text(es) + e =~= lines_text(es));
    let fs = ls.push(e);
    assert forall|i: int| 0 <= i < fs.len() implies lacks(#[trigger] fs[i], '\n') by {
        if i < ls.len() {
            lemma_line_round_trip(es[i]);
            assert(fs[i] == line_of(es[i]));
        } else {
            assert(fs[i] == e);
        }
    }
    lemma_split_join(fs, '\n');
    assert(fs.last() == e);
    assert(fs.drop_last() =~= ls);
    assert(store_lines(lines_text(es)) == ls);
    assert forall|i: int| 0 <= i < ls.len() implies (#[trigger] parse_line(ls[i])) is Some by {
        lemma_line_round_trip(es[i]);
    }
    lemma_load_pairs(es);
}

proof fn lemma_pairs_entries(s: Seq<(Name, Balance)>)
    ensures
        pairs_map(s.map_values(|e: (Name, Balance)| (e.0@, e.1@))) == entries_map(s),
    decreases s.len(),
{
    let es = s.map_values(|e: (Name, Balance)| (e.0@, e.1@));
    if s.len() > 0 {
        lemma_pairs_entries(s.drop_last());
        assert(es.drop_last() =~= s.drop_last().map_values(|e: (Name, Balance)| (e.0@, e.1@)));
    }
}

impl View for Storage {
    type V = Accounts;

    closed spec fn view(&self) -> Accounts {
        entries_map(self.accounts@)
    }
}

impl Storage {
    /// The store's invariant: no two entries share a name.
    pub closed spec fn wf(&self) -> bool {
        distinct_names(self.accounts@)
    }

    /// An empty store.
    pub fn new() -> (r: Storage)
        ensures
            r.wf(),
            r@ == Accounts::empty(),
    {
        Storage { accounts: Vec::new() }
    }

    /// The position of the entry named `name`, if any.
    fn find(&self, name: &str) -> (r: Option<usize>)
        requires
            self.wf(),
        ensures
            match r {
                Some(i) => i < self.accounts@.len() && self.accounts@[i as int].0@ == name@
                    && self@.contains_key(name@) && self@[name@] == self.accounts@[i as int].1@,
                None => !self@.contains_key(name@),
            },
    {
        proof {
            lemma_entries_lookup(self.accounts@);
        }
        let mut i: usize = 0;
        while i < self.accounts.len()
            invariant
                i <= self.accounts@.len(),
                distinct_names(self.accounts@),
                forall|j: int| 0 <= j < i ==> self.accounts@[j].0@ != name@,
            decreases self.accounts.len() - i,
        {
            if crate::text::same_chars(
                &crate::text::chars_of(self.accounts[i].0.as_str()),
                &crate::text::chars_of(name),
            ) {
                proof {
                    lemma_entries_lookup(self.accounts@);
                }
                return Some(i);
            }
            i += 1;
        }
        proof {
            lemma_entries_lookup(self.accounts@);
            if self@.contains_key(name@) {
                let j = choose|j: int| 0 <= j < self.accounts@.len() && self.accounts@[j].0@ == name@;
            }
        }
        None
    }

    /// Applies the next operation of kind `kind` to the entry at `i`.
    fn apply_next(&mut self, i: usize, kind: OperationType) -> (r: Result<(), BalanceOpError>)
        requires
            old(self).wf(),
            i < old(self).accounts@.len(),
        ensures
            final(self).wf(),
            final(self).accounts@.len() == old(self).accounts@.len(),
            final(self).accounts@[i as int].0@ == old(self).accounts@[i as int].0@,
            forall|j: int|
                0 <= j < old(self).accounts@.len() && j != i ==> final(self).accounts@[j]
                    == old(self).accounts@[j],
            records(
                old(self).accounts@[i as int].1@,
                kind@,
                final(self).accounts@[i as int].1@,
            ),
            final(self)@ == old(self)@.insert(
                old(self).accounts@[i as int].0@,
                final(self).accounts@[i as int].1@,
            ),
            r == match apply_result(old(self).accounts@[i as int].1@.value, kind@) {
                Ok(_) => Ok(()),
                Err(e) => Err(e),
            },
    {
        let ghost s0 = self.accounts@;
        let len = self.accounts[i].1.get_history().len();
        let id: u64 = if (len as u64) < u64::MAX {
            len as u64 + 1
        } else {
            u64::MAX
        };
        let op = Operation::new(id, kind, None);
        let r = self.accounts[i].1.apply_op(op);
        proof {
            lemma_entries_update(s0, i as int, self.accounts@[i as int]);
            assert(s0.update(i as int, self.accounts@[i as int]) =~= self.accounts@);
        }
        r
    }

    /// Opens an account named `name` with a zero balance and returns that
    /// balance; where the name is taken, returns nothing and changes nothing.
    pub fn add_user(&mut self, name: Name) -> (r: Option<Balance>)
        requires
            old(self).wf(),
        ensures
            final(self).wf(),
            final(self)@ == add_account(old(self)@, name@).0,
            r is Some == add_account(old(self)@, name@).1,
            r matches Some(b) ==> b@ == zero_balance(),
    {
        if self.find(name.as_str()).is_some() {
            return None;
        }
        let ghost s0 = self.accounts@;
        let b = Balance::new(0, Vec::new());
        assert(b@.history =~= Seq::<OperationView>::empty());
        assert(b@ == zero_balance());
        proof {
            lemma_entries_push(s0, (name, b));
        }
        self.accounts.push((name, b));
        let z = Balance::new(0, Vec::new());
        assert(z@.history =~= Seq::<OperationView>::empty());
        Some(z)
    }

    /// Closes the account named `name` and returns its balance, if there is one.
    pub fn remove_user(&mut self, name: &Name) -> (r: Option<Balance>)
        requires
            old(self).wf(),
        ensures
            final(self).wf(),
            final(self)@ == old(self)@.remove(name@),
            match r {
                Some(b) => old(self)@.contains_key(name@) && b@ == old(self)@[name@],
                None => !old(self)@.contains_key(name@),
            },
    {
        match self.find(name.as_str()) {
            Some(i) => {
                let ghost s0 = self.accounts@;
                proof {
                    lemma_entries_remove(s0, i as int);
                }
                let (_, b) = self.accounts.remove(i);
                Some(b)
            },
            None => {
                assert(self@.remove(name@) =~= self@);
                None
            },
        }
    }

    /// The balance of the account named `name`, if there is one.
    pub fn get_balance(&self, name: &Name) -> (r: Option<&Balance>)
        requires
            self.wf(),
        ensures
            match r {
                Some(b) => self@.contains_key(name@) && b@ == self@[name@],
                None => !self@.contains_key(name@),
            },
    {
        match self.find(name.as_str()) {
            Some(i) => Some(&self.accounts[i].1),
            None => None,
        }
    }

    /// Sets the balance of the account named `name`, opening it where needed.
    pub fn set_balance(&mut self, name: &str, balance: Balance)
        requires
            old(self).wf(),
        ensures
            final(self).wf(),
            final(self)@ == old(self)@.insert(name@, balance@),
    {
        let ghost s0 = self.accounts@;
        let n = crate::text::string_of(&crate::text::chars_of(name));
        match self.find(name) {
            Some(i) => {
                proof {
                    lemma_entries_update(s0, i as int, (n, balance));
                }
                self.accounts.set(i, (n, balance));
            },
            None => {
                proof {
                    lemma_entries_push(s0, (n, balance));
                }
                self.accounts.push((n, balance));
            },
        }
    }

    /// Every account with its balance, each once, in no particular order.
    pub fn get_all(&self) -> (r: Vec<(Name, &Balance)>)
        requires
            self.wf(),
        ensures
            r@.len() == self@.dom().len(),
            forall|i: int|
                0 <= i < r@.len() ==> self@.contains_key(#[trigger] r@[i].0@) && self@[r@[i].0@]
                    == r@[i].1@,
            forall|i: int, j: int| 0 <= i < j < r@.len() ==> r@[i].0@ != r@[j].0@,
            forall|k: Seq<char>|
                #[trigger] self@.contains_key(k) ==> exists|i: int| 0 <= i < r@.len() && r@[i].0@ == k,
    {
        proof {
            lemma_entries_lookup(self.accounts@);
            lemma_entries_len(self.accounts@);
        }
        let mut r: Vec<(Name, &Balance)> = Vec::new();
        let mut i: usize = 0;
        while i < self.accounts.len()
            invariant
                i <= self.accounts@.len(),
                r@.len() == i,
                forall|j: int|
                    0 <= j < i ==> (#[trigger] r@[j]).0@ == self.accounts@[j].0@ && r@[j].1@
                        == self.accounts@[j].1@,
            decreases self.accounts.len() - i,
        {
            let n = crate::text::string_of(&crate::text::chars_of(self.accounts[i].0.as_str()));
            r.push((n, &self.accounts[i].1));
            i += 1;
        }
        proof {
            assert forall|k: Seq<char>| #[trigger] self@.contains_key(k) implies exists|j: int|
                0 <= j < r@.len() && r@[j].0@ == k by {
                let q = choose|q: int| 0 <= q < self.accounts@.len() && self.accounts@[q].0@ == k;
                assert(r@[q].0@ == k);
            }
            assert forall|a: int| 0 <= a < r@.len() implies self@.contains_key(#[trigger] r@[a].0@)
                && self@[r@[a].0@] == r@[a].1@ by {
                assert(self.accounts@[a].0@ == r@[a].0@);
            }
        }
        r
    }

    /// Deposits `amount` into the account named `name`: it records the
    /// deposit, which fails with `OverLimit` where the value would overflow.
    pub fn deposit(&mut self, name: &Name, amount: u64) -> (r: Result<(), BalanceManagerError>)
        requires
            old(self).wf(),
        ensures
            final(self).wf(),
            single_post(old(self)@, name@, KindView::Deposit(amount), final(self)@),
            single_result(old(self)@, name@, KindView::Deposit(amount), r),
    {
        self.apply_named(name, OperationType::Deposit(amount))
    }

    /// Withdraws `amount` from the account named `name`: it records the
    /// withdrawal, which fails with `NotEnoughMoney` where the account holds
    /// less.
    pub fn withdraw(&mut self, name: &Name, amount: u64) -> (r: Result<(), BalanceManagerError>)
        requires
            old(self).wf(),
        ensures
            final(self).wf(),
            single_post(old(self)@, name@, KindView::Withdraw(amount), final(self)@),
            single_result(old(self)@, name@, KindView::Withdraw(amount), r),
    {
        self.apply_named(name, OperationType::Withdraw(amount))
    }

    /// Closes out the account named `name`: its value becomes zero.
    pub fn close(&mut self, name: &Name) -> (r: Result<(), BalanceManagerError>)
        requires
            old(self).wf(),
        ensures
            final(self).wf(),
            single_post(old(self)@, name@, KindView::Close, final(self)@),
            single_result(old(self)@, name@, KindView::Close, r),
    {
        self.apply_named(name, OperationType::Close)
    }

    fn apply_named(&mut self, name: &Name, kind: OperationType) -> (r: Result<
        (),
        BalanceManagerError,
    >)
        requires
            old(self).wf(),
        ensures
            final(self).wf(),
            single_post(old(self)@, name@, kind@, final(self)@),
            single_result(old(self)@, name@, kind@, r),
    {
        match self.find(name.as_str()) {
            None => Err(BalanceManagerError::UserNotFound(name.clone())),
            Some(i) => {
                let r = self.apply_next(i, kind);
                manager_error(r)
            },
        }
    }

    /// Moves `amount` from the account `from` to the account `to` as one step:
    /// both accounts change, or the store stays as it was. Both balances are
    /// checked first: a short `from` gives `NotEnoughMoney`, a `to` that would
    /// overflow gives `OverLimit`. Naming the same account twice is
    /// refused with `UserNotFound(to)`, as is a missing `to`; a missing `from`
    /// with `UserNotFound(from)`.
    pub fn transfer(&mut self, from: &Name, to: &Name, amount: u64) -> (r: Result<
        (),
        BalanceManagerError,
    >)
        requires
            old(self).wf(),
        ensures
            final(self).wf(),
            transfer_post(old(self)@, from@, to@, amount, final(self)@),
            transfer_result(old(self)@, from@, to@, amount, r),
            old(self)@.contains_key(from@) && old(self)@.contains_key(to@)
                && old(self)@[from@].value < amount ==> final(self)@ == old(self)@,
    {
        let i = match self.find(from.as_str()) {
            Some(i) => i,
            None => {
                return Err(BalanceManagerError::UserNotFound(from.clone()));
            },
        };
        let j = match self.find(to.as_str()) {
            Some(j) => j,
            None => {
                return Err(BalanceManagerError::UserNotFound(to.clone()));
            },
        };
        if i == j {
            return Err(BalanceManagerError::UserNotFound(to.clone()));
        }
        proof {
            lemma_entries_lookup(self.accounts@);
        }
        let from_value = self.accounts[i].1.get_value();
        let to_value = self.accounts[j].1.get_value();
        if from_value < amount as i128 {
            return Err(
                BalanceManagerError::NotEnoughMoney { required: amount, available: from_value },
            );
        }
        if to_value > i128::MAX - amount as i128 {
            return Err(BalanceManagerError::OverLimit);
        }
        let ghost s0 = self@;
        let r1 = self.apply_next(i, OperationType::Transfer(to.clone(), amount, false));
        let ghost s1 = self@;
        let r2 = self.apply_next(j, OperationType::Transfer(from.clone(), amount, true));
        assert(self@ == s0.insert(from@, self@[from@]).insert(to@, self@[to@]));
        Ok(())
    }
}

impl Storage {
    /// Reads a store from its text, one `<name>;<balance>` line per account,
    /// each split at its first `;` once blanks at its end are dropped. The
    /// first malformed line fails the whole read: `InvalidLine` where it holds
    /// no `;`, `InvalidBalance` where its balance is malformed.
    pub fn from_text(text: &str) -> (r: Result<Storage, StorageError>)
        ensures
            match r {
                Ok(s) => s.wf() && (forall|i: int|
                    0 <= i < store_lines(text@).len() ==> (#[trigger] parse_line(
                        store_lines(text@)[i],
                    )) is Some) && s@ == load_accounts(store_lines(text@)),
                Err(e) => exists|i: int|
                    0 <= i < store_lines(text@).len() && (#[trigger] parse_line(
                        store_lines(text@)[i],
                    )) is None && (forall|j: int|
                        0 <= j < i ==> parse_line(store_lines(text@)[j]) is Some) && (e is InvalidLine
                        <==> split_once(trim_end(store_lines(text@)[i]), ';') is None),
            },
    {
        let t = chars_of(text);
        let pieces = split_chars(&t, '\n');
        let ghost ls = store_lines(text@);
        proof {
            crate::text::lemma_split_len(t@, '\n');
        }
        assert(pieces@.map_values(|f: Vec<char>| f@)[pieces@.len() - 1] == pieces@[pieces@.len()
            - 1]@);
        let count: usize = if pieces[pieces.len() - 1].len() == 0 {
            pieces.len() - 1
        } else {
            pieces.len()
        };
        assert(ls.len() == count);
        let mut storage = Storage::new();
        let mut i: usize = 0;
        assert(ls.take(0) =~= Seq::<Seq<char>>::empty());
        while i < count
            invariant
                i <= count,
                count == ls.len(),
                count <= pieces@.len(),
                ls == store_lines(text@),
                forall|q: int| 0 <= q < count ==> #[trigger] ls[q] == pieces@[q]@,
                storage.wf(),
                storage@ == load_accounts(ls.take(i as int)),
                forall|q: int| 0 <= q < i ==> (#[trigger] parse_line(ls[q])) is Some,
            decreases count - i,
        {
            assert(ls[i as int] == pieces@[i as int]@);
            let line = trim_end_chars(&pieces[i]);
            let k = match find_char(&line, ';') {
                Some(k) => k,
                None => {
                    return Err(StorageError::InvalidLine(string_of(&pieces[i])));
                },
            };
            let name_part = slice_chars(&line, 0, k);
            let rest = slice_chars(&line, k + 1, line.len());
            assert(split_once(line@, ';') == Some((name_part@, rest@)));
            match Balance::parse_chars(&rest) {
                Err(e) => {
                    assert(parse_line(ls[i as int]) is None);
                    return Err(StorageError::InvalidBalance(e));
                },
                Ok(b) => {
                    let name = string_of(&name_part);
                    storage.set_balance(name.as_str(), b);
                    assert(ls.take(i + 1).drop_last() =~= ls.take(i as int));
                },
            }
            i += 1;
        }
        assert(ls.take(i as int) =~= ls);
        Ok(storage)
    }

    /// The text of this store: one `<name>;<balance>` line per account, in no
    /// particular order.
    pub fn to_text(&self) -> (r: String)
        requires
            self.wf(),
        ensures
            exists|es: Seq<(Seq<char>, BalanceView)>| lists(es, self@) && r@ == lines_text(es),
    {
        let ghost all = self.accounts@.map_values(|e: (Name, Balance)| (e.0@, e.1@));
        let mut out = String::new();
        let mut i: usize = 0;
        assert(all.take(0) =~= Seq::<(Seq<char>, BalanceView)>::empty());
        while i < self.accounts.len()
            invariant
                i <= self.accounts@.len(),
                all == self.accounts@.map_values(|e: (Name, Balance)| (e.0@, e.1@)),
                out@ == lines_text(all.take(i as int)),
            decreases self.accounts.len() - i,
        {
            push_str(&mut out, self.accounts[i].0.as_str());
            push_char(&mut out, ';');
            let b = self.accounts[i].1.save();
            push_str(&mut out, b.as_str());
            push_char(&mut out, '\n');
            assert(all[i as int] == (self.accounts@[i as int].0@, self.accounts@[i as int].1@));
            assert(all.take(i + 1).drop_last() =~= all.take(i as int));
            assert(out@ =~= lines_text(all.take(i + 1)));
            i += 1;
        }
        proof {
            assert(all.take(i as int) =~= all);
            lemma_pairs_entries(self.accounts@);
            assert forall|a: int, b: int| 0 <= a < b < all.len() implies all[a].0 != all[b].0 by {
                assert(all[a].0 == self.accounts@[a].0@);
                assert(all[b].0 == self.accounts@[b].0@);
            }
            assert(lists(all, self@));
        }
        out
    }
}

proof fn lemma_entries_len(s: Seq<(Name, Balance)>)
    requires
        distinct_names(s),
    ensures
        entries_map(s).dom().len() == s.len(),
        entries_map(s).dom().finite(),
    decreases s.len(),
{
    if s.len() > 0 {
        let init = s.drop_last();
        assert(distinct_names(init));
        lemma_entries_len(init);
        lemma_entries_lookup(init);
        assert(!entries_map(init).contains_key(s.last().0@)) by {
            if entries_map(init).contains_key(s.last().0@) {
                let q = choose|q: int| 0 <= q < init.len() && init[q].0@ == s.last().0@;
                assert(init[q] == s[q]);
                assert(s[q].0@ != s[s.len() - 1].0@);
            }
        }
    }
}

/// The store's error for a refused operation.
fn manager_error(r: Result<(), BalanceOpError>) -> (m: Result<(), BalanceManagerError>)
    ensures
        match r {
            Ok(_) => m is Ok,
            Err(BalanceOpError::NotEnoughMoney { required, available }) => m == Err::<
                (),
                BalanceManagerError,
            >(BalanceManagerError::NotEnoughMoney { required, available }),
            Err(_) => m == Err::<(), BalanceManagerError>(BalanceManagerError::OverLimit),
        },
{
    match r {
        Ok(()) => Ok(()),
        Err(BalanceOpError::NotEnoughMoney { required, available }) => Err(
            BalanceManagerError::NotEnoughMoney { required, available },
        ),
        Err(_) => Err(BalanceManagerError::OverLimit),
    }
}

} // verus!
