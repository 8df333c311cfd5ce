//! One ledger event: what it does, its lifecycle status, and its text form
//! `id,timestamp,kind,status,description`.
use vstd::prelude::*;

use crate::balance::{delta, Balance, BalanceView};
use crate::text::{
    chars_of, dec, join, lacks, lemma_dec, lemma_digits_lack,
    lemma_parse_u64_dec, lemma_split_join, parse_u64, parse_u64_chars, push_char, push_dec,
    push_str, same_chars, slice_chars, split, split_chars, string_of,
};

verus! {

/// The amount that one operation moves.
pub type OperationAmount = u64;

/// Where an operation stands in its lifecycle: created `PENDING`, then settled
/// once, as `SUCCESS` or `FAILURE`, when it is applied.
#[allow(non_camel_case_types)]
#[derive(Debug, Clone, Copy, PartialEq, Eq, Structural)]
pub enum Status {
    FAILURE,
    PENDING,
    SUCCESS,
}

/// What an operation does to a balance.
#[derive(Debug, Clone, PartialEq)]
pub enum OperationType {
    Deposit(OperationAmount),
    Withdraw(OperationAmount),
    /// Counterparty, amount, and whether the money comes in (`true`) or goes out.
    Transfer(String, OperationAmount, bool),
    Close,
}

pub ghost enum KindView {
    Deposit(u64),
    Withdraw(u64),
    Transfer(Seq<char>, u64, bool),
    Close,
}

impl View for OperationType {
    type V = KindView;

    open spec fn view(&self) -> KindView {
        match self {
            OperationType::Deposit(a) => KindView::Deposit(*a),
            OperationType::Withdraw(a) => KindView::Withdraw(*a),
            OperationType::Transfer(n, a, f) => KindView::Transfer(n@, *a, *f),
            OperationType::Close => KindView::Close,
        }
    }
}

/// Why applying or reading an operation failed.
#[derive(Debug, Clone, PartialEq)]
pub enum BalanceOpError {
    /// A withdrawal or outgoing transfer asked for more than the balance holds.
    NotEnoughMoney { required: OperationAmount, available: i128 },
    /// The text of an operation is malformed; it carries that text.
    ParseError(String),
    /// A credit would take the balance past the largest value it can hold.
    OverLimitSize,
    /// The operation was already settled and cannot be applied again.
    InvalidStatus,
}

/// One ledger event.
#[derive(Debug, Clone, PartialEq)]
pub struct Operation {
    pub id: u64,
    /// Seconds since the Unix epoch when the operation was created.
    pub timestamp: u64,
    pub tx_type: OperationType,
    pub status: Status,
    pub description: String,
}

pub ghost struct OperationView {
    pub id: u64,
    pub timestamp: u64,
    pub kind: KindView,
    pub status: Status,
    pub description: Seq<char>,
}

impl View for Operation {
    type V = OperationView;

    open spec fn view(&self) -> OperationView {
        OperationView {
            id: self.id,
            timestamp: self.timestamp,
            kind: self.tx_type@,
            status: self.status,
            description: self.description@,
        }
    }
}

/// The description an operation gets when none is given.
pub open spec fn default_description(id: u64) -> Seq<char> {
    "Record number #"@ + dec(id as nat)
}

pub open spec fn status_text(s: Status) -> Seq<char> {
    match s {
        Status::FAILURE => "failure"@,
        Status::PENDING => "pending"@,
        Status::SUCCESS => "success"@,
    }
}

pub open spec fn bool_text(b: bool) -> Seq<char> {
    if b {
        "true"@
    } else {
        "false"@
    }
}

/// The compact form of a kind: `D<amount>`, `W<amount>`,
/// `T(<name>:<amount>:<incoming>)` or `C`.
pub open spec fn kind_text(k: KindView) -> Seq<char> {
    match k {
        KindView::Deposit(a) => seq!['D'] + dec(a as nat),
        KindView::Withdraw(a) => seq!['W'] + dec(a as nat),
        KindView::Transfer(n, a, f) => seq!['T', '('] + n + seq![':'] + dec(a as nat) + seq![':']
            + bool_text(f) + seq![')'],
        KindView::Close => seq!['C'],
    }
}

/// The text of an operation: `id,timestamp,kind,status,description`.
pub open spec fn operation_text(o: OperationView) -> Seq<char> {
    dec(o.id as nat) + seq![','] + dec(o.timestamp as nat) + seq![','] + kind_text(o.kind) + seq![
        ',',
    ] + status_text(o.status) + seq![','] + o.description
}

/// Whether the text of `o` reads back as `o`, also inside a balance's text:
/// no field holds a separator of the format.
pub open spec fn encodable(o: OperationView) -> bool {
    &&& lacks(o.description, ',')
    &&& lacks(o.description, '|')
    &&& match o.kind {
        KindView::Transfer(n, _, _) => lacks(n, ':') && lacks(n, ',') && lacks(n, '|'),
        _ => true,
    }
}

pub open spec fn parse_status(t: Seq<char>) -> Option<Status> {
    if t == "success"@ {
        Some(Status::SUCCESS)
    } else if t == "failure"@ {
        Some(Status::FAILURE)
    } else if t == "pending"@ {
        Some(Status::PENDING)
    } else {
        None
    }
}

pub open spec fn parse_bool(t: Seq<char>) -> Option<bool> {
    if t == "true"@ {
        Some(true)
    } else if t == "false"@ {
        Some(false)
    } else {
        None
    }
}

/// Reads the compact form of a kind.
pub open spec fn parse_kind(t: Seq<char>) -> Option<KindView> {
    if t == seq!['C'] {
        Some(KindView::Close)
    } else if t.len() >= 2 && (t[0] == 'D' || t[0] == 'W') {
        match parse_u64(t.drop_first()) {
            Some(a) => Some(
                if t[0] == 'D' {
                    KindView::Deposit(a)
                } else {
                    KindView::Withdraw(a)
                },
            ),
            None => None,
        }
    } else if t.len() >= 3 && t[0] == 'T' && t[1] == '(' && t.last() == ')' {
        let g = split(t.subrange(2, t.len() - 1), ':');
        if g.len() == 3 && parse_u64(g[1]) is Some && parse_bool(g[2]) is Some {
            Some(KindView::Transfer(g[0], parse_u64(g[1])->Some_0, parse_bool(g[2])->Some_0))
        } else {
            None
        }
    } else {
        None
    }
}

/// Reads the text of an operation: exactly five comma-separated fields.
pub open spec fn parse_operation(t: Seq<char>) -> Option<OperationView> {
    let f = split(t, ',');
    if f.len() == 5 && parse_u64(f[0]) is Some && parse_u64(f[1]) is Some && parse_kind(
        f[2],
    ) is Some && parse_status(f[3]) is Some {
        Some(
            OperationView {
                id: parse_u64(f[0])->Some_0,
                timestamp: parse_u64(f[1])->Some_0,
                kind: parse_kind(f[2])->Some_0,
                status: parse_status(f[3])->Some_0,
                description: f[4],
            },
        )
    } else {
        None
    }
}


proof fn lemma_status_round_trip(s: Status)
    ensures
        parse_status(status_text(s)) == Some(s),
        lacks(status_text(s), ','),
        lacks(status_text(s), '|'),
{
    reveal_strlit("success");
    reveal_strlit("failure");
    reveal_strlit("pending");
    assert("success"@ != "failure"@) by {
        assert("success"@[0] != "failure"@[0]);
    }
    assert("success"@ != "pending"@) by {
        assert("success"@[0] != "pending"@[0]);
    }
    assert("failure"@ != "pending"@) by {
        assert("failure"@[0] != "pending"@[0]);
    }
}

proof fn lemma_bool_round_trip(b: bool)
    ensures
        parse_bool(bool_text(b)) == Some(b),
        lacks(bool_text(b), ':'),
        lacks(bool_text(b), ','),
        lacks(bool_text(b), '|'),
{
    reveal_strlit("true");
    reveal_strlit("false");
    assert("true"@ != "false"@) by {
        assert("true"@.len() != "false"@.len());
    }
}

/// A number's digits hold none of the separators of the format.
pub proof fn lemma_dec_plain(n: nat)
    ensures
        lacks(dec(n), ','),
        lacks(dec(n), ':'),
        lacks(dec(n), '|'),
        lacks(dec(n), ';'),
        lacks(dec(n), '\n'),
        dec(n).len() >= 1,
{
    lemma_dec(n);
    lemma_digits_lack(dec(n), ',');
    lemma_digits_lack(dec(n), ':');
    lemma_digits_lack(dec(n), '|');
    lemma_digits_lack(dec(n), ';');
    lemma_digits_lack(dec(n), '\n');
}

proof fn lemma_lacks_concat(a: Seq<char>, b: Seq<char>, c: char)
    requires
        lacks(a, c),
        lacks(b, c),
    ensures
        lacks(a + b, c),
{
    assert forall|i: int| 0 <= i < (a + b).len() implies #[trigger] (a + b)[i] != c by {
        if i < a.len() {
            assert((a + b)[i] == a[i]);
        } else {
            assert((a + b)[i] == b[i - a.len()]);
        }
    }
}

proof fn lemma_kind_round_trip(k: KindView)
    requires
        match k {
            KindView::Transfer(n, _, _) => lacks(n, ':') && lacks(n, ',') && lacks(n, '|'),
            _ => true,
        },
    ensures
        parse_kind(kind_text(k)) == Some(k),
        lacks(kind_text(k), ','),
        lacks(kind_text(k), '|'),
{
    let t = kind_text(k);
    match k {
        KindView::Deposit(a) => {
            lemma_dec_plain(a as nat);
            lemma_parse_u64_dec(a);
            assert(t.drop_first() =~= dec(a as nat));
            assert(t.len() != 1);
            lemma_lacks_concat(seq!['D'], dec(a as nat), ',');
            lemma_lacks_concat(seq!['D'], dec(a as nat), '|');
        },
        KindView::Withdraw(a) => {
            lemma_dec_plain(a as nat);
            lemma_parse_u64_dec(a);
            assert(t.drop_first() =~= dec(a as nat));
            assert(t.len() != 1);
            lemma_lacks_concat(seq!['W'], dec(a as nat), ',');
            lemma_lacks_concat(seq!['W'], dec(a as nat), '|');
        },
        KindView::Transfer(n, a, f) => {
            let d = dec(a as nat);
            let b = bool_text(f);
            lemma_dec_plain(a as nat);
            lemma_parse_u64_dec(a);
            lemma_bool_round_trip(f);
            let inner = n + seq![':'] + d + seq![':'] + b;
            assert(t =~= seq!['T', '('] + inner + seq![')']);
            assert(t.subrange(2, t.len() - 1) =~= inner);
            let fs = seq![n, d, b];
            assert(fs.drop_last() =~= seq![n, d]);
            assert(seq![n, d].drop_last() =~= seq![n]);
            assert(join(seq![n], ':') == n);
            assert(join(seq![n, d], ':') == n + seq![':'] + d);
            assert(join(fs, ':') == n + seq![':'] + d + seq![':'] + b);
            assert(join(fs, ':') =~= inner);
            assert forall|i: int| 0 <= i < fs.len() implies lacks(#[trigger] fs[i], ':') by {
                if i == 0 {
                    assert(fs[i] == n);
                } else if i == 1 {
                    assert(fs[i] == d);
                } else {
                    assert(fs[i] == b);
                }
            }
            lemma_split_join(fs, ':');
            assert(t.len() != 1);
            assert(t[0] == 'T');
            assert forall|c: char| c == ',' || c == '|' implies lacks(t, c) by {
                assert(lacks(seq!['T', '('], c));
                assert(lacks(seq![':'], c));
                assert(lacks(seq![')'], c));
                lemma_lacks_concat(seq!['T', '('], n, c);
                lemma_lacks_concat(seq!['T', '('] + n, seq![':'], c);
                lemma_lacks_concat(seq!['T', '('] + n + seq![':'], d, c);
                lemma_lacks_concat(seq!['T', '('] + n + seq![':'] + d, seq![':'], c);
                lemma_lacks_concat(seq!['T', '('] + n + seq![':'] + d + seq![':'], b, c);
                lemma_lacks_concat(seq!['T', '('] + n + seq![':'] + d + seq![':'] + b, seq![')'], c);
            }
        },
        KindView::Close => {
            assert(t =~= seq!['C']);
        },
    }
}

/// The text of an encodable operation holds no `|`, and reads back as the
/// operation itself.
pub proof fn lemma_operation_round_trip(o: OperationView)
    requires
        encodable(o),
    ensures
        parse_operation(operation_text(o)) == Some(o),
        lacks(operation_text(o), '|'),
{
    let f0 = dec(o.id as nat);
    let f1 = dec(o.timestamp as nat);
    let f2 = kind_text(o.kind);
    let f3 = status_text(o.status);
    let f4 = o.description;
    lemma_dec_plain(o.id as nat);
    lemma_dec_plain(o.timestamp as nat);
    lemma_parse_u64_dec(o.id);
    lemma_parse_u64_dec(o.timestamp);
    lemma_kind_round_trip(o.kind);
    lemma_status_round_trip(o.status);
    let fs = seq![f0, f1, f2, f3, f4];
    assert(fs.drop_last() =~= seq![f0, f1, f2, f3]);
    assert(seq![f0, f1, f2, f3].drop_last() =~= seq![f0, f1, f2]);
    assert(seq![f0, f1, f2].drop_last() =~= seq![f0, f1]);
    assert(seq![f0, f1].drop_last() =~= seq![f0]);
    let sep = seq![','];
    assert(join(seq![f0], ',') == f0);
    assert(join(seq![f0, f1], ',') == f0 + sep + f1);
    assert(join(seq![f0, f1, f2], ',') == f0 + sep + f1 + sep + f2);
    assert(join(seq![f0, f1, f2, f3], ',') == f0 + sep + f1 + sep + f2 + sep + f3);
    assert(join(fs, ',') == f0 + sep + f1 + sep + f2 + sep + f3 + sep + f4);
    assert(join(fs, ',') =~= operation_text(o));
    assert forall|i: int| 0 <= i < fs.len() implies lacks(#[trigger] fs[i], ',') by {
        if i == 0 {
            assert(fs[i] == f0);
        } else if i == 1 {
            assert(fs[i] == f1);
        } else if i == 2 {
            assert(fs[i] == f2);
        } else if i == 3 {
            assert(fs[i] == f3);
        } else {
            assert(fs[i] == f4);
        }
    }
    lemma_split_join(fs, ',');
    assert(lacks(sep, '|'));
    lemma_lacks_concat(f0, sep, '|');
    lemma_lacks_concat(f0 + sep, f1, '|');
    lemma_lacks_concat(f0 + sep + f1, sep, '|');
    lemma_lacks_concat(f0 + sep + f1 + sep, f2, '|');
    lemma_lacks_concat(f0 + sep + f1 + sep + f2, sep, '|');
    lemma_lacks_concat(f0 + sep + f1 + sep + f2 + sep, f3, '|');
    lemma_lacks_concat(f0 + sep + f1 + sep + f2 + sep + f3, sep, '|');
    lemma_lacks_concat(f0 + sep + f1 + sep + f2 + sep + f3 + sep, f4, '|');
}


/// What applying an operation of kind `k` to a balance holding `value` gives:
/// the new value, or why it is refused.
pub open spec fn apply_result(value: i128, k: KindView) -> Result<i128, BalanceOpError> {
    match k {
        KindView::Deposit(a) => credit(value, a),
        KindView::Withdraw(a) => debit(value, a),
        KindView::Transfer(_, a, incoming) => if incoming {
            credit(value, a)
        } else {
            debit(value, a)
        },
        KindView::Close => Ok(0),
    }
}

pub open spec fn credit(value: i128, a: u64) -> Result<i128, BalanceOpError> {
    if value + a <= i128::MAX {
        Ok((value + a) as i128)
    } else {
        Err(BalanceOpError::OverLimitSize)
    }
}

pub open spec fn debit(value: i128, a: u64) -> Result<i128, BalanceOpError> {
    if value >= a {
        Ok((value - a) as i128)
    } else {
        Err(BalanceOpError::NotEnoughMoney { required: a, available: value })
    }
}

/// `o` settled with status `s`.
pub open spec fn settled(o: OperationView, s: Status) -> OperationView {
    OperationView {
        id: o.id,
        timestamp: o.timestamp,
        kind: o.kind,
        status: s,
        description: o.description,
    }
}

/// The balance after `o` is applied to `b`. A settled operation changes
/// nothing; a pending one is recorded, settled, whether it succeeds or not,
/// and only a success changes the value.
pub open spec fn step(b: BalanceView, o: OperationView) -> BalanceView {
    if o.status != Status::PENDING {
        b
    } else {
        match apply_result(b.value, o.kind) {
            Ok(v) => BalanceView { value: v, history: b.history.push(settled(o, Status::SUCCESS)) },
            Err(_) => BalanceView {
                value: b.value,
                history: b.history.push(settled(o, Status::FAILURE)),
            },
        }
    }
}

/// What applying `o` to `b` returns.
pub open spec fn step_result(b: BalanceView, o: OperationView) -> Result<(), BalanceOpError> {
    if o.status != Status::PENDING {
        Err(BalanceOpError::InvalidStatus)
    } else {
        match apply_result(b.value, o.kind) {
            Ok(_) => Ok(()),
            Err(e) => Err(e),
        }
    }
}

/// Relies on `SystemTime::elapsed`, measured from the Unix epoch: the current
/// time in whole seconds, or zero where the clock reads earlier than the epoch.
/// Nothing is promised of the value.
#[verifier::external_body]
fn unix_time_secs() -> u64 {
    match std::time::UNIX_EPOCH.elapsed() {
        Ok(d) => d.as_secs(),
        Err(_) => 0,
    }
}

fn parse_status_chars(t: &Vec<char>) -> (r: Option<Status>)
    ensures
        r == parse_status(t@),
{
    if same_chars(t, &chars_of("success")) {
        Some(Status::SUCCESS)
    } else if same_chars(t, &chars_of("failure")) {
        Some(Status::FAILURE)
    } else if same_chars(t, &chars_of("pending")) {
        Some(Status::PENDING)
    } else {
        None
    }
}

fn parse_bool_chars(t: &Vec<char>) -> (r: Option<bool>)
    ensures
        r == parse_bool(t@),
{
    if same_chars(t, &chars_of("true")) {
        Some(true)
    } else if same_chars(t, &chars_of("false")) {
        Some(false)
    } else {
        None
    }
}

fn status_str(s: Status) -> (r: &'static str)
    ensures
        r@ == status_text(s),
{
    match s {
        Status::FAILURE => "failure",
        Status::PENDING => "pending",
        Status::SUCCESS => "success",
    }
}

impl OperationType {
    /// The signed change this kind makes when it succeeds: deposits and
    /// incoming transfers add, withdrawals and outgoing transfers subtract; a
    /// close counts as none.
    pub fn get_amount(&self) -> (r: i128)
        ensures
            r == delta(self@),
    {
        match self {
            OperationType::Deposit(a) => *a as i128,
            OperationType::Withdraw(a) => -(*a as i128),
            OperationType::Transfer(_, a, incoming) => {
                if *incoming {
                    *a as i128
                } else {
                    -(*a as i128)
                }
            },
            OperationType::Close => 0,
        }
    }

    /// Appends the compact form of this kind.
    pub fn write_text(&self, out: &mut String)
        ensures
            final(out)@ == old(out)@ + kind_text(self@),
    {
        match self {
            OperationType::Deposit(a) => {
                push_char(out, 'D');
                push_dec(out, *a as u128);
            },
            OperationType::Withdraw(a) => {
                push_char(out, 'W');
                push_dec(out, *a as u128);
            },
            OperationType::Transfer(n, a, f) => {
                push_char(out, 'T');
                push_char(out, '(');
                push_str(out, n.as_str());
                push_char(out, ':');
                push_dec(out, *a as u128);
                push_char(out, ':');
                push_str(out, if *f { "true" } else { "false" });
                push_char(out, ')');
            },
            OperationType::Close => {
                push_char(out, 'C');
            },
        }
        assert(final(out)@ =~= old(out)@ + kind_text(self@));
    }

    /// Reads the compact form of a kind.
    pub fn parse_chars(t: &Vec<char>) -> (r: Option<OperationType>)
        ensures
            match r {
                Some(k) => parse_kind(t@) == Some(k@),
                None => parse_kind(t@) is None,
            },
    {
        let n = t.len();
        if n == 1 && t[0] == 'C' {
            assert(t@ =~= seq!['C']);
            return Some(OperationType::Close);
        }
        assert(t@ != seq!['C']) by {
            if n == 1 {
                assert(t@[0] != seq!['C'][0]);
            }
        }
        if n >= 2 && (t[0] == 'D' || t[0] == 'W') {
            let rest = slice_chars(t, 1, n);
            assert(rest@ =~= t@.drop_first());
            match parse_u64_chars(&rest) {
                Some(a) => {
                    if t[0] == 'D' {
                        Some(OperationType::Deposit(a))
                    } else {
                        Some(OperationType::Withdraw(a))
                    }
                },
                None => None,
            }
        } else if n >= 3 && t[0] == 'T' && t[1] == '(' && t[n - 1] == ')' {
            let inner = slice_chars(t, 2, n - 1);
            let g = split_chars(&inner, ':');
            if g.len() != 3 {
                return None;
            }
            assert(g@.map_values(|f: Vec<char>| f@)[0] == g@[0]@);
            assert(g@.map_values(|f: Vec<char>| f@)[1] == g@[1]@);
            assert(g@.map_values(|f: Vec<char>| f@)[2] == g@[2]@);
            let a = parse_u64_chars(&g[1]);
            let f = parse_bool_chars(&g[2]);
            match (a, f) {
                (Some(a), Some(f)) => Some(OperationType::Transfer(string_of(&g[0]), a, f)),
                _ => None,
            }
        } else {
            None
        }
    }
}

impl Operation {
    /// A pending operation with the given timestamp. Without a description it
    /// gets `Record number #<id>`.
    pub fn with_timestamp(
        id: u64,
        timestamp: u64,
        tx_type: OperationType,
        description: Option<String>,
    ) -> (r: Operation)
        ensures
            r@ == (OperationView {
                id,
                timestamp,
                kind: tx_type@,
                status: Status::PENDING,
                description: match description {
                    Some(d) => d@,
                    None => default_description(id),
                },
            }),
    {
        let description = match description {
            Some(d) => d,
            None => {
                let mut d = String::new();
                push_str(&mut d, "Record number #");
                push_dec(&mut d, id as u128);
                assert(d@ =~= default_description(id));
                d
            },
        };
        Operation { id, timestamp, tx_type, status: Status::PENDING, description }
    }

    /// A pending operation stamped with the current time.
    pub fn new(id: u64, tx_type: OperationType, description: Option<String>) -> (r: Operation)
        ensures
            r@.id == id,
            r@.kind == tx_type@,
            r@.status == Status::PENDING,
            r@.description == match description {
                Some(d) => d@,
                None => default_description(id),
            },
    {
        let timestamp = unix_time_secs();
        Operation::with_timestamp(id, timestamp, tx_type, description)
    }

    /// A pending deposit of `amount`.
    pub fn deposit(id: u64, amount: OperationAmount) -> (r: Operation)
        ensures
            r@.id == id,
            r@.kind == KindView::Deposit(amount),
            r@.status == Status::PENDING,
            r@.description == default_description(id),
    {
        Operation::new(id, OperationType::Deposit(amount), None)
    }

    /// A pending withdrawal of `amount`.
    pub fn withdraw(id: u64, amount: OperationAmount) -> (r: Operation)
        ensures
            r@.id == id,
            r@.kind == KindView::Withdraw(amount),
            r@.status == Status::PENDING,
            r@.description == default_description(id),
    {
        Operation::new(id, OperationType::Withdraw(amount), None)
    }

    /// A pending transfer of `amount` with counterparty `name`; `is_to` marks
    /// money coming in.
    pub fn transfer(id: u64, name: String, amount: OperationAmount, is_to: bool) -> (r: Operation)
        ensures
            r@.id == id,
            r@.kind == KindView::Transfer(name@, amount, is_to),
            r@.status == Status::PENDING,
            r@.description == default_description(id),
    {
        Operation::new(id, OperationType::Transfer(name, amount, is_to), None)
    }

    /// A pending close of the account.
    pub fn close(id: u64) -> (r: Operation)
        ensures
            r@.id == id,
            r@.kind == KindView::Close,
            r@.status == Status::PENDING,
            r@.description == default_description(id),
    {
        Operation::new(id, OperationType::Close, None)
    }

    pub fn set_status(&mut self, status: Status)
        ensures
            final(self)@ == settled(old(self)@, status),
    {
        self.status = status;
    }

    /// Applies this operation to `balance`: a pending operation is settled and
    /// recorded in the history whether it succeeds or fails; a settled one is
    /// refused with `InvalidStatus` and changes nothing.
    pub fn apply(self, balance: &mut Balance) -> (r: Result<(), BalanceOpError>)
        ensures
            final(balance)@ == step(old(balance)@, self@),
            r == step_result(old(balance)@, self@),
    {
        balance.record(self)
    }

    /// Appends the text of this operation.
    pub fn write_text(&self, out: &mut String)
        ensures
            final(out)@ == old(out)@ + operation_text(self@),
    {
        push_dec(out, self.id as u128);
        push_char(out, ',');
        push_dec(out, self.timestamp as u128);
        push_char(out, ',');
        self.tx_type.write_text(out);
        push_char(out, ',');
        push_str(out, status_str(self.status));
        push_char(out, ',');
        push_str(out, self.description.as_str());
        assert(final(out)@ =~= old(out)@ + operation_text(self@));
    }

    /// The text of this operation: `id,timestamp,kind,status,description`.
    pub fn to_text(&self) -> (r: String)
        ensures
            r@ == operation_text(self@),
    {
        let mut out = String::new();
        self.write_text(&mut out);
        assert(out@ =~= operation_text(self@));
        out
    }

    /// Reads the text of an operation; a malformed one gives `ParseError`
    /// carrying that text.
    pub fn parse_chars(t: &Vec<char>) -> (r: Result<Operation, BalanceOpError>)
        ensures
            match r {
                Ok(o) => parse_operation(t@) == Some(o@),
                Err(e) => parse_operation(t@) is None && (e matches BalanceOpError::ParseError(m)
                    && m@ == t@),
            },
    {
        let f = split_chars(t, ',');
        if f.len() != 5 {
            return Err(BalanceOpError::ParseError(string_of(t)));
        }
        assert(f@.map_values(|x: Vec<char>| x@)[0] == f@[0]@);
        assert(f@.map_values(|x: Vec<char>| x@)[1] == f@[1]@);
        assert(f@.map_values(|x: Vec<char>| x@)[2] == f@[2]@);
        assert(f@.map_values(|x: Vec<char>| x@)[3] == f@[3]@);
        assert(f@.map_values(|x: Vec<char>| x@)[4] == f@[4]@);
        let id = parse_u64_chars(&f[0]);
        let timestamp = parse_u64_chars(&f[1]);
        let kind = OperationType::parse_chars(&f[2]);
        let status = parse_status_chars(&f[3]);
        match (id, timestamp, kind, status) {
            (Some(id), Some(timestamp), Some(tx_type), Some(status)) => Ok(
                Operation { id, timestamp, tx_type, status, description: string_of(&f[4]) },
            ),
            _ => Err(BalanceOpError::ParseError(string_of(t))),
        }
    }

    /// Reads the text of an operation.
    pub fn parse(text: &str) -> (r: Result<Operation, BalanceOpError>)
        ensures
            match r {
                Ok(o) => parse_operation(text@) == Some(o@),
                Err(e) => parse_operation(text@) is None && (e matches BalanceOpError::ParseError(m)
                    && m@ == text@),
            },
    {
        let t = chars_of(text);
        Operation::parse_chars(&t)
    }
}

} // verus!
