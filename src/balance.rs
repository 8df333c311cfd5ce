//! A balance: a signed value and the ordered record of every operation applied
//! to it, with the text form `<value>,[<op>|<op>|...]`.
use vstd::prelude::*;

use crate::operation::{
    encodable, lemma_dec_plain, lemma_operation_round_trip, operation_text, parse_operation,
    credit, debit, settled, step, step_result, BalanceOpError, KindView, Operation, OperationType,
    OperationView, Status,
};
use crate::text::{
    chars_of, dec, dec_i128, find_char, join, lacks, lemma_parse_i128_dec, lemma_split_join,
    lemma_split_once_at, parse_i128, parse_i128_chars, push_char, push_i128, slice_chars, split,
    split_chars, split_once, string_of,
};

verus! {

/// The value an account holds.
pub type BalanceSize = i128;

/// A value and the history of the operations applied to it, oldest first.
#[derive(Debug, Clone, PartialEq)]
pub struct Balance {
    value: BalanceSize,
    history: Vec<Operation>,
}

pub ghost struct BalanceView {
    pub value: i128,
    pub history: Seq<OperationView>,
}

impl View for Balance {
    type V = BalanceView;

    closed spec fn view(&self) -> BalanceView {
        BalanceView { value: self.value, history: self.history@.map_values(|o: Operation| o@) }
    }
}

/// Why the text of a balance could not be read.
#[derive(Debug, Clone, PartialEq)]
pub enum BalanceError {
    /// One of the operations is malformed.
    InvalidParseOperation(BalanceOpError),
    /// The value, the `,` after it or the brackets round the history are
    /// missing or malformed; it carries the text at fault.
    InvalidParseBalance(String),
}

/// The balance after each of `ops` is applied in turn.
pub open spec fn run(b: BalanceView, ops: Seq<OperationView>) -> BalanceView
    decreases ops.len(),
{
    if ops.len() == 0 {
        b
    } else {
        step(run(b, ops.drop_last()), ops.last())
    }
}

/// The signed change that a successful operation other than a close makes.
pub open spec fn delta(k: KindView) -> int {
    match k {
        KindView::Deposit(a) => a as int,
        KindView::Withdraw(a) => -(a as int),
        KindView::Transfer(_, a, incoming) => if incoming {
            a as int
        } else {
            -(a as int)
        },
        KindView::Close => 0,
    }
}

/// The sum of the changes that the successful records of `h` made.
pub open spec fn total(h: Seq<OperationView>) -> int
    decreases h.len(),
{
    if h.len() == 0 {
        0
    } else {
        total(h.drop_last()) + if h.last().status == Status::SUCCESS {
            delta(h.last().kind)
        } else {
            0
        }
    }
}

/// The value that a history accounts for, starting from zero: the changes of
/// the successful records since the last successful close.
pub open spec fn ledger_value(h: Seq<OperationView>) -> int
    decreases h.len(),
{
    if h.len() == 0 {
        0
    } else if h.last().status == Status::SUCCESS && h.last().kind is Close {
        0
    } else {
        ledger_value(h.drop_last()) + if h.last().status == Status::SUCCESS {
            delta(h.last().kind)
        } else {
            0
        }
    }
}

/// The text of a balance: `<value>,[<op>|<op>|...]`.
pub open spec fn balance_text(b: BalanceView) -> Seq<char> {
    dec_i128(b.value) + seq![',', '['] + join(b.history.map_values(|o: OperationView| operation_text(o)), '|')
        + seq![']']
}

/// The value and the text between the brackets, when the text before the
/// history is well formed.
pub open spec fn parse_head(t: Seq<char>) -> Option<(i128, Seq<char>)> {
    match split_once(t, ',') {
        None => None,
        Some((v, rest)) => match parse_i128(v) {
            None => None,
            Some(value) => if rest.len() >= 2 && rest[0] == '[' && rest.last() == ']' {
                Some((value, rest.subrange(1, rest.len() - 1)))
            } else {
                None
            },
        },
    }
}

/// The texts of the operations between the brackets: none when empty.
pub open spec fn history_parts(inner: Seq<char>) -> Seq<Seq<char>> {
    if inner.len() == 0 {
        Seq::empty()
    } else {
        split(inner, '|')
    }
}

/// Reads the text of a balance.
pub open spec fn parse_balance(t: Seq<char>) -> Option<BalanceView> {
    match parse_head(t) {
        None => None,
        Some((value, inner)) => {
            let parts = history_parts(inner);
            if forall|i: int| 0 <= i < parts.len() ==> (#[trigger] parse_operation(parts[i])) is Some {
                Some(
                    BalanceView {
                        value,
                        history: parts.map_values(|p: Seq<char>| parse_operation(p)->Some_0),
                    },
                )
            } else {
                None
            }
        },
    }
}

/// What reading the text `t` of a balance returns: the balance it describes;
/// `InvalidParseBalance` where the value, the comma after it or the brackets
/// round the history are malformed; otherwise `InvalidParseOperation` with the
/// error of the first malformed operation.
pub open spec fn read_result(t: Seq<char>, r: Result<Balance, BalanceError>) -> bool {
    match r {
        Ok(b) => parse_balance(t) == Some(b@),
        Err(BalanceError::InvalidParseBalance(_)) => parse_head(t) is None,
        Err(BalanceError::InvalidParseOperation(e)) => parse_head(t) matches Some((_, inner))
            && exists|i: int|
            0 <= i < history_parts(inner).len() && parse_operation(
                #[trigger] history_parts(inner)[i],
            ) is None && (e matches BalanceOpError::ParseError(m) && m@ == history_parts(inner)[i])
                && forall|j: int| 0 <= j < i ==> parse_operation(history_parts(inner)[j]) is Some,
    }
}

impl Default for Balance {
    /// A zero balance with no history.
    fn default() -> (r: Balance)
        ensures
            r@ == (BalanceView { value: 0, history: Seq::empty() }),
    {
        let r = Balance::new(0, Vec::new());
        assert(r@.history =~= Seq::<OperationView>::empty());
        r
    }
}

impl Balance {
    pub fn new(value: BalanceSize, history: Vec<Operation>) -> (r: Balance)
        ensures
            r@ == (BalanceView { value, history: history@.map_values(|o: Operation| o@) }),
    {
        Balance { value, history }
    }

    pub fn get_value(&self) -> (r: BalanceSize)
        ensures
            r == self@.value,
    {
        self.value
    }

    pub fn get_history(&self) -> (r: &Vec<Operation>)
        ensures
            r@.map_values(|o: Operation| o@) == self@.history,
    {
        &self.history
    }

    /// Settles `op` against this balance and records it: the rules of
    /// `Operation::apply`.
    pub(crate) fn record(&mut self, op: Operation) -> (r: Result<(), BalanceOpError>)
        ensures
            final(self)@ == step(old(self)@, op@),
            r == step_result(old(self)@, op@),
    {
        let ghost b0 = self@;
        let ghost o0 = op@;
        let mut op = op;
        if op.status != Status::PENDING {
            return Err(BalanceOpError::InvalidStatus);
        }
        let value = self.value;
        let result: Result<i128, BalanceOpError> = match &op.tx_type {
            OperationType::Deposit(a) => credit_value(value, *a),
            OperationType::Withdraw(a) => debit_value(value, *a),
            OperationType::Transfer(_, a, incoming) => {
                if *incoming {
                    credit_value(value, *a)
                } else {
                    debit_value(value, *a)
                }
            },
            OperationType::Close => Ok(0),
        };
        match result {
            Ok(v) => {
                self.value = v;
                op.set_status(Status::SUCCESS);
                self.history.push(op);
                assert(self@.history =~= b0.history.push(settled(o0, Status::SUCCESS)));
                Ok(())
            },
            Err(e) => {
                op.set_status(Status::FAILURE);
                self.history.push(op);
                assert(self@.history =~= b0.history.push(settled(o0, Status::FAILURE)));
                Err(e)
            },
        }
    }

    /// Applies `op` to this balance (see `Operation::apply`).
    pub fn apply_op(&mut self, op: Operation) -> (r: Result<(), BalanceOpError>)
        ensures
            final(self)@ == step(old(self)@, op@),
            r == step_result(old(self)@, op@),
    {
        op.apply(self)
    }

    /// Applies `ops` in order and tells for each whether it succeeded; every
    /// one that was pending is recorded either way.
    pub fn proccess(&mut self, ops: Vec<Operation>) -> (r: Vec<bool>)
        ensures
            final(self)@ == run(old(self)@, ops@.map_values(|o: Operation| o@)),
            r@.len() == ops@.len(),
            forall|k: int|
                0 <= k < ops@.len() ==> r@[k] == step_result(
                    run(old(self)@, ops@.map_values(|o: Operation| o@).take(k)),
                    ops@[k]@,
                ) is Ok,
    {
        let ghost b0 = self@;
        let ghost vs = ops@.map_values(|o: Operation| o@);
        let mut done: Vec<bool> = Vec::new();
        let mut ops = ops;
        let n = ops.len();
        let mut k: usize = 0;
        assert(vs.take(0) =~= Seq::<OperationView>::empty());
        assert(vs.skip(0) =~= vs);
        while ops.len() > 0
            invariant
                k + ops.len() == n,
                n == vs.len(),
                ops@.map_values(|o: Operation| o@) == vs.skip(k as int),
                self@ == run(b0, vs.take(k as int)),
                done@.len() == k,
                forall|j: int|
                    0 <= j < k ==> done@[j] == step_result(run(b0, vs.take(j)), vs[j]) is Ok,
            decreases ops.len(),
        {
            let ghost before_ops = ops@;
            let o = ops.remove(0);
            assert(before_ops.map_values(|o: Operation| o@)[0] == before_ops[0]@);
            assert(o@ == vs[k as int]);
            assert forall|q: int| 0 <= q < ops@.len() implies #[trigger] ops@[q]@ == vs.skip(
                k + 1,
            )[q] by {
                assert(ops@[q] == before_ops[q + 1]);
                assert(before_ops.map_values(|o: Operation| o@)[q + 1] == before_ops[q + 1]@);
            }
            assert(ops@.map_values(|o: Operation| o@) =~= vs.skip(k + 1));
            let res = o.apply(self);
            assert(vs.take(k + 1).drop_last() =~= vs.take(k as int));
            done.push(res.is_ok());
            k += 1;
        }
        assert(vs.take(k as int) =~= vs);
        done
    }

    /// The text of this balance: `<value>,[<op>|<op>|...]`.
    pub fn save(&self) -> (r: String)
        ensures
            r@ == balance_text(self@),
    {
        let ghost texts = self@.history.map_values(|o: OperationView| operation_text(o));
        let mut out = String::new();
        push_i128(&mut out, self.value);
        push_char(&mut out, ',');
        push_char(&mut out, '[');
        let ghost head = out@;
        let mut i: usize = 0;
        assert(texts.take(0) =~= Seq::<Seq<char>>::empty());
        while i < self.history.len()
            invariant
                i <= self.history.len(),
                texts == self@.history.map_values(|o: OperationView| operation_text(o)),
                out@ == head + join(texts.take(i as int), '|'),
            decreases self.history.len() - i,
        {
            if i > 0 {
                push_char(&mut out, '|');
            }
            self.history[i].write_text(&mut out);
            assert(texts[i as int] == operation_text(self.history@[i as int]@));
            assert(texts.take(i + 1).drop_last() =~= texts.take(i as int));
            if i == 0 {
                assert(join(texts.take(1), '|') == texts.take(1)[0]);
            }
            assert(out@ =~= head + join(texts.take(i + 1), '|'));
            i += 1;
        }
        assert(texts.take(i as int) =~= texts);
        push_char(&mut out, ']');
        assert(out@ =~= balance_text(self@));
        out
    }

    /// Reads the text of a balance. A malformed value, comma or bracket gives
    /// `InvalidParseBalance`; otherwise the first malformed operation gives
    /// `InvalidParseOperation`.
    pub fn parse(text: &str) -> (r: Result<Balance, BalanceError>)
        ensures
            read_result(text@, r),
    {
        let t = chars_of(text);
        Balance::parse_chars(&t)
    }

    /// Reads the text of a balance, given as its characters.
    pub fn parse_chars(t: &Vec<char>) -> (r: Result<Balance, BalanceError>)
        ensures
            read_result(t@, r),
    {
        let i = match find_char(t, ',') {
            Some(i) => i,
            None => {
                return Err(BalanceError::InvalidParseBalance(string_of(t)));
            },
        };
        let vpart = slice_chars(t, 0, i);
        assert(vpart@ =~= t@.take(i as int));
        let value = match parse_i128_chars(&vpart) {
            Some(v) => v,
            None => {
                return Err(BalanceError::InvalidParseBalance(string_of(&vpart)));
            },
        };
        let len = t.len();
        assert(i < len);
        let rest = slice_chars(t, i + 1, len);
        assert(rest@ =~= t@.skip(i + 1));
        let n = rest.len();
        if n < 2 || rest[0] != '[' || rest[n - 1] != ']' {
            return Err(BalanceError::InvalidParseBalance(string_of(&rest)));
        }
        let inner = slice_chars(&rest, 1, n - 1);
        assert(split_once(t@, ',') == Some((vpart@, rest@)));
        assert(inner@ =~= rest@.subrange(1, rest@.len() - 1));
        assert(parse_head(t@) == Some((value, inner@)));
        let ghost parts = history_parts(inner@);
        let mut history: Vec<Operation> = Vec::new();
        if inner.len() > 0 {
            let segs = split_chars(&inner, '|');
            assert(segs@.map_values(|f: Vec<char>| f@) == parts);
            let mut j: usize = 0;
            while j < segs.len()
                invariant
                    j <= segs.len(),
                    segs@.map_values(|f: Vec<char>| f@) == parts,
                    parts == history_parts(inner@),
                    parse_head(t@) == Some((value, inner@)),
                    forall|q: int| 0 <= q < j ==> (#[trigger] parse_operation(parts[q])) is Some,
                    history@.map_values(|o: Operation| o@) == parts.take(j as int).map_values(
                        |p: Seq<char>| parse_operation(p)->Some_0,
                    ),
                decreases segs.len() - j,
            {
                assert(segs@.map_values(|f: Vec<char>| f@)[j as int] == segs@[j as int]@);
                match Operation::parse_chars(&segs[j]) {
                    Ok(o) => {
                        history.push(o);
                        assert(parts.take(j + 1).map_values(
                            |p: Seq<char>| parse_operation(p)->Some_0,
                        ) =~= parts.take(j as int).map_values(
                            |p: Seq<char>| parse_operation(p)->Some_0,
                        ).push(parse_operation(parts[j as int])->Some_0));
                    },
                    Err(e) => {
                        assert(exists|w: int|
                            0 <= w < history_parts(inner@).len() && parse_operation(
                                #[trigger] history_parts(inner@)[w],
                            ) is None && (e matches BalanceOpError::ParseError(m) && m@
                                == history_parts(inner@)[w]) && forall|q: int|
                                0 <= q < w ==> parse_operation(history_parts(inner@)[q]) is Some);
                        return Err(BalanceError::InvalidParseOperation(e));
                    },
                }
                j += 1;
            }
            assert(parts.take(j as int) =~= parts);
        } else {
            assert(parts.take(0) =~= parts);
        }
        let r = Balance { value, history };
        assert(r@.history =~= parts.map_values(|p: Seq<char>| parse_operation(p)->Some_0));
        Ok(r)
    }
}


/// Whether every operation of `b` can be written and read back.
pub open spec fn encodable_balance(b: BalanceView) -> bool {
    forall|i: int| 0 <= i < b.history.len() ==> encodable(#[trigger] b.history[i])
}

/// A balance whose value is what its history accounts for keeps that agreement
/// through any operation applied to it; a fresh balance starts in agreement.
pub proof fn lemma_value_follows_history(b: BalanceView, o: OperationView)
    requires
        b.value == ledger_value(b.history),
    ensures
        step(b, o).value == ledger_value(step(b, o).history),
        ledger_value(Seq::<OperationView>::empty()) == 0,
{
    let a = step(b, o);
    if o.status == Status::PENDING {
        assert(a.history.drop_last() =~= b.history);
    }
}

/// Applying pending deposits and withdrawals in turn changes the value by
/// exactly the sum of what the successful ones deposited less what they
/// withdrew; each one adds one record.
pub proof fn lemma_run_total(b: BalanceView, ops: Seq<OperationView>)
    requires
        forall|i: int|
            0 <= i < ops.len() ==> (#[trigger] ops[i]).status == Status::PENDING && (
            ops[i].kind is Deposit || ops[i].kind is Withdraw),
    ensures
        run(b, ops).history.len() == b.history.len() + ops.len(),
        run(b, ops).value == b.value + total(run(b, ops).history.skip(b.history.len() as int)),
    decreases ops.len(),
{
    let n = b.history.len() as int;
    if ops.len() == 0 {
        assert(b.history.skip(n) =~= Seq::<OperationView>::empty());
    } else {
        let init = ops.drop_last();
        assert forall|i: int| 0 <= i < init.len() implies (#[trigger] init[i]).status
            == Status::PENDING && (init[i].kind is Deposit || init[i].kind is Withdraw) by {
            assert(init[i] == ops[i]);
        }
        lemma_run_total(b, init);
        let r0 = run(b, init);
        let o = ops.last();
        assert(o == ops[ops.len() - 1]);
        let r1 = run(b, ops);
        assert(r1 == step(r0, o));
        assert(r1.history.skip(n).drop_last() =~= r0.history.skip(n));
    }
}

/// A pending close always succeeds and leaves the value at zero, whatever came
/// before.
pub proof fn lemma_close_resets(b: BalanceView, o: OperationView)
    requires
        o.status == Status::PENDING,
        o.kind is Close,
    ensures
        step_result(b, o) is Ok,
        step(b, o).value == 0,
        step(b, o).history == b.history.push(settled(o, Status::SUCCESS)),
{
}

/// A withdrawal or outgoing transfer of more than the value never succeeds: it
/// is refused, recorded as a failure, and the value stays as it was.
pub proof fn lemma_no_overdraft(b: BalanceView, o: OperationView, amount: u64)
    requires
        o.status == Status::PENDING,
        match o.kind {
            KindView::Withdraw(a) => a == amount,
            KindView::Transfer(_, a, incoming) => !incoming && a == amount,
            _ => false,
        },
        amount > b.value,
    ensures
        step_result(b, o) == Err::<(), BalanceOpError>(
            BalanceOpError::NotEnoughMoney { required: amount, available: b.value },
        ),
        step(b, o).value == b.value,
        step(b, o).history == b.history.push(settled(o, Status::FAILURE)),
{
}

proof fn lemma_join_nonempty(fs: Seq<Seq<char>>, sep: char)
    requires
        fs.len() >= 1,
        fs[0].len() >= 1,
    ensures
        join(fs, sep).len() >= 1,
    decreases fs.len(),
{
    if fs.len() > 1 {
        lemma_join_nonempty(fs.drop_last(), sep);
    }
}

/// The text of a balance reads back as that balance. So a well-formed text,
/// one written from some balance, is given back unchanged by saving what was
/// read from it.
pub proof fn lemma_balance_round_trip(b: BalanceView)
    requires
        encodable_balance(b),
    ensures
        parse_balance(balance_text(b)) == Some(b),
        balance_text(parse_balance(balance_text(b))->Some_0) == balance_text(b),
{
    let texts = b.history.map_values(|o: OperationView| operation_text(o));
    let j = join(texts, '|');
    let a = dec_i128(b.value);
    let rest = seq!['['] + j + seq![']'];
    let t = balance_text(b);
    assert(t =~= a + seq![','] + rest);
    assert(lacks(a, ',')) by {
        if b.value < 0 {
            lemma_dec_plain((-b.value) as nat);
            assert forall|i: int| 0 <= i < a.len() implies #[trigger] a[i] != ',' by {
                if i > 0 {
                    assert(a[i] == dec((-b.value) as nat)[i - 1]);
                }
            }
        } else {
            lemma_dec_plain(b.value as nat);
        }
    }
    lemma_split_once_at(a, rest, ',');
    lemma_parse_i128_dec(b.value);
    assert(rest.subrange(1, rest.len() - 1) =~= j);
    assert(parse_head(t) == Some((b.value, j)));
    assert forall|i: int| 0 <= i < texts.len() implies parse_operation(#[trigger] texts[i]) == Some(
        b.history[i],
    ) && lacks(texts[i], '|') by {
        lemma_operation_round_trip(b.history[i]);
    }
    if b.history.len() == 0 {
        assert(texts =~= Seq::<Seq<char>>::empty());
        assert(history_parts(j) =~= Seq::<Seq<char>>::empty());
        assert(b.history =~= Seq::<OperationView>::empty());
        assert(history_parts(j).map_values(|p: Seq<char>| parse_operation(p)->Some_0)
            =~= b.history);
    } else {
        lemma_dec_plain(b.history[0].id as nat);
        assert(texts[0].len() >= 1);
        lemma_join_nonempty(texts, '|');
        lemma_split_join(texts, '|');
        assert(history_parts(j) == texts);
        assert(history_parts(j).map_values(|p: Seq<char>| parse_operation(p)->Some_0)
            =~= b.history);
    }
}

fn credit_value(value: i128, a: u64) -> (r: Result<i128, BalanceOpError>)
    ensures
        r == credit(value, a),
{
    if value <= i128::MAX - (a as i128) {
        Ok(value + a as i128)
    } else {
        Err(BalanceOpError::OverLimitSize)
    }
}

fn debit_value(value: i128, a: u64) -> (r: Result<i128, BalanceOpError>)
    ensures
        r == debit(value, a),
{
    if value >= a as i128 {
        Ok(value - a as i128)
    } else {
        Err(BalanceOpError::NotEnoughMoney { required: a, available: value })
    }
}

} // verus!
