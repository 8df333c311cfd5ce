use bank::balance::Balance;
use bank::operation::{BalanceOpError, Operation, OperationType, Status};

#[test]
fn test_balance_op_apply_deposit() {
    let mut balance = Balance::new(100, vec![]);
    let result = Operation::deposit(1, 50).apply(&mut balance);

    assert_eq!(result, Ok(()));
    assert_eq!(balance.get_value(), 150);
    assert_eq!(balance.get_history().len(), 1);
    assert_eq!(balance.get_history().last().unwrap().status, Status::SUCCESS);
}

#[test]
fn test_balance_op_apply_withdraw() {
    let mut balance = Balance::new(100, vec![]);
    let result = Operation::withdraw(1, 50).apply(&mut balance);

    assert_eq!(result, Ok(()));
    assert_eq!(balance.get_value(), 50);
    assert_eq!(balance.get_history().len(), 1);
    assert_eq!(balance.get_history().last().unwrap().status, Status::SUCCESS);
}

#[test]
fn test_balance_op_apply_transfer() {
    let mut balance_from = Balance::new(100, vec![]);
    let mut balance_to = Balance::new(25, vec![]);
    let result_from = Operation::transfer(1, "to".into(), 50, false).apply(&mut balance_from);
    let result_to = Operation::transfer(1, "from".into(), 50, true).apply(&mut balance_to);

    assert_eq!(result_from, Ok(()));
    assert_eq!(result_to, Ok(()));
    assert_eq!(balance_from.get_value(), 50);
    assert_eq!(balance_to.get_value(), 75);
    assert_eq!(balance_from.get_history().len(), 1);
    assert_eq!(balance_to.get_history().len(), 1);
    assert_eq!(balance_from.get_history().last().unwrap().status, Status::SUCCESS);
    assert_eq!(balance_to.get_history().last().unwrap().status, Status::SUCCESS);
}

#[test]
fn test_balance_op_apply_close() {
    let mut balance = Balance::new(100, vec![]);
    let result = Operation::close(1).apply(&mut balance);

    assert_eq!(result, Ok(()));
    assert_eq!(balance.get_value(), 0);
    assert_eq!(balance.get_history().len(), 1);
    assert_eq!(balance.get_history().last().unwrap().status, Status::SUCCESS);
}

#[test]
fn test_balance_op_apply_invalid_status() {
    let mut balance = Balance::new(100, vec![]);
    let mut op = Operation::withdraw(1, 150);
    op.set_status(Status::SUCCESS);
    let result = op.apply(&mut balance);

    assert_eq!(result, Err(BalanceOpError::InvalidStatus));
    assert_eq!(balance.get_value(), 100);
    assert_eq!(balance.get_history().len(), 0);
}

#[test]
fn test_balance_op_apply_invalid_money() {
    let mut balance = Balance::new(100, vec![]);
    let result = Operation::withdraw(1, 150).apply(&mut balance);
    assert_eq!(
        result,
        Err(BalanceOpError::NotEnoughMoney {
            required: 150,
            available: 100,
        })
    );
    assert_eq!(balance.get_value(), 100);
    assert_eq!(balance.get_history().len(), 1);
    assert_eq!(balance.get_history().last().unwrap().status, Status::FAILURE);
}

#[test]
fn test_balance_op_set_status() {
    let mut op = Operation::withdraw(1, 150);
    op.set_status(Status::SUCCESS);
    assert_eq!(op.status, Status::SUCCESS);

    op.set_status(Status::FAILURE);
    assert_eq!(op.status, Status::FAILURE);

    op.set_status(Status::PENDING);
    assert_eq!(op.status, Status::PENDING);
}

#[test]
fn new_operation_is_pending_with_default_description() {
    let op = Operation::deposit(7, 10);
    assert_eq!(op.status, Status::PENDING);
    assert_eq!(op.id, 7);
    assert_eq!(op.description, "Record number #7");
    let named = Operation::new(3, OperationType::Close, Some("closing".to_string()));
    assert_eq!(named.description, "closing");
    assert_eq!(named.tx_type, OperationType::Close);
}

#[test]
fn deposit_past_the_largest_value_is_over_limit() {
    let mut balance = Balance::new(i128::MAX - 5, vec![]);
    let result = Operation::deposit(1, 6).apply(&mut balance);
    assert_eq!(result, Err(BalanceOpError::OverLimitSize));
    assert_eq!(balance.get_value(), i128::MAX - 5);
    assert_eq!(balance.get_history().len(), 1);
    assert_eq!(balance.get_history()[0].status, Status::FAILURE);

    let mut exact = Balance::new(i128::MAX - 5, vec![]);
    assert_eq!(Operation::deposit(1, 5).apply(&mut exact), Ok(()));
    assert_eq!(exact.get_value(), i128::MAX);
}

#[test]
fn incoming_transfer_past_the_largest_value_is_over_limit() {
    let mut balance = Balance::new(i128::MAX, vec![]);
    let result = Operation::transfer(1, "x".into(), 1, true).apply(&mut balance);
    assert_eq!(result, Err(BalanceOpError::OverLimitSize));
    assert_eq!(balance.get_value(), i128::MAX);
}

#[test]
fn outgoing_transfer_beyond_the_value_fails_and_is_recorded() {
    let mut balance = Balance::new(40, vec![]);
    let result = Operation::transfer(1, "bob".into(), 41, false).apply(&mut balance);
    assert_eq!(
        result,
        Err(BalanceOpError::NotEnoughMoney {
            required: 41,
            available: 40,
        })
    );
    assert_eq!(balance.get_value(), 40);
    assert_eq!(balance.get_history().len(), 1);
    assert_eq!(balance.get_history()[0].status, Status::FAILURE);
}

#[test]
fn withdrawing_everything_leaves_zero() {
    let mut balance = Balance::new(30, vec![]);
    assert_eq!(Operation::withdraw(1, 30).apply(&mut balance), Ok(()));
    assert_eq!(balance.get_value(), 0);
}

#[test]
fn applying_a_recorded_operation_again_is_refused() {
    let mut balance = Balance::new(10, vec![]);
    assert_eq!(Operation::deposit(1, 5).apply(&mut balance), Ok(()));
    let again = balance.get_history()[0].clone();
    assert_eq!(again.apply(&mut balance), Err(BalanceOpError::InvalidStatus));
    assert_eq!(balance.get_value(), 15);
    assert_eq!(balance.get_history().len(), 1);
}

#[test]
fn get_amount_is_the_signed_change() {
    assert_eq!(OperationType::Deposit(12).get_amount(), 12);
    assert_eq!(OperationType::Withdraw(12).get_amount(), -12);
    assert_eq!(OperationType::Transfer("a".into(), 9, true).get_amount(), 9);
    assert_eq!(OperationType::Transfer("a".into(), 9, false).get_amount(), -9);
    assert_eq!(OperationType::Close.get_amount(), 0);
}

#[test]
fn operation_text_has_five_fields() {
    let op = Operation::with_timestamp(3, 1764444535, OperationType::Transfer("Julia".into(), 200, true), None);
    assert_eq!(op.to_text(), "3,1764444535,T(Julia:200:true),pending,Record number #3");
    let w = Operation::with_timestamp(12, 0, OperationType::Withdraw(0), Some("x".into()));
    assert_eq!(w.to_text(), "12,0,W0,pending,x");
    let c = Operation::with_timestamp(1, 5, OperationType::Close, Some(String::new()));
    assert_eq!(c.to_text(), "1,5,C,pending,");
}

#[test]
fn operation_text_reads_back() {
    let op = Operation::parse("1,1764444526,D100,success,Record number #1").unwrap();
    assert_eq!(op.id, 1);
    assert_eq!(op.timestamp, 1764444526);
    assert_eq!(op.tx_type, OperationType::Deposit(100));
    assert_eq!(op.status, Status::SUCCESS);
    assert_eq!(op.description, "Record number #1");
    let t = Operation::parse("3,1764444535,T(Julia:200:false),failure,x").unwrap();
    assert_eq!(t.tx_type, OperationType::Transfer("Julia".into(), 200, false));
    assert_eq!(t.status, Status::FAILURE);
    let c = Operation::parse("9,9,C,pending,").unwrap();
    assert_eq!(c.tx_type, OperationType::Close);
    assert_eq!(c.status, Status::PENDING);
    assert_eq!(c.description, "");
}

#[test]
fn malformed_operation_text_is_a_parse_error() {
    for text in [
        "1,1764444526,O100,success,Record number #1",
        "1,1764444526,D,success,x",
        "1,1764444526,Dx,success,x",
        "1,1764444526,C1,success,x",
        "1,1764444526,T(Julia:200:maybe),success,x",
        "1,1764444526,T(Julia:2x0:true),success,x",
        "1,1764444526,T(Julia:200),success,x",
        "1,1764444526,D100,done,x",
        "a,1764444526,D100,success,x",
        "1,,D100,success,x",
        "1,1764444526,D100,success",
        "1,1764444526,D100,success,x,y",
        "",
    ] {
        assert_eq!(
            Operation::parse(text),
            Err(BalanceOpError::ParseError(text.to_string())),
            "{}",
            text
        );
    }
}

#[test]
fn numbers_read_as_std_reads_them() {
    let op = Operation::parse("+1,007,D+5,pending,x").unwrap();
    assert_eq!(op.id, 1);
    assert_eq!(op.timestamp, 7);
    assert_eq!(op.tx_type, OperationType::Deposit(5));
    let max = Operation::parse("18446744073709551615,0,W18446744073709551615,pending,x").unwrap();
    assert_eq!(max.id, u64::MAX);
    assert_eq!(max.tx_type, OperationType::Withdraw(u64::MAX));
    assert!(Operation::parse("18446744073709551616,0,C,pending,x").is_err());
    assert!(Operation::parse("-1,0,C,pending,x").is_err());
}
