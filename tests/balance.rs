use bank::balance::{Balance, BalanceError};
use bank::operation::{BalanceOpError, Operation, OperationType, Status};

#[test]
fn test_balance_try_from() {
    let balance = "100,[1,1764444526,D100,success,Record number #1|3,1764444535,T(Julia:200:true),success,Record number #3]".to_string();
    let balance = Balance::parse(&balance);
    assert!(balance.is_ok());
}

#[test]
fn test_balance_try_from_error() {
    let balance = "100,[1,1764444526,D100,success,Record number #1|3,1764444535,O(Julia:200:true),success,Record number #3".to_string();
    let balance = Balance::parse(&balance);
    assert!(balance.is_err());
}

#[test]
fn test_balance_load_save() {
    let balance = Balance::parse("100,[1,1764444526,D100,success,Record number #1|3,1764444535,T(Julia:200:true),success,Record number #3]");
    assert!(balance.is_ok());

    let balance = balance.unwrap();

    assert_eq!(
        balance.save(),
        "100,[1,1764444526,D100,success,Record number #1|3,1764444535,T(Julia:200:true),success,Record number #3]"
    );
}

#[test]
fn parsed_balance_holds_value_and_history() {
    let b = Balance::parse("-25,[1,10,W25,success,a|2,11,W5,failure,b]").unwrap();
    assert_eq!(b.get_value(), -25);
    assert_eq!(b.get_history().len(), 2);
    assert_eq!(b.get_history()[0].tx_type, OperationType::Withdraw(25));
    assert_eq!(b.get_history()[1].status, Status::FAILURE);
    assert_eq!(b.get_history()[1].description, "b");
}

#[test]
fn empty_history_round_trips() {
    let b = Balance::parse("0,[]").unwrap();
    assert_eq!(b.get_value(), 0);
    assert!(b.get_history().is_empty());
    assert_eq!(b.save(), "0,[]");
    assert_eq!(Balance::default().save(), "0,[]");
}

#[test]
fn save_of_parse_gives_the_text_back() {
    for text in [
        "0,[]",
        "-170141183460469231731687303715884105728,[]",
        "170141183460469231731687303715884105727,[1,0,C,success,]",
        "350,[1,1,D500,success,Record number #1|2,2,T(Bob:50:false),success,Record number #2|3,3,W100,success,Record number #3]",
        "7,[4,99,T(:7:true),pending,]",
    ] {
        let b = Balance::parse(text).unwrap();
        assert_eq!(b.save(), text);
    }
}

#[test]
fn saved_balance_reads_back_equal() {
    let mut b = Balance::default();
    assert_eq!(b.apply_op(Operation::with_timestamp(1, 100, OperationType::Deposit(500), None)), Ok(()));
    let _ = b.apply_op(Operation::with_timestamp(2, 101, OperationType::Withdraw(900), Some("too much".into())));
    assert_eq!(b.apply_op(Operation::with_timestamp(3, 102, OperationType::Transfer("Bob".into(), 50, false), None)), Ok(()));
    let text = b.save();
    assert_eq!(
        text,
        "450,[1,100,D500,success,Record number #1|2,101,W900,failure,too much|3,102,T(Bob:50:false),success,Record number #3]"
    );
    assert_eq!(Balance::parse(&text).unwrap(), b);
}

#[test]
fn missing_comma_is_a_balance_error() {
    assert!(matches!(Balance::parse("100"), Err(BalanceError::InvalidParseBalance(_))));
    assert!(matches!(Balance::parse(""), Err(BalanceError::InvalidParseBalance(_))));
}

#[test]
fn non_numeric_value_is_a_balance_error() {
    assert_eq!(
        Balance::parse("12a,[]"),
        Err(BalanceError::InvalidParseBalance("12a".to_string()))
    );
    assert!(matches!(Balance::parse(",[]"), Err(BalanceError::InvalidParseBalance(_))));
    assert!(matches!(
        Balance::parse("170141183460469231731687303715884105728,[]"),
        Err(BalanceError::InvalidParseBalance(_))
    ));
}

#[test]
fn missing_brackets_are_a_balance_error() {
    assert!(matches!(Balance::parse("5,"), Err(BalanceError::InvalidParseBalance(_))));
    assert!(matches!(Balance::parse("5,[1,1,C,success,x"), Err(BalanceError::InvalidParseBalance(_))));
    assert!(matches!(Balance::parse("5,1,1,C,success,x]"), Err(BalanceError::InvalidParseBalance(_))));
}

#[test]
fn malformed_tag_is_an_operation_error() {
    assert_eq!(
        Balance::parse("5,[1,1,C,success,x|2,2,X5,success,y|3,3,Q,success,z]"),
        Err(BalanceError::InvalidParseOperation(BalanceOpError::ParseError(
            "2,2,X5,success,y".to_string()
        )))
    );
    assert_eq!(
        Balance::parse("5,[1,1,C,success,x|]"),
        Err(BalanceError::InvalidParseOperation(BalanceOpError::ParseError(String::new())))
    );
}

#[test]
fn deposits_and_withdrawals_sum_up() {
    let mut b = Balance::new(10, vec![]);
    let ops = vec![
        Operation::deposit(1, 100),
        Operation::withdraw(2, 30),
        Operation::withdraw(3, 500),
        Operation::deposit(4, 7),
        Operation::withdraw(5, 87),
    ];
    let done = b.proccess(ops);
    assert_eq!(done, vec![true, true, false, true, true]);
    assert_eq!(b.get_value(), 10 + 100 - 30 + 7 - 87);
    let total: i128 = b
        .get_history()
        .iter()
        .filter(|o| o.status == Status::SUCCESS)
        .map(|o| o.tx_type.get_amount())
        .sum();
    assert_eq!(b.get_value(), 10 + total);
    assert_eq!(b.get_history().len(), 5);
}

#[test]
fn close_resets_whatever_came_before() {
    let mut b = Balance::new(-40, vec![]);
    let done = b.proccess(vec![Operation::deposit(1, 15), Operation::close(2), Operation::deposit(3, 8)]);
    assert_eq!(done, vec![true, true, true]);
    assert_eq!(b.get_value(), 8);
    let mut c = Balance::new(999, vec![]);
    assert_eq!(c.apply_op(Operation::close(1)), Ok(()));
    assert_eq!(c.get_value(), 0);
}

#[test]
fn overdraft_is_refused_and_recorded() {
    let mut b = Balance::new(20, vec![]);
    let done = b.proccess(vec![Operation::withdraw(1, 21), Operation::transfer(2, "x".into(), 25, false)]);
    assert_eq!(done, vec![false, false]);
    assert_eq!(b.get_value(), 20);
    assert_eq!(b.get_history().len(), 2);
    assert!(b.get_history().iter().all(|o| o.status == Status::FAILURE));
}

#[test]
fn settled_operations_in_a_batch_change_nothing() {
    let mut b = Balance::new(5, vec![]);
    let mut settled = Operation::deposit(1, 5);
    settled.set_status(Status::SUCCESS);
    let done = b.proccess(vec![settled, Operation::deposit(2, 1)]);
    assert_eq!(done, vec![false, true]);
    assert_eq!(b.get_value(), 6);
    assert_eq!(b.get_history().len(), 1);
}
