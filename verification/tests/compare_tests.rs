use ypbank_parser::compare::{compare_transaction_lists, compare_transactions, find_difference, find_transaction_difference, Difference};
use ypbank_parser::transaction::{Transaction, TxStatus, TxType};

#[derive(Debug, Clone, PartialEq, Eq)]
struct DummyTx(u64);

#[test]
fn equal_lists_in_different_order_are_identical() {
    let t1 = DummyTx(1);
    let t2 = DummyTx(2);

    let a = vec![t1.clone(), t2.clone()];
    let b = vec![t2, t1];

    let diff = compare_transaction_lists(&a, &b, "a", "b");
    assert!(diff.is_none());
}

#[test]
fn different_lengths_are_reported() {
    let t1 = DummyTx(1);
    let a = vec![t1.clone()];
    let b: Vec<DummyTx> = Vec::new();

    let diff = compare_transaction_lists(&a, &b, "a", "b").expect("should report difference");
    assert!(diff.contains("number of transactions differs"));
}

#[test]
fn missing_transaction_is_reported() {
    let a = vec![DummyTx(1)];
    let b = vec![DummyTx(2)];

    let diff = compare_transaction_lists(&a, &b, "file_a", "file_b").expect("should report difference");
    assert!(diff.contains("present in 'file_a' but not in 'file_b'"));
}

#[test]
fn difference_messages_are_exact() {
    let a = vec![DummyTx(1), DummyTx(1)];
    let b = vec![DummyTx(1)];
    assert_eq!(
        compare_transaction_lists(&a, &b, "x", "y").unwrap(),
        "The number of transactions differs: x has 2, y has 1."
    );
    let c = vec![DummyTx(1), DummyTx(2)];
    let d = vec![DummyTx(1), DummyTx(1)];
    assert_eq!(
        compare_transaction_lists(&c, &d, "x", "y").unwrap(),
        "Transaction present in 'x' but not in 'y': DummyTx(2)"
    );
}

#[test]
fn multiplicities_matter() {
    let a = vec![DummyTx(1), DummyTx(1), DummyTx(2)];
    let b = vec![DummyTx(2), DummyTx(1), DummyTx(2)];
    assert_eq!(find_difference(&a, &b), Some(Difference::MissingFromSecond(1)));
    assert_eq!(find_difference(&b, &a), Some(Difference::MissingFromSecond(2)));
    let e = vec![DummyTx(3), DummyTx(1), DummyTx(1)];
    let f = vec![DummyTx(3), DummyTx(1), DummyTx(1)];
    assert_eq!(find_difference(&e, &f), None);
    assert_eq!(find_difference::<DummyTx>(&[], &[]), None);
    assert_eq!(find_difference(&e, &[DummyTx(3)]), Some(Difference::CountDiffers));
}

#[test]
fn leftover_in_second_list_is_reported() {
    let a = vec![DummyTx(1), DummyTx(1)];
    let b = vec![DummyTx(1), DummyTx(1)];
    assert_eq!(find_difference(&a, &b), None);
    let msg = compare_transaction_lists(&[5u8, 5], &[5u8, 5], "p", "q");
    assert!(msg.is_none());
    let msg = compare_transaction_lists(&[4u8, 6], &[6u8, 4], "p", "q");
    assert!(msg.is_none());
}

fn tx(id: u64, description: &str) -> Transaction {
    Transaction {
        tx_id: id,
        tx_type: TxType::Transfer,
        from_user_id: 1,
        to_user_id: 2,
        amount: -5,
        timestamp: 9,
        status: TxStatus::Pending,
        description: description.to_string(),
    }
}

#[test]
fn transactions_compare_by_all_fields_regardless_of_order() {
    let a = vec![tx(1, "x"), tx(2, "y"), tx(1, "x")];
    let b = vec![tx(1, "x"), tx(1, "x"), tx(2, "y")];
    assert_eq!(compare_transactions(&a, &b, "a", "b"), None);
    let c = vec![tx(1, "x"), tx(2, "y"), tx(1, "z")];
    assert_eq!(find_transaction_difference(&a, &c), Some(Difference::MissingFromSecond(2)));
    let m = compare_transactions(&a, &c, "a", "c").expect("differs");
    assert_eq!(m, format!("Transaction present in 'a' but not in 'c': {:?}", tx(1, "x")));
    let m = compare_transactions(&c, &a, "c", "a").expect("differs");
    assert_eq!(m, format!("Transaction present in 'c' but not in 'a': {:?}", tx(1, "z")));
    let m = compare_transactions(&a, &a[..2], "a", "d").expect("differs");
    assert_eq!(m, "The number of transactions differs: a has 3, d has 2.");
    assert!(tx(1, "x") == tx(1, "x"));
    assert!(tx(1, "x") != tx(1, "y"));
}
