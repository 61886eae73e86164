use payments::run;

#[test]
fn simple() {
    let output = run(
        "type,       client, tx, amount
             deposit,    1,      1,  1.0
             deposit,    2,      2,  2.0
             deposit,    1,      3,  2.0
             withdrawal, 1,      4,  1.5
             withdrawal, 2,      5,  3.0\
            ",
    )
    .0;
    assert_eq!(
        output,
        "client,available,held,total,locked\n\
             1,1.5,0.0,1.5,false\n\
             2,2.0,0.0,2.0,false\n\
            "
    );
}

#[test]
fn chargeback() {
    // Transactions with 1 valid chargeback and 1 invalid one (should be ignored).
    let output = run(
        "type,       client, tx, amount
             deposit,    77,     1,  1.5
             deposit,    80,     2,  2.0
             withdrawal, 77,     3,  1.0
             dispute,    77,     3,
             chargeback, 77,     3,
             chargeback, 80,     5,\
            ",
    )
    .0;
    assert_eq!(
        output,
        "client,available,held,total,locked\n\
            77,-0.5,0.0,-0.5,true\n\
            80,2.0,0.0,2.0,false\n\
            "
    );
}

#[test]
fn rounded_deposits_and_rejected_withdrawal() {
    let output = run(
        "type,       client, tx, amount
             deposit,    1,      1,  1.00003
             deposit,    2,      2,  2.1111111
             deposit,    1,      3,  2.0
             withdrawal, 1,      4,  1.5
             withdrawal, 2,      5,  3.0\
            ",
    )
    .0;
    assert_eq!(
        output,
        "client,available,held,total,locked\n\
             1,1.5,0.0,1.5,false\n\
             2,2.1111,0.0,2.1111,false\n\
            "
    );
}

#[test]
fn resolve_and_rejected_resolve() {
    let output = run(
        "type,       client, tx, amount
             deposit,    77,     1,  1.5
             deposit,    80,     2,  2.0
             withdrawal, 77,     3,  1.0
             withdrawal, 80,     4,  1.0
             dispute,    77,     3,
             resolve,    77,     3,
             resolve,    80,     4,\
            ",
    )
    .0;
    assert_eq!(
        output,
        "client,available,held,total,locked\n\
            77,0.5,0.0,0.5,false\n\
            80,1.0,0.0,1.0,false\n\
            "
    );
}

#[test]
fn empty_input_gives_empty_output() {
    let (output, failures) = run("");
    assert_eq!(output, "");
    assert!(failures.is_empty());
}

#[test]
fn malformed_rows_are_skipped_and_reported() {
    let (output, failures, skipped) = payments::run_report(
        "type,       client, tx, amount
             deposit,    1,      1,  1.0
             nonsense,   1,      2,  1.0
             deposit,    one,    3,  1.0
             deposit,    1,      4,  not_a_number
             deposit,    1,      5,  2.5\
            ",
    );
    assert_eq!(
        output,
        "client,available,held,total,locked\n\
             1,3.5,0.0,3.5,false\n\
            "
    );
    assert!(failures.is_empty());
    assert_eq!(skipped, vec![2, 3, 4]);
}

#[test]
fn missing_required_column_drops_every_row() {
    let (output, failures, skipped) = payments::run_report(
        "type,       client, amount
             deposit,    1,      1.0
             deposit,    2,      2.0\
            ",
    );
    assert_eq!(output, "");
    assert!(failures.is_empty());
    assert_eq!(skipped, vec![1, 2]);
}

#[test]
fn type_tags_are_case_insensitive() {
    let output = run(
        "type,       client, tx, amount
             DePoSiT,    9,      1,  4.25
             WITHDRAWAL, 9,      2,  1.25\
            ",
    )
    .0;
    assert_eq!(
        output,
        "client,available,held,total,locked\n\
             9,3.0,0.0,3.0,false\n\
            "
    );
}

#[test]
fn failures_are_reported_with_positions() {
    let (output, failures) = run(
        "type,       client, tx, amount
             deposit,    1,      1,  1.0
             withdrawal, 1,      2,  5.0
             dispute,    1,      9,\
            ",
    );
    assert_eq!(
        output,
        "client,available,held,total,locked\n\
             1,1.0,0.0,1.0,false\n\
            "
    );
    assert_eq!(failures.len(), 2);
    assert_eq!(failures[0], (1, payments::Error::InsufficientFunds));
    assert_eq!(failures[1], (2, payments::Error::MissingTransaction));
}
