//! A small payments engine: deposits, withdrawals and the dispute family
//! (dispute, resolve, chargeback) applied in order to per-client accounts,
//! with balances kept as fixed-point amounts at four decimal digits.

use vstd::prelude::*;

mod account;
mod accounts_db;
mod amount;
mod csvio;
mod parse;
mod transaction;

pub use account::{Account, AccountModel, Error, Rec};
pub use account::{apply_all, apply_model, balanced, fresh_model, has_rec, rec_index, rec_of, store_rec, unique_ids};
pub use account::{
    lemma_apply_model_balanced, lemma_deposit_withdrawal_keeps_held,
    lemma_dispute_missing_rejected, lemma_frozen_rejects_all,
    lemma_insufficient_withdrawal_rejected, lemma_no_disputes_total_is_available,
    lemma_undisputed_rejected,
};
pub use accounts_db::{ledger_apply, process_all, process_failures, AccountsDb, Snapshot};
pub use amount::{
    all_digits, amount_str, csv_safe, dec_digits, digits_val, parse_amount, parse_amount_spec,
    render_amount, spec_amount,
};
pub use parse::{
    kind_of_tag, parse_kind, parse_row, parse_row_spec, parse_rows, parse_rows_spec, parse_u16,
    parse_u32, parse_uint_spec, skipped_data_rows, skipped_rows, skipped_rows_spec,
};
pub use amount::{amount_in_range, lemma_amount_eq, lemma_amount_view_range, Amount};
pub use accounts_db::{
    header_fields, lemma_ledger_balanced, lemma_snapshots_match_unique, render_output,
    render_output_spec, snapshot_fields, snapshot_line, snapshot_lines, snapshots_match,
};
pub use csvio::{csv_rows_of, join_fields};
pub use transaction::{Transaction, TransactionType};

use crate::csvio::csv_rows;

verus! {

/// One whole batch, from input text to output text: the records are split
/// by the CSV reader, parsed, applied in order to a fresh directory, and
/// the directory's final state is exported and written. The second result
/// lists the rejected transactions, each with its position among the
/// parsed transactions and the error that rejected it; the third lists the
/// positions of the records dropped as malformed, the header counting as
/// record zero.
pub fn run_report(input: &str) -> (r: (String, Vec<(usize, Error)>, Vec<usize>))
    ensures
        ({
            let txs = parse_rows_spec(csv_rows_of(input@));
            let m = process_all(Map::<u16, AccountModel>::empty(), txs);
            &&& exists|snaps: Seq<Snapshot>|
                #[trigger] snapshots_match(snaps, m) && r.0@ == render_output_spec(snaps)
            &&& forall|snaps: Seq<Snapshot>|
                #[trigger] snapshots_match(snaps, m) ==> r.0@ == render_output_spec(snaps)
            &&& r.1@ == process_failures(Map::<u16, AccountModel>::empty(), txs)
            &&& r.2@ == skipped_rows_spec(csv_rows_of(input@))
        }),
{
    let rows = csv_rows(input);
    let skipped = skipped_rows(&rows);
    let txs = parse_rows(&rows);
    let mut db = AccountsDb::new();
    let failures = db.process_transactions(&txs);
    let snaps = db.export();
    let out = render_output(&snaps);
    proof {
        let m = process_all(
            Map::<u16, AccountModel>::empty(),
            parse_rows_spec(csv_rows_of(input@)),
        );
        assert(snapshots_match(snaps@, m) && out@ == render_output_spec(snaps@));
        assert forall|s2: Seq<Snapshot>| #[trigger] snapshots_match(s2, m) implies out@
            == render_output_spec(s2) by {
            lemma_snapshots_match_unique(s2, snaps@, m);
        }
    }
    (out, failures, skipped)
}

/// `run_report` without the dropped-record positions: the output text and
/// the rejected transactions, each with its position among the parsed
/// transactions and the error that rejected it.
pub fn run(input: &str) -> (r: (String, Vec<(usize, Error)>))
    ensures
        ({
            let txs = parse_rows_spec(csv_rows_of(input@));
            let m = process_all(Map::<u16, AccountModel>::empty(), txs);
            &&& exists|snaps: Seq<Snapshot>|
                #[trigger] snapshots_match(snaps, m) && r.0@ == render_output_spec(snaps)
            &&& forall|snaps: Seq<Snapshot>|
                #[trigger] snapshots_match(snaps, m) ==> r.0@ == render_output_spec(snaps)
            &&& r.1@ == process_failures(Map::<u16, AccountModel>::empty(), txs)
        }),
{
    let (out, failures, _skipped) = run_report(input);
    (out, failures)
}

} // verus!
