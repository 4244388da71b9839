//! A ledger-replay engine: replays an ordered stream of financial operation
//! records (deposit, withdrawal, dispute, resolve, chargeback) against a set
//! of per-client accounts and emits the resulting balances.

use vstd::prelude::*;

mod account;
mod amount;
mod laws;
mod engine;
mod io;
mod transaction;

pub use engine::Engine;
pub use engine::EngineView;
pub use engine::empty_engine;
pub use engine::engine_wf;
pub use engine::header_row;
pub use engine::ops_of;
pub use engine::ops_of_input;
pub use engine::render_bool;
pub use engine::render_output;
pub use engine::render_rows;
pub use engine::render_status_row;
pub use engine::replay;
pub use engine::snapshot_of;
pub use engine::step;

pub use account::Account;
pub use account::AccountStatus;
pub use account::AccountView;
pub use account::StatusView;
pub use account::account_wf;
pub use account::app_acct;
pub use account::app_chargeback;
pub use account::app_deposit;
pub use account::app_dispute;
pub use account::app_resolve;
pub use account::app_withdrawal;
pub use account::empty_account;
pub use account::fits;
pub use account::lemma_app_acct_wf;
pub use account::status_of;
pub use amount::Amount;
pub use amount::UNITS_PER_WHOLE;
pub use laws::lemma_deposit_creates_account;
pub use laws::lemma_dispute_idempotent;
pub use laws::lemma_dispute_idempotent_engine;
pub use laws::lemma_insufficient_withdrawal;
pub use laws::lemma_invalid_shape_rejected;
pub use laws::lemma_locked_is_final;
pub use laws::lemma_no_account_no_creation;
pub use laws::lemma_snapshot_conservation;
pub use io::InputLine;
pub use io::InputLineType;
pub use io::LineView;
pub use io::blank;
pub use io::dec_digits;
pub use io::dec_val;
pub use io::digits_ok;
pub use io::frac_digits;
pub use io::is_digit;
pub use io::is_space;
pub use io::kind_of_token;
pub use io::lemma_render_parse_round_trip;
pub use io::line_valid;
pub use io::parse_amount_spec;
pub use io::parse_client_spec;
pub use io::parse_line;
pub use io::parse_line_spec;
pub use io::parse_tx_spec;
pub use io::pow10;
pub use io::render_units;
pub use io::signed;
pub use io::split_bytes;
pub use io::split_rest;
pub use io::strip_zeros;
pub use io::trim;
pub use io::trim_left;
pub use io::trim_right;
pub use transaction::Transaction;
pub use transaction::TransactionType;
pub use transaction::TxView;

verus! {

/// Identifies a client; used as the routing key into the ledger.
pub type ClientId = u16;

/// Identifies a single deposit or withdrawal operation.
pub type TransactionId = u32;

/// Replay a whole textual input against a fresh ledger and serialize the
/// resulting snapshot: the output is exactly the rendering of the state
/// reached by replaying, in input order, every record the input holds.
pub fn run_engine(input: &[u8]) -> (out: Vec<u8>)
    ensures
        out@ == engine::render_output(
            engine::snapshot_of(
                engine::replay(engine::empty_engine(), engine::ops_of_input(input@)),
            ),
        ),
{
    let mut engine: Engine = Default::default();
    engine.process_from_csv(input);
    engine.write_status_to_csv()
}

} // verus!
