//! Find the processes listening on TCP ports and terminate them by port
//! number. Three pieces: a parser that turns a textual port specification
//! into a canonical ascending set of ports, an enumerator that turns an OS
//! socket snapshot into a sorted table of port/process rows, and a
//! terminator that resolves a port to its owning process and signals it.

mod text;
mod parser;
mod enumerate;
mod terminate;

pub use text::{is_space, is_digit, digit_val, digit_char, all_digits, digits_val, dec_digits,
    trim_front, trim_back, trimmed, first_at, dec_string};
pub use enumerate::{Protocol, SocketBinding, PortEntry, wildcard_addr, keeps, entry_key,
    binding_key, key_lt, sorted_keys, lemma_sorted_keys_unique, first_kept, represents,
    has_entry_key, snapshot_reduces,
    entries_from_snapshot, list_ports};
pub use terminate::{KillResult, success_message, resolve_failure_message, gone_message,
    rejected_message, kill_outcome, lemma_outcome_names_port, lemma_success_message_distinct,
    kill_port, kill_ports};
pub use parser::{ParseError, split_commas, token_uint, token_ports, token_sets, parse_tokens,
    spec_ports, strictly_ascending, lemma_ascending_no_duplicates, lemma_canonical_unique,
    parse_port_spec, join_ports,
    lemma_parse_round_trip, lemma_parse_idempotent};
