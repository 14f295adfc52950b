//! The benchmark result: counters, phase timings and the state root as text.
use vstd::prelude::*;
use vstd::string::StringExecFns;

verus! {

/// The lower-case hex digits, by value.
pub open spec fn hex_alphabet() -> Seq<char> {
    seq!['0', '1', '2', '3', '4', '5', '6', '7', '8', '9', 'a', 'b', 'c', 'd', 'e', 'f']
}

/// Two lower-case hex digits per byte, high nibble first.
pub open spec fn lower_hex(b: Seq<u8>) -> Seq<char> {
    Seq::new(
        2 * b.len(),
        |i: int|
            if i % 2 == 0 {
                hex_alphabet()[(b[i / 2] / 16) as int]
            } else {
                hex_alphabet()[(b[i / 2] % 16) as int]
            },
    )
}

/// Relies on hex::encode: two lower-case hex digits per byte, high nibble
/// first.
#[verifier::external_body]
fn encode_lower(b: &[u8]) -> (r: String)
    ensures
        r@ == lower_hex(b@),
{
    hex::encode(b)
}

/// A state root written as `0x` and two lower-case hex digits per byte.
pub fn format_root(root: &[u8]) -> (r: String)
    ensures
        r@ == seq!['0', 'x'] + lower_hex(root@),
{
    let digits = encode_lower(root);
    let r = String::from_str("0x").concat(digits.as_str());
    proof {
        reveal_strlit("0x");
        assert(r@ =~= seq!['0', 'x'] + lower_hex(root@));
    }
    r
}

/// A duration in milliseconds narrowed to 64 bits, saturating at the
/// largest value.
pub fn clamp_millis(ms: u128) -> (r: u64)
    ensures
        r as int == if ms <= u64::MAX as u128 {
            ms as int
        } else {
            u64::MAX as int
        },
{
    if ms <= u64::MAX as u128 {
        ms as u64
    } else {
        u64::MAX
    }
}

/// One benchmark run's outcome, written once as a single record.
#[derive(Debug, Clone)]
pub struct BenchResult {
    pub client: String,
    pub state_root: String,
    pub accounts_created: u64,
    pub contracts_created: u64,
    pub storage_slots: u64,
    pub elapsed_ms: u64,
    pub trie_time_ms: u64,
    pub db_write_time_ms: u64,
    pub peak_memory_bytes: u64,
}

/// The phase timings of a run, in milliseconds, and its peak memory in bytes.
#[derive(Debug, Clone, Copy)]
pub struct Measurements {
    pub elapsed_ms: u64,
    pub trie_time_ms: u64,
    pub db_write_time_ms: u64,
    pub peak_memory_bytes: u64,
}

impl BenchResult {
    /// Assembles the result of a run from the client's name, the state root
    /// the engine computed, the operation counts and the measurements.
    pub fn new(
        client: &str,
        state_root: &[u8],
        accounts_created: u64,
        contracts_created: u64,
        storage_slots: u64,
        m: Measurements,
    ) -> (r: BenchResult)
        ensures
            r.client@ == client@,
            r.state_root@ == seq!['0', 'x'] + lower_hex(state_root@),
            r.accounts_created == accounts_created,
            r.contracts_created == contracts_created,
            r.storage_slots == storage_slots,
            r.elapsed_ms == m.elapsed_ms,
            r.trie_time_ms == m.trie_time_ms,
            r.db_write_time_ms == m.db_write_time_ms,
            r.peak_memory_bytes == m.peak_memory_bytes,
    {
        BenchResult {
            client: String::from_str(client),
            state_root: format_root(state_root),
            accounts_created,
            contracts_created,
            storage_slots,
            elapsed_ms: m.elapsed_ms,
            trie_time_ms: m.trie_time_ms,
            db_write_time_ms: m.db_write_time_ms,
            peak_memory_bytes: m.peak_memory_bytes,
        }
    }
}

} // verus!
