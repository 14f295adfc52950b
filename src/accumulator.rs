//! Merging of operations into one pending update per address.
use vstd::prelude::*;
use std::collections::HashMap;
use crate::codec::zeros;
use crate::operation::{OpModel, Operation};

verus! {

broadcast use vstd::std_specs::hash::group_hash_axioms;

/// Names the Keccak-256 digest of a byte string.
pub uninterp spec fn keccak_of(data: Seq<u8>) -> Seq<u8>;

/// Relies on alloy_primitives::keccak256: the 32-byte Keccak-256 digest of
/// the input, a function of the input alone.
#[verifier::external_body]
fn keccak(data: &[u8]) -> (r: Vec<u8>)
    ensures
        r@ == keccak_of(data@),
        r@.len() == 32,
{
    alloy_primitives::keccak256(data).0.to_vec()
}

/// The 32-byte zero word.
pub open spec fn zero_word() -> Seq<u8> {
    Seq::new(32, |i: int| 0u8)
}

/// Account fields of a pending update, over byte sequences.
pub struct InfoModel {
    pub code_hash: Seq<u8>,
    pub balance: Seq<u8>,
    pub nonce: u64,
}

/// A pending update, over byte sequences; `storage` lists slot and value
/// pairs in the order in which slots were first written.
pub struct UpdateModel {
    pub address: Seq<u8>,
    pub info: Option<InfoModel>,
    pub code: Option<Seq<u8>>,
    pub storage: Seq<(Seq<u8>, Seq<u8>)>,
}

/// The accumulated updates in the order in which addresses first appeared,
/// and the number of operations of each kind merged so far.
pub struct AccModel {
    pub updates: Seq<UpdateModel>,
    pub accounts: nat,
    pub contracts: nat,
    pub slots: nat,
}

/// No slot appears twice.
pub open spec fn unique_slots(s: Seq<(Seq<u8>, Seq<u8>)>) -> bool {
    forall|i: int, j: int| 0 <= i < j < s.len() ==> s[i].0 != s[j].0
}

/// No address appears twice, and each update's slots are unique.
pub open spec fn unique_updates(u: Seq<UpdateModel>) -> bool {
    &&& forall|i: int, j: int| 0 <= i < j < u.len() ==> u[i].address != u[j].address
    &&& forall|i: int| 0 <= i < u.len() ==> unique_slots(#[trigger] u[i].storage)
}

/// Where a slot stands in a storage list, or -1.
pub open spec fn slot_index(s: Seq<(Seq<u8>, Seq<u8>)>, k: Seq<u8>) -> int {
    if exists|i: int| 0 <= i < s.len() && s[i].0 == k {
        choose|i: int| 0 <= i < s.len() && s[i].0 == k
    } else {
        -1
    }
}

/// The value held for a slot, if it was written.
pub open spec fn storage_get(s: Seq<(Seq<u8>, Seq<u8>)>, k: Seq<u8>) -> Option<Seq<u8>> {
    let i = slot_index(s, k);
    if i >= 0 {
        Some(s[i].1)
    } else {
        None
    }
}

/// A storage list after writing `v` into slot `k`: an existing slot is
/// overwritten in place, a new one is appended.
pub open spec fn storage_put(s: Seq<(Seq<u8>, Seq<u8>)>, k: Seq<u8>, v: Seq<u8>) -> Seq<
    (Seq<u8>, Seq<u8>),
> {
    let i = slot_index(s, k);
    if i >= 0 {
        s.update(i, (k, v))
    } else {
        s.push((k, v))
    }
}

/// Where the update of an address stands, or -1.
pub open spec fn update_index(u: Seq<UpdateModel>, a: Seq<u8>) -> int {
    if exists|i: int| 0 <= i < u.len() && u[i].address == a {
        choose|i: int| 0 <= i < u.len() && u[i].address == a
    } else {
        -1
    }
}

/// The update of an address, or an empty one where there is none yet.
pub open spec fn update_of(u: Seq<UpdateModel>, a: Seq<u8>) -> UpdateModel {
    let i = update_index(u, a);
    if i >= 0 {
        u[i]
    } else {
        UpdateModel { address: a, info: None, code: None, storage: Seq::empty() }
    }
}

/// The updates with `m` in place of the update of its address, appended
/// where the address is new.
pub open spec fn with_update(u: Seq<UpdateModel>, m: UpdateModel) -> Seq<UpdateModel> {
    let i = update_index(u, m.address);
    if i >= 0 {
        u.update(i, m)
    } else {
        u.push(m)
    }
}

/// The address an operation is about.
pub open spec fn op_address(op: OpModel) -> Seq<u8> {
    match op {
        OpModel::CreateAccount { address, .. } => address,
        OpModel::SetCode { address, .. } => address,
        OpModel::SetStorage { address, .. } => address,
        OpModel::Finalize => Seq::empty(),
    }
}

/// One operation merged into the update of its address. `create_account`
/// writes balance and nonce and keeps a code hash that `set_code` set, else
/// takes the hash of empty code; `set_code` writes the code and its hash,
/// starting from a zero balance and nonce where no account fields exist;
/// `set_storage` writes one slot.
pub open spec fn merge(u: UpdateModel, op: OpModel) -> UpdateModel {
    match op {
        OpModel::CreateAccount { balance, nonce, .. } => {
            let code_hash = match (u.code, u.info) {
                (Some(_), Some(i)) => i.code_hash,
                _ => keccak_of(Seq::empty()),
            };
            UpdateModel { info: Some(InfoModel { code_hash, balance, nonce }), ..u }
        },
        OpModel::SetCode { code, .. } => {
            let h = keccak_of(code);
            let info = match u.info {
                Some(i) => InfoModel { code_hash: h, ..i },
                None => InfoModel { code_hash: h, balance: zero_word(), nonce: 0 },
            };
            UpdateModel { info: Some(info), code: Some(code), ..u }
        },
        OpModel::SetStorage { slot, value, .. } => UpdateModel {
            storage: storage_put(u.storage, slot, value),
            ..u
        },
        OpModel::Finalize => u,
    }
}

/// The accumulator after one operation; `Finalize` changes nothing.
pub open spec fn step(s: AccModel, op: OpModel) -> AccModel {
    if op is Finalize {
        s
    } else {
        let a = op_address(op);
        AccModel {
            updates: with_update(s.updates, merge(update_of(s.updates, a), op)),
            accounts: if op is CreateAccount {
                s.accounts + 1
            } else {
                s.accounts
            },
            contracts: if op is SetCode {
                s.contracts + 1
            } else {
                s.contracts
            },
            slots: if op is SetStorage {
                s.slots + 1
            } else {
                s.slots
            },
        }
    }
}

/// The accumulator before any operation.
pub open spec fn empty_model() -> AccModel {
    AccModel { updates: Seq::empty(), accounts: 0, contracts: 0, slots: 0 }
}

/// The accumulator after a sequence of operations, in order.
pub open spec fn replay(ops: Seq<OpModel>) -> AccModel
    decreases ops.len(),
{
    if ops.len() == 0 {
        empty_model()
    } else {
        step(replay(ops.drop_last()), ops.last())
    }
}

/// Writing a slot keeps slots unique, gives the slot its new value and
/// leaves every other slot as it was.
pub proof fn lemma_storage_put(s: Seq<(Seq<u8>, Seq<u8>)>, k: Seq<u8>, v: Seq<u8>)
    requires
        unique_slots(s),
    ensures
        unique_slots(storage_put(s, k, v)),
        forall|k2: Seq<u8>|
            #[trigger] storage_get(storage_put(s, k, v), k2) == if k2 == k {
                Some(v)
            } else {
                storage_get(s, k2)
            },
{
    let t = storage_put(s, k, v);
    let i = slot_index(s, k);
    if i >= 0 {
        assert(t[i].0 == k);
    } else {
        assert(t[s.len() as int].0 == k);
    }
    assert forall|k2: Seq<u8>|
        #[trigger] storage_get(t, k2) == if k2 == k {
            Some(v)
        } else {
            storage_get(s, k2)
        } by {
        let j = slot_index(t, k2);
        let j0 = slot_index(s, k2);
        if j0 >= 0 {
            assert(t[j0].0 == k2 || j0 == i);
            if k2 != k {
                assert(t[j0].0 == k2);
            }
        }
        if k2 != k && j >= 0 {
            assert(j < s.len() && s[j].0 == k2);
        }
    }
}

/// Putting an update in place keeps addresses unique, gives its address the
/// new update and leaves every other address as it was.
pub proof fn lemma_with_update(u: Seq<UpdateModel>, m: UpdateModel)
    requires
        unique_updates(u),
        unique_slots(m.storage),
    ensures
        unique_updates(with_update(u, m)),
        forall|b: Seq<u8>|
            #[trigger] update_of(with_update(u, m), b) == if b == m.address {
                m
            } else {
                update_of(u, b)
            },
{
    let t = with_update(u, m);
    let i = update_index(u, m.address);
    if i >= 0 {
        assert(t[i].address == m.address);
    } else {
        assert(t[u.len() as int].address == m.address);
    }
    assert forall|b: Seq<u8>|
        #[trigger] update_of(t, b) == if b == m.address {
            m
        } else {
            update_of(u, b)
        } by {
        let j = update_index(t, b);
        let j0 = update_index(u, b);
        if j0 >= 0 {
            if b != m.address {
                assert(t[j0].address == b);
            }
        }
        if b != m.address && j >= 0 {
            assert(j < u.len() && u[j].address == b);
        }
    }
}

/// Merging keeps the slots of an update unique and its address unchanged.
pub proof fn lemma_merge_keeps(u: UpdateModel, op: OpModel)
    requires
        unique_slots(u.storage),
    ensures
        unique_slots(merge(u, op).storage),
        merge(u, op).address == u.address,
{
    if let OpModel::SetStorage { slot, value, .. } = op {
        lemma_storage_put(u.storage, slot, value);
    }
}

/// The update of any address has unique slots.
pub proof fn lemma_update_of_slots(u: Seq<UpdateModel>, a: Seq<u8>)
    requires
        unique_updates(u),
    ensures
        unique_slots(update_of(u, a).storage),
        update_of(u, a).address == a,
{
    let i = update_index(u, a);
    if i >= 0 {
        assert(unique_slots(u[i].storage));
    }
}

/// Replaying operations keeps addresses, and slots within each update, unique.
pub proof fn lemma_replay_unique(ops: Seq<OpModel>)
    ensures
        unique_updates(replay(ops).updates),
    decreases ops.len(),
{
    if ops.len() > 0 {
        let s = replay(ops.drop_last());
        let op = ops.last();
        lemma_replay_unique(ops.drop_last());
        if !(op is Finalize) {
            let u0 = update_of(s.updates, op_address(op));
            lemma_update_of_slots(s.updates, op_address(op));
            lemma_merge_keeps(u0, op);
            lemma_with_update(s.updates, merge(u0, op));
        }
    }
}

/// The number of operations in a sequence that satisfy `f`.
pub open spec fn op_count(ops: Seq<OpModel>, f: spec_fn(OpModel) -> bool) -> nat
    decreases ops.len(),
{
    if ops.len() == 0 {
        0
    } else {
        op_count(ops.drop_last(), f) + if f(ops.last()) {
            1nat
        } else {
            0nat
        }
    }
}

/// Each counter equals the number of operations of its kind, repeated
/// addresses included.
pub proof fn lemma_counts(ops: Seq<OpModel>)
    ensures
        replay(ops).accounts == op_count(ops, |o: OpModel| o is CreateAccount),
        replay(ops).contracts == op_count(ops, |o: OpModel| o is SetCode),
        replay(ops).slots == op_count(ops, |o: OpModel| o is SetStorage),
    decreases ops.len(),
{
    if ops.len() > 0 {
        lemma_counts(ops.drop_last());
    }
}

/// The bucket of an address: its last eight bytes read as a number.
pub open spec fn bucket_of(a: Seq<u8>) -> u64 {
    if a.len() < 8 {
        0
    } else {
        let n = a.len() as int;
        (a[n - 1] as int + a[n - 2] as int * 0x100 + a[n - 3] as int * 0x1_0000 + a[n - 4] as int
            * 0x100_0000 + a[n - 5] as int * 0x1_0000_0000 + a[n - 6] as int * 0x100_0000_0000
            + a[n - 7] as int * 0x1_0000_0000_0000 + a[n - 8] as int
            * 0x100_0000_0000_0000) as u64
    }
}

/// The index lists, under the bucket of each address, every position that
/// holds that address, and lists no other position.
pub open spec fn index_covers(index: Map<u64, Vec<usize>>, u: Seq<UpdateModel>) -> bool {
    &&& forall|p: int|
        0 <= p < u.len() ==> #[trigger] index.contains_key(bucket_of(u[p].address))
            && index[bucket_of(u[p].address)]@.contains(p as usize)
    &&& forall|k: u64, j: int|
        #[trigger] index.contains_key(k) && 0 <= j < index[k]@.len() ==> (#[trigger] index[k]@[j] as int)
            < u.len() && bucket_of(u[index[k]@[j] as int].address) == k
}

/// Whether an operation names an address.
pub open spec fn names(op: OpModel, a: Seq<u8>) -> bool {
    !(op is Finalize) && op_address(op) == a
}

/// Whether an operation writes slot `k` of address `a`.
pub open spec fn writes_slot(op: OpModel, a: Seq<u8>, k: Seq<u8>) -> bool {
    op matches OpModel::SetStorage { address, slot, .. } && address == a && slot == k
}

/// An operation on another address leaves the update of `a` as it was.
pub proof fn lemma_step_other_address(s: AccModel, op: OpModel, a: Seq<u8>)
    requires
        unique_updates(s.updates),
        !names(op, a),
    ensures
        update_of(step(s, op).updates, a) == update_of(s.updates, a),
{
    if !(op is Finalize) {
        let u0 = update_of(s.updates, op_address(op));
        lemma_update_of_slots(s.updates, op_address(op));
        lemma_merge_keeps(u0, op);
        lemma_with_update(s.updates, merge(u0, op));
    }
}

/// An operation that does not write slot `k` of address `a` leaves the value
/// of that slot as it was.
pub proof fn lemma_step_other_slot(s: AccModel, op: OpModel, a: Seq<u8>, k: Seq<u8>)
    requires
        unique_updates(s.updates),
        !writes_slot(op, a, k),
    ensures
        storage_get(update_of(step(s, op).updates, a).storage, k) == storage_get(
            update_of(s.updates, a).storage,
            k,
        ),
{
    if !(op is Finalize) {
        let b = op_address(op);
        let u0 = update_of(s.updates, b);
        lemma_update_of_slots(s.updates, b);
        lemma_merge_keeps(u0, op);
        lemma_with_update(s.updates, merge(u0, op));
        if let OpModel::SetStorage { slot, value, .. } = op {
            lemma_storage_put(u0.storage, slot, value);
        }
    }
}

/// The value of a slot is the one that the last write of that slot of that
/// address carried, whatever other operations came before or after it.
pub proof fn lemma_last_write_wins(
    ops: Seq<OpModel>,
    j: int,
    a: Seq<u8>,
    k: Seq<u8>,
)
    requires
        0 <= j < ops.len(),
        writes_slot(ops[j], a, k),
        forall|i: int| j < i < ops.len() ==> !writes_slot(#[trigger] ops[i], a, k),
    ensures
        storage_get(update_of(replay(ops).updates, a).storage, k) == Some(ops[j]->value),
    decreases ops.len(),
{
    let prev = ops.drop_last();
    let s = replay(prev);
    let op = ops.last();
    assert(op == ops[ops.len() - 1]);
    lemma_replay_unique(prev);
    if j == ops.len() - 1 {
        let u0 = update_of(s.updates, a);
        lemma_update_of_slots(s.updates, a);
        lemma_storage_put(u0.storage, k, op->value);
        lemma_merge_keeps(u0, op);
        lemma_with_update(s.updates, merge(u0, op));
    } else {
        assert forall|i: int| j < i < prev.len() implies !writes_slot(#[trigger] prev[i], a, k) by {
            assert(prev[i] == ops[i]);
        }
        assert(prev[j] == ops[j]);
        lemma_last_write_wins(prev, j, a, k);
        lemma_step_other_slot(s, op, a, k);
    }
}

/// An address that no operation names has an empty update.
pub proof fn lemma_untouched(ops: Seq<OpModel>, a: Seq<u8>)
    requires
        forall|i: int| 0 <= i < ops.len() ==> !names(#[trigger] ops[i], a),
    ensures
        update_of(replay(ops).updates, a) == (UpdateModel {
            address: a,
            info: None,
            code: None,
            storage: Seq::empty(),
        }),
    decreases ops.len(),
{
    if ops.len() > 0 {
        let prev = ops.drop_last();
        assert forall|i: int| 0 <= i < prev.len() implies !names(#[trigger] prev[i], a) by {
            assert(prev[i] == ops[i]);
        }
        lemma_untouched(prev, a);
        lemma_replay_unique(prev);
        assert(ops.last() == ops[ops.len() - 1]);
        lemma_step_other_address(replay(prev), ops.last(), a);
    }
}

/// Where `set_code` is the only operation that names an address, wherever it
/// stands, the address ends with a zero balance, a zero nonce, the hash of
/// the code, and the code itself.
pub proof fn lemma_code_only_operation(ops: Seq<OpModel>, j: int, a: Seq<u8>, code: Seq<u8>)
    requires
        0 <= j < ops.len(),
        ops[j] == (OpModel::SetCode { address: a, code }),
        forall|i: int| 0 <= i < ops.len() && i != j ==> !names(#[trigger] ops[i], a),
    ensures
        update_of(replay(ops).updates, a).info == Some(
            InfoModel { code_hash: keccak_of(code), balance: zero_word(), nonce: 0 },
        ),
        update_of(replay(ops).updates, a).code == Some(code),
    decreases ops.len(),
{
    let prev = ops.drop_last();
    let s = replay(prev);
    let op = ops.last();
    assert(op == ops[ops.len() - 1]);
    lemma_replay_unique(prev);
    if j == ops.len() - 1 {
        assert forall|i: int| 0 <= i < prev.len() implies !names(#[trigger] prev[i], a) by {
            assert(prev[i] == ops[i]);
        }
        lemma_untouched(prev, a);
        let u0 = update_of(s.updates, a);
        lemma_update_of_slots(s.updates, a);
        lemma_merge_keeps(u0, op);
        lemma_with_update(s.updates, merge(u0, op));
    } else {
        assert forall|i: int| 0 <= i < prev.len() && i != j implies !names(#[trigger] prev[i], a) by {
            assert(prev[i] == ops[i]);
        }
        assert(prev[j] == ops[j]);
        lemma_code_only_operation(prev, j, a, code);
        lemma_step_other_address(s, op, a);
    }
}

/// An index stays right for updates whose addresses stand where they stood.
pub proof fn lemma_covers_same_addresses(
    index: Map<u64, Vec<usize>>,
    u1: Seq<UpdateModel>,
    u2: Seq<UpdateModel>,
)
    requires
        index_covers(index, u1),
        u1.len() == u2.len(),
        forall|p: int| 0 <= p < u1.len() ==> #[trigger] u1[p].address == u2[p].address,
    ensures
        index_covers(index, u2),
{
    assert forall|p: int| 0 <= p < u2.len() implies #[trigger] index.contains_key(
        bucket_of(u2[p].address),
    ) && index[bucket_of(u2[p].address)]@.contains(p as usize) by {
        assert(u1[p].address == u2[p].address);
        assert(index.contains_key(bucket_of(u1[p].address)));
    }
    assert forall|k: u64, j: int| #[trigger] index.contains_key(k) && 0 <= j < index[k]@.len()
        implies (#[trigger] index[k]@[j] as int) < u2.len() && bucket_of(
        u2[index[k]@[j] as int].address,
    ) == k by {
        assert(u1[index[k]@[j] as int].address == u2[index[k]@[j] as int].address);
    }
}

/// Computes the bucket of an address.
fn bucket(a: &[u8]) -> (r: u64)
    ensures
        r == bucket_of(a@),
{
    let n = a.len();
    if n < 8 {
        return 0;
    }
    a[n - 1] as u64 + a[n - 2] as u64 * 0x100 + a[n - 3] as u64 * 0x1_0000 + a[n - 4] as u64
        * 0x100_0000 + a[n - 5] as u64 * 0x1_0000_0000 + a[n - 6] as u64 * 0x100_0000_0000
        + a[n - 7] as u64 * 0x1_0000_0000_0000 + a[n - 8] as u64 * 0x100_0000_0000_0000
}

/// Account fields of a pending update.
#[derive(Debug, Clone)]
pub struct AccountInfo {
    pub code_hash: Vec<u8>,
    pub balance: Vec<u8>,
    pub nonce: u64,
}

impl View for AccountInfo {
    type V = InfoModel;

    open spec fn view(&self) -> InfoModel {
        InfoModel { code_hash: self.code_hash@, balance: self.balance@, nonce: self.nonce }
    }
}

/// Everything that is to change for one address.
#[derive(Debug, Clone)]
pub struct PendingUpdate {
    pub address: Vec<u8>,
    pub info: Option<AccountInfo>,
    pub code: Option<Vec<u8>>,
    pub storage: Vec<(Vec<u8>, Vec<u8>)>,
    /// Where each slot stands in `storage`.
    pub slot_positions: SlotIndex,
}

/// Positions in a storage list, grouped by the bucket of their slot.
#[derive(Debug, Clone)]
pub struct SlotIndex {
    map: HashMap<u64, Vec<usize>>,
}

/// The model of a storage list.
pub open spec fn storage_view(s: Seq<(Vec<u8>, Vec<u8>)>) -> Seq<(Seq<u8>, Seq<u8>)> {
    s.map_values(|p: (Vec<u8>, Vec<u8>)| (p.0@, p.1@))
}

impl View for PendingUpdate {
    type V = UpdateModel;

    open spec fn view(&self) -> UpdateModel {
        UpdateModel {
            address: self.address@,
            info: match self.info {
                Some(i) => Some(i@),
                None => None,
            },
            code: match self.code {
                Some(c) => Some(c@),
                None => None,
            },
            storage: storage_view(self.storage@),
        }
    }
}

/// The model of a list of updates.
pub open spec fn updates_view(u: Seq<PendingUpdate>) -> Seq<UpdateModel> {
    u.map_values(|p: PendingUpdate| p@)
}

/// Whether two byte strings are equal.
pub fn same_bytes(a: &[u8], b: &[u8]) -> (r: bool)
    ensures
        r == (a@ == b@),
{
    if a.len() != b.len() {
        return false;
    }
    let mut i: usize = 0;
    while i < a.len()
        invariant
            a@.len() == b@.len(),
            i <= a@.len(),
            forall|j: int| 0 <= j < i ==> a@[j] == b@[j],
        decreases a@.len() - i,
    {
        if a[i] != b[i] {
            return false;
        }
        i = i + 1;
    }
    assert(a@ =~= b@);
    true
}

impl PendingUpdate {
    /// An update of `address` that changes nothing yet.
    pub fn new(address: Vec<u8>) -> (r: PendingUpdate)
        ensures
            r@ == (UpdateModel { address: address@, info: None, code: None, storage: Seq::empty() }),
            r.indexed(),
    {
        let r = PendingUpdate {
            address,
            info: None,
            code: None,
            storage: Vec::new(),
            slot_positions: SlotIndex { map: HashMap::new() },
        };
        assert(r@.storage =~= Seq::<(Seq<u8>, Seq<u8>)>::empty());
        r
    }

    /// Writes `value` into `slot`.
    fn put_slot(&mut self, slot: Vec<u8>, value: Vec<u8>)
        requires
            unique_slots(old(self)@.storage),
            old(self).indexed(),
        ensures
            final(self)@ == (UpdateModel {
                storage: storage_put(old(self)@.storage, slot@, value@),
                ..old(self)@
            }),
            unique_slots(final(self)@.storage),
            final(self).indexed(),
    {
        let ghost s = old(self)@.storage;
        let b = bucket(slot.as_slice());
        let count = self.storage.len();
        let mut hit = false;
        let mut at: usize = 0;
        if let Some(list) = self.slot_positions.map.get(&b) {
            let mut j: usize = 0;
            while j < list.len() && !hit
                invariant
                    self.indexed(),
                    s == storage_view(self.storage@),
                    count == s.len(),
                    self.slot_positions.map@.contains_key(b),
                    list@ == self.slot_positions.map@[b]@,
                    j <= list@.len(),
                    hit ==> at < s.len() && s[at as int].0 == slot@,
                    !hit ==> forall|jj: int| 0 <= jj < j ==> s[list@[jj] as int].0 != slot@,
                decreases list@.len() - j + if hit {
                    0int
                } else {
                    1int
                },
            {
                let i = list[j];
                assert(self.slot_positions.map@.contains_key(b) && 0 <= j < self.slot_positions.map@[b]@.len());
                assert((self.slot_positions.map@[b]@[j as int] as int) < s.len());
                if same_bytes(self.storage[i].0.as_slice(), slot.as_slice()) {
                    hit = true;
                    at = i;
                } else {
                    j = j + 1;
                }
            }
            proof {
                if !hit {
                    assert forall|i: int| 0 <= i < s.len() implies s[i].0 != slot@ by {
                        if s[i].0 == slot@ {
                            assert(self.slot_positions.map@.contains_key(bucket_of(s[i].0)));
                            assert(self.slot_positions.map@[bucket_of(s[i].0)]@.contains(i as usize));
                            let jj = choose|jj: int|
                                0 <= jj < list@.len() && list@[jj] == i as usize;
                            assert(s[list@[jj] as int].0 != slot@);
                        }
                    }
                }
            }
        } else {
            assert forall|i: int| 0 <= i < s.len() implies s[i].0 != slot@ by {
                if s[i].0 == slot@ {
                    assert(self.slot_positions.map@.contains_key(bucket_of(s[i].0)));
                }
            }
        }
        if hit {
            let i = at;
            assert(slot_index(s, slot@) == i as int);
            self.storage.set(i, (slot, value));
            assert(storage_view(self.storage@) =~= s.update(i as int, (slot@, value@)));
            proof {
                let s2 = storage_view(self.storage@);
                assert forall|p: int| 0 <= p < s2.len() implies #[trigger] self.slot_positions.map@.contains_key(
                    bucket_of(s2[p].0),
                ) && self.slot_positions.map@[bucket_of(s2[p].0)]@.contains(p as usize) by {
                    assert(s[p].0 == s2[p].0);
                    assert(self.slot_positions.map@.contains_key(bucket_of(s[p].0)));
                }
                assert forall|k: u64, jj: int|
                    #[trigger] self.slot_positions.map@.contains_key(k) && 0 <= jj < self.slot_positions.map@[k]@.len()
                    implies (#[trigger] self.slot_positions.map@[k]@[jj] as int) < s2.len() && bucket_of(
                    s2[self.slot_positions.map@[k]@[jj] as int].0,
                ) == k by {
                    assert(s[self.slot_positions.map@[k]@[jj] as int].0 == s2[self.slot_positions.map@[k]@[jj] as int].0);
                }
            }
            return;
        }
        assert(slot_index(s, slot@) == -1);
        self.storage.push((slot, value));
        let ghost s2 = s.push((slot@, value@));
        assert(storage_view(self.storage@) =~= s2);
        let ghost old_index = self.slot_positions.map@;
        let mut list = match self.slot_positions.map.remove(&b) {
            Some(l) => l,
            None => Vec::new(),
        };
        list.push(count);
        self.slot_positions.map.insert(b, list);
        proof {
            assert forall|k: u64, jj: int|
                #[trigger] self.slot_positions.map@.contains_key(k) && 0 <= jj < self.slot_positions.map@[k]@.len()
                implies (#[trigger] self.slot_positions.map@[k]@[jj] as int) < s2.len() && bucket_of(
                s2[self.slot_positions.map@[k]@[jj] as int].0,
            ) == k by {
                if k != b {
                    assert(old_index.contains_key(k));
                    assert(self.slot_positions.map@[k] == old_index[k]);
                } else if jj < self.slot_positions.map@[k]@.len() - 1 {
                    assert(old_index.contains_key(k));
                }
            }
            assert forall|p: int| 0 <= p < s2.len() implies #[trigger] self.slot_positions.map@.contains_key(
                bucket_of(s2[p].0),
            ) && self.slot_positions.map@[bucket_of(s2[p].0)]@.contains(p as usize) by {
                let k = bucket_of(s2[p].0);
                if p < s.len() {
                    assert(old_index.contains_key(k));
                    let jj = choose|jj: int|
                        0 <= jj < old_index[k]@.len() && old_index[k]@[jj] == p as usize;
                    if k == b {
                        assert(self.slot_positions.map@[k]@[jj] == p as usize);
                    } else {
                        assert(self.slot_positions.map@[k] == old_index[k]);
                    }
                } else {
                    assert(self.slot_positions.map@[k]@[self.slot_positions.map@[k]@.len() - 1] == p as usize);
                }
            }
        }
    }

    /// The slot index lists, under the bucket of each slot, every position
    /// that holds that slot, and lists no other position.
    pub closed spec fn indexed(&self) -> bool {
        let s = storage_view(self.storage@);
        &&& forall|p: int|
            0 <= p < s.len() ==> #[trigger] self.slot_positions.map@.contains_key(bucket_of(s[p].0))
                && self.slot_positions.map@[bucket_of(s[p].0)]@.contains(p as usize)
        &&& forall|k: u64, j: int|
            #[trigger] self.slot_positions.map@.contains_key(k) && 0 <= j < self.slot_positions.map@[k]@.len() ==> (
            #[trigger] self.slot_positions.map@[k]@[j] as int) < s.len() && bucket_of(
                s[self.slot_positions.map@[k]@[j] as int].0,
            ) == k
    }
}

impl PendingUpdate {
    /// Writes balance and nonce, keeping a code hash that code set earlier.
    fn set_account(&mut self, balance: Vec<u8>, nonce: u64, empty_code_hash: &Vec<u8>)
        requires
            empty_code_hash@ == keccak_of(Seq::empty()),
        ensures
            final(self).indexed() == old(self).indexed(),
            final(self)@ == merge(
                old(self)@,
                OpModel::CreateAccount { address: old(self)@.address, balance: balance@, nonce },
            ),
    {
        let code_hash = match (&self.code, &self.info) {
            (Some(_), Some(i)) => i.code_hash.clone(),
            _ => empty_code_hash.clone(),
        };
        self.info = Some(AccountInfo { code_hash, balance, nonce });
        assert(storage_view(self.storage@) == storage_view(old(self).storage@));
        assert(self.slot_positions.map@ == old(self).slot_positions.map@);
    }

    /// Writes the code and its hash into the account fields, which start
    /// from a zero balance and nonce where there are none yet.
    fn set_code(&mut self, code: Vec<u8>)
        ensures
            final(self).indexed() == old(self).indexed(),
            final(self)@ == merge(
                old(self)@,
                OpModel::SetCode { address: old(self)@.address, code: code@ },
            ),
    {
        let h = keccak(code.as_slice());
        let info = match &self.info {
            Some(i) => AccountInfo { code_hash: h, balance: i.balance.clone(), nonce: i.nonce },
            None => AccountInfo { code_hash: h, balance: zeros(32), nonce: 0 },
        };
        self.info = Some(info);
        self.code = Some(code);
        assert(storage_view(self.storage@) == storage_view(old(self).storage@));
        assert(self.slot_positions.map@ == old(self).slot_positions.map@);
    }
}

/// Whether the counter that an operation advances has room left.
pub open spec fn has_room(s: AccModel, op: OpModel) -> bool {
    match op {
        OpModel::CreateAccount { .. } => s.accounts < u64::MAX,
        OpModel::SetCode { .. } => s.contracts < u64::MAX,
        OpModel::SetStorage { .. } => s.slots < u64::MAX,
        OpModel::Finalize => true,
    }
}

/// The updates gathered so far, one per address, with the number of
/// operations of each kind merged into them.
pub struct Accumulator {
    updates: Vec<PendingUpdate>,
    accounts_created: u64,
    contracts_created: u64,
    storage_slots: u64,
    empty_code_hash: Vec<u8>,
    /// Positions in `updates`, grouped by the bucket of their address.
    index: HashMap<u64, Vec<usize>>,
}

impl View for Accumulator {
    type V = AccModel;

    closed spec fn view(&self) -> AccModel {
        AccModel {
            updates: updates_view(self.updates@),
            accounts: self.accounts_created as nat,
            contracts: self.contracts_created as nat,
            slots: self.storage_slots as nat,
        }
    }
}

/// The consolidated update set handed to the state engine, in the order in
/// which addresses first appeared, with the operation counts.
#[derive(Debug, Clone)]
pub struct Batch {
    pub updates: Vec<PendingUpdate>,
    pub accounts_created: u64,
    pub contracts_created: u64,
    pub storage_slots: u64,
}

impl View for Batch {
    type V = AccModel;

    open spec fn view(&self) -> AccModel {
        AccModel {
            updates: updates_view(self.updates@),
            accounts: self.accounts_created as nat,
            contracts: self.contracts_created as nat,
            slots: self.storage_slots as nat,
        }
    }
}

impl Accumulator {
    /// Addresses are unique, slots within each update are unique, and the
    /// hash of empty code is at hand.
    pub closed spec fn wf(&self) -> bool {
        &&& unique_updates(self@.updates)
        &&& self.empty_code_hash@ == keccak_of(Seq::empty())
        &&& index_covers(self.index@, self@.updates)
        &&& forall|i: int| 0 <= i < self.updates@.len() ==> (#[trigger] self.updates@[i]).indexed()
    }

    /// An accumulator that holds nothing.
    pub fn new() -> (r: Accumulator)
        ensures
            r.wf(),
            r@ == empty_model(),
    {
        let empty: Vec<u8> = Vec::new();
        let r = Accumulator {
            updates: Vec::new(),
            accounts_created: 0,
            contracts_created: 0,
            storage_slots: 0,
            empty_code_hash: keccak(empty.as_slice()),
            index: HashMap::new(),
        };
        assert(empty@ =~= Seq::<u8>::empty());
        assert(r@.updates =~= Seq::<UpdateModel>::empty());
        r
    }

    /// Whether the counter that `op` advances has room left.
    pub fn has_room_for(&self, op: &Operation) -> (r: bool)
        ensures
            r == has_room(self@, op@),
    {
        match op {
            Operation::CreateAccount { .. } => self.accounts_created < u64::MAX,
            Operation::SetCode { .. } => self.contracts_created < u64::MAX,
            Operation::SetStorage { .. } => self.storage_slots < u64::MAX,
            Operation::Finalize => true,
        }
    }

    /// The index of the update of `address`, appending an empty one where the
    /// address is new.
    fn locate(&mut self, address: Vec<u8>) -> (i: usize)
        requires
            old(self).wf(),
        ensures
            final(self).wf(),
            i < final(self).updates@.len(),
            final(self).accounts_created == old(self).accounts_created,
            final(self).contracts_created == old(self).contracts_created,
            final(self).storage_slots == old(self).storage_slots,
            final(self).empty_code_hash == old(self).empty_code_hash,
            update_index(old(self)@.updates, address@) >= 0 ==> final(self)@.updates
                == old(self)@.updates && i == update_index(old(self)@.updates, address@),
            update_index(old(self)@.updates, address@) < 0 ==> final(self)@.updates
                == old(self)@.updates.push(update_of(old(self)@.updates, address@)) && i
                == old(self)@.updates.len(),
    {
        let ghost u = old(self)@.updates;
        let b = bucket(address.as_slice());
        let count = self.updates.len();
        let mut hit = false;
        let mut at: usize = 0;
        if let Some(list) = self.index.get(&b) {
            let mut j: usize = 0;
            while j < list.len() && !hit
                invariant
                    self.wf(),
                    u == self@.updates,
                    u == updates_view(self.updates@),
                    self.index@.contains_key(b),
                    list@ == self.index@[b]@,
                    j <= list@.len(),
                    hit ==> at < u.len() && u[at as int].address == address@,
                    !hit ==> forall|jj: int| 0 <= jj < j ==> u[list@[jj] as int].address != address@,
                decreases list@.len() - j + if hit {
                    0int
                } else {
                    1int
                },
            {
                let i = list[j];
                assert(self.index@.contains_key(b) && 0 <= j < self.index@[b]@.len());
                assert((self.index@[b]@[j as int] as int) < u.len());
                if same_bytes(self.updates[i].address.as_slice(), address.as_slice()) {
                    hit = true;
                    at = i;
                } else {
                    j = j + 1;
                }
            }
            proof {
                if !hit {
                    assert forall|i: int| 0 <= i < u.len() implies u[i].address != address@ by {
                        if u[i].address == address@ {
                            assert(self.index@.contains_key(bucket_of(u[i].address)));
                            assert(u.len() == count as int);
                            assert(self.index@[bucket_of(u[i].address)]@.contains(i as usize));
                            let jj = choose|jj: int|
                                0 <= jj < list@.len() && list@[jj] == i as usize;
                            assert(u[list@[jj] as int].address != address@);
                        }
                    }
                }
            }
        } else {
            assert forall|i: int| 0 <= i < u.len() implies u[i].address != address@ by {
                if u[i].address == address@ {
                    assert(self.index@.contains_key(bucket_of(u[i].address)));
                }
            }
        }
        if hit {
            let i = at;
            assert(u[i as int].address == address@);
            assert(update_index(u, address@) == i as int);
            return i;
        }
        assert(update_index(u, address@) == -1);
        let i = self.updates.len();
        let fresh = PendingUpdate::new(address);
        self.updates.push(fresh);
        let ghost u2 = u.push(update_of(u, address@));
        assert(updates_view(self.updates@) =~= u2);
        let ghost old_index = self.index@;
        let mut list = match self.index.remove(&b) {
            Some(l) => l,
            None => Vec::new(),
        };
        list.push(i);
        self.index.insert(b, list);
        proof {
            assert forall|k: u64, jj: int|
                #[trigger] self.index@.contains_key(k) && 0 <= jj < self.index@[k]@.len()
                implies (#[trigger] self.index@[k]@[jj] as int) < u2.len()
                && bucket_of(u2[self.index@[k]@[jj] as int].address) == k by {
                if k != b {
                    assert(old_index.contains_key(k));
                    assert(self.index@[k] == old_index[k]);
                } else if jj < self.index@[k]@.len() - 1 {
                    assert(old_index.contains_key(k));
                }
            }
            assert forall|p: int| 0 <= p < u2.len() implies #[trigger] self.index@.contains_key(
                bucket_of(u2[p].address),
            ) && self.index@[bucket_of(u2[p].address)]@.contains(p as usize) by {
                let k = bucket_of(u2[p].address);
                if p < u.len() {
                    assert(old_index.contains_key(k));
                    let jj = choose|jj: int|
                        0 <= jj < old_index[k]@.len() && old_index[k]@[jj] == p as usize;
                    if k == b {
                        assert(self.index@[k]@[jj] == p as usize);
                    } else {
                        assert(self.index@[k] == old_index[k]);
                    }
                } else {
                    assert(self.index@[k]@[self.index@[k]@.len() - 1] == p as usize);
                }
            }
        }
        i
    }

    /// Merges one operation; `Finalize` changes nothing.
    pub fn apply(&mut self, op: Operation)
        requires
            old(self).wf(),
            has_room(old(self)@, op@),
        ensures
            final(self).wf(),
            final(self)@ == step(old(self)@, op@),
    {
        let ghost s = old(self)@;
        let ghost m = merge(update_of(s.updates, op_address(op@)), op@);
        proof {
            if !(op@ is Finalize) {
                let u0 = update_of(s.updates, op_address(op@));
                if update_index(s.updates, op_address(op@)) >= 0 {
                    assert(unique_slots(s.updates[update_index(s.updates, op_address(op@))].storage));
                }
                lemma_merge_keeps(u0, op@);
                lemma_with_update(s.updates, m);
            }
        }
        match op {
            Operation::Finalize => {},
            Operation::CreateAccount { address, balance, nonce } => {
                let i = self.locate(address);
                let ghost mid = self@.updates;
                assert(self.updates@[i as int]@ == mid[i as int]);
                let h = self.empty_code_hash.clone();
                self.updates[i].set_account(balance, nonce, &h);
                self.accounts_created = self.accounts_created + 1;
                assert(self@.updates =~= mid.update(i as int, m));
                proof {
                    lemma_covers_same_addresses(self.index@, mid, self@.updates);
                }
            },
            Operation::SetCode { address, code } => {
                let i = self.locate(address);
                let ghost mid = self@.updates;
                assert(self.updates@[i as int]@ == mid[i as int]);
                self.updates[i].set_code(code);
                self.contracts_created = self.contracts_created + 1;
                assert(self@.updates =~= mid.update(i as int, m));
                proof {
                    lemma_covers_same_addresses(self.index@, mid, self@.updates);
                }
            },
            Operation::SetStorage { address, slot, value } => {
                let i = self.locate(address);
                let ghost mid = self@.updates;
                assert(self.updates@[i as int]@ == mid[i as int]);
                self.updates[i].put_slot(slot, value);
                self.storage_slots = self.storage_slots + 1;
                assert(self@.updates =~= mid.update(i as int, m));
                proof {
                    lemma_covers_same_addresses(self.index@, mid, self@.updates);
                }
            },
        }
        proof {
            if !(op@ is Finalize) {
                assert(self@.updates =~= with_update(s.updates, m));
            }
        }
    }

    /// Hands over the gathered updates and counts; nothing can be merged
    /// afterwards.
    pub fn finish(self) -> (b: Batch)
        requires
            self.wf(),
        ensures
            b@ == self@,
            unique_updates(b@.updates),
    {
        Batch {
            updates: self.updates,
            accounts_created: self.accounts_created,
            contracts_created: self.contracts_created,
            storage_slots: self.storage_slots,
        }
    }
}

} // verus!
