//! The domain model: operations, statements and the order on operations.

use std::cmp::Ordering;

use vstd::multiset::Multiset;
use vstd::prelude::*;

use crate::errors::DataError;

verus! {

broadcast use vstd::seq_lib::to_multiset_insert;

/// The kinds of transaction.
#[derive(Debug, Clone, Copy, PartialEq, Eq, Structural)]
pub enum TransactionType {
    Deposit,
    Transfer,
    Withdrawal,
}

/// The statuses of a transaction.
#[derive(Debug, Clone, Copy, PartialEq, Eq, Structural)]
pub enum Status {
    Success,
    Failure,
    Pending,
}

/// The kinds of statement (to classify where one came from).
#[derive(Debug)]
pub enum AccountStatementType {
    YPBank,
    MT940,
    Camt053,
    Sber,
}

/// Metadata of a statement (origin and bookkeeping fields).
#[derive(Debug)]
pub struct StatementMeta {
    pub source: Option<String>,
    pub account_id: Option<String>,
    pub generated_at_ms: Option<u64>,
}

impl Default for StatementMeta {
    fn default() -> (r: Self)
        ensures
            r.source is None,
            r.account_id is None,
            r.generated_at_ms is None,
    {
        StatementMeta { source: None, account_id: None, generated_at_ms: None }
    }
}

/// What an operation is, as a mathematical value.
pub struct OperationModel {
    pub tx_id: u64,
    pub tx_type: TransactionType,
    pub from_user_id: u64,
    pub to_user_id: u64,
    pub amount: i64,
    pub timestamp_ms: u64,
    pub status: Status,
    pub description: Option<Seq<char>>,
}

/// The position of a transaction type in the order of its variants.
pub open spec fn tx_type_rank(t: TransactionType) -> int {
    match t {
        TransactionType::Deposit => 0,
        TransactionType::Transfer => 1,
        TransactionType::Withdrawal => 2,
    }
}

/// The position of a status in the order of its variants.
pub open spec fn status_rank(s: Status) -> int {
    match s {
        Status::Success => 0,
        Status::Failure => 1,
        Status::Pending => 2,
    }
}

/// -1, 0 or 1 as `x` is below, equal to or above `y`.
pub open spec fn sign_of_difference(x: int, y: int) -> int {
    if x < y {
        -1
    } else if x > y {
        1
    } else {
        0
    }
}

/// The order on operations: lexicographic on (tx_id, tx_type, from_user_id,
/// to_user_id, amount, timestamp_ms, status); the description takes no part.
/// The result is -1, 0 or 1.
pub open spec fn key_order(a: OperationModel, b: OperationModel) -> int {
    if a.tx_id != b.tx_id {
        sign_of_difference(a.tx_id as int, b.tx_id as int)
    } else if a.tx_type != b.tx_type {
        sign_of_difference(tx_type_rank(a.tx_type), tx_type_rank(b.tx_type))
    } else if a.from_user_id != b.from_user_id {
        sign_of_difference(a.from_user_id as int, b.from_user_id as int)
    } else if a.to_user_id != b.to_user_id {
        sign_of_difference(a.to_user_id as int, b.to_user_id as int)
    } else if a.amount != b.amount {
        sign_of_difference(a.amount as int, b.amount as int)
    } else if a.timestamp_ms != b.timestamp_ms {
        sign_of_difference(a.timestamp_ms as int, b.timestamp_ms as int)
    } else if a.status != b.status {
        sign_of_difference(status_rank(a.status), status_rank(b.status))
    } else {
        0
    }
}

/// Two operations agree on every field but the description.
pub open spec fn same_key(a: OperationModel, b: OperationModel) -> bool {
    &&& a.tx_id == b.tx_id
    &&& a.tx_type == b.tx_type
    &&& a.from_user_id == b.from_user_id
    &&& a.to_user_id == b.to_user_id
    &&& a.amount == b.amount
    &&& a.timestamp_ms == b.timestamp_ms
    &&& a.status == b.status
}

/// The `Ordering` that a value of `key_order` stands for.
pub open spec fn ordering_of(c: int) -> Ordering {
    if c < 0 {
        Ordering::Less
    } else if c > 0 {
        Ordering::Greater
    } else {
        Ordering::Equal
    }
}

/// A sequence of operations is sorted by `key_order`.
pub open spec fn sorted_by_key(s: Seq<OperationModel>) -> bool {
    forall|i: int, j: int| 0 <= i < j < s.len() ==> key_order(#[trigger] s[i], #[trigger] s[j]) <= 0
}

/// Two sequences of operations agree pairwise on everything but descriptions.
pub open spec fn same_keys(a: Seq<OperationModel>, b: Seq<OperationModel>) -> bool {
    &&& a.len() == b.len()
    &&& forall|i: int| 0 <= i < a.len() ==> same_key(#[trigger] a[i], b[i])
}

/// The order on operations is a total order up to descriptions: it is zero
/// exactly on equal keys, it is antisymmetric and it is transitive.
pub proof fn lemma_key_order_total(a: OperationModel, b: OperationModel, c: OperationModel)
    ensures
        -1 <= key_order(a, b) <= 1,
        key_order(a, b) == 0 <==> same_key(a, b),
        key_order(a, b) == -key_order(b, a),
        key_order(a, b) <= 0 && key_order(b, c) <= 0 ==> key_order(a, c) <= 0,
        key_order(a, b) < 0 && key_order(b, c) <= 0 ==> key_order(a, c) < 0,
        key_order(a, b) <= 0 && key_order(b, c) < 0 ==> key_order(a, c) < 0,
{
}

/// `a` comes before `b` in the order in which the transaction types are
/// declared: DEPOSIT, TRANSFER, WITHDRAWAL.
pub open spec fn tx_type_before(a: TransactionType, b: TransactionType) -> bool {
    ||| a is Deposit && !(b is Deposit)
    ||| a is Transfer && b is Withdrawal
}

/// `a` comes before `b` in the order in which the statuses are declared:
/// SUCCESS, FAILURE, PENDING.
pub open spec fn status_before(a: Status, b: Status) -> bool {
    ||| a is Success && !(b is Success)
    ||| a is Failure && b is Pending
}

/// The order on operations is lexicographic on (tx_id, tx_type,
/// from_user_id, to_user_id, amount, timestamp_ms, status): the first field
/// in which two operations differ decides, whatever the later ones hold.
/// (With `lemma_key_order_total`, which gives `key_order(b, a) ==
/// -key_order(a, b)` and zero exactly on equal keys, this fixes the order.)
pub proof fn lemma_key_order_lexicographic(a: OperationModel, b: OperationModel)
    ensures
        a.tx_id < b.tx_id ==> key_order(a, b) < 0,
        a.tx_id == b.tx_id && tx_type_before(a.tx_type, b.tx_type) ==> key_order(a, b) < 0,
        a.tx_id == b.tx_id && a.tx_type == b.tx_type && a.from_user_id < b.from_user_id ==> key_order(a, b) < 0,
        a.tx_id == b.tx_id && a.tx_type == b.tx_type && a.from_user_id == b.from_user_id && a.to_user_id
            < b.to_user_id ==> key_order(a, b) < 0,
        a.tx_id == b.tx_id && a.tx_type == b.tx_type && a.from_user_id == b.from_user_id && a.to_user_id
            == b.to_user_id && a.amount < b.amount ==> key_order(a, b) < 0,
        a.tx_id == b.tx_id && a.tx_type == b.tx_type && a.from_user_id == b.from_user_id && a.to_user_id
            == b.to_user_id && a.amount == b.amount && a.timestamp_ms < b.timestamp_ms ==> key_order(a, b) < 0,
        a.tx_id == b.tx_id && a.tx_type == b.tx_type && a.from_user_id == b.from_user_id && a.to_user_id
            == b.to_user_id && a.amount == b.amount && a.timestamp_ms == b.timestamp_ms && status_before(
            a.status,
            b.status,
        ) ==> key_order(a, b) < 0,
{
}

/// Where `x` goes into the sorted `s`: after every operation whose key is not
/// above its own.
pub open spec fn sorted_place(s: Seq<OperationModel>, x: OperationModel) -> int
    decreases s.len(),
{
    if s.len() == 0 {
        0
    } else if key_order(s.last(), x) <= 0 {
        s.len() as int
    } else {
        sorted_place(s.drop_last(), x)
    }
}

/// The operations `xs` added to `s` one after another, each in its sorted place.
pub open spec fn add_sorted(s: Seq<OperationModel>, xs: Seq<OperationModel>) -> Seq<OperationModel>
    decreases xs.len(),
{
    if xs.len() == 0 {
        s
    } else {
        let t = add_sorted(s, xs.drop_last());
        t.insert(sorted_place(t, xs.last()), xs.last())
    }
}

/// The operations `ops` added one after another to no operations, each in its
/// sorted place.
pub open spec fn sorted_build(ops: Seq<OperationModel>) -> Seq<OperationModel> {
    add_sorted(Seq::empty(), ops)
}

/// The place found by a search that splits `s` at `lo` into the operations
/// not above `x` and those above it is `sorted_place(s, x)`.
proof fn lemma_sorted_place(s: Seq<OperationModel>, x: OperationModel, lo: int)
    requires
        0 <= lo <= s.len(),
        forall|i: int| 0 <= i < lo ==> key_order(#[trigger] s[i], x) <= 0,
        forall|i: int| lo <= i < s.len() ==> key_order(#[trigger] s[i], x) > 0,
    ensures
        sorted_place(s, x) == lo,
    decreases s.len(),
{
    if s.len() > 0 && lo < s.len() {
        let d = s.drop_last();
        assert(key_order(s[s.len() - 1], x) > 0);
        assert forall|i: int| 0 <= i < lo implies key_order(#[trigger] d[i], x) <= 0 by {
            assert(d[i] == s[i]);
        }
        assert forall|i: int| lo <= i < d.len() implies key_order(#[trigger] d[i], x) > 0 by {
            assert(d[i] == s[i]);
        }
        lemma_sorted_place(d, x, lo);
    } else if s.len() > 0 {
        assert(key_order(s[s.len() - 1], x) <= 0);
    }
}

/// The values of operations.
pub open spec fn models(ops: Seq<Operation>) -> Seq<OperationModel> {
    ops.map_values(|o: Operation| o@)
}

/// `s` is `ops` sorted by key: the same operations in sorted order, and
/// `ops` itself where `ops` is sorted already.
pub open spec fn sorted_from(s: Seq<OperationModel>, ops: Seq<OperationModel>) -> bool {
    &&& sorted_by_key(s)
    &&& s.to_multiset() == ops.to_multiset()
    &&& sorted_by_key(ops) ==> s == ops
}

/// Adding `m` in sorted place to `s`, the sorted form of `ops`, gives the
/// sorted form of `ops` with `m` pushed.
pub proof fn lemma_sorted_from_push(
    s: Seq<OperationModel>,
    ops: Seq<OperationModel>,
    s2: Seq<OperationModel>,
    m: OperationModel,
)
    requires
        sorted_from(s, ops),
        sorted_by_key(s2),
        s2.to_multiset() == s.to_multiset().insert(m),
        (forall|i: int| 0 <= i < s.len() ==> key_order(#[trigger] s[i], m) <= 0) ==> s2 == s.push(m),
    ensures
        sorted_from(s2, ops.push(m)),
{
    vstd::seq_lib::to_multiset_build(ops, m);
    let o2 = ops.push(m);
    if sorted_by_key(o2) {
        assert forall|i: int, j: int| 0 <= i < j < ops.len() implies key_order(#[trigger] ops[i], #[trigger] ops[j])
            <= 0 by {
            assert(o2[i] == ops[i] && o2[j] == ops[j]);
        }
        assert forall|i: int| 0 <= i < s.len() implies key_order(#[trigger] s[i], m) <= 0 by {
            assert(o2[i] == ops[i] && o2[ops.len() as int] == m);
        }
    }
}

/// Equality of statements (and of operations) is an equivalence: reflexive,
/// symmetric and transitive, as `Eq` promises.
pub proof fn lemma_same_keys_equivalence(a: Seq<OperationModel>, b: Seq<OperationModel>, c: Seq<OperationModel>)
    ensures
        same_keys(a, a),
        same_keys(a, b) ==> same_keys(b, a),
        same_keys(a, b) && same_keys(b, c) ==> same_keys(a, c),
{
    if same_keys(a, b) && same_keys(b, c) {
        assert forall|i: int| 0 <= i < a.len() implies same_key(#[trigger] a[i], c[i]) by {
            assert(same_key(a[i], b[i]) && same_key(b[i], c[i]));
        }
    }
    if same_keys(a, b) {
        assert forall|i: int| 0 <= i < b.len() implies same_key(#[trigger] b[i], a[i]) by {
            assert(same_key(a[i], b[i]));
        }
    }
}

/// The key of an operation: the operation without its description.
pub open spec fn key_part(m: OperationModel) -> OperationModel {
    OperationModel { description: None, ..m }
}

/// The keys of a sequence of operations, in order.
pub open spec fn keys_of(s: Seq<OperationModel>) -> Seq<OperationModel> {
    s.map_values(|m: OperationModel| key_part(m))
}

/// Equality compares keys alone: two sorted sequences of operations (as every
/// statement keeps them) agree one by one on everything but descriptions
/// exactly when they hold the same keys, each as often, whatever the
/// descriptions and whatever order the operations were added in.
pub proof fn lemma_same_keys_iff_key_multisets(a: Seq<OperationModel>, b: Seq<OperationModel>)
    requires
        sorted_by_key(a),
        sorted_by_key(b),
    ensures
        same_keys(a, b) <==> keys_of(a).to_multiset() == keys_of(b).to_multiset(),
{
    let ka = keys_of(a);
    let kb = keys_of(b);
    if same_keys(a, b) {
        assert(ka =~= kb) by {
            assert forall|i: int| 0 <= i < ka.len() implies ka[i] == kb[i] by {
                assert(same_key(a[i], b[i]));
            }
        }
    }
    if ka.to_multiset() == kb.to_multiset() {
        assert forall|p: int, q: int| 0 <= p < q < ka.len() implies key_order(#[trigger] ka[p], #[trigger] ka[q])
            <= 0 by {
            assert(key_order(a[p], a[q]) <= 0);
        }
        assert forall|p: int, q: int| 0 <= p < q < kb.len() implies key_order(#[trigger] kb[p], #[trigger] kb[q])
            <= 0 by {
            assert(key_order(b[p], b[q]) <= 0);
        }
        lemma_sorted_same_keys(ka, kb);
        assert forall|i: int| 0 <= i < a.len() implies same_key(#[trigger] a[i], b[i]) by {
            assert(same_key(ka[i], kb[i]));
        }
    }
}

/// Order does not matter: two sorted sequences of the same operations agree
/// one by one on everything but descriptions, so that statements read from
/// records that come in different orders compare equal.
pub proof fn lemma_sorted_same_keys(a: Seq<OperationModel>, b: Seq<OperationModel>)
    requires
        sorted_by_key(a),
        sorted_by_key(b),
        a.to_multiset() == b.to_multiset(),
    ensures
        same_keys(a, b),
    decreases a.len(),
{
    vstd::seq_lib::to_multiset_len(a);
    vstd::seq_lib::to_multiset_len(b);
    if a.len() > 0 {
        let x = a[0];
        vstd::seq_lib::to_multiset_contains(a, x);
        vstd::seq_lib::to_multiset_contains(b, x);
        assert(a.contains(x));
        let j = choose|j: int| 0 <= j < b.len() && b[j] == x;
        let a2 = a.remove(0);
        let b2 = b.remove(j);
        vstd::seq_lib::to_multiset_remove(a, 0);
        vstd::seq_lib::to_multiset_remove(b, j);
        assert forall|p: int, q: int| 0 <= p < q < a2.len() implies key_order(#[trigger] a2[p], #[trigger] a2[q])
            <= 0 by {
            assert(a2[p] == a[p + 1] && a2[q] == a[q + 1]);
        }
        assert forall|p: int, q: int| 0 <= p < q < b2.len() implies key_order(#[trigger] b2[p], #[trigger] b2[q])
            <= 0 by {
            let pp = if p < j { p } else { p + 1 };
            let qq = if q < j { q } else { q + 1 };
            assert(b2[p] == b[pp] && b2[q] == b[qq]);
        }
        lemma_sorted_same_keys(a2, b2);
        assert forall|k: int| 0 <= k <= j implies same_key(#[trigger] b[k], x) by {
            let y = b[k];
            vstd::seq_lib::to_multiset_contains(b, y);
            vstd::seq_lib::to_multiset_contains(a, y);
            assert(b.contains(y));
            let t = choose|t: int| 0 <= t < a.len() && a[t] == y;
            if t > 0 {
                assert(key_order(a[0], a[t]) <= 0);
            }
            lemma_key_order_total(x, y, x);
            if k < j {
                assert(key_order(b[k], b[j]) <= 0);
            }
            lemma_key_order_total(y, x, y);
        }
        assert forall|i: int| 0 <= i < a.len() implies same_key(#[trigger] a[i], b[i]) by {
            if i == 0 {
                assert(same_key(b[0], x));
            } else {
                assert(a[i] == a2[i - 1]);
                assert(same_key(a2[i - 1], b2[i - 1]));
                if i - 1 < j {
                    assert(b2[i - 1] == b[i - 1]);
                    assert(same_key(b[i - 1], x));
                    assert(same_key(b[i], x));
                } else {
                    assert(b2[i - 1] == b[i]);
                }
            }
        }
    }
}

/// One operation.
#[derive(Debug)]
pub struct Operation {
    tx_id: u64,
    tx_type: TransactionType,
    from_user_id: u64,
    to_user_id: u64,
    amount: i64,
    timestamp_ms: u64,
    status: Status,
    description: Option<String>,
}

/// The view of an optional string.
pub open spec fn opt_string_view(d: Option<String>) -> Option<Seq<char>> {
    match d {
        Some(s) => Some(s@),
        None => None,
    }
}

impl View for Operation {
    type V = OperationModel;

    closed spec fn view(&self) -> OperationModel {
        OperationModel {
            tx_id: self.tx_id,
            tx_type: self.tx_type,
            from_user_id: self.from_user_id,
            to_user_id: self.to_user_id,
            amount: self.amount,
            timestamp_ms: self.timestamp_ms,
            status: self.status,
            description: opt_string_view(self.description),
        }
    }
}

impl Operation {
    /// A new operation with the given fields.
    pub fn new(
        tx_id: u64,
        tx_type: TransactionType,
        from_user_id: u64,
        to_user_id: u64,
        amount: i64,
        timestamp_ms: u64,
        status: Status,
        description: Option<String>,
    ) -> (r: Self)
        ensures
            r@ == (OperationModel {
                tx_id,
                tx_type,
                from_user_id,
                to_user_id,
                amount,
                timestamp_ms,
                status,
                description: opt_string_view(description),
            }),
    {
        Operation {
            tx_id,
            tx_type,
            from_user_id,
            to_user_id,
            amount,
            timestamp_ms,
            status,
            description,
        }
    }

    /// The transaction id.
    pub fn tx_id(&self) -> (r: u64)
        ensures
            r == self@.tx_id,
    {
        self.tx_id
    }

    /// The transaction type.
    pub fn tx_type(&self) -> (r: &TransactionType)
        ensures
            *r == self@.tx_type,
    {
        &self.tx_type
    }

    /// The sender's account.
    pub fn from_user_id(&self) -> (r: u64)
        ensures
            r == self@.from_user_id,
    {
        self.from_user_id
    }

    /// The receiver's account.
    pub fn to_user_id(&self) -> (r: u64)
        ensures
            r == self@.to_user_id,
    {
        self.to_user_id
    }

    /// The amount, in the smallest unit of money.
    pub fn amount(&self) -> (r: i64)
        ensures
            r == self@.amount,
    {
        self.amount
    }

    /// The time of the operation, in milliseconds since the Unix epoch.
    pub fn timestamp_ms(&self) -> (r: u64)
        ensures
            r == self@.timestamp_ms,
    {
        self.timestamp_ms
    }

    /// The status.
    pub fn status(&self) -> (r: &Status)
        ensures
            *r == self@.status,
    {
        &self.status
    }

    /// The description, where there is one.
    pub fn description(&self) -> (r: Option<&str>)
        ensures
            r is Some <==> self@.description is Some,
            r matches Some(s) ==> self@.description == Some(s@),
    {
        match &self.description {
            Some(s) => Some(s.as_str()),
            None => None,
        }
    }

    /// Compares two operations by `key_order`: the description takes no part.
    pub fn cmp(&self, other: &Self) -> (r: Ordering)
        ensures
            r == ordering_of(key_order(self@, other@)),
    {
        if self.tx_id != other.tx_id {
            return if self.tx_id < other.tx_id { Ordering::Less } else { Ordering::Greater };
        }
        let (ra, rb) = (tx_type_index(&self.tx_type), tx_type_index(&other.tx_type));
        if ra != rb {
            return if ra < rb { Ordering::Less } else { Ordering::Greater };
        }
        if self.from_user_id != other.from_user_id {
            return if self.from_user_id < other.from_user_id { Ordering::Less } else { Ordering::Greater };
        }
        if self.to_user_id != other.to_user_id {
            return if self.to_user_id < other.to_user_id { Ordering::Less } else { Ordering::Greater };
        }
        if self.amount != other.amount {
            return if self.amount < other.amount { Ordering::Less } else { Ordering::Greater };
        }
        if self.timestamp_ms != other.timestamp_ms {
            return if self.timestamp_ms < other.timestamp_ms { Ordering::Less } else { Ordering::Greater };
        }
        let (sa, sb) = (status_index(&self.status), status_index(&other.status));
        if sa != sb {
            return if sa < sb { Ordering::Less } else { Ordering::Greater };
        }
        Ordering::Equal
    }
}

/// `a` comes strictly after `b` in the order of operations.
fn goes_after(a: &Operation, b: &Operation) -> (r: bool)
    ensures
        r == (key_order(a@, b@) > 0),
{
    match a.cmp(b) {
        Ordering::Greater => true,
        _ => false,
    }
}

/// The position of a transaction type among its variants.
fn tx_type_index(t: &TransactionType) -> (r: u8)
    ensures
        r == tx_type_rank(*t),
{
    match t {
        TransactionType::Deposit => 0,
        TransactionType::Transfer => 1,
        TransactionType::Withdrawal => 2,
    }
}

/// The position of a status among its variants.
fn status_index(s: &Status) -> (r: u8)
    ensures
        r == status_rank(*s),
{
    match s {
        Status::Success => 0,
        Status::Failure => 1,
        Status::Pending => 2,
    }
}

impl PartialEq for Operation {
    fn eq(&self, other: &Self) -> (r: bool) {
        self.tx_id == other.tx_id && tx_type_index(&self.tx_type) == tx_type_index(&other.tx_type)
            && self.from_user_id == other.from_user_id && self.to_user_id == other.to_user_id
            && self.amount == other.amount && self.timestamp_ms == other.timestamp_ms
            && status_index(&self.status) == status_index(&other.status)
    }
}

impl vstd::std_specs::cmp::PartialEqSpecImpl for Operation {
    open spec fn obeys_eq_spec() -> bool {
        true
    }

    open spec fn eq_spec(&self, other: &Self) -> bool {
        same_key(self@, other@)
    }
}

impl Eq for Operation {}

impl PartialOrd for Operation {
    fn partial_cmp(&self, other: &Self) -> (r: Option<Ordering>) {
        Some(self.cmp(other))
    }
}

impl vstd::std_specs::cmp::PartialOrdSpecImpl for Operation {
    open spec fn obeys_partial_cmp_spec() -> bool {
        true
    }

    open spec fn partial_cmp_spec(&self, other: &Self) -> Option<Ordering> {
        Some(ordering_of(key_order(self@, other@)))
    }
}

/// A whole statement: operations kept sorted by `key_order`, and metadata.
#[derive(Debug)]
pub struct Statement {
    operations: Vec<Operation>,
    pub meta: StatementMeta,
}

impl View for Statement {
    type V = Seq<OperationModel>;

    closed spec fn view(&self) -> Seq<OperationModel> {
        self.operations@.map_values(|o: Operation| o@)
    }
}

impl Statement {
    /// The metadata, as a value.
    pub closed spec fn meta_value(&self) -> StatementMeta {
        self.meta
    }

    /// The operations are sorted by `key_order`.
    pub open spec fn wf(&self) -> bool {
        sorted_by_key(self@)
    }

    /// A statement with no operations and no metadata.
    pub(crate) fn empty() -> (st: Self)
        ensures
            st@ == Seq::<OperationModel>::empty(),
            st.meta_value().source is None,
            st.meta_value().account_id is None,
            st.meta_value().generated_at_ms is None,
    {
        let st = Statement { operations: Vec::new(), meta: StatementMeta::default() };
        proof {
            assert(st@ =~= Seq::<OperationModel>::empty());
        }
        st
    }

    /// The number of operations.
    pub(crate) fn len(&self) -> (n: usize)
        ensures
            n == self@.len(),
    {
        self.operations.len()
    }

    /// The operation at index `i`.
    pub(crate) fn operation(&self, i: usize) -> (op: &Operation)
        requires
            i < self@.len(),
        ensures
            op@ == self@[i as int],
    {
        &self.operations[i]
    }

    /// Adds one operation, keeping the operations sorted.
    pub fn append(&mut self, op: Operation)
        requires
            old(self).wf(),
        ensures
            final(self).wf(),
            exists|i: int| 0 <= i <= old(self)@.len() && final(self)@ == old(self)@.insert(i, op@),
            final(self)@.to_multiset() == old(self)@.to_multiset().insert(op@),
            (forall|i: int| 0 <= i < old(self)@.len() ==> key_order(#[trigger] old(self)@[i], op@) <= 0)
                ==> final(self)@ == old(self)@.push(op@),
            final(self)@ == old(self)@.insert(sorted_place(old(self)@, op@), op@),
            final(self).meta_value() == old(self).meta_value(),
    {
        let ghost s = self@;
        let ghost x = op@;
        let n = self.operations.len();
        let mut lo: usize = 0;
        let mut hi: usize = n;
        while lo < hi
            invariant
                s == self@,
                x == op@,
                n == s.len(),
                0 <= lo <= hi <= n,
                sorted_by_key(s),
                forall|i: int| 0 <= i < lo ==> key_order(#[trigger] s[i], x) <= 0,
                forall|i: int| hi <= i < n ==> key_order(#[trigger] s[i], x) > 0,
            decreases hi - lo,
        {
            let mid = lo + (hi - lo) / 2;
            let after = goes_after(&self.operations[mid], &op);
            proof {
                assert(s[mid as int] == self.operations@[mid as int]@);
            }
            if after {
                proof {
                    assert(key_order(s[mid as int], x) > 0);
                    assert forall|i: int| mid <= i < n implies key_order(#[trigger] s[i], x) > 0 by {
                        if i > mid {
                            assert(key_order(s[mid as int], s[i]) <= 0);
                        }
                        lemma_key_order_total(s[mid as int], s[i], x);
                    }
                }
                hi = mid;
            } else {
                proof {
                    assert forall|i: int| 0 <= i <= mid implies key_order(#[trigger] s[i], x) <= 0 by {
                        if i < mid {
                            assert(key_order(s[i], s[mid as int]) <= 0);
                        }
                        lemma_key_order_total(s[i], s[mid as int], x);
                    }
                }
                lo = mid + 1;
            }
        }
        self.operations.insert(lo, op);
        proof {
            lemma_sorted_place(s, x, lo as int);
            assert(self@ =~= s.insert(lo as int, x));
            if forall|i: int| 0 <= i < s.len() ==> key_order(#[trigger] s[i], x) <= 0 {
                if lo < n {
                    assert(key_order(s[lo as int], x) > 0);
                }
                assert(s.insert(lo as int, x) =~= s.push(x));
            }
            let t = self@;
            assert forall|i: int, j: int| 0 <= i < j < t.len() implies key_order(#[trigger] t[i], #[trigger] t[j]) <= 0 by {
                if j < lo {
                } else if i < lo && j == lo {
                } else if i < lo {
                    lemma_key_order_total(t[i], x, t[j]);
                    lemma_key_order_total(t[j], x, t[i]);
                } else if i == lo {
                    lemma_key_order_total(t[j], x, t[i]);
                } else {
                }
            }
        }
    }

    /// Adds several operations; the operations stay sorted.
    pub fn extend_and_sort(&mut self, ops: Vec<Operation>)
        requires
            old(self).wf(),
        ensures
            final(self).wf(),
            final(self)@.to_multiset() == old(self)@.to_multiset().add(
                ops@.map_values(|o: Operation| o@).to_multiset(),
            ),
            final(self)@ == add_sorted(old(self)@, models(ops@).reverse()),
            final(self).meta_value() == old(self).meta_value(),
    {
        let mut rest = ops;
        let ghost all = ops@.map_values(|o: Operation| o@);
        let ghost start = self@.to_multiset();
        proof {
            assert(all.take(all.len() as int) =~= all);
            assert(all.reverse().take(0) =~= Seq::<OperationModel>::empty());
        }
        while rest.len() > 0
            invariant
                self.wf(),
                self.meta_value() == old(self).meta_value(),
                all.len() == ops@.len(),
                rest@.len() <= ops@.len(),
                forall|i: int| 0 <= i < rest@.len() ==> #[trigger] rest@[i]@ == all[i],
                start.add(all.to_multiset()) == self@.to_multiset().add(
                    all.take(rest@.len() as int).to_multiset(),
                ),
                all == models(ops@),
                self@ == add_sorted(old(self)@, all.reverse().take(all.len() - rest@.len())),
            decreases rest.len(),
        {
            let k = rest.len();
            let ghost ms_before = self@.to_multiset();
            let op = rest.pop().unwrap();
            proof {
                assert(all.take(k as int) =~= all.take(k - 1).push(op@));
                vstd::seq_lib::to_multiset_build(all.take(k - 1), op@);
                let n = all.len() as int;
                assert(all.reverse()[n - k] == all[k - 1]);
                assert(all.reverse().take(n - k + 1) =~= all.reverse().take(n - k).push(op@));
                assert(all.reverse().take(n - k + 1).drop_last() =~= all.reverse().take(n - k));
            }
            self.append(op);
            proof {
                let m_rest = all.take(k - 1).to_multiset();
                assert(ms_before.add(m_rest.insert(op@)) =~= ms_before.insert(op@).add(m_rest));
            }
        }
        proof {
            assert(all.reverse().take(all.len() as int) =~= all.reverse());
            assert(all.take(0) =~= Seq::<OperationModel>::empty());
            vstd::seq_lib::to_multiset_len(all.take(0));
            vstd::multiset::lemma_multiset_empty_len(all.take(0).to_multiset());
            assert(self@.to_multiset().add(Multiset::<OperationModel>::empty()) =~= self@.to_multiset());
        }
    }
}


impl Statement {
    /// Builds a statement from the operations that `next_op` hands out, one per
    /// call on `r`, until it gives `None`; an error of `next_op` ends the reading
    /// and is returned. The operations end up sorted, whatever order they came in.
    /// (A statement that would hold more than `usize::MAX` operations is refused
    /// with a format error: memory runs out long before.)
    ///
    /// The calls made are `calls`, in order: the first is handed `r` as it was,
    /// each is handed `r` as the one before left it, and the last leaves `r` as
    /// it ends. Call `i` gave `Some(ops[i])`; the call after the operations gave
    /// `None` or the error.
    pub fn from_read<R, Next>(r: &mut R, next_op: Next) -> (res: Result<Self, DataError>)
        where Next: FnMut(&mut R) -> Result<Option<Operation>, DataError>,
        requires
            forall|x: &mut R| call_requires(next_op, (x,)),
        ensures
            res matches Ok(st) ==> {
                &&& exists|ops: Seq<Operation>, calls: Seq<&mut R>|
                    #![trigger sorted_from(st@, models(ops)), calls[0]]
                    {
                        &&& calls.len() == ops.len() + 1
                        &&& *calls[0] == *old(r)
                        &&& forall|i: int|
                            #![trigger calls[i]]
                            0 < i < calls.len() ==> *calls[i] == *final(calls[i - 1])
                        &&& *final(calls.last()) == *final(r)
                        &&& forall|i: int|
                            #![trigger ops[i]]
                            0 <= i < ops.len() ==> call_ensures(
                                next_op,
                                (calls[i],),
                                Ok::<Option<Operation>, DataError>(Some(ops[i])),
                            )
                        &&& call_ensures(next_op, (calls.last(),), Ok::<Option<Operation>, DataError>(None))
                        &&& sorted_from(st@, models(ops))
                        &&& st@ == sorted_build(models(ops))
                    }
                &&& st.meta_value().source is None
                &&& st.meta_value().account_id is None
                &&& st.meta_value().generated_at_ms is None
            },
            res matches Err(e) ==> exists|ops: Seq<Operation>, calls: Seq<&mut R>|
                #![trigger models(ops), calls[0]]
                {
                    &&& calls.len() > 0
                    &&& *calls[0] == *old(r)
                    &&& forall|i: int|
                        #![trigger calls[i]]
                        0 < i < calls.len() ==> *calls[i] == *final(calls[i - 1])
                    &&& *final(calls.last()) == *final(r)
                    &&& forall|i: int|
                        #![trigger ops[i]]
                        0 <= i < ops.len() ==> call_ensures(
                            next_op,
                            (calls[i],),
                            Ok::<Option<Operation>, DataError>(Some(ops[i])),
                        )
                    &&& {
                        ||| calls.len() == ops.len() + 1 && call_ensures(
                            next_op,
                            (calls.last(),),
                            Err::<Option<Operation>, DataError>(e),
                        )
                        ||| e is Format && calls.len() == ops.len() && ops.len() == usize::MAX && call_ensures(
                            next_op,
                            (calls[0],),
                            Ok::<Option<Operation>, DataError>(Some(ops[0])),
                        )
                    }
                },
    {
        let mut st = Statement::empty();
        let mut f = next_op;
        let ghost mut got: Seq<Operation> = Seq::empty();
        proof {
            assert(models(got) =~= Seq::<OperationModel>::empty());
            assert({
                let c = Seq::<&mut R>::empty();
                &&& c.len() == got.len()
                &&& c.len() == 0 ==> *r == *old(r)
            });
        }
        loop
            invariant
                f == next_op,
                forall|x: &mut R| call_requires(f, (x,)),
                sorted_from(st@, models(got)),
                st@ == sorted_build(models(got)),
                exists|calls: Seq<&mut R>|
                    #![trigger calls.len()]
                    {
                        &&& calls.len() == got.len()
                        &&& calls.len() == 0 ==> *r == *old(r)
                        &&& calls.len() > 0 ==> *calls[0] == *old(r) && *final(calls.last()) == *r
                        &&& forall|i: int|
                            #![trigger calls[i]]
                            0 < i < calls.len() ==> *calls[i] == *final(calls[i - 1])
                        &&& forall|i: int|
                            #![trigger got[i]]
                            0 <= i < got.len() ==> call_ensures(
                                next_op,
                                (calls[i],),
                                Ok::<Option<Operation>, DataError>(Some(got[i])),
                            )
                    },
                st.meta_value().source is None,
                st.meta_value().account_id is None,
                st.meta_value().generated_at_ms is None,
            decreases usize::MAX - st@.len(),
        {
            let count = st.operations.len();
            if count == usize::MAX {
                proof {
                    assert(st@.len() == st.operations@.len());
                    vstd::seq_lib::to_multiset_len(st@);
                    vstd::seq_lib::to_multiset_len(models(got));
                    assert(got.len() == usize::MAX);
                    assert(*r == *final(r));
                }
                return Err(DataError::Format(String::from_str("the statement cannot hold more operations")));
            }
            let ghost before = *r;
            let ghost prev = got;
            let res = f(r);
            proof {
                assert({
                    let pc = choose|calls: Seq<&mut R>|
                        #![trigger calls.len()]
                        {
                            &&& calls.len() == prev.len()
                            &&& calls.len() == 0 ==> before == *old(r)
                            &&& calls.len() > 0 ==> *calls[0] == *old(r) && *final(calls.last()) == before
                            &&& forall|i: int|
                                #![trigger calls[i]]
                                0 < i < calls.len() ==> *calls[i] == *final(calls[i - 1])
                            &&& forall|i: int|
                                #![trigger prev[i]]
                                0 <= i < prev.len() ==> call_ensures(
                                    next_op,
                                    (calls[i],),
                                    Ok::<Option<Operation>, DataError>(Some(prev[i])),
                                )
                        };
                    let y = choose|y: &mut R| #[trigger] call_ensures(f, (y,), res) && *y == before && *final(y) == *r;
                    let c = pc.push(y);
                    &&& c.len() == prev.len() + 1
                    &&& *c[0] == *old(r)
                    &&& *final(c.last()) == *r
                    &&& call_ensures(next_op, (c.last(),), res)
                    &&& forall|i: int|
                        #![trigger c[i]]
                        0 < i < c.len() ==> *c[i] == *final(c[i - 1])
                    &&& forall|i: int|
                        #![trigger prev[i]]
                        0 <= i < prev.len() ==> call_ensures(
                            next_op,
                            (c[i],),
                            Ok::<Option<Operation>, DataError>(Some(prev[i])),
                        )
                });
            }
            match res {
                Ok(Some(op)) => {
                    let ghost bst = st@;
                    let ghost m = op@;
                    proof {
                        got = got.push(op);
                    }
                    st.append(op);
                    proof {
                        assert(models(prev).push(m) =~= models(got));
                        assert(models(got).drop_last() =~= models(prev));
                        lemma_sorted_from_push(bst, models(prev), st@, m);
                    }
                },
                Ok(None) => {
                    proof {
                        assert(*r == *final(r));
                    }
                    return Ok(st);
                },
                Err(e) => {
                    proof {
                        assert(*r == *final(r));
                    }
                    return Err(e);
                },
            }
        }
    }
}


impl Statement {
    /// The operations as stored, in order; their views are `self@`.
    pub closed spec fn stored(&self) -> Seq<Operation> {
        self.operations@
    }

    /// Hands each operation, in order, to `write_op` with the writer `w`;
    /// stops at the first error of `write_op` and returns it.
    ///
    /// The calls made are `calls`, in order: call `i` is handed operation `i`
    /// and `w` as the call before left it (the first: `w` as it was); the last
    /// leaves `w` as it ends. Every call but an erring last one gave `Ok`.
    pub fn write_to<W, F>(&mut self, w: &mut W, mut write_op: F) -> (res: Result<(), DataError>)
        where F: FnMut(&mut W, &Operation) -> Result<(), DataError>,
        requires
            forall|x: &mut W, o: &Operation| call_requires(write_op, (x, o)),
        ensures
            final(self)@ == old(self)@,
            final(self).meta_value() == old(self).meta_value(),
            final(self).stored() == old(self).stored(),
            old(self)@ == old(self).stored().map_values(|o: Operation| o@),
            exists|calls: Seq<&mut W>|
                #![trigger calls.len()]
                {
                    &&& res is Ok ==> calls.len() == old(self).stored().len()
                    &&& res is Err ==> 0 < calls.len() <= old(self).stored().len()
                    &&& calls.len() == 0 ==> *final(w) == *old(w)
                    &&& calls.len() > 0 ==> *calls[0] == *old(w) && *final(calls.last()) == *final(w)
                    &&& forall|i: int|
                        #![trigger calls[i]]
                        0 < i < calls.len() ==> *calls[i] == *final(calls[i - 1])
                    &&& forall|i: int|
                        #![trigger calls[i]]
                        0 <= i < calls.len() ==> call_ensures(
                            write_op,
                            (calls[i], &old(self).stored()[i]),
                            if i < calls.len() - 1 || res is Ok {
                                Ok(())
                            } else {
                                res
                            },
                        )
                },
    {
        let n = self.operations.len();
        let mut f = write_op;
        proof {
            assert({
                let c = Seq::<&mut W>::empty();
                &&& c.len() == 0
                &&& c.len() == 0 ==> *w == *old(w)
            });
        }
        for i in 0..n
            invariant
                n == self.operations.len(),
                f == write_op,
                self.operations@ == old(self).operations@,
                self.meta == old(self).meta,
                forall|x: &mut W, o: &Operation| call_requires(f, (x, o)),
                exists|calls: Seq<&mut W>|
                    #![trigger calls.len()]
                    {
                        &&& calls.len() == i
                        &&& calls.len() == 0 ==> *w == *old(w)
                        &&& calls.len() > 0 ==> *calls[0] == *old(w) && *final(calls.last()) == *w
                        &&& forall|j: int|
                            #![trigger calls[j]]
                            0 < j < calls.len() ==> *calls[j] == *final(calls[j - 1])
                        &&& forall|j: int|
                            #![trigger calls[j]]
                            0 <= j < calls.len() ==> call_ensures(
                                write_op,
                                (calls[j], &old(self).operations@[j]),
                                Ok::<(), DataError>(()),
                            )
                    },
        {
            let op = &self.operations[i];
            let ghost before = *w;
            let r = f(w, op);
            proof {
                assert({
                    let pc = choose|calls: Seq<&mut W>|
                        #![trigger calls.len()]
                        {
                            &&& calls.len() == i
                            &&& calls.len() == 0 ==> before == *old(w)
                            &&& calls.len() > 0 ==> *calls[0] == *old(w) && *final(calls.last()) == before
                            &&& forall|j: int|
                                #![trigger calls[j]]
                                0 < j < calls.len() ==> *calls[j] == *final(calls[j - 1])
                            &&& forall|j: int|
                                #![trigger calls[j]]
                                0 <= j < calls.len() ==> call_ensures(
                                    write_op,
                                    (calls[j], &old(self).operations@[j]),
                                    Ok::<(), DataError>(()),
                                )
                        };
                    let y = choose|y: &mut W| #[trigger] call_ensures(f, (y, op), r) && *y == before && *final(y) == *w;
                    let c = pc.push(y);
                    &&& c.len() == i + 1
                    &&& *c[0] == *old(w)
                    &&& *final(c.last()) == *w
                    &&& forall|j: int|
                        #![trigger c[j]]
                        0 < j < c.len() ==> *c[j] == *final(c[j - 1])
                    &&& forall|j: int|
                        #![trigger c[j]]
                        0 <= j < c.len() ==> call_ensures(
                            write_op,
                            (c[j], &old(self).operations@[j]),
                            if j < c.len() - 1 {
                                Ok(())
                            } else {
                                r
                            },
                        )
                });
            }
            match r {
                Ok(u) => {},
                Err(e) => {
                    proof {
                        assert(*w == *final(w));
                    }
                    return Err(e);
                },
            }
        }
        proof {
            assert(*w == *final(w));
        }
        Ok(())
    }
}

/// Equality of statements: the same operations in the same order, compared
/// without descriptions; the metadata takes no part.
impl PartialEq for Statement {
    fn eq(&self, other: &Self) -> (r: bool) {
        let n = self.operations.len();
        if n != other.operations.len() {
            return false;
        }
        proof {
            assert(self@.len() == n && other@.len() == n);
        }
        for i in 0..n
            invariant
                n == self.operations.len(),
                n == other.operations.len(),
                forall|j: int| 0 <= j < i ==> same_key(#[trigger] self@[j], other@[j]),
        {
            proof {
                assert(self@[i as int] == self.operations@[i as int]@);
                assert(other@[i as int] == other.operations@[i as int]@);
            }
            if !(self.operations[i] == other.operations[i]) {
                return false;
            }
        }
        true
    }
}

impl vstd::std_specs::cmp::PartialEqSpecImpl for Statement {
    open spec fn obeys_eq_spec() -> bool {
        true
    }

    open spec fn eq_spec(&self, other: &Self) -> bool {
        same_keys(self@, other@)
    }
}

impl Eq for Statement {}

} // verus!
