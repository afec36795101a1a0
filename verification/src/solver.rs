//! Rename-order solver: builds the "must run first" relation between pending
//! renames, breaks cycles through temporary paths, and emits a safe,
//! deterministic execution schedule, together with the inverse planner.
use vstd::prelude::*;
use vstd::relations::{sorted_by, total_ordering};
use vstd::seq_lib::lemma_sorted_unique;
use vstd::multiset::Multiset;
use crate::error::{Error, ErrorKind};

verus! {

broadcast use vstd::seq_lib::group_to_multiset_ensures;

/// One rename step: the file at `source` moves to `target`.
/// Paths are byte strings, compared byte for byte.
#[derive(Clone, Debug, PartialEq, Eq)]
pub struct Operation {
    pub source: Vec<u8>,
    pub target: Vec<u8>,
}

/// Mathematical model of one rename step.
#[verifier::ext_equal]
pub ghost struct OpModel {
    pub source: Seq<u8>,
    pub target: Seq<u8>,
}

impl View for Operation {
    type V = OpModel;

    open spec fn view(&self) -> OpModel {
        OpModel { source: self.source@, target: self.target@ }
    }
}

/// An ordered batch of rename steps; the order is the execution order.
pub type Operations = Vec<Operation>;

/// A validated batch of desired renames: each target is claimed by exactly
/// one source. Entry order carries no meaning; the solver sorts internally.
pub type RenameMap = Vec<Operation>;

/// The models of a sequence of operations.
pub open spec fn models(s: Seq<Operation>) -> Seq<OpModel> {
    s.map_values(|o: Operation| o@)
}

/// Byte-wise lexicographic "less or equal" on paths.
pub open spec fn lex_leq(a: Seq<u8>, b: Seq<u8>) -> bool
    decreases a.len(),
{
    if a.len() == 0 {
        true
    } else if b.len() == 0 {
        false
    } else if a[0] < b[0] {
        true
    } else if a[0] > b[0] {
        false
    } else {
        lex_leq(a.skip(1), b.skip(1))
    }
}

/// Total order on rename steps: by source path, then by target path.
pub open spec fn op_leq(a: OpModel, b: OpModel) -> bool {
    if a.source != b.source {
        lex_leq(a.source, b.source)
    } else {
        lex_leq(a.target, b.target)
    }
}

/// The order above as a relation value, for use with sorting lemmas.
pub open spec fn op_leq_rel() -> spec_fn(OpModel, OpModel) -> bool {
    |a: OpModel, b: OpModel| op_leq(a, b)
}

/// A well-formed rename map: no no-op entries, no source named twice,
/// no target claimed twice.
pub open spec fn valid_map(m: Seq<OpModel>) -> bool {
    &&& forall|i: int| 0 <= i < m.len() ==> (#[trigger] m[i]).source != m[i].target
    &&& forall|i: int, j: int|
        0 <= i < j < m.len() ==> #[trigger] m[i].source != #[trigger] m[j].source && m[i].target
            != m[j].target
}

/// Does some entry of `p` have `x` as its source path?
pub open spec fn op_in_sources(p: Seq<OpModel>, x: Seq<u8>) -> bool {
    exists|j: int| 0 <= j < p.len() && (#[trigger] p[j]).source == x
}

/// The set of source paths of a batch.
pub open spec fn sources_set(m: Seq<OpModel>) -> Set<Seq<u8>> {
    Set::new(|x: Seq<u8>| op_in_sources(m, x))
}

/// Does some entry of `p` have `x` as its target path?
pub open spec fn op_in_targets(p: Seq<OpModel>, x: Seq<u8>) -> bool {
    exists|j: int| 0 <= j < p.len() && (#[trigger] p[j]).target == x
}

/// The set of target paths of a batch.
pub open spec fn targets_set(m: Seq<OpModel>) -> Set<Seq<u8>> {
    Set::new(|x: Seq<u8>| op_in_targets(m, x))
}

/// Simulated filesystem: each occupied path maps to the identity of the
/// file stored there (named by the path the file occupied initially).
pub open spec fn applicable(fs: Map<Seq<u8>, Seq<u8>>, op: OpModel) -> bool {
    fs.dom().contains(op.source) && !fs.dom().contains(op.target)
}

/// Effect of one rename step on the simulated filesystem.
pub open spec fn apply_op(fs: Map<Seq<u8>, Seq<u8>>, op: OpModel) -> Map<Seq<u8>, Seq<u8>> {
    fs.remove(op.source).insert(op.target, fs[op.source])
}

/// Every step of the sequence is applicable when its turn comes: it never
/// claims a path that is still occupied and always moves an existing file.
pub open spec fn all_applicable(fs: Map<Seq<u8>, Seq<u8>>, ops: Seq<OpModel>) -> bool
    decreases ops.len(),
{
    ops.len() == 0 || (applicable(fs, ops[0]) && all_applicable(apply_op(fs, ops[0]), ops.skip(1)))
}

/// Effect of a whole sequence of rename steps.
pub open spec fn apply_ops(fs: Map<Seq<u8>, Seq<u8>>, ops: Seq<OpModel>) -> Map<Seq<u8>, Seq<u8>>
    decreases ops.len(),
{
    if ops.len() == 0 {
        fs
    } else {
        apply_ops(apply_op(fs, ops[0]), ops.skip(1))
    }
}

/// The filesystem before the batch runs: every source path holds the file
/// named after that path.
pub open spec fn initial_fs(m: Seq<OpModel>) -> Map<Seq<u8>, Seq<u8>> {
    Map::new(|p: Seq<u8>| sources_set(m).contains(p), |p: Seq<u8>| p)
}

/// The source path claimed for a target path of the map.
pub open spec fn source_for(m: Seq<OpModel>, t: Seq<u8>) -> Seq<u8> {
    m[choose|i: int| 0 <= i < m.len() && (#[trigger] m[i]).target == t].source
}

/// The filesystem the map asks for: every target path holds the file that
/// started at the source claimed for it.
pub open spec fn renamed_fs(m: Seq<OpModel>) -> Map<Seq<u8>, Seq<u8>> {
    Map::new(|t: Seq<u8>| targets_set(m).contains(t), |t: Seq<u8>| source_for(m, t))
}

/// First pending entry (from index `i` on) whose target is not occupied by
/// another pending source, hence runnable right away.
pub open spec fn find_cand_from(p: Seq<OpModel>, i: int) -> Option<int>
    decreases p.len() - i,
{
    if i < 0 || i >= p.len() {
        None
    } else if !op_in_sources(p, p[i].target) {
        Some(i)
    } else {
        find_cand_from(p, i + 1)
    }
}

pub open spec fn find_cand(p: Seq<OpModel>) -> Option<int> {
    find_cand_from(p, 0)
}

pub open spec fn max2(a: nat, b: nat) -> nat {
    if a >= b {
        a
    } else {
        b
    }
}

pub open spec fn op_span(op: OpModel) -> nat {
    max2(op.source.len(), op.target.len())
}

/// Length of the longest path mentioned in a batch.
pub open spec fn max_path_len(p: Seq<OpModel>) -> nat
    decreases p.len(),
{
    if p.len() == 0 {
        0
    } else {
        max2(max_path_len(p.drop_last()), op_span(p.last()))
    }
}

/// Filler byte used to pad temporary paths.
pub const TEMP_BYTE: u8 = 126;

/// Temporary path used to split the first pending entry of a cycle: the
/// entry's source padded until it is longer than every path in the batch,
/// so it can collide with none of them.
pub open spec fn temp_path(pending: Seq<OpModel>, sched: Seq<OpModel>) -> Seq<u8> {
    let m = max2(max_path_len(pending), max_path_len(sched));
    pending[0].source + Seq::new((m + 1 - pending[0].source.len()) as nat, |i: int| TEMP_BYTE)
}

/// The scheduling loop, as a mathematical function. Repeatedly emits a
/// runnable entry; when none exists every remaining entry lies on a cycle,
/// so the first one is split through a temporary path, which frees exactly
/// one entry to run. `None` reports an unresolvable ordering. The range
/// tests around each recursive call only discharge the termination check:
/// a found candidate index is always in range.
pub open spec fn solve_loop(pending: Seq<OpModel>, sched: Seq<OpModel>) -> Option<Seq<OpModel>>
    decreases pending.len(),
{
    if pending.len() == 0 {
        Some(sched)
    } else {
        match find_cand(pending) {
            Some(i) => if 0 <= i < pending.len() {
                solve_loop(pending.remove(i), sched.push(pending[i]))
            } else {
                None
            },
            None => {
                let t = temp_path(pending, sched);
                let first = pending[0];
                let p2 = pending.update(0, OpModel { source: t, target: first.target });
                let s2 = sched.push(OpModel { source: first.source, target: t });
                match find_cand(p2) {
                    Some(j) => if 0 <= j < p2.len() {
                        solve_loop(p2.remove(j), s2.push(p2[j]))
                    } else {
                        None
                    },
                    None => None,
                }
            },
        }
    }
}

/// The whole solver as a mathematical function: reject ill-formed maps,
/// sort for determinism, then schedule.
pub open spec fn spec_solve(m: Seq<OpModel>) -> Option<Seq<OpModel>> {
    if valid_map(m) {
        solve_loop(m.sort_by(op_leq_rel()), Seq::empty())
    } else {
        None
    }
}

/// The reverse of a recorded batch: each step's source and target swapped.
pub open spec fn reversed(ops: Seq<OpModel>) -> Seq<OpModel> {
    ops.map_values(|o: OpModel| OpModel { source: o.target, target: o.source })
}

/// Size bounds under which the solver's arithmetic cannot overflow:
/// at most 2^28 entries, each path at most 2^28 bytes.
pub open spec fn within_limits(m: Seq<OpModel>) -> bool {
    &&& m.len() <= 0x1000_0000
    &&& forall|i: int|
        0 <= i < m.len() ==> (#[trigger] m[i]).source.len() <= 0x1000_0000 && m[i].target.len()
            <= 0x1000_0000
}

// ---------------------------------------------------------------------------
// Executable helpers
// ---------------------------------------------------------------------------
/// Byte-for-byte equality of two paths.
pub(crate) fn bytes_eq(a: &Vec<u8>, b: &Vec<u8>) -> (r: bool)
    ensures
        r == (a@ == b@),
{
    if a.len() != b.len() {
        return false;
    }
    let mut i: usize = 0;
    while i < a.len()
        invariant
            a@.len() == b@.len(),
            0 <= i <= a@.len(),
            forall|k: int| 0 <= k < i ==> a@[k] == b@[k],
        decreases a@.len() - i,
    {
        if a[i] != b[i] {
            return false;
        }
        i = i + 1;
    }
    proof {
        assert(a@ =~= b@);
    }
    true
}

/// Fresh copy of a path.
fn copy_bytes(a: &Vec<u8>) -> (r: Vec<u8>)
    ensures
        r@ == a@,
{
    let mut r: Vec<u8> = Vec::new();
    let mut i: usize = 0;
    while i < a.len()
        invariant
            0 <= i <= a@.len(),
            r@ == a@.take(i as int),
        decreases a@.len() - i,
    {
        r.push(a[i]);
        proof {
            assert(a@.take(i + 1 as int) =~= a@.take(i as int).push(a@[i as int]));
        }
        i = i + 1;
    }
    proof {
        assert(a@.take(a@.len() as int) =~= a@);
    }
    r
}

/// Fresh copy of a rename step.
pub(crate) fn copy_op(op: &Operation) -> (r: Operation)
    ensures
        r@ == op@,
{
    Operation { source: copy_bytes(&op.source), target: copy_bytes(&op.target) }
}

/// Executable lexicographic comparison, pinned to `lex_leq`.
fn lex_leq_bytes(a: &Vec<u8>, b: &Vec<u8>) -> (r: bool)
    ensures
        r == lex_leq(a@, b@),
{
    let mut i: usize = 0;
    proof {
        assert(a@.skip(0) =~= a@);
        assert(b@.skip(0) =~= b@);
    }
    while i < a.len() && i < b.len()
        invariant
            0 <= i <= a@.len(),
            0 <= i <= b@.len(),
            lex_leq(a@, b@) == lex_leq(a@.skip(i as int), b@.skip(i as int)),
        decreases a@.len() - i,
    {
        let sa = Ghost(a@.skip(i as int));
        let sb = Ghost(b@.skip(i as int));
        if a[i] < b[i] {
            return true;
        }
        if a[i] > b[i] {
            return false;
        }
        proof {
            assert(sa@.skip(1) =~= a@.skip(i + 1 as int));
            assert(sb@.skip(1) =~= b@.skip(i + 1 as int));
        }
        i = i + 1;
    }
    if i == a.len() {
        proof {
            assert(a@.skip(i as int).len() == 0);
        }
        true
    } else {
        proof {
            assert(a@.skip(i as int).len() > 0);
            assert(b@.skip(i as int).len() == 0);
        }
        false
    }
}

/// Executable comparison of rename steps, pinned to `op_leq`.
fn op_leq_exec(a: &Operation, b: &Operation) -> (r: bool)
    ensures
        r == op_leq(a@, b@),
{
    if bytes_eq(&a.source, &b.source) {
        lex_leq_bytes(&a.target, &b.target)
    } else {
        lex_leq_bytes(&a.source, &b.source)
    }
}

// ---------------------------------------------------------------------------
// The path order is a total order
// ---------------------------------------------------------------------------
proof fn lemma_lex_refl(a: Seq<u8>)
    ensures
        lex_leq(a, a),
    decreases a.len(),
{
    if a.len() > 0 {
        lemma_lex_refl(a.skip(1));
    }
}

proof fn lemma_lex_total(a: Seq<u8>, b: Seq<u8>)
    ensures
        lex_leq(a, b) || lex_leq(b, a),
    decreases a.len(),
{
    if a.len() > 0 && b.len() > 0 && a[0] == b[0] {
        lemma_lex_total(a.skip(1), b.skip(1));
    }
}

proof fn lemma_lex_antisym(a: Seq<u8>, b: Seq<u8>)
    requires
        lex_leq(a, b),
        lex_leq(b, a),
    ensures
        a == b,
    decreases a.len(),
{
    if a.len() == 0 {
        assert(b.len() == 0);
        assert(a =~= b);
    } else {
        assert(b.len() > 0);
        assert(a[0] == b[0]);
        lemma_lex_antisym(a.skip(1), b.skip(1));
        assert forall|i: int| 0 <= i < a.len() implies a[i] == b[i] by {
            if i > 0 {
                assert(a[i] == a.skip(1)[i - 1]);
                assert(b[i] == b.skip(1)[i - 1]);
            }
        }
        assert(a =~= b);
    }
}

proof fn lemma_lex_trans(a: Seq<u8>, b: Seq<u8>, c: Seq<u8>)
    requires
        lex_leq(a, b),
        lex_leq(b, c),
    ensures
        lex_leq(a, c),
    decreases a.len(),
{
    if a.len() > 0 {
        assert(b.len() > 0);
        assert(c.len() > 0);
        if a[0] == b[0] && b[0] == c[0] {
            lemma_lex_trans(a.skip(1), b.skip(1), c.skip(1));
        }
    }
}

/// The order on rename steps is a total order, as the sorting lemmas need.
pub proof fn lemma_op_leq_total_ordering()
    ensures
        total_ordering(op_leq_rel()),
{
    let r = op_leq_rel();
    assert forall|a: OpModel| #[trigger] r(a, a) by {
        lemma_lex_refl(a.target);
    }
    assert forall|a: OpModel, b: OpModel| #[trigger] r(a, b) && #[trigger] r(b, a) implies a
        == b by {
        if a.source != b.source {
            lemma_lex_antisym(a.source, b.source);
        } else {
            lemma_lex_antisym(a.target, b.target);
            assert(a =~= b);
        }
    }
    assert forall|a: OpModel, b: OpModel, c: OpModel| #[trigger] r(a, b) && #[trigger] r(
        b,
        c,
    ) implies r(a, c) by {
        if a.source == b.source && b.source == c.source {
            lemma_lex_trans(a.target, b.target, c.target);
        } else if a.source == b.source {
            // order decided by the source comparison of b and c
        } else if b.source == c.source {
            // order decided by the source comparison of a and b
        } else {
            lemma_lex_trans(a.source, b.source, c.source);
            if a.source == c.source {
                lemma_lex_antisym(a.source, b.source);
            }
        }
    }
    assert forall|a: OpModel, b: OpModel| #[trigger] r(a, b) || #[trigger] r(b, a) by {
        if a.source == b.source {
            lemma_lex_total(a.target, b.target);
        } else {
            lemma_lex_total(a.source, b.source);
        }
    }
}

// ---------------------------------------------------------------------------
// Sorting for a deterministic schedule
// ---------------------------------------------------------------------------
/// Insertion sort by the path order, pinned to the mathematical sort so the
/// result is canonical: any two inputs with the same entries sort equally.
fn sort_ops(input: Vec<Operation>) -> (r: Vec<Operation>)
    ensures
        models(r@).to_multiset() == models(input@).to_multiset(),
        sorted_by(models(r@), op_leq_rel()),
{
    let ghost m0 = models(input@);
    let mut r: Vec<Operation> = Vec::new();
    let mut rest = input;
    proof {
        assert(models(r@).to_multiset().add(models(rest@).to_multiset()) =~= m0.to_multiset());
    }
    while rest.len() > 0
        invariant
            models(r@).to_multiset().add(models(rest@).to_multiset()) == m0.to_multiset(),
            sorted_by(models(r@), op_leq_rel()),
        decreases rest@.len(),
    {
        let ghost old_r = models(r@);
        let ghost old_rest = models(rest@);
        let op = rest.remove(0);
        proof {
            assert(models(rest@) =~= old_rest.remove(0));
            assert(old_rest.remove(0).to_multiset() == old_rest.to_multiset().remove(op@));
            assert(old_rest.to_multiset().count(op@) > 0) by {
                assert(old_rest[0] == op@);
                assert(old_rest.contains(op@));
            }
        }
        let mut j: usize = 0;
        let mut searching = true;
        while searching && j < r.len()
            invariant
                0 <= j <= r@.len(),
                models(r@) == old_r,
                forall|k: int| 0 <= k < j ==> op_leq(#[trigger] old_r[k], op@),
                !searching ==> j < old_r.len() && op_leq(op@, old_r[j as int]),
            decreases r@.len() - j + (if searching { 1int } else { 0int }),
        {
            if op_leq_exec(&r[j], &op) {
                proof {
                    assert(old_r[j as int] == r@[j as int]@);
                }
                j = j + 1;
            } else {
                proof {
                    lemma_lex_total(old_r[j as int].source, op@.source);
                    lemma_lex_total(old_r[j as int].target, op@.target);
                }
                searching = false;
            }
        }
        r.insert(j, op);
        proof {
            let new_r = models(r@);
            assert(new_r =~= old_r.insert(j as int, op@));
            // multiset bookkeeping: inserting one step adds one occurrence
            assert(new_r.remove(j as int) =~= old_r);
            assert(new_r.remove(j as int).to_multiset() == new_r.to_multiset().remove(
                new_r[j as int],
            ));
            assert(new_r[j as int] == op@);
            assert(new_r.contains(op@));
            assert(new_r.to_multiset().count(op@) > 0);
            assert(new_r.to_multiset() =~= old_r.to_multiset().insert(op@));
            assert(models(r@).to_multiset().add(models(rest@).to_multiset()) =~= m0.to_multiset());
            // sortedness around the insertion point
            lemma_op_leq_total_ordering();
            let rel = op_leq_rel();
            let jj = j as int;
            assert forall|x: int, y: int| 0 <= x < y < new_r.len() implies #[trigger] rel(
                new_r[x],
                new_r[y],
            ) by {
                if y < jj {
                    assert(rel(old_r[x], old_r[y]));
                } else if x < jj && y == jj {
                    assert(op_leq(old_r[x], op@));
                    assert(rel(old_r[x], op@));
                } else if x == jj {
                    assert(y > jj);
                    assert(jj < old_r.len());
                    assert(new_r[y] == old_r[y - 1]);
                    assert(op_leq(op@, old_r[jj]));
                    assert(rel(op@, old_r[jj]));
                    if y - 1 > jj {
                        assert(rel(old_r[jj], old_r[y - 1]));
                        assert(rel(op@, old_r[y - 1]));
                    }
                } else if x < jj {
                    assert(y > jj);
                    assert(new_r[x] == old_r[x]);
                    assert(new_r[y] == old_r[y - 1]);
                    assert(x < y - 1);
                    assert(rel(old_r[x], old_r[y - 1]));
                } else {
                    assert(x > jj);
                    assert(new_r[x] == old_r[x - 1]);
                    assert(new_r[y] == old_r[y - 1]);
                    assert(rel(old_r[x - 1], old_r[y - 1]));
                }
            }
            assert(sorted_by(new_r, op_leq_rel()));
        }
    }
    proof {
        assert(models(rest@).to_multiset() =~= Multiset::<OpModel>::empty());
        assert(models(r@).to_multiset() =~= m0.to_multiset());
    }
    r
}

// ---------------------------------------------------------------------------
// Bounds on path lengths
// ---------------------------------------------------------------------------
proof fn lemma_span_le_max(p: Seq<OpModel>, i: int)
    requires
        0 <= i < p.len(),
    ensures
        op_span(p[i]) <= max_path_len(p),
    decreases p.len(),
{
    if i == p.len() - 1 {
    } else {
        lemma_span_le_max(p.drop_last(), i);
        assert(p.drop_last()[i] == p[i]);
    }
}

proof fn lemma_max_path_len_bound(p: Seq<OpModel>, b: nat)
    requires
        forall|i: int|
            0 <= i < p.len() ==> (#[trigger] p[i]).source.len() <= b && p[i].target.len() <= b,
    ensures
        max_path_len(p) <= b,
    decreases p.len(),
{
    if p.len() > 0 {
        assert forall|i: int|
            0 <= i < p.drop_last().len() implies (#[trigger] p.drop_last()[i]).source.len() <= b
            && p.drop_last()[i].target.len() <= b by {
            assert(p.drop_last()[i] == p[i]);
        }
        lemma_max_path_len_bound(p.drop_last(), b);
        assert(p.last() == p[p.len() - 1]);
    }
}

// ---------------------------------------------------------------------------
// Executable validation, candidate search, and temporary paths
// ---------------------------------------------------------------------------
/// Checks that a batch is a well-formed rename map.
fn check_valid(m: &Vec<Operation>) -> (r: bool)
    ensures
        r == valid_map(models(m@)),
{
    let ghost mm = models(m@);
    let mut i: usize = 0;
    while i < m.len()
        invariant
            0 <= i <= mm.len(),
            mm == models(m@),
            forall|k: int| 0 <= k < i ==> (#[trigger] mm[k]).source != mm[k].target,
        decreases mm.len() - i,
    {
        if bytes_eq(&m[i].source, &m[i].target) {
            proof {
                assert(mm[i as int].source == mm[i as int].target);
            }
            return false;
        }
        i = i + 1;
    }
    let mut a: usize = 0;
    while a < m.len()
        invariant
            0 <= a <= mm.len(),
            mm == models(m@),
            forall|k: int| 0 <= k < mm.len() ==> (#[trigger] mm[k]).source != mm[k].target,
            forall|k1: int, k2: int|
                0 <= k1 < k2 < mm.len() && k1 < a ==> #[trigger] mm[k1].source
                    != #[trigger] mm[k2].source && mm[k1].target != mm[k2].target,
        decreases mm.len() - a,
    {
        let mut b: usize = a + 1;
        while b < m.len()
            invariant
                0 <= a < b <= mm.len(),
                mm == models(m@),
                forall|k2: int|
                    a < k2 < b ==> mm[a as int].source != (#[trigger] mm[k2]).source
                        && mm[a as int].target != mm[k2].target,
            decreases mm.len() - b,
        {
            if bytes_eq(&m[a].source, &m[b].source) {
                proof {
                    assert(mm[a as int].source == mm[b as int].source);
                }
                return false;
            }
            if bytes_eq(&m[a].target, &m[b].target) {
                proof {
                    assert(mm[a as int].target == mm[b as int].target);
                }
                return false;
            }
            b = b + 1;
        }
        a = a + 1;
    }
    true
}

/// Finds the first pending entry that can run now, if any.
fn find_candidate(pending: &Vec<Operation>) -> (r: Option<usize>)
    ensures
        match r {
            Some(i) => 0 <= i < pending@.len() && find_cand(models(pending@)) == Some(i as int),
            None => find_cand(models(pending@)) is None,
        },
{
    let ghost p = models(pending@);
    let mut i: usize = 0;
    while i < pending.len()
        invariant
            0 <= i <= p.len(),
            p == models(pending@),
            find_cand_from(p, 0) == find_cand_from(p, i as int),
        decreases p.len() - i,
    {
        let mut j: usize = 0;
        let mut blocked = false;
        while j < pending.len() && !blocked
            invariant
                0 <= j <= p.len(),
                0 <= i < p.len(),
                p == models(pending@),
                !blocked ==> forall|k: int|
                    0 <= k < j ==> (#[trigger] p[k]).source != p[i as int].target,
                blocked ==> op_in_sources(p, p[i as int].target),
            decreases p.len() - j,
        {
            if bytes_eq(&pending[j].source, &pending[i].target) {
                proof {
                    assert(p[j as int].source == p[i as int].target);
                }
                blocked = true;
            }
            j = j + 1;
        }
        if !blocked {
            proof {
                assert(!op_in_sources(p, p[i as int].target));
            }
            return Some(i);
        }
        i = i + 1;
    }
    None
}

/// Builds the temporary path used to split a cycle: the first pending
/// entry's source, padded until longer than every path in the batch.
fn make_temp(pending: &Vec<Operation>, sched: &Vec<Operation>) -> (r: Vec<u8>)
    requires
        pending@.len() > 0,
        max2(max_path_len(models(pending@)), max_path_len(models(sched@))) + 1 <= 0x4000_0000,
    ensures
        r@ == temp_path(models(pending@), models(sched@)),
        r@.len() == max2(max_path_len(models(pending@)), max_path_len(models(sched@))) + 1,
{
    let ghost p = models(pending@);
    let ghost s = models(sched@);
    let mut m: usize = 0;
    let mut i: usize = 0;
    proof {
        assert(p.take(0) =~= Seq::<OpModel>::empty());
    }
    while i < pending.len()
        invariant
            0 <= i <= p.len(),
            p == models(pending@),
            s == models(sched@),
            m == max_path_len(p.take(i as int)),
            m <= max_path_len(p),
        decreases p.len() - i,
    {
        let ls = pending[i].source.len();
        let lt = pending[i].target.len();
        let sp = if ls >= lt {
            ls
        } else {
            lt
        };
        proof {
            assert(sp == op_span(p[i as int]));
            lemma_span_le_max(p, i as int);
            assert(p.take(i + 1).drop_last() =~= p.take(i as int));
            assert(p.take(i + 1).last() == p[i as int]);
        }
        if sp > m {
            m = sp;
        }
        i = i + 1;
    }
    proof {
        assert(p.take(p.len() as int) =~= p);
    }
    let mut j: usize = 0;
    proof {
        assert(s.take(0) =~= Seq::<OpModel>::empty());
    }
    while j < sched.len()
        invariant
            0 <= j <= s.len(),
            p == models(pending@),
            s == models(sched@),
            m == max2(max_path_len(p), max_path_len(s.take(j as int))),
            m <= max2(max_path_len(p), max_path_len(s)),
        decreases s.len() - j,
    {
        let ls = sched[j].source.len();
        let lt = sched[j].target.len();
        let sp = if ls >= lt {
            ls
        } else {
            lt
        };
        proof {
            assert(sp == op_span(s[j as int]));
            lemma_span_le_max(s, j as int);
            assert(s.take(j + 1).drop_last() =~= s.take(j as int));
            assert(s.take(j + 1).last() == s[j as int]);
        }
        if sp > m {
            m = sp;
        }
        j = j + 1;
    }
    proof {
        assert(s.take(s.len() as int) =~= s);
    }
    let total = m + 1;
    let mut r = copy_bytes(&pending[0].source);
    proof {
        lemma_span_le_max(p, 0);
        assert(r@ + Seq::new(0, |k: int| TEMP_BYTE) =~= r@);
    }
    while r.len() < total
        invariant
            p[0].source.len() <= r@.len() <= total,
            total == max2(max_path_len(p), max_path_len(s)) + 1,
            total <= 0x4000_0000,
            r@ == p[0].source + Seq::new((r@.len() - p[0].source.len()) as nat, |k: int| TEMP_BYTE),
        decreases total - r@.len(),
    {
        let ghost oldlen = r@.len();
        r.push(TEMP_BYTE);
        proof {
            assert(Seq::new((oldlen + 1 - p[0].source.len()) as nat, |k: int| TEMP_BYTE) =~= Seq::new(
                (oldlen - p[0].source.len()) as nat,
                |k: int| TEMP_BYTE,
            ).push(TEMP_BYTE));
            assert(r@ =~= p[0].source + Seq::new(
                (r@.len() - p[0].source.len()) as nat,
                |k: int| TEMP_BYTE,
            ));
        }
    }
    proof {
        assert(r@.len() == total);
        assert(r@ =~= temp_path(p, s));
    }
    r
}

// ---------------------------------------------------------------------------
// Properties of the candidate search and of permuted maps
// ---------------------------------------------------------------------------
proof fn lemma_find_cand_from_props(p: Seq<OpModel>, i: int)
    requires
        0 <= i <= p.len(),
    ensures
        match find_cand_from(p, i) {
            Some(k) => i <= k < p.len() && !op_in_sources(p, p[k].target),
            None => forall|w: int| i <= w < p.len() ==> op_in_sources(p, (#[trigger] p[w]).target),
        },
    decreases p.len() - i,
{
    if i < p.len() {
        lemma_find_cand_from_props(p, i + 1);
    }
}

proof fn lemma_dup_count(s: Seq<OpModel>, i: int, j: int)
    requires
        0 <= i < j < s.len(),
        s[i] == s[j],
    ensures
        s.to_multiset().count(s[i]) >= 2,
{
    broadcast use vstd::multiset::group_multiset_axioms;

    let s2 = s.remove(j);
    assert(s2.to_multiset() == s.to_multiset().remove(s[j]));
    assert(s2[i] == s[i]);
    assert(s2.contains(s[i]));
    assert(s2.to_multiset().count(s[i]) > 0);
}

/// A batch with the same entries as a well-formed map, in any order, is
/// itself well formed.
proof fn lemma_perm_valid(a: Seq<OpModel>, b: Seq<OpModel>)
    requires
        valid_map(a),
        a.to_multiset() == b.to_multiset(),
    ensures
        valid_map(b),
{
    broadcast use vstd::multiset::group_multiset_axioms;

    assert forall|i: int| 0 <= i < b.len() implies (#[trigger] b[i]).source != b[i].target by {
        assert(b.contains(b[i]));
        assert(b.to_multiset().count(b[i]) > 0);
        assert(a.contains(b[i]));
        let k = choose|k: int| 0 <= k < a.len() && a[k] == b[i];
        assert(a[k].source != a[k].target);
    }
    assert forall|i: int, j: int| 0 <= i < j < b.len() implies #[trigger] b[i].source
        != #[trigger] b[j].source && b[i].target != b[j].target by {
        if b[i] == b[j] {
            lemma_dup_count(b, i, j);
            assert(a.to_multiset().count(b[i]) >= 2);
            assert(a.to_multiset().count(b[i]) > 0);
            assert(a.contains(b[i]));
            let k1 = choose|k: int| 0 <= k < a.len() && a[k] == b[i];
            let a2 = a.remove(k1);
            assert(a2.to_multiset() == a.to_multiset().remove(a[k1]));
            assert(a2.to_multiset().count(b[i]) >= 1);
            assert(a2.contains(b[i]));
            let k2 = choose|k: int| 0 <= k < a2.len() && a2[k] == b[i];
            if k2 < k1 {
                assert(a[k2] == a2[k2]);
                assert(a[k2].source == a[k1].source);
                assert(false);
            } else {
                assert(a[k2 + 1] == a2[k2]);
                assert(a[k2 + 1].source == a[k1].source);
                assert(false);
            }
        } else {
            assert(b.contains(b[i]));
            assert(b.to_multiset().count(b[i]) > 0);
            assert(a.contains(b[i]));
            assert(b.contains(b[j]));
            assert(b.to_multiset().count(b[j]) > 0);
            assert(a.contains(b[j]));
            let ka = choose|k: int| 0 <= k < a.len() && a[k] == b[i];
            let kb = choose|k: int| 0 <= k < a.len() && a[k] == b[j];
            assert(ka != kb);
        }
    }
}

/// Law: scheduling is deterministic. Two rename maps with the same entries,
/// in whatever order, are solved to the very same schedule.
pub proof fn lemma_solver_deterministic(m1: Seq<OpModel>, m2: Seq<OpModel>)
    requires
        m1.to_multiset() == m2.to_multiset(),
    ensures
        spec_solve(m1) == spec_solve(m2),
{
    lemma_op_leq_total_ordering();
    if valid_map(m1) {
        lemma_perm_valid(m1, m2);
        m1.lemma_sort_by_ensures(op_leq_rel());
        m2.lemma_sort_by_ensures(op_leq_rel());
        lemma_sorted_unique(m1.sort_by(op_leq_rel()), m2.sort_by(op_leq_rel()), op_leq_rel());
        assert(m1.sort_by(op_leq_rel()) == m2.sort_by(op_leq_rel()));
    } else if valid_map(m2) {
        lemma_perm_valid(m2, m1);
        assert(false);
    }
}

// ---------------------------------------------------------------------------
// Safety of the schedule
// ---------------------------------------------------------------------------
proof fn lemma_apply_push(fs: Map<Seq<u8>, Seq<u8>>, ops: Seq<OpModel>, op: OpModel)
    ensures
        apply_ops(fs, ops.push(op)) == apply_op(apply_ops(fs, ops), op),
        all_applicable(fs, ops.push(op)) <==> (all_applicable(fs, ops) && applicable(
            apply_ops(fs, ops),
            op,
        )),
    decreases ops.len(),
{
    if ops.len() == 0 {
        assert(ops.push(op)[0] == op);
        assert(ops.push(op).skip(1) =~= Seq::<OpModel>::empty());
        assert(apply_ops(apply_op(fs, op), Seq::<OpModel>::empty()) == apply_op(fs, op));
        assert(all_applicable(apply_op(fs, op), Seq::<OpModel>::empty()));
        assert(apply_ops(fs, ops) == fs);
        assert(all_applicable(fs, ops));
    } else {
        assert(ops.push(op)[0] == ops[0]);
        assert(ops.push(op).skip(1) =~= ops.skip(1).push(op));
        lemma_apply_push(apply_op(fs, ops[0]), ops.skip(1), op);
        assert(apply_ops(fs, ops) == apply_ops(apply_op(fs, ops[0]), ops.skip(1)));
        assert(all_applicable(fs, ops) == (applicable(fs, ops[0]) && all_applicable(
            apply_op(fs, ops[0]),
            ops.skip(1),
        )));
        assert(apply_ops(fs, ops.push(op)) == apply_ops(
            apply_op(fs, ops[0]),
            ops.skip(1).push(op),
        ));
        assert(all_applicable(fs, ops.push(op)) == (applicable(fs, ops[0]) && all_applicable(
            apply_op(fs, ops[0]),
            ops.skip(1).push(op),
        )));
    }
}

/// Invariant of the scheduling loop, over the simulated filesystem:
/// `fs0` is the state before the batch, `mtargets` the set of all desired
/// target paths, and `dest` says which file each target path must receive.
spec fn loop_inv(
    pending: Seq<OpModel>,
    sched: Seq<OpModel>,
    fs0: Map<Seq<u8>, Seq<u8>>,
    mtargets: Set<Seq<u8>>,
    dest: Map<Seq<u8>, Seq<u8>>,
) -> bool {
    let cur = apply_ops(fs0, sched);
    &&& valid_map(pending)
    &&& all_applicable(fs0, sched)
    &&& dest.dom() == mtargets
    &&& (forall|i: int| 0 <= i < pending.len() ==> mtargets.contains((#[trigger] pending[i]).target))
    &&& (forall|i: int|
        0 <= i < pending.len() && mtargets.contains((#[trigger] pending[i]).source)
            ==> op_in_targets(pending, pending[i].source))
    &&& cur.dom() == sources_set(pending).union(mtargets.difference(targets_set(pending)))
    &&& (forall|i: int|
        0 <= i < pending.len() ==> cur[(#[trigger] pending[i]).source] == dest[pending[i].target])
    &&& (forall|t: Seq<u8>|
        mtargets.contains(t) && !op_in_targets(pending, t) ==> cur[t] == dest[t])
    &&& (forall|t: Seq<u8>|
        #[trigger] mtargets.contains(t) ==> op_in_targets(pending, t) || op_in_targets(sched, t))
}

/// Scheduling a runnable entry keeps the loop invariant.
proof fn lemma_cand_step(
    pending: Seq<OpModel>,
    sched: Seq<OpModel>,
    fs0: Map<Seq<u8>, Seq<u8>>,
    mtargets: Set<Seq<u8>>,
    dest: Map<Seq<u8>, Seq<u8>>,
    k: int,
)
    requires
        loop_inv(pending, sched, fs0, mtargets, dest),
        0 <= k < pending.len(),
        !op_in_sources(pending, pending[k].target),
    ensures
        loop_inv(pending.remove(k), sched.push(pending[k]), fs0, mtargets, dest),
        applicable(apply_ops(fs0, sched), pending[k]),
{
    let cur = apply_ops(fs0, sched);
    let op = pending[k];
    let p2 = pending.remove(k);
    let s2 = sched.push(op);

    assert(op_in_sources(pending, op.source));
    assert(cur.dom().contains(op.source));
    assert(op_in_targets(pending, op.target));
    assert(!sources_set(pending).contains(op.target));
    assert(!mtargets.difference(targets_set(pending)).contains(op.target));
    assert(!cur.dom().contains(op.target));
    assert(applicable(cur, op));

    lemma_apply_push(fs0, sched, op);
    let cur2 = apply_ops(fs0, s2);
    assert(cur2 == apply_op(cur, op));

    assert forall|i: int|
        0 <= i < p2.len() implies (#[trigger] p2[i]).source != op.source && p2[i].target
        != op.target && p2[i].source != p2[i].target by {
        if i < k {
            assert(p2[i] == pending[i]);
        } else {
            assert(p2[i] == pending[i + 1]);
        }
    }
    assert forall|i: int, j: int|
        0 <= i < j < p2.len() implies #[trigger] p2[i].source != #[trigger] p2[j].source
        && p2[i].target != p2[j].target by {
        let i0 = if i < k {
            i
        } else {
            i + 1
        };
        let j0 = if j < k {
            j
        } else {
            j + 1
        };
        assert(p2[i] == pending[i0]);
        assert(p2[j] == pending[j0]);
    }
    assert(valid_map(p2));

    assert(sources_set(p2) =~= sources_set(pending).remove(op.source)) by {
        assert forall|x: Seq<u8>|
            op_in_sources(p2, x) implies op_in_sources(pending, x) && x != op.source by {
            let i = choose|i: int| 0 <= i < p2.len() && (#[trigger] p2[i]).source == x;
            if i < k {
                assert(pending[i].source == x);
            } else {
                assert(pending[i + 1].source == x);
            }
        }
        assert forall|x: Seq<u8>|
            op_in_sources(pending, x) && x != op.source implies op_in_sources(p2, x) by {
            let i = choose|i: int| 0 <= i < pending.len() && (#[trigger] pending[i]).source == x;
            assert(i != k);
            if i < k {
                assert(p2[i].source == x);
            } else {
                assert(p2[i - 1].source == x);
            }
        }
    }
    assert(targets_set(p2) =~= targets_set(pending).remove(op.target)) by {
        assert forall|x: Seq<u8>|
            op_in_targets(p2, x) implies op_in_targets(pending, x) && x != op.target by {
            let i = choose|i: int| 0 <= i < p2.len() && (#[trigger] p2[i]).target == x;
            if i < k {
                assert(pending[i].target == x);
            } else {
                assert(pending[i + 1].target == x);
            }
        }
        assert forall|x: Seq<u8>|
            op_in_targets(pending, x) && x != op.target implies op_in_targets(p2, x) by {
            let i = choose|i: int| 0 <= i < pending.len() && (#[trigger] pending[i]).target == x;
            assert(i != k);
            if i < k {
                assert(p2[i].target == x);
            } else {
                assert(p2[i - 1].target == x);
            }
        }
    }

    if mtargets.contains(op.source) {
        assert(op_in_targets(pending, op.source));
        let j = choose|j: int| 0 <= j < pending.len() && (#[trigger] pending[j]).target == op.source;
        assert(j != k);
        if j < k {
            assert(p2[j].target == op.source);
        } else {
            assert(p2[j - 1].target == op.source);
        }
        assert(op_in_targets(p2, op.source));
    }

    assert(cur2.dom() =~= sources_set(p2).union(mtargets.difference(targets_set(p2)))) by {
        assert forall|x: Seq<u8>|
            cur2.dom().contains(x) implies sources_set(p2).union(
            mtargets.difference(targets_set(p2)),
        ).contains(x) by {
            if x == op.target {
                assert(mtargets.contains(op.target));
                assert(!op_in_targets(p2, op.target));
            } else {
                assert(cur.dom().contains(x) && x != op.source);
                if sources_set(pending).contains(x) {
                    assert(sources_set(p2).contains(x));
                } else {
                    assert(mtargets.contains(x) && !op_in_targets(pending, x));
                    assert(!op_in_targets(p2, x));
                }
            }
        }
        assert forall|x: Seq<u8>|
            sources_set(p2).union(mtargets.difference(targets_set(p2))).contains(
                x,
            ) implies cur2.dom().contains(x) by {
            if sources_set(p2).contains(x) {
                assert(sources_set(pending).contains(x) && x != op.source);
                assert(x != op.target);
                assert(cur.dom().contains(x));
            } else {
                assert(mtargets.contains(x) && !op_in_targets(p2, x));
                if x == op.target {
                } else {
                    assert(!op_in_targets(pending, x));
                    if x == op.source {
                        assert(op_in_targets(p2, op.source));
                        assert(false);
                    }
                    assert(cur.dom().contains(x));
                }
            }
        }
    }

    assert forall|i: int|
        0 <= i < p2.len() implies cur2[(#[trigger] p2[i]).source] == dest[p2[i].target] by {
        let i0 = if i < k {
            i
        } else {
            i + 1
        };
        assert(p2[i] == pending[i0]);
        let x = p2[i].source;
        assert(x != op.source);
        assert(!sources_set(pending).contains(op.target));
        assert(op_in_sources(pending, x));
        assert(x != op.target);
        assert(cur2[x] == cur[x]);
    }
    assert forall|t: Seq<u8>|
        mtargets.contains(t) && !op_in_targets(p2, t) implies cur2[t] == dest[t] by {
        if t == op.target {
            assert(cur2[op.target] == cur[op.source]);
            assert(cur[op.source] == dest[op.target]);
        } else {
            if op_in_targets(pending, t) {
                assert(targets_set(pending).contains(t));
                assert(targets_set(pending).remove(op.target).contains(t));
                assert(targets_set(p2).contains(t));
                assert(false);
            }
            if t == op.source {
                assert(op_in_targets(p2, op.source));
                assert(false);
            }
            assert(cur2[t] == cur[t]);
        }
    }
    assert forall|i: int|
        0 <= i < p2.len() implies mtargets.contains((#[trigger] p2[i]).target) by {
        if i < k {
            assert(p2[i] == pending[i]);
        } else {
            assert(p2[i] == pending[i + 1]);
        }
    }
    assert forall|i: int|
        0 <= i < p2.len() && mtargets.contains((#[trigger] p2[i]).source) implies op_in_targets(
        p2,
        p2[i].source,
    ) by {
        let i0 = if i < k {
            i
        } else {
            i + 1
        };
        assert(p2[i] == pending[i0]);
        assert(op_in_targets(pending, pending[i0].source));
        let j = choose|j: int|
            0 <= j < pending.len() && (#[trigger] pending[j]).target == pending[i0].source;
        assert(op_in_sources(pending, p2[i].source));
        assert(j != k);
        if j < k {
            assert(p2[j].target == p2[i].source);
        } else {
            assert(p2[j - 1].target == p2[i].source);
        }
    }
    assert forall|t: Seq<u8>|
        #[trigger] mtargets.contains(t) implies op_in_targets(p2, t) || op_in_targets(s2, t) by {
        if op_in_targets(pending, t) {
            let j = choose|j: int| 0 <= j < pending.len() && (#[trigger] pending[j]).target == t;
            if j == k {
                assert(s2[sched.len() as int].target == t);
                assert(op_in_targets(s2, t));
            } else if j < k {
                assert(p2[j].target == t);
            } else {
                assert(p2[j - 1].target == t);
            }
        } else {
            let j = choose|j: int| 0 <= j < sched.len() && (#[trigger] sched[j]).target == t;
            assert(s2[j].target == t);
        }
    }
    assert(loop_inv(p2, s2, fs0, mtargets, dest));
}

/// When no entry can run, every remaining target is some remaining source:
/// the pending entries form disjoint cycles, so in particular the first
/// entry's source is still some entry's target.
proof fn lemma_all_blocked_cycle(p: Seq<OpModel>)
    requires
        valid_map(p),
        p.len() > 0,
        find_cand(p) is None,
    ensures
        op_in_targets(p, p[0].source),
{
    broadcast use vstd::seq_lib::seq_to_set_is_finite;

    lemma_find_cand_from_props(p, 0);
    let ss = p.map_values(|o: OpModel| o.source);
    let ts = p.map_values(|o: OpModel| o.target);
    assert(ss.no_duplicates());
    assert(ts.no_duplicates());
    ss.unique_seq_to_set();
    ts.unique_seq_to_set();
    assert forall|x: Seq<u8>| ts.to_set().contains(x) implies ss.to_set().contains(x) by {
        let w = choose|w: int| 0 <= w < ts.len() && ts[w] == x;
        assert(op_in_sources(p, p[w].target));
        let j = choose|j: int| 0 <= j < p.len() && (#[trigger] p[j]).source == x;
        assert(ss[j] == x);
    }
    if !ts.to_set().contains(p[0].source) {
        assert(ss.to_set().contains(p[0].source)) by {
            assert(ss[0] == p[0].source);
        }
        assert forall|x: Seq<u8>| ts.to_set().contains(x) implies ss.to_set().remove(
            p[0].source,
        ).contains(x) by {}
        vstd::set_lib::lemma_len_subset(ts.to_set(), ss.to_set().remove(p[0].source));
        assert(ss.to_set().remove(p[0].source).len() == ss.to_set().len() - 1);
        assert(false);
    }
    let w = choose|w: int| 0 <= w < ts.len() && ts[w] == p[0].source;
    assert(p[w].target == p[0].source);
}

/// Splitting the first entry of a cycle through a temporary path keeps the
/// loop invariant and frees at least one entry to run.
proof fn lemma_split_step(
    pending: Seq<OpModel>,
    sched: Seq<OpModel>,
    fs0: Map<Seq<u8>, Seq<u8>>,
    mtargets: Set<Seq<u8>>,
    dest: Map<Seq<u8>, Seq<u8>>,
)
    requires
        loop_inv(pending, sched, fs0, mtargets, dest),
        pending.len() > 0,
        find_cand(pending) is None,
    ensures
        loop_inv(
            pending.update(
                0,
                OpModel { source: temp_path(pending, sched), target: pending[0].target },
            ),
            sched.push(OpModel { source: pending[0].source, target: temp_path(pending, sched) }),
            fs0,
            mtargets,
            dest,
        ),
        find_cand(
            pending.update(
                0,
                OpModel { source: temp_path(pending, sched), target: pending[0].target },
            ),
        ) is Some,
{
    let cur = apply_ops(fs0, sched);
    let s0 = pending[0].source;
    let t0 = pending[0].target;
    let tp = temp_path(pending, sched);
    let p2 = pending.update(0, OpModel { source: tp, target: t0 });
    let s2 = sched.push(OpModel { source: s0, target: tp });
    let m = max2(max_path_len(pending), max_path_len(sched));

    // the temporary path is longer than every path in the batch
    lemma_span_le_max(pending, 0);
    assert(tp.len() == m + 1);
    assert forall|i: int|
        0 <= i < pending.len() implies (#[trigger] pending[i]).source.len() < tp.len()
        && pending[i].target.len() < tp.len() by {
        lemma_span_le_max(pending, i);
    }
    assert forall|i: int|
        0 <= i < sched.len() implies (#[trigger] sched[i]).source.len() < tp.len()
        && sched[i].target.len() < tp.len() by {
        lemma_span_le_max(sched, i);
    }
    assert(!op_in_sources(pending, tp));
    assert(!op_in_targets(pending, tp));
    assert(!op_in_targets(sched, tp));
    assert(!mtargets.contains(tp));
    assert(!cur.dom().contains(tp));

    // applying the first half of the split
    assert(op_in_sources(pending, s0));
    assert(cur.dom().contains(s0));
    assert(applicable(cur, OpModel { source: s0, target: tp }));
    lemma_apply_push(fs0, sched, OpModel { source: s0, target: tp });
    let cur2 = apply_ops(fs0, s2);

    // targets are unchanged by the split
    assert forall|x: Seq<u8>| op_in_targets(p2, x) == op_in_targets(pending, x) by {
        if op_in_targets(p2, x) {
            let i = choose|i: int| 0 <= i < p2.len() && (#[trigger] p2[i]).target == x;
            assert(pending[i].target == x);
        }
        if op_in_targets(pending, x) {
            let i = choose|i: int| 0 <= i < pending.len() && (#[trigger] pending[i]).target == x;
            assert(p2[i].target == x);
        }
    }
    assert(targets_set(p2) =~= targets_set(pending));

    // sources: the first entry's source is replaced by the temporary path
    assert(sources_set(p2) =~= sources_set(pending).remove(s0).insert(tp)) by {
        assert forall|x: Seq<u8>|
            op_in_sources(p2, x) implies sources_set(pending).remove(s0).insert(tp).contains(
            x,
        ) by {
            let i = choose|i: int| 0 <= i < p2.len() && (#[trigger] p2[i]).source == x;
            if i == 0 {
            } else {
                assert(pending[i].source == x);
                assert(x != s0);
            }
        }
        assert forall|x: Seq<u8>|
            sources_set(pending).remove(s0).insert(tp).contains(x) implies op_in_sources(
            p2,
            x,
        ) by {
            if x == tp {
                assert(p2[0].source == tp);
            } else {
                let i = choose|i: int|
                    0 <= i < pending.len() && (#[trigger] pending[i]).source == x;
                assert(i != 0);
                assert(p2[i].source == x);
            }
        }
    }

    // well-formedness of the split batch
    assert forall|i: int|
        0 <= i < p2.len() implies (#[trigger] p2[i]).source != p2[i].target by {
        if i == 0 {
        } else {
            assert(p2[i] == pending[i]);
        }
    }
    assert forall|i: int, j: int|
        0 <= i < j < p2.len() implies #[trigger] p2[i].source != #[trigger] p2[j].source
        && p2[i].target != p2[j].target by {
        if i == 0 {
            assert(p2[j] == pending[j]);
        } else {
            assert(p2[i] == pending[i]);
            assert(p2[j] == pending[j]);
        }
    }
    assert(valid_map(p2));

    // chain closure carries over; the temporary source is in no target set
    assert forall|i: int|
        0 <= i < p2.len() && mtargets.contains((#[trigger] p2[i]).source) implies op_in_targets(
        p2,
        p2[i].source,
    ) by {
        if i > 0 {
            assert(p2[i] == pending[i]);
            assert(op_in_targets(pending, pending[i].source));
        }
    }

    if mtargets.contains(s0) {
        assert(op_in_targets(pending, s0));
    }

    // the new domain
    assert(cur2.dom() =~= sources_set(p2).union(mtargets.difference(targets_set(p2)))) by {
        assert forall|x: Seq<u8>|
            cur2.dom().contains(x) implies sources_set(p2).union(
            mtargets.difference(targets_set(p2)),
        ).contains(x) by {
            if x == tp {
                assert(sources_set(p2).contains(tp));
            } else {
                assert(cur.dom().contains(x) && x != s0);
                if sources_set(pending).contains(x) {
                    assert(sources_set(p2).contains(x));
                }
            }
        }
        assert forall|x: Seq<u8>|
            sources_set(p2).union(mtargets.difference(targets_set(p2))).contains(
                x,
            ) implies cur2.dom().contains(x) by {
            if x == tp {
            } else if sources_set(p2).contains(x) {
                assert(sources_set(pending).contains(x) && x != s0);
            } else {
                assert(mtargets.contains(x) && !op_in_targets(pending, x));
                if x == s0 {
                    assert(op_in_targets(pending, s0));
                    assert(false);
                }
            }
        }
    }

    // values
    assert forall|i: int|
        0 <= i < p2.len() implies cur2[(#[trigger] p2[i]).source] == dest[p2[i].target] by {
        if i == 0 {
            assert(cur2[tp] == cur[s0]);
            assert(cur[s0] == dest[t0]);
        } else {
            assert(p2[i] == pending[i]);
            assert(p2[i].source != s0);
            assert(p2[i].source != tp);
            assert(cur2[p2[i].source] == cur[p2[i].source]);
        }
    }
    assert forall|t: Seq<u8>|
        mtargets.contains(t) && !op_in_targets(p2, t) implies cur2[t] == dest[t] by {
        assert(!op_in_targets(pending, t));
        if t == s0 {
            assert(op_in_targets(pending, s0));
            assert(false);
        }
        assert(t != tp);
        assert(cur2[t] == cur[t]);
    }
    assert forall|t: Seq<u8>|
        #[trigger] mtargets.contains(t) implies op_in_targets(p2, t) || op_in_targets(s2, t) by {
        if op_in_targets(pending, t) {
        } else {
            let j = choose|j: int| 0 <= j < sched.len() && (#[trigger] sched[j]).target == t;
            assert(s2[j].target == t);
        }
    }
    assert(loop_inv(p2, s2, fs0, mtargets, dest));

    // at least one entry is now runnable: the one whose target is the
    // vacated source of the split entry
    lemma_all_blocked_cycle(pending);
    let w = choose|w: int| 0 <= w < pending.len() && (#[trigger] pending[w]).target == s0;
    assert(w != 0);
    assert(p2[w].target == s0);
    assert(!op_in_sources(p2, s0)) by {
        if op_in_sources(p2, s0) {
            let i = choose|i: int| 0 <= i < p2.len() && (#[trigger] p2[i]).source == s0;
            assert(i != 0);
            assert(pending[i].source == s0);
            assert(false);
        }
    }
    if find_cand(p2) is None {
        lemma_find_cand_from_props(p2, 0);
        assert(op_in_sources(p2, p2[w].target));
        assert(false);
    }
}

/// The scheduling loop always completes from an invariant state, its output
/// is safe to run in order, and it moves every file where the map asks.
proof fn lemma_loop_ok(
    pending: Seq<OpModel>,
    sched: Seq<OpModel>,
    fs0: Map<Seq<u8>, Seq<u8>>,
    mtargets: Set<Seq<u8>>,
    dest: Map<Seq<u8>, Seq<u8>>,
)
    requires
        loop_inv(pending, sched, fs0, mtargets, dest),
    ensures
        solve_loop(pending, sched) is Some,
        all_applicable(fs0, solve_loop(pending, sched)->Some_0),
        apply_ops(fs0, solve_loop(pending, sched)->Some_0).dom() == mtargets,
        forall|t: Seq<u8>|
            #[trigger] mtargets.contains(t) ==> apply_ops(
                fs0,
                solve_loop(pending, sched)->Some_0,
            )[t] == dest[t],
        solve_loop(pending, sched)->Some_0.len() >= sched.len() + pending.len(),
        solve_loop(pending, sched)->Some_0.len() == sched.len() + pending.len()
            ==> solve_loop(pending, sched)->Some_0.to_multiset() == sched.to_multiset().add(
            pending.to_multiset(),
        ),
        pending.len() > 0 && find_cand(pending) is None ==> solve_loop(pending, sched)->Some_0.len()
            >= sched.len() + pending.len() + 1,
    decreases pending.len(),
{
    broadcast use vstd::multiset::group_multiset_axioms;

    let cur = apply_ops(fs0, sched);
    if pending.len() == 0 {
        assert(solve_loop(pending, sched) == Some(sched));
        assert(cur.dom() =~= mtargets) by {
            assert forall|x: Seq<u8>| cur.dom().contains(x) implies mtargets.contains(x) by {
                if sources_set(pending).contains(x) {
                    let i = choose|i: int|
                        0 <= i < pending.len() && (#[trigger] pending[i]).source == x;
                    assert(false);
                }
            }
        }
        assert forall|t: Seq<u8>| #[trigger] mtargets.contains(t) implies cur[t] == dest[t] by {
            if op_in_targets(pending, t) {
                let i = choose|i: int|
                    0 <= i < pending.len() && (#[trigger] pending[i]).target == t;
                assert(false);
            }
        }
        assert(sched.to_multiset().add(pending.to_multiset()) =~= sched.to_multiset()) by {
            assert(pending.to_multiset() =~= Multiset::<OpModel>::empty());
        }
    } else {
        match find_cand(pending) {
            Some(k) => {
                lemma_find_cand_from_props(pending, 0);
                lemma_cand_step(pending, sched, fs0, mtargets, dest, k);
                let p2 = pending.remove(k);
                let s2 = sched.push(pending[k]);
                lemma_loop_ok(p2, s2, fs0, mtargets, dest);
                assert(solve_loop(pending, sched) == solve_loop(p2, s2));
                assert(s2.len() + p2.len() == sched.len() + pending.len());
                let r = solve_loop(pending, sched)->Some_0;
                if r.len() == sched.len() + pending.len() {
                    assert(r.to_multiset() == s2.to_multiset().add(p2.to_multiset()));
                    assert(s2.to_multiset() == sched.to_multiset().insert(pending[k]));
                    assert(p2.to_multiset() == pending.to_multiset().remove(pending[k]));
                    assert(pending.contains(pending[k]));
                    assert(pending.to_multiset().count(pending[k]) > 0);
                    assert(s2.to_multiset().add(p2.to_multiset()) =~= sched.to_multiset().add(
                        pending.to_multiset(),
                    ));
                }
            },
            None => {
                lemma_split_step(pending, sched, fs0, mtargets, dest);
                let tp = temp_path(pending, sched);
                let p2 = pending.update(0, OpModel { source: tp, target: pending[0].target });
                let s2 = sched.push(OpModel { source: pending[0].source, target: tp });
                let j = find_cand(p2)->Some_0;
                lemma_find_cand_from_props(p2, 0);
                lemma_cand_step(p2, s2, fs0, mtargets, dest, j);
                let p3 = p2.remove(j);
                let s3 = s2.push(p2[j]);
                lemma_loop_ok(p3, s3, fs0, mtargets, dest);
                assert(solve_loop(pending, sched) == solve_loop(p3, s3));
                assert(s3.len() + p3.len() == sched.len() + pending.len() + 1);
            },
        }
    }
}

/// Two batches with the same entries mention the same source paths and the
/// same target paths.
proof fn lemma_perm_path_sets(a: Seq<OpModel>, b: Seq<OpModel>)
    requires
        a.to_multiset() == b.to_multiset(),
    ensures
        sources_set(a) == sources_set(b),
        targets_set(a) == targets_set(b),
{
    broadcast use vstd::multiset::group_multiset_axioms;

    assert forall|x: OpModel| #[trigger] a.contains(x) implies b.contains(x) by {
        assert(a.to_multiset().count(x) > 0);
    }
    assert forall|x: OpModel| #[trigger] b.contains(x) implies a.contains(x) by {
        assert(b.to_multiset().count(x) > 0);
    }
    assert(sources_set(a) =~= sources_set(b)) by {
        assert forall|x: Seq<u8>| op_in_sources(a, x) == op_in_sources(b, x) by {
            if op_in_sources(a, x) {
                let i = choose|i: int| 0 <= i < a.len() && (#[trigger] a[i]).source == x;
                assert(a.contains(a[i]));
                let w = choose|w: int| 0 <= w < b.len() && b[w] == a[i];
            }
            if op_in_sources(b, x) {
                let i = choose|i: int| 0 <= i < b.len() && (#[trigger] b[i]).source == x;
                assert(b.contains(b[i]));
                let w = choose|w: int| 0 <= w < a.len() && a[w] == b[i];
            }
        }
    }
    assert(targets_set(a) =~= targets_set(b)) by {
        assert forall|x: Seq<u8>| op_in_targets(a, x) == op_in_targets(b, x) by {
            if op_in_targets(a, x) {
                let i = choose|i: int| 0 <= i < a.len() && (#[trigger] a[i]).target == x;
                assert(a.contains(a[i]));
                let w = choose|w: int| 0 <= w < b.len() && b[w] == a[i];
            }
            if op_in_targets(b, x) {
                let i = choose|i: int| 0 <= i < b.len() && (#[trigger] b[i]).target == x;
                assert(b.contains(b[i]));
                let w = choose|w: int| 0 <= w < a.len() && a[w] == b[i];
            }
        }
    }
}

/// Law: cycles cost one extra operation. A non-empty map in which every
/// target path is also a source path consists only of cycles, and its
/// schedule holds strictly more operations than the map has entries.
pub proof fn lemma_cycle_costs_extra(m: Seq<OpModel>)
    requires
        valid_map(m),
        m.len() > 0,
        targets_set(m) == sources_set(m),
    ensures
        spec_solve(m) is Some,
        spec_solve(m)->Some_0.len() >= m.len() + 1,
{
    broadcast use vstd::multiset::group_multiset_axioms;

    lemma_op_leq_total_ordering();
    m.lemma_sort_by_ensures(op_leq_rel());
    let sm = m.sort_by(op_leq_rel());
    lemma_perm_valid(m, sm);
    lemma_perm_path_sets(m, sm);
    assert(sm.to_multiset().len() == m.to_multiset().len());
    assert(sm.len() == m.len());
    assert(initial_fs(m).dom() =~= sources_set(m));
    lemma_solver_schedule_safe(m, initial_fs(m));
    if find_cand(sm) is Some {
        lemma_find_cand_from_props(sm, 0);
        let k = find_cand(sm)->Some_0;
        assert(op_in_targets(sm, sm[k].target));
        assert(targets_set(sm).contains(sm[k].target));
        assert(sources_set(sm).contains(sm[k].target));
        assert(false);
    }
    // re-establish the loop invariant at the start, as the safety proof does
    let mtargets = targets_set(m);
    let fs0 = Map::new(|p: Seq<u8>| sources_set(m).contains(p), |p: Seq<u8>| p);
    let dest = Map::new(|t: Seq<u8>| targets_set(m).contains(t), |t: Seq<u8>| fs0[source_for(m, t)]);
    assert forall|i: int|
        0 <= i < sm.len() implies fs0[(#[trigger] sm[i]).source] == dest[sm[i].target] by {
        assert(sm.contains(sm[i]));
        let w = choose|w: int| 0 <= w < m.len() && m[w] == sm[i];
        let t = m[w].target;
        assert(op_in_targets(m, t));
        let k = choose|k: int| 0 <= k < m.len() && (#[trigger] m[k]).target == t;
        assert(k == w);
    }
    let empty = Seq::<OpModel>::empty();
    assert(apply_ops(fs0, empty) == fs0);
    assert(all_applicable(fs0, empty));
    assert(dest.dom() =~= mtargets);
    assert(fs0.dom() =~= sources_set(m));
    assert(sources_set(sm).union(mtargets.difference(targets_set(sm))) =~= sources_set(m)) by {
        assert(mtargets.difference(targets_set(sm)) =~= Set::<Seq<u8>>::empty());
    }
    assert(loop_inv(sm, empty, fs0, mtargets, dest));
    lemma_loop_ok(sm, empty, fs0, mtargets, dest);
    assert(spec_solve(m) == solve_loop(sm, empty));
}

/// Law: a well-formed rename map is always solved, the schedule is safe to
/// run in order from any filesystem that occupies exactly the map's source
/// paths, and afterwards each target path holds what its source path held.
/// At most one extra operation per entry is ever needed, and a schedule
/// that needed no temporary path is a permutation of the map itself.
pub proof fn lemma_solver_schedule_safe(m: Seq<OpModel>, fs0: Map<Seq<u8>, Seq<u8>>)
    requires
        valid_map(m),
        fs0.dom() == sources_set(m),
    ensures
        spec_solve(m) is Some,
        all_applicable(fs0, spec_solve(m)->Some_0),
        apply_ops(fs0, spec_solve(m)->Some_0).dom() == targets_set(m),
        forall|i: int|
            0 <= i < m.len() ==> apply_ops(fs0, spec_solve(m)->Some_0)[(#[trigger] m[i]).target]
                == fs0[m[i].source],
        m.len() <= spec_solve(m)->Some_0.len(),
        spec_solve(m)->Some_0.len() == m.len() ==> spec_solve(m)->Some_0.to_multiset()
            == m.to_multiset(),
{
    broadcast use vstd::multiset::group_multiset_axioms;

    lemma_op_leq_total_ordering();
    m.lemma_sort_by_ensures(op_leq_rel());
    let sm = m.sort_by(op_leq_rel());
    lemma_perm_valid(m, sm);
    assert(sm.to_multiset().len() == m.to_multiset().len());
    assert(sm.len() == m.len());
    assert forall|x: OpModel| #[trigger] sm.contains(x) implies m.contains(x) by {
        assert(sm.to_multiset().count(x) > 0);
    }
    assert forall|x: OpModel| #[trigger] m.contains(x) implies sm.contains(x) by {
        assert(m.to_multiset().count(x) > 0);
    }
    assert(sources_set(sm) =~= sources_set(m)) by {
        assert forall|x: Seq<u8>| op_in_sources(sm, x) implies op_in_sources(m, x) by {
            let i = choose|i: int| 0 <= i < sm.len() && (#[trigger] sm[i]).source == x;
            assert(sm.contains(sm[i]));
            let w = choose|w: int| 0 <= w < m.len() && m[w] == sm[i];
        }
        assert forall|x: Seq<u8>| op_in_sources(m, x) implies op_in_sources(sm, x) by {
            let i = choose|i: int| 0 <= i < m.len() && (#[trigger] m[i]).source == x;
            assert(m.contains(m[i]));
            let w = choose|w: int| 0 <= w < sm.len() && sm[w] == m[i];
        }
    }
    assert(targets_set(sm) =~= targets_set(m)) by {
        assert forall|x: Seq<u8>| op_in_targets(sm, x) implies op_in_targets(m, x) by {
            let i = choose|i: int| 0 <= i < sm.len() && (#[trigger] sm[i]).target == x;
            assert(sm.contains(sm[i]));
            let w = choose|w: int| 0 <= w < m.len() && m[w] == sm[i];
        }
        assert forall|x: Seq<u8>| op_in_targets(m, x) implies op_in_targets(sm, x) by {
            let i = choose|i: int| 0 <= i < m.len() && (#[trigger] m[i]).target == x;
            assert(m.contains(m[i]));
            let w = choose|w: int| 0 <= w < sm.len() && sm[w] == m[i];
        }
    }

    let mtargets = targets_set(m);
    let dest = Map::new(|t: Seq<u8>| targets_set(m).contains(t), |t: Seq<u8>| fs0[source_for(m, t)]);
    assert forall|i: int|
        0 <= i < m.len() implies dest[(#[trigger] m[i]).target] == fs0[m[i].source] by {
        let t = m[i].target;
        assert(op_in_targets(m, t));
        let k = choose|k: int| 0 <= k < m.len() && (#[trigger] m[k]).target == t;
        assert(k == i);
    }
    assert forall|i: int|
        0 <= i < sm.len() implies dest[(#[trigger] sm[i]).target] == fs0[sm[i].source] by {
        assert(sm.contains(sm[i]));
        let w = choose|w: int| 0 <= w < m.len() && m[w] == sm[i];
        assert(dest[m[w].target] == fs0[m[w].source]);
    }

    let empty = Seq::<OpModel>::empty();
    assert(apply_ops(fs0, empty) == fs0);
    assert(all_applicable(fs0, empty));
    assert(dest.dom() =~= mtargets);
    assert(sources_set(sm).union(mtargets.difference(targets_set(sm))) =~= sources_set(m)) by {
        assert(mtargets.difference(targets_set(sm)) =~= Set::<Seq<u8>>::empty());
    }
    assert forall|t: Seq<u8>| #[trigger] mtargets.contains(t) implies op_in_targets(sm, t) by {}
    assert(loop_inv(sm, empty, fs0, mtargets, dest));
    lemma_loop_ok(sm, empty, fs0, mtargets, dest);

    assert(spec_solve(m) == solve_loop(sm, empty));
    let ops = spec_solve(m)->Some_0;
    assert(apply_ops(fs0, ops).dom() == mtargets);
    assert forall|i: int|
        0 <= i < m.len() implies apply_ops(fs0, ops)[(#[trigger] m[i]).target] == fs0[m[i].source] by {
        assert(op_in_targets(m, m[i].target));
        assert(mtargets.contains(m[i].target));
    }
    assert(ops.len() >= sm.len());
    if ops.len() == m.len() {
        assert(ops.to_multiset() == empty.to_multiset().add(sm.to_multiset()));
        assert(empty.to_multiset().add(sm.to_multiset()) =~= sm.to_multiset());
    }
}

/// Law: every well-formed map reaches exactly its goal state. Starting from
/// the filesystem that occupies the source paths, the schedule is safe at
/// every step and ends with the filesystem the map describes.
pub proof fn lemma_schedule_reaches_goal(m: Seq<OpModel>)
    requires
        valid_map(m),
    ensures
        spec_solve(m) is Some,
        all_applicable(initial_fs(m), spec_solve(m)->Some_0),
        apply_ops(initial_fs(m), spec_solve(m)->Some_0) == renamed_fs(m),
{
    assert(initial_fs(m).dom() =~= sources_set(m));
    lemma_solver_schedule_safe(m, initial_fs(m));
    let fs0 = initial_fs(m);
    let ops = spec_solve(m)->Some_0;
    let fin = apply_ops(fs0, ops);
    assert(fin =~= renamed_fs(m)) by {
        assert forall|t: Seq<u8>| #[trigger] targets_set(m).contains(t) implies fin[t]
            == renamed_fs(m)[t] by {
            let i = choose|i: int| 0 <= i < m.len() && (#[trigger] m[i]).target == t;
            assert(fin[m[i].target] == fs0[m[i].source]);
            assert(sources_set(m).contains(m[i].source));
            assert(fs0[m[i].source] == m[i].source);
            assert(renamed_fs(m)[t] == source_for(m, t));
        }
    }
}

/// Law: round trip. A schedule that needed no temporary path, applied and
/// then undone by the revert planner's schedule, returns every file to the
/// path it occupied before the batch.
pub proof fn lemma_revert_round_trip(m: Seq<OpModel>)
    requires
        valid_map(m),
        spec_solve(m)->Some_0.len() == m.len(),
    ensures
        spec_solve(m) is Some,
        all_applicable(initial_fs(m), spec_solve(m)->Some_0),
        spec_solve(reversed(spec_solve(m)->Some_0)) is Some,
        all_applicable(
            apply_ops(initial_fs(m), spec_solve(m)->Some_0),
            spec_solve(reversed(spec_solve(m)->Some_0))->Some_0,
        ),
        apply_ops(
            apply_ops(initial_fs(m), spec_solve(m)->Some_0),
            spec_solve(reversed(spec_solve(m)->Some_0))->Some_0,
        ) == initial_fs(m),
{
    broadcast use vstd::multiset::group_multiset_axioms;

    let fs0 = initial_fs(m);
    assert(fs0.dom() =~= sources_set(m));
    lemma_solver_schedule_safe(m, fs0);
    let ops = spec_solve(m)->Some_0;
    assert(ops.to_multiset() == m.to_multiset());
    lemma_perm_valid(m, ops);
    assert forall|x: OpModel| #[trigger] ops.contains(x) implies m.contains(x) by {
        assert(ops.to_multiset().count(x) > 0);
    }
    assert forall|x: OpModel| #[trigger] m.contains(x) implies ops.contains(x) by {
        assert(m.to_multiset().count(x) > 0);
    }
    let rv = reversed(ops);
    assert forall|i: int|
        0 <= i < rv.len() implies (#[trigger] rv[i]) == OpModel {
            source: ops[i].target,
            target: ops[i].source,
        } by {}
    assert(valid_map(rv));
    assert(sources_set(rv) =~= targets_set(ops)) by {
        assert forall|x: Seq<u8>| op_in_sources(rv, x) == op_in_targets(ops, x) by {
            if op_in_sources(rv, x) {
                let i = choose|i: int| 0 <= i < rv.len() && (#[trigger] rv[i]).source == x;
                assert(ops[i].target == x);
            }
            if op_in_targets(ops, x) {
                let i = choose|i: int| 0 <= i < ops.len() && (#[trigger] ops[i]).target == x;
                assert(rv[i].source == x);
            }
        }
    }
    assert(targets_set(rv) =~= sources_set(ops)) by {
        assert forall|x: Seq<u8>| op_in_targets(rv, x) == op_in_sources(ops, x) by {
            if op_in_targets(rv, x) {
                let i = choose|i: int| 0 <= i < rv.len() && (#[trigger] rv[i]).target == x;
                assert(ops[i].source == x);
            }
            if op_in_sources(ops, x) {
                let i = choose|i: int| 0 <= i < ops.len() && (#[trigger] ops[i]).source == x;
                assert(rv[i].target == x);
            }
        }
    }
    assert(targets_set(ops) =~= targets_set(m)) by {
        assert forall|x: Seq<u8>| op_in_targets(ops, x) implies op_in_targets(m, x) by {
            let i = choose|i: int| 0 <= i < ops.len() && (#[trigger] ops[i]).target == x;
            assert(ops.contains(ops[i]));
            let w = choose|w: int| 0 <= w < m.len() && m[w] == ops[i];
        }
        assert forall|x: Seq<u8>| op_in_targets(m, x) implies op_in_targets(ops, x) by {
            let i = choose|i: int| 0 <= i < m.len() && (#[trigger] m[i]).target == x;
            assert(m.contains(m[i]));
            let w = choose|w: int| 0 <= w < ops.len() && ops[w] == m[i];
        }
    }
    assert(sources_set(ops) =~= sources_set(m)) by {
        assert forall|x: Seq<u8>| op_in_sources(ops, x) implies op_in_sources(m, x) by {
            let i = choose|i: int| 0 <= i < ops.len() && (#[trigger] ops[i]).source == x;
            assert(ops.contains(ops[i]));
            let w = choose|w: int| 0 <= w < m.len() && m[w] == ops[i];
        }
        assert forall|x: Seq<u8>| op_in_sources(m, x) implies op_in_sources(ops, x) by {
            let i = choose|i: int| 0 <= i < m.len() && (#[trigger] m[i]).source == x;
            assert(m.contains(m[i]));
            let w = choose|w: int| 0 <= w < ops.len() && ops[w] == m[i];
        }
    }
    let fs1 = apply_ops(fs0, ops);
    assert(fs1.dom() == sources_set(rv));
    lemma_solver_schedule_safe(rv, fs1);
    let rops = spec_solve(rv)->Some_0;
    let fs2 = apply_ops(fs1, rops);
    assert(fs2 =~= fs0) by {
        assert(fs2.dom() == targets_set(rv));
        assert(fs2.dom() =~= fs0.dom());
        assert forall|p: Seq<u8>| #[trigger] sources_set(m).contains(p) implies fs2[p]
            == fs0[p] by {
            let k = choose|k: int| 0 <= k < m.len() && (#[trigger] m[k]).source == p;
            assert(m.contains(m[k]));
            let i = choose|i: int| 0 <= i < ops.len() && ops[i] == m[k];
            assert(rv[i].target == p);
            assert(rv[i].source == m[k].target);
            assert(fs2[rv[i].target] == fs1[rv[i].source]);
            assert(fs1[m[k].target] == fs0[m[k].source]);
            assert(fs0[p] == p);
        }
    }
}

// ---------------------------------------------------------------------------
// The solver
// ---------------------------------------------------------------------------
/// Computes a safe execution order for a rename map: every entry of the map
/// becomes one operation, and every cycle is broken by one extra operation
/// through a temporary path. The result is exactly `spec_solve` of the map's
/// model, so equal maps (in any entry order) always give the same schedule.
pub fn solve_rename_order(rename_map: &RenameMap) -> (r: Result<Operations, Error>)
    requires
        within_limits(models(rename_map@)),
    ensures
        r is Ok <==> valid_map(models(rename_map@)),
        r matches Ok(ops) ==> Some(models(ops@)) == spec_solve(models(rename_map@)),
        r matches Err(e) ==> e.kind is SolveOrder,
{
    let ghost m0 = models(rename_map@);
    if !check_valid(rename_map) {
        return Err(Error { kind: ErrorKind::SolveOrder, value: None });
    }
    // private working copy, sorted for a canonical order
    let mut work: Vec<Operation> = Vec::new();
    let mut i: usize = 0;
    proof {
        assert(models(work@) =~= m0.take(0));
    }
    while i < rename_map.len()
        invariant
            0 <= i <= m0.len(),
            m0 == models(rename_map@),
            models(work@) == m0.take(i as int),
        decreases m0.len() - i,
    {
        let ghost oldw = models(work@);
        let op = copy_op(&rename_map[i]);
        work.push(op);
        proof {
            assert forall|k: int| 0 <= k < oldw.len() + 1 implies models(work@)[k] == m0.take(
                i + 1,
            )[k] by {
                if k < i as int {
                    assert(models(work@)[k] == oldw[k]);
                    assert(oldw[k] == m0.take(i as int)[k]);
                } else {
                    assert(models(work@)[k] == op@);
                    assert(m0[i as int] == rename_map@[i as int]@);
                }
            }
            assert(models(work@) =~= m0.take(i + 1));
        }
        i = i + 1;
    }
    proof {
        assert(m0.take(m0.len() as int) =~= m0);
    }
    let mut pending = sort_ops(work);
    let mut sched: Vec<Operation> = Vec::new();
    let ghost sm0 = m0.sort_by(op_leq_rel());
    proof {
        lemma_op_leq_total_ordering();
        m0.lemma_sort_by_ensures(op_leq_rel());
        lemma_sorted_unique(models(pending@), sm0, op_leq_rel());
        assert(models(pending@) == sm0);
        assert(models(sched@) =~= Seq::<OpModel>::empty());
        assert(models(pending@).to_multiset().len() == m0.to_multiset().len());
        assert(models(pending@).len() == m0.len());
        // every pending entry is an entry of the input map, so its paths
        // respect the size limits
        assert forall|k: int|
            0 <= k < models(pending@).len() implies (#[trigger] models(pending@)[k]).source.len()
            <= 0x1000_0000 + models(sched@).len() && models(pending@)[k].target.len() <= 0x1000_0000
            + models(sched@).len() by {
            let x = models(pending@)[k];
            assert(models(pending@).contains(x));
            assert(models(pending@).to_multiset().count(x) > 0);
            assert(m0.to_multiset().count(x) > 0);
            assert(m0.contains(x));
            let w = choose|w: int| 0 <= w < m0.len() && m0[w] == x;
            assert(m0[w].source.len() <= 0x1000_0000);
        }
    }
    while pending.len() > 0
        invariant
            solve_loop(models(pending@), models(sched@)) == solve_loop(sm0, Seq::empty()),
            sm0 == m0.sort_by(op_leq_rel()),
            spec_solve(m0) == solve_loop(sm0, Seq::empty()),
            m0 == models(rename_map@),
            within_limits(m0),
            valid_map(m0),
            m0.len() <= 0x1000_0000,
            models(sched@).len() + 2 * models(pending@).len() <= 2 * m0.len(),
            forall|k: int|
                0 <= k < models(pending@).len() ==> (#[trigger] models(pending@)[k]).source.len()
                    <= 0x1000_0000 + models(sched@).len() && models(pending@)[k].target.len()
                    <= 0x1000_0000 + models(sched@).len(),
            forall|k: int|
                0 <= k < models(sched@).len() ==> (#[trigger] models(sched@)[k]).source.len()
                    <= 0x1000_0000 + models(sched@).len() && models(sched@)[k].target.len()
                    <= 0x1000_0000 + models(sched@).len(),
        decreases models(pending@).len(),
    {
        let ghost pm = models(pending@);
        let ghost sm = models(sched@);
        match find_candidate(&pending) {
            Some(ci) => {
                let op = pending.remove(ci);
                sched.push(op);
                proof {
                    assert(models(pending@) =~= pm.remove(ci as int));
                    assert(models(sched@) =~= sm.push(pm[ci as int]));
                }
            },
            None => {
                proof {
                    lemma_max_path_len_bound(pm, (0x1000_0000 + sm.len()) as nat);
                    lemma_max_path_len_bound(sm, (0x1000_0000 + sm.len()) as nat);
                }
                let temp = make_temp(&pending, &sched);
                let temp2 = copy_bytes(&temp);
                let first = pending.remove(0);
                let ghost tp = temp_path(pm, sm);
                pending.insert(0, Operation { source: temp, target: first.target });
                sched.push(Operation { source: first.source, target: temp2 });
                let ghost p2 = pm.update(0, OpModel { source: tp, target: pm[0].target });
                let ghost s2 = sm.push(OpModel { source: pm[0].source, target: tp });
                proof {
                    assert(models(pending@) =~= p2);
                    assert(models(sched@) =~= s2);
                }
                match find_candidate(&pending) {
                    Some(cj) => {
                        let op = pending.remove(cj);
                        sched.push(op);
                        proof {
                            assert(models(pending@) =~= p2.remove(cj as int));
                            assert(models(sched@) =~= s2.push(p2[cj as int]));
                        }
                    },
                    None => {
                        // unreachable: a well-formed map always has a schedule
                        proof {
                            assert(solve_loop(pm, sm) is None);
                            assert(solve_loop(sm0, Seq::empty()) is None);
                            assert(spec_solve(m0) is None);
                            assert(initial_fs(m0).dom() =~= sources_set(m0));
                            lemma_solver_schedule_safe(m0, initial_fs(m0));
                            assert(false);
                        }
                        return Err(Error { kind: ErrorKind::SolveOrder, value: None });
                    },
                }
                proof {
                    // the fresh temporary path still respects the bounds
                    assert(tp.len() == max2(max_path_len(pm), max_path_len(sm)) + 1);
                    assert forall|k: int|
                        0 <= k < models(pending@).len() implies (#[trigger] models(
                        pending@,
                    )[k]).source.len() <= 0x1000_0000 + models(sched@).len() && models(
                        pending@,
                    )[k].target.len() <= 0x1000_0000 + models(sched@).len() by {}
                }
            },
        }
    }
    proof {
        assert(models(pending@).len() == 0);
        assert(solve_loop(models(pending@), models(sched@)) == Some(models(sched@)));
        assert(Some(models(sched@)) == spec_solve(m0));
    }
    Ok(sched)
}

/// Plans the batch that undoes a recorded batch: swap source and target of
/// every recorded step and schedule the swapped map with the same solver.
pub fn revert_operations(operations: &Operations) -> (r: Result<Operations, Error>)
    requires
        within_limits(reversed(models(operations@))),
    ensures
        r is Ok <==> valid_map(reversed(models(operations@))),
        r matches Ok(ops) ==> Some(models(ops@)) == spec_solve(reversed(models(operations@))),
        r matches Err(e) ==> e.kind is SolveOrder,
{
    let ghost rv = reversed(models(operations@));
    let mut swapped: Vec<Operation> = Vec::new();
    let mut i: usize = 0;
    proof {
        assert(models(swapped@) =~= rv.take(0));
    }
    while i < operations.len()
        invariant
            0 <= i <= rv.len(),
            rv == reversed(models(operations@)),
            models(swapped@) == rv.take(i as int),
        decreases rv.len() - i,
    {
        let ghost olds = models(swapped@);
        let src = copy_bytes(&operations[i].target);
        let tgt = copy_bytes(&operations[i].source);
        swapped.push(Operation { source: src, target: tgt });
        proof {
            assert(rv[i as int] == OpModel {
                source: operations@[i as int]@.target,
                target: operations@[i as int]@.source,
            });
            assert forall|k: int| 0 <= k < olds.len() + 1 implies models(swapped@)[k] == rv.take(
                i + 1,
            )[k] by {
                if k < i as int {
                    assert(models(swapped@)[k] == olds[k]);
                    assert(olds[k] == rv.take(i as int)[k]);
                } else {
                    assert(models(swapped@)[k] == OpModel { source: src@, target: tgt@ });
                    assert(src@ == operations@[i as int].target@);
                    assert(tgt@ == operations@[i as int].source@);
                    assert(models(swapped@)[k] =~= rv[i as int]);
                }
            }
            assert(olds.len() == i as int);
            assert(models(swapped@).len() == olds.len() + 1);
            assert(rv.take(i + 1).len() == i + 1);
            assert(models(swapped@) =~= rv.take(i + 1));
        }
        i = i + 1;
    }
    proof {
        assert(rv.take(rv.len() as int) =~= rv);
    }
    solve_rename_order(&swapped)
}

} // verus!
