//! Lexical bindings captured across function boundaries.

use vstd::prelude::*;

use crate::dependence::copy_all;
use crate::ir::ModuleIr;
use crate::ir::Operation;
use crate::ir::OperationKind;

verus! {

/// How a function directly accesses a captured binding.
#[derive(Debug, Clone, Copy, PartialEq, Eq, Hash, Structural)]
pub enum CaptureAccess {
    /// The binding is only read.
    Read,
    /// The binding is only written.
    Write,
    /// The binding is both read and written.
    ReadWrite,
}

impl CaptureAccess {
    /// Whether this access may read the binding.
    pub open spec fn spec_reads(self) -> bool {
        self is Read || self is ReadWrite
    }

    /// Whether this access may write the binding.
    pub open spec fn spec_writes(self) -> bool {
        self is Write || self is ReadWrite
    }

    /// The access that reads exactly when `reads` and writes exactly when `writes`.
    pub open spec fn from_flags(reads: bool, writes: bool) -> CaptureAccess
        recommends
            reads || writes,
    {
        if reads && writes {
            CaptureAccess::ReadWrite
        } else if reads {
            CaptureAccess::Read
        } else {
            CaptureAccess::Write
        }
    }

    /// Returns whether the capture may read the binding.
    pub fn reads(self) -> (r: bool)
        ensures
            r == self.spec_reads(),
    {
        matches!(self, CaptureAccess::Read | CaptureAccess::ReadWrite)
    }

    /// Returns whether the capture may write the binding.
    pub fn writes(self) -> (r: bool)
        ensures
            r == self.spec_writes(),
    {
        matches!(self, CaptureAccess::Write | CaptureAccess::ReadWrite)
    }

    /// The access that reads when either access reads and writes when either writes.
    pub fn merge(self, other: Self) -> (merged: Self)
        ensures
            merged == Self::from_flags(
                self.spec_reads() || other.spec_reads(),
                self.spec_writes() || other.spec_writes(),
            ),
    {
        let reads = self.reads() || other.reads();
        let writes = self.writes() || other.writes();
        if reads && writes {
            CaptureAccess::ReadWrite
        } else if reads {
            CaptureAccess::Read
        } else {
            CaptureAccess::Write
        }
    }

    /// An access is the access of its own flags.
    pub proof fn lemma_from_own_flags(self)
        ensures
            Self::from_flags(self.spec_reads(), self.spec_writes()) == self,
    {
    }

    /// Merging is commutative, associative and idempotent, and reads or
    /// writes exactly when one of its parts does.
    pub proof fn lemma_merge_laws(a: Self, b: Self, c: Self)
        ensures
            Self::from_flags(a.spec_reads() || b.spec_reads(), a.spec_writes() || b.spec_writes())
                == Self::from_flags(b.spec_reads() || a.spec_reads(), b.spec_writes() || a.spec_writes()),
            Self::from_flags(a.spec_reads() || a.spec_reads(), a.spec_writes() || a.spec_writes()) == a,
            ({
                let ab = Self::from_flags(a.spec_reads() || b.spec_reads(), a.spec_writes() || b.spec_writes());
                let bc = Self::from_flags(b.spec_reads() || c.spec_reads(), b.spec_writes() || c.spec_writes());
                Self::from_flags(ab.spec_reads() || c.spec_reads(), ab.spec_writes() || c.spec_writes())
                    == Self::from_flags(a.spec_reads() || bc.spec_reads(), a.spec_writes() || bc.spec_writes())
            }),
            Self::from_flags(a.spec_reads() || b.spec_reads(), a.spec_writes() || b.spec_writes()).spec_reads()
                == (a.spec_reads() || b.spec_reads()),
            Self::from_flags(a.spec_reads() || b.spec_reads(), a.spec_writes() || b.spec_writes()).spec_writes()
                == (a.spec_writes() || b.spec_writes()),
    {
    }
}

/// One lexical binding captured by a function.
#[derive(Debug, Clone, Copy, PartialEq, Eq, Hash, Structural)]
pub struct BindingCapture {
    binding: usize,
    access: CaptureAccess,
}

impl BindingCapture {
    pub closed spec fn spec_binding(self) -> usize {
        self.binding
    }

    pub closed spec fn spec_access(self) -> CaptureAccess {
        self.access
    }

    /// The capture of `binding` with access `access`.
    pub fn new(binding: usize, access: CaptureAccess) -> (capture: Self)
        ensures
            capture.spec_binding() == binding,
            capture.spec_access() == access,
    {
        BindingCapture { binding, access }
    }

    /// Two captures are equal exactly when their binding and access are.
    pub proof fn lemma_eq(self, other: Self)
        ensures
            (self == other) <==> (self.spec_binding() == other.spec_binding() && self.spec_access()
                == other.spec_access()),
    {
    }

    /// Returns the captured binding.
    pub fn binding(self) -> (binding: usize)
        ensures
            binding == self.spec_binding(),
    {
        self.binding
    }

    /// Returns how the capturing function accesses the binding.
    pub fn access(self) -> (access: CaptureAccess)
        ensures
            access == self.spec_access(),
    {
        self.access
    }
}

/// What an operation does to bindings, as far as captures are concerned.
#[derive(Debug, PartialEq, Eq)]
pub enum CaptureOperation {
    /// Initializes one binding.
    InitializeBinding(usize),
    /// Writes every binding of a declaration pattern.
    DestructureBinding(Vec<usize>),
    /// Writes every binding of an assignment pattern.
    DestructureAssignment(Vec<usize>),
    /// Reads one binding.
    LoadBinding(usize),
    /// Writes one binding.
    StoreBinding(usize),
    /// Creates a class, writing its inner name binding when it has one.
    CreateClass(Option<usize>),
    /// A `for`, `for-in` or `for-of` loop; its bindings describe per-iteration
    /// environment cloning, not accesses.
    Loop,
    /// An operation that references no binding.
    Other,
}

/// The binding accesses of one operation, in order.
pub open spec fn op_visits(op: CaptureOperation) -> Seq<(usize, CaptureAccess)> {
    match op {
        CaptureOperation::InitializeBinding(b) => seq![(b, CaptureAccess::Write)],
        CaptureOperation::DestructureBinding(bs) => bs@.map_values(
            |b: usize| (b, CaptureAccess::Write),
        ),
        CaptureOperation::DestructureAssignment(bs) => bs@.map_values(
            |b: usize| (b, CaptureAccess::Write),
        ),
        CaptureOperation::LoadBinding(b) => seq![(b, CaptureAccess::Read)],
        CaptureOperation::StoreBinding(b) => seq![(b, CaptureAccess::Write)],
        CaptureOperation::CreateClass(class_binding) => match class_binding {
            Some(b) => seq![(b, CaptureAccess::Write)],
            None => Seq::empty(),
        },
        CaptureOperation::Loop => Seq::empty(),
        CaptureOperation::Other => Seq::empty(),
    }
}

/// The binding accesses of a list of operations, in order.
pub open spec fn visit_seq(ops: Seq<CaptureOperation>) -> Seq<(usize, CaptureAccess)>
    decreases ops.len(),
{
    if ops.len() == 0 {
        Seq::empty()
    } else {
        visit_seq(ops.drop_last()) + op_visits(ops.last())
    }
}

/// The binding accesses of an operation of the IR, in order: a binding
/// initialization, store or load accesses its binding, a destructuring
/// writes every binding of its pattern, and a class creation writes its
/// inner name binding. The bindings of a loop describe per-iteration
/// environments and are no accesses; no other operation accesses a binding.
pub open spec fn operation_visits(operation: Operation) -> Seq<(usize, CaptureAccess)> {
    match operation.kind {
        OperationKind::InitializeBinding { binding } => seq![(binding, CaptureAccess::Write)],
        OperationKind::DestructureBinding => operation.referenced_bindings@.map_values(
            |b: usize| (b, CaptureAccess::Write),
        ),
        OperationKind::DestructureAssignment => operation.referenced_bindings@.map_values(
            |b: usize| (b, CaptureAccess::Write),
        ),
        OperationKind::LoadBinding { binding } => seq![(binding, CaptureAccess::Read)],
        OperationKind::StoreBinding { binding } => seq![(binding, CaptureAccess::Write)],
        OperationKind::CreateClass { self_binding, .. } => match self_binding {
            Some(b) => seq![(b, CaptureAccess::Write)],
            None => Seq::empty(),
        },
        _ => Seq::empty(),
    }
}

/// The binding accesses of a list of operations of the IR, in order.
pub open spec fn operations_visits(operations: Seq<Operation>) -> Seq<(usize, CaptureAccess)>
    decreases operations.len(),
{
    if operations.len() == 0 {
        Seq::empty()
    } else {
        operations_visits(operations.drop_last()) + operation_visits(operations.last())
    }
}

impl CaptureOperation {
    /// What `operation` does to bindings.
    pub fn of_operation(operation: &Operation) -> (capture: Self)
        ensures
            op_visits(capture) == operation_visits(*operation),
    {
        match &operation.kind {
            OperationKind::InitializeBinding { binding } => CaptureOperation::InitializeBinding(*binding),
            OperationKind::DestructureBinding => CaptureOperation::DestructureBinding(copy_all(&operation.referenced_bindings)),
            OperationKind::DestructureAssignment => CaptureOperation::DestructureAssignment(
                copy_all(&operation.referenced_bindings),
            ),
            OperationKind::LoadBinding { binding } => CaptureOperation::LoadBinding(*binding),
            OperationKind::StoreBinding { binding } => CaptureOperation::StoreBinding(*binding),
            OperationKind::CreateClass { self_binding, .. } => CaptureOperation::CreateClass(*self_binding),
            OperationKind::For | OperationKind::ForIn | OperationKind::ForOf => CaptureOperation::Loop,
            _ => CaptureOperation::Other,
        }
    }
}

/// Appends `bindings`, each written, to `visits`.
fn push_writes(visits: &mut Vec<(usize, CaptureAccess)>, bindings: &Vec<usize>)
    ensures
        final(visits)@ == old(visits)@ + bindings@.map_values(|b: usize| (b, CaptureAccess::Write)),
{
    let mut i: usize = 0;
    while i < bindings.len()
        invariant
            i <= bindings@.len(),
            visits@ == old(visits)@ + bindings@.take(i as int).map_values(
                |b: usize| (b, CaptureAccess::Write),
            ),
        decreases bindings@.len() - i,
    {
        visits.push((bindings[i], CaptureAccess::Write));
        i = i + 1;
        proof {
            assert(bindings@.take(i as int).map_values(|b: usize| (b, CaptureAccess::Write))
                =~= bindings@.take(i - 1).map_values(|b: usize| (b, CaptureAccess::Write)).push(
                (bindings@[i - 1], CaptureAccess::Write),
            ));
        }
    }
    assert(bindings@.take(bindings@.len() as int) =~= bindings@);
}

/// The binding accesses of a function's operations, in order.
pub fn binding_visits(ops: &Vec<CaptureOperation>) -> (visits: Vec<(usize, CaptureAccess)>)
    ensures
        visits@ == visit_seq(ops@),
{
    let mut visits: Vec<(usize, CaptureAccess)> = Vec::new();
    let mut j: usize = 0;
    while j < ops.len()
        invariant
            j <= ops@.len(),
            visits@ == visit_seq(ops@.take(j as int)),
        decreases ops@.len() - j,
    {
        let ghost before = visits@;
        match &ops[j] {
            CaptureOperation::InitializeBinding(b) => {
                visits.push((*b, CaptureAccess::Write));
            },
            CaptureOperation::DestructureBinding(bs) => {
                push_writes(&mut visits, bs);
            },
            CaptureOperation::DestructureAssignment(bs) => {
                push_writes(&mut visits, bs);
            },
            CaptureOperation::LoadBinding(b) => {
                visits.push((*b, CaptureAccess::Read));
            },
            CaptureOperation::StoreBinding(b) => {
                visits.push((*b, CaptureAccess::Write));
            },
            CaptureOperation::CreateClass(class_binding) => {
                if let Some(b) = class_binding {
                    visits.push((*b, CaptureAccess::Write));
                }
            },
            CaptureOperation::Loop => {},
            CaptureOperation::Other => {},
        }
        proof {
            assert(ops@.take(j + 1).drop_last() =~= ops@.take(j as int));
            assert(visits@ =~= before + op_visits(ops@[j as int]));
        }
        j = j + 1;
    }
    assert(ops@.take(ops@.len() as int) =~= ops@);
    visits
}

/// Whether some access in `seen` reads `b`.
pub open spec fn seen_reads(seen: spec_fn(usize, CaptureAccess) -> bool, b: usize) -> bool {
    seen(b, CaptureAccess::Read) || seen(b, CaptureAccess::ReadWrite)
}

/// Whether some access in `seen` writes `b`.
pub open spec fn seen_writes(seen: spec_fn(usize, CaptureAccess) -> bool, b: usize) -> bool {
    seen(b, CaptureAccess::Write) || seen(b, CaptureAccess::ReadWrite)
}

/// Whether some access in `seen` touches `b`.
pub open spec fn seen_any(seen: spec_fn(usize, CaptureAccess) -> bool, b: usize) -> bool {
    seen(b, CaptureAccess::Read) || seen(b, CaptureAccess::Write) || seen(
        b,
        CaptureAccess::ReadWrite,
    )
}

/// `captures` lists, in increasing binding order, each binding that `seen`
/// touches, with the merge of its accesses.
pub open spec fn summarizes(
    captures: Seq<BindingCapture>,
    seen: spec_fn(usize, CaptureAccess) -> bool,
) -> bool {
    &&& forall|a: int, b: int|
        #![trigger captures[a], captures[b]]
        0 <= a < b < captures.len() ==> captures[a].spec_binding() < captures[b].spec_binding()
    &&& forall|k: int|
        #![trigger captures[k]]
        0 <= k < captures.len() ==> seen_any(seen, captures[k].spec_binding())
            && captures[k].spec_access() == CaptureAccess::from_flags(
            seen_reads(seen, captures[k].spec_binding()),
            seen_writes(seen, captures[k].spec_binding()),
        )
    &&& forall|b: usize, a: CaptureAccess|
        #[trigger] seen(b, a) ==> exists|k: int|
            #![trigger captures[k]]
            0 <= k < captures.len() && captures[k].spec_binding() == b
}

/// `seen` with one more access.
pub open spec fn seen_with(
    seen: spec_fn(usize, CaptureAccess) -> bool,
    binding: usize,
    access: CaptureAccess,
) -> spec_fn(usize, CaptureAccess) -> bool {
    |b: usize, a: CaptureAccess| seen(b, a) || (b == binding && a == access)
}

/// A summary stays a summary when both sides agree on every access.
proof fn lemma_summarizes_same(
    captures: Seq<BindingCapture>,
    seen: spec_fn(usize, CaptureAccess) -> bool,
    other: spec_fn(usize, CaptureAccess) -> bool,
)
    requires
        summarizes(captures, seen),
        forall|b: usize, a: CaptureAccess| #[trigger] seen(b, a) == other(b, a),
    ensures
        summarizes(captures, other),
{
    assert forall|b: usize, a: CaptureAccess| #[trigger] other(b, a) implies exists|k: int|
        #![trigger captures[k]]
        0 <= k < captures.len() && captures[k].spec_binding() == b by {
        assert(seen(b, a));
    }
    assert forall|k: int|
        #![trigger captures[k]]
        0 <= k < captures.len() implies seen_any(other, captures[k].spec_binding())
            && captures[k].spec_access() == CaptureAccess::from_flags(
            seen_reads(other, captures[k].spec_binding()),
            seen_writes(other, captures[k].spec_binding()),
        ) by {
        let b = captures[k].spec_binding();
        assert(seen(b, CaptureAccess::Read) == other(b, CaptureAccess::Read));
        assert(seen(b, CaptureAccess::Write) == other(b, CaptureAccess::Write));
        assert(seen(b, CaptureAccess::ReadWrite) == other(b, CaptureAccess::ReadWrite));
    }
}

/// Position of the first capture whose binding is at least `binding`.
fn capture_position(captures: &Vec<BindingCapture>, binding: usize) -> (p: usize)
    requires
        forall|a: int, b: int|
            #![trigger captures@[a], captures@[b]]
            0 <= a < b < captures@.len() ==> captures@[a].spec_binding() < captures@[b].spec_binding(),
    ensures
        p <= captures@.len(),
        forall|a: int| #![trigger captures@[a]] 0 <= a < p ==> captures@[a].spec_binding() < binding,
        forall|a: int|
            #![trigger captures@[a]]
            p <= a < captures@.len() ==> captures@[a].spec_binding() >= binding,
{
    let mut lo: usize = 0;
    let mut hi: usize = captures.len();
    while lo < hi
        invariant
            forall|a: int, b: int|
                #![trigger captures@[a], captures@[b]]
                0 <= a < b < captures@.len() ==> captures@[a].spec_binding() < captures@[b].spec_binding(),
            lo <= hi <= captures@.len(),
            forall|a: int| #![trigger captures@[a]] 0 <= a < lo ==> captures@[a].spec_binding() < binding,
            forall|a: int|
                #![trigger captures@[a]]
                hi <= a < captures@.len() ==> captures@[a].spec_binding() >= binding,
        decreases hi - lo,
    {
        let mid = lo + (hi - lo) / 2;
        if captures[mid].binding < binding {
            proof {
                assert forall|a: int| #![trigger captures@[a]] 0 <= a <= mid implies captures@[a].spec_binding() < binding by {
                    if a < mid {
                        assert(captures@[a].spec_binding() < captures@[mid as int].spec_binding());
                    }
                }
            }
            lo = mid + 1;
        } else {
            proof {
                assert forall|a: int|
                    #![trigger captures@[a]]
                    mid <= a < captures@.len() implies captures@[a].spec_binding() >= binding by {
                    if a > mid {
                        assert(captures@[mid as int].spec_binding() < captures@[a].spec_binding());
                    }
                }
            }
            hi = mid;
        }
    }
    lo
}

/// Merging a new access into the capture at `p`, which names the same binding, keeps the summary.
proof fn lemma_record_merge(
    old_seq: Seq<BindingCapture>,
    p: int,
    binding: usize,
    access: CaptureAccess,
    merged: BindingCapture,
    seen: spec_fn(usize, CaptureAccess) -> bool,
)
    requires
        summarizes(old_seq, seen),
        0 <= p < old_seq.len(),
        old_seq[p].spec_binding() == binding,
        merged.spec_binding() == binding,
        merged.spec_access() == CaptureAccess::from_flags(
            old_seq[p].spec_access().spec_reads() || access.spec_reads(),
            old_seq[p].spec_access().spec_writes() || access.spec_writes(),
        ),
        access is Read || access is Write,
    ensures
        summarizes(old_seq.update(p, merged), seen_with(seen, binding, access)),
{
    let s = old_seq.update(p, merged);
    let after = seen_with(seen, binding, access);
    assert forall|k: int|
        #![trigger s[k]]
        0 <= k < s.len() implies seen_any(after, s[k].spec_binding())
            && s[k].spec_access() == CaptureAccess::from_flags(
            seen_reads(after, s[k].spec_binding()),
            seen_writes(after, s[k].spec_binding()),
        ) by {
        if k == p {
            assert(old_seq[k] == old_seq[p]);
        } else {
            assert(s[k] == old_seq[k]);
            if k < p {
                assert(old_seq[k].spec_binding() < old_seq[p].spec_binding());
            } else {
                assert(old_seq[p].spec_binding() < old_seq[k].spec_binding());
            }
        }
    }
    assert forall|b: usize, a: CaptureAccess| #[trigger] after(b, a) implies exists|k: int|
        #![trigger s[k]]
        0 <= k < s.len() && s[k].spec_binding() == b by {
        if seen(b, a) {
            let k = choose|k: int|
                #![trigger old_seq[k]]
                0 <= k < old_seq.len() && old_seq[k].spec_binding() == b;
            if k != p {
                assert(s[k] == old_seq[k]);
            } else {
                assert(s[p].spec_binding() == b);
            }
        } else {
            assert(s[p].spec_binding() == b);
        }
    }
    assert forall|a: int, b: int|
        #![trigger s[a], s[b]]
        0 <= a < b < s.len() implies s[a].spec_binding() < s[b].spec_binding() by {
        assert(old_seq[a].spec_binding() < old_seq[b].spec_binding());
    }
}

/// Inserting a first access to `binding` at its sorted position keeps the summary.
proof fn lemma_record_insert(
    old_seq: Seq<BindingCapture>,
    p: int,
    binding: usize,
    access: CaptureAccess,
    fresh: BindingCapture,
    seen: spec_fn(usize, CaptureAccess) -> bool,
)
    requires
        summarizes(old_seq, seen),
        0 <= p <= old_seq.len(),
        forall|a: int| #![trigger old_seq[a]] 0 <= a < p ==> old_seq[a].spec_binding() < binding,
        forall|a: int|
            #![trigger old_seq[a]]
            p <= a < old_seq.len() ==> old_seq[a].spec_binding() > binding,
        fresh.spec_binding() == binding,
        fresh.spec_access() == access,
        access is Read || access is Write,
    ensures
        summarizes(old_seq.insert(p, fresh), seen_with(seen, binding, access)),
{
    let s = old_seq.insert(p, fresh);
    let after = seen_with(seen, binding, access);
    assert forall|a: CaptureAccess| !#[trigger] seen(binding, a) by {
        if seen(binding, a) {
            let k = choose|k: int|
                #![trigger old_seq[k]]
                0 <= k < old_seq.len() && old_seq[k].spec_binding() == binding;
        }
    }
    assert forall|k: int|
        #![trigger s[k]]
        0 <= k < s.len() implies seen_any(after, s[k].spec_binding())
            && s[k].spec_access() == CaptureAccess::from_flags(
            seen_reads(after, s[k].spec_binding()),
            seen_writes(after, s[k].spec_binding()),
        ) by {
        if k < p {
            assert(s[k] == old_seq[k]);
        } else if k > p {
            assert(s[k] == old_seq[k - 1]);
        } else {
            assert(!seen(binding, CaptureAccess::Read) && !seen(binding, CaptureAccess::Write) && !seen(binding, CaptureAccess::ReadWrite));
        }
    }
    assert forall|b: usize, a: CaptureAccess| #[trigger] after(b, a) implies exists|k: int|
        #![trigger s[k]]
        0 <= k < s.len() && s[k].spec_binding() == b by {
        if seen(b, a) {
            let k = choose|k: int|
                #![trigger old_seq[k]]
                0 <= k < old_seq.len() && old_seq[k].spec_binding() == b;
            if k < p {
                assert(s[k] == old_seq[k]);
            } else {
                assert(s[k + 1] == old_seq[k]);
            }
        } else {
            assert(s[p].spec_binding() == b);
        }
    }
    assert forall|a: int, b: int|
        #![trigger s[a], s[b]]
        0 <= a < b < s.len() implies s[a].spec_binding() < s[b].spec_binding() by {
        if b < p {
            assert(s[a] == old_seq[a] && s[b] == old_seq[b]);
        } else if b == p {
            assert(s[a] == old_seq[a]);
        } else if a < p {
            assert(s[a] == old_seq[a] && s[b] == old_seq[b - 1]);
        } else if a == p {
            assert(s[b] == old_seq[b - 1]);
        } else {
            assert(s[a] == old_seq[a - 1] && s[b] == old_seq[b - 1]);
        }
    }
}

/// Records that `binding` is accessed with `access`, merging with an earlier capture.
fn record_capture(
    captures: &mut Vec<BindingCapture>,
    binding: usize,
    access: CaptureAccess,
    Ghost(seen): Ghost<spec_fn(usize, CaptureAccess) -> bool>,
)
    requires
        summarizes(old(captures)@, seen),
        access is Read || access is Write,
    ensures
        summarizes(final(captures)@, seen_with(seen, binding, access)),
{
    let p = capture_position(captures, binding);
    let ghost old_seq = captures@;
    if p < captures.len() && captures[p].binding == binding {
        let merged = captures[p].access.merge(access);
        let entry = BindingCapture { binding, access: merged };
        proof {
            lemma_record_merge(old_seq, p as int, binding, access, entry, seen);
        }
        captures.set(p, entry);
    } else {
        let entry = BindingCapture { binding, access };
        proof {
            lemma_record_insert(old_seq, p as int, binding, access, entry, seen);
        }
        captures.insert(p, entry);
    }
}

/// The `k`-th lexical ancestor of function `f`: `f` itself for `k == 0`,
/// and `None` once the chain of parents ends.
pub open spec fn ancestor_at(parents: Seq<Option<usize>>, f: int, k: nat) -> Option<int>
    decreases k,
{
    if k == 0 {
        Some(f)
    } else {
        match ancestor_at(parents, f, (k - 1) as nat) {
            Some(a) => if 0 <= a < parents.len() {
                match parents[a] {
                    Some(p) => Some(p as int),
                    None => None,
                }
            } else {
                None
            },
            None => None,
        }
    }
}

/// Whether `ancestor` is a proper lexical ancestor of `descendant`.
pub open spec fn is_ancestor(parents: Seq<Option<usize>>, ancestor: int, descendant: int) -> bool {
    exists|k: nat| k >= 1 && #[trigger] ancestor_at(parents, descendant, k) == Some(ancestor)
}

/// Once the chain of parents ends, it stays ended.
pub proof fn lemma_ancestor_end(parents: Seq<Option<usize>>, f: int, k: nat, m: nat)
    requires
        ancestor_at(parents, f, k) is None,
        k <= m,
    ensures
        ancestor_at(parents, f, m) is None,
    decreases m - k,
{
    if k < m {
        lemma_ancestor_end(parents, f, k, (m - 1) as nat);
    }
}

/// Every access that an operation list performs is a read or a write.
proof fn lemma_visits_read_or_write(ops: Seq<CaptureOperation>)
    ensures
        forall|k: int|
            #![trigger visit_seq(ops)[k]]
            0 <= k < visit_seq(ops).len() ==> visit_seq(ops)[k].1 is Read || visit_seq(ops)[k].1 is Write,
    decreases ops.len(),
{
    if ops.len() > 0 {
        lemma_visits_read_or_write(ops.drop_last());
        let prev = visit_seq(ops.drop_last());
        let last = op_visits(ops.last());
        assert forall|k: int| #![trigger visit_seq(ops)[k]] 0 <= k < visit_seq(ops).len() implies visit_seq(ops)[k].1 is Read || visit_seq(ops)[k].1 is Write by {
            if k < prev.len() {
                assert(visit_seq(ops)[k] == prev[k]);
            } else {
                assert(visit_seq(ops)[k] == last[k - prev.len()]);
            }
        }
    }
}

/// The functions, bindings and binding accesses of one module.
pub struct ModuleCaptureShape {
    /// The lexical parent of each function; `None` for the module's entry function.
    pub parents: Vec<Option<usize>>,
    /// The function that declares each binding.
    pub binding_functions: Vec<usize>,
    /// The operations of each function.
    pub operations: Vec<Vec<CaptureOperation>>,
}

impl ModuleCaptureShape {
    /// The shape of `module`: each function's lexical parent, each binding's
    /// declaring function, and what each operation does to bindings.
    pub fn of_module(module: &ModuleIr) -> (shape: Self)
        ensures
            shape.parents@ == module.parents(),
            shape.binding_functions@ == Seq::new(module.bindings@.len(), |b: int| module.bindings@[b].declaring_function),
            shape.operations@.len() == module.functions@.len(),
            forall|f: int|
                0 <= f < module.functions@.len() ==> #[trigger] shape.visits(f) == operations_visits(
                    module.functions@[f].operations@,
                ),
    {
        let n = module.functions.len();
        let mut parents: Vec<Option<usize>> = Vec::new();
        let mut operations: Vec<Vec<CaptureOperation>> = Vec::new();
        let mut f: usize = 0;
        while f < n
            invariant
                n == module.functions@.len(),
                f <= n,
                parents@.len() == f,
                operations@.len() == f,
                forall|g: int| #![trigger parents@[g]] 0 <= g < f ==> parents@[g] == module.functions@[g].parent,
                forall|g: int|
                    #![trigger operations@[g]]
                    0 <= g < f ==> visit_seq(operations@[g]@) == operations_visits(module.functions@[g].operations@),
            decreases n - f,
        {
            let function = &module.functions[f];
            let mut list: Vec<CaptureOperation> = Vec::new();
            let mut j: usize = 0;
            while j < function.operations.len()
                invariant
                    j <= function.operations@.len(),
                    list@.len() == j,
                    visit_seq(list@) == operations_visits(function.operations@.take(j as int)),
                decreases function.operations.len() - j,
            {
                let capture = CaptureOperation::of_operation(&function.operations[j]);
                let ghost before = list@;
                list.push(capture);
                proof {
                    let taken = function.operations@.take(j + 1);
                    assert(taken.drop_last() =~= function.operations@.take(j as int));
                    assert(list@.drop_last() =~= before);
                }
                j = j + 1;
            }
            proof {
                assert(function.operations@.take(function.operations@.len() as int) =~= function.operations@);
            }
            parents.push(function.parent);
            operations.push(list);
            f = f + 1;
        }
        let mut binding_functions: Vec<usize> = Vec::new();
        let mut b: usize = 0;
        while b < module.bindings.len()
            invariant
                b <= module.bindings@.len(),
                binding_functions@.len() == b,
                forall|c: int| #![trigger binding_functions@[c]] 0 <= c < b ==> binding_functions@[c] == module.bindings@[c].declaring_function,
            decreases module.bindings.len() - b,
        {
            binding_functions.push(module.bindings[b].declaring_function);
            b = b + 1;
        }
        let shape = ModuleCaptureShape { parents, binding_functions, operations };
        proof {
            assert(shape.parents@ =~= module.parents());
            assert(shape.binding_functions@ =~= Seq::new(module.bindings@.len(), |c: int| module.bindings@[c].declaring_function));
            assert forall|g: int|
                0 <= g < module.functions@.len() implies #[trigger] shape.visits(g) == operations_visits(
                    module.functions@[g].operations@,
                ) by {
                assert(shape.operations@[g] == operations@[g]);
            }
        }
        shape
    }

    /// The binding accesses of function `f`, in order.
    pub open spec fn visits(&self, f: int) -> Seq<(usize, CaptureAccess)> {
        visit_seq(self.operations@[f]@)
    }

    /// A module whose ancestry has no cycle, whose references are in range,
    /// and whose functions only reach bindings of their own or of a lexical ancestor.
    pub open spec fn wf(&self) -> bool {
        let n = self.operations@.len();
        &&& self.parents@.len() == n
        &&& forall|f: int|
            #![trigger self.parents@[f]]
            0 <= f < n ==> (self.parents@[f] matches Some(p) ==> p < n)
        &&& forall|f: int| 0 <= f < n ==> #[trigger] ancestor_at(self.parents@, f, n) is None
        &&& forall|b: int|
            #![trigger self.binding_functions@[b]]
            0 <= b < self.binding_functions@.len() ==> self.binding_functions@[b] < n
        &&& forall|f: int, k: int|
            #![trigger self.visits(f)[k]]
            0 <= f < n && 0 <= k < self.visits(f).len() ==> {
                let b = self.visits(f)[k].0;
                &&& b < self.binding_functions@.len()
                &&& self.binding_functions@[b as int] == f || is_ancestor(
                    self.parents@,
                    self.binding_functions@[b as int] as int,
                    f,
                )
            }
    }

    /// The accesses by which function `f` captures bindings of its ancestors.
    pub open spec fn captured_by(&self, f: int) -> spec_fn(usize, CaptureAccess) -> bool {
        |b: usize, a: CaptureAccess|
            exists|k: int|
                #![trigger self.visits(f)[k]]
                0 <= k < self.visits(f).len() && self.visits(f)[k] == (b, a)
                    && self.binding_functions@[b as int] != f
    }

    /// The accesses by which other functions capture the bindings that function `g` declares.
    pub open spec fn locals_captured(&self, g: int) -> spec_fn(usize, CaptureAccess) -> bool {
        |b: usize, a: CaptureAccess|
            exists|f: int, k: int|
                #![trigger self.visits(f)[k]]
                0 <= f < self.operations@.len() && f != g && 0 <= k < self.visits(f).len()
                    && self.visits(f)[k] == (b, a) && self.binding_functions@[b as int] == g
    }

    /// The accesses among the first `k` of function `f` that capture an ancestor's binding.
    pub open spec fn own_prefix(&self, f: int, k: int) -> spec_fn(usize, CaptureAccess) -> bool {
        |b: usize, a: CaptureAccess|
            exists|j: int|
                #![trigger self.visits(f)[j]]
                0 <= j < k && j < self.visits(f).len() && self.visits(f)[j] == (b, a)
                    && self.binding_functions@[b as int] != f
    }

    /// The accesses, among those of the functions before `f` and the first `k`
    /// of function `f`, that capture a binding declared by another function `g`.
    pub open spec fn locals_prefix(&self, g: int, f: int, k: int) -> spec_fn(usize, CaptureAccess) -> bool {
        |b: usize, a: CaptureAccess|
            exists|h: int, j: int|
                #![trigger self.visits(h)[j]]
                (0 <= h < f || (h == f && j < k)) && h != g && 0 <= j < self.visits(h).len()
                    && self.visits(h)[j] == (b, a) && self.binding_functions@[b as int] == g
    }

    /// Whether `ancestor` is a proper lexical ancestor of `descendant`.
    pub fn is_lexical_ancestor(&self, ancestor: usize, descendant: usize) -> (r: bool)
        requires
            self.wf(),
            descendant < self.operations@.len(),
        ensures
            r == is_ancestor(self.parents@, ancestor as int, descendant as int),
    {
        let ghost n = self.operations@.len();
        let ghost parents = self.parents@;
        let mut current = self.parents[descendant];
        let ghost mut k: nat = 1;
        proof {
            assert(ancestor_at(parents, descendant as int, 0) == Some(descendant as int));
        }
        while current.is_some()
            invariant
                self.wf(),
                n == self.operations@.len(),
                parents == self.parents@,
                descendant < n,
                k >= 1,
                ancestor_at(parents, descendant as int, k) == (match current {
                    Some(p) => Some(p as int),
                    None => None::<int>,
                }),
                current matches Some(p) ==> p < n,
                forall|j: nat| 1 <= j < k ==> #[trigger] ancestor_at(parents, descendant as int, j) != Some(ancestor as int),
            decreases n - k,
        {
            let parent = current.unwrap();
            if parent == ancestor {
                return true;
            }
            proof {
                if k >= n {
                    lemma_ancestor_end(parents, descendant as int, n as nat, k);
                }
            }
            current = self.parents[parent];
            proof {
                k = k + 1;
            }
        }
        proof {
            assert forall|j: nat| j >= 1 implies #[trigger] ancestor_at(parents, descendant as int, j) != Some(ancestor as int) by {
                if j >= k {
                    lemma_ancestor_end(parents, descendant as int, k, j);
                }
            }
        }
        false
    }
}

/// Lexical-binding captures for every function of one module.
///
/// A function captures a binding when its own operations reference a binding
/// declared by a lexical ancestor. `captured_bindings` lists these direct
/// references; `captured_locals` the inverse aggregate: the bindings a
/// function declares that any other function references. References made
/// observable only through direct `eval` are not modelled.
#[derive(Debug)]
pub struct FunctionCaptureAnalysis {
    captured_bindings: Vec<Vec<BindingCapture>>,
    captured_locals: Vec<Vec<BindingCapture>>,
}

impl FunctionCaptureAnalysis {
    #[verifier::type_invariant]
    spec fn well_formed(self) -> bool {
        self.captured_locals@.len() == self.captured_bindings@.len()
    }

    /// The number of functions analyzed.
    pub closed spec fn spec_function_count(&self) -> nat {
        self.captured_bindings@.len()
    }

    /// The captures of each function.
    pub closed spec fn spec_captured_bindings(&self, f: int) -> Seq<BindingCapture> {
        self.captured_bindings@[f]@
    }

    /// The captured locals of each function.
    pub closed spec fn spec_captured_locals(&self, f: int) -> Seq<BindingCapture> {
        self.captured_locals@[f]@
    }

    /// Computes the captures of every function of `module`.
    pub fn analyze(module: &ModuleCaptureShape) -> (analysis: Self)
        requires
            module.wf(),
        ensures
            analysis.spec_function_count() == module.operations@.len(),
            forall|f: int|
                #![trigger analysis.spec_captured_bindings(f)]
                0 <= f < module.operations@.len() ==> summarizes(
                    analysis.spec_captured_bindings(f),
                    module.captured_by(f),
                ),
            forall|g: int|
                #![trigger analysis.spec_captured_locals(g)]
                0 <= g < module.operations@.len() ==> summarizes(
                    analysis.spec_captured_locals(g),
                    module.locals_captured(g),
                ),
    {
        let n = module.operations.len();
        let mut visits: Vec<Vec<(usize, CaptureAccess)>> = Vec::new();
        let mut captured_bindings: Vec<Vec<BindingCapture>> = Vec::new();
        let mut captured_locals: Vec<Vec<BindingCapture>> = Vec::new();
        let mut f: usize = 0;
        while f < n
            invariant
                n == module.operations@.len(),
                f <= n,
                visits@.len() == f,
                captured_bindings@.len() == f,
                captured_locals@.len() == f,
                forall|g: int| #![trigger visits@[g]] 0 <= g < f ==> visits@[g]@ == module.visits(g),
                forall|g: int| #![trigger captured_bindings@[g]] 0 <= g < f ==> captured_bindings@[g]@.len() == 0,
                forall|g: int| #![trigger captured_locals@[g]] 0 <= g < f ==> captured_locals@[g]@.len() == 0,
            decreases n - f,
        {
            visits.push(binding_visits(&module.operations[f]));
            captured_bindings.push(Vec::new());
            captured_locals.push(Vec::new());
            f = f + 1;
        }
        proof {
            assert forall|g: int| #![trigger captured_bindings@[g]] 0 <= g < n implies summarizes(captured_bindings@[g]@, module.own_prefix(g, 0)) by {
                assert(captured_bindings@[g]@.len() == 0);
            }
            assert forall|g: int| #![trigger captured_locals@[g]] 0 <= g < n implies summarizes(captured_locals@[g]@, module.locals_prefix(g, 0, 0)) by {
                assert(captured_locals@[g]@.len() == 0);
            }
        }
        let mut f: usize = 0;
        while f < n
            invariant
                module.wf(),
                n == module.operations@.len(),
                f <= n,
                visits@.len() == n,
                captured_bindings@.len() == n,
                captured_locals@.len() == n,
                forall|g: int| #![trigger visits@[g]] 0 <= g < n ==> visits@[g]@ == module.visits(g),
                forall|g: int|
                    #![trigger captured_bindings@[g]]
                    0 <= g < n ==> summarizes(
                        captured_bindings@[g]@,
                        if g < f { module.captured_by(g) } else { module.own_prefix(g, 0) },
                    ),
                forall|g: int|
                    #![trigger captured_locals@[g]]
                    0 <= g < n ==> summarizes(captured_locals@[g]@, module.locals_prefix(g, f as int, 0)),
            decreases n - f,
        {
            proof {
                lemma_visits_read_or_write(module.operations@[f as int]@);
            }
            let mut k: usize = 0;
            while k < visits[f].len()
                invariant
                    module.wf(),
                    n == module.operations@.len(),
                    f < n,
                    k <= visits@[f as int]@.len(),
                    visits@.len() == n,
                    captured_bindings@.len() == n,
                    captured_locals@.len() == n,
                    forall|g: int| #![trigger visits@[g]] 0 <= g < n ==> visits@[g]@ == module.visits(g),
                    forall|j: int|
                        #![trigger module.visits(f as int)[j]]
                        0 <= j < module.visits(f as int).len() ==> module.visits(f as int)[j].1 is Read
                            || module.visits(f as int)[j].1 is Write,
                    forall|g: int|
                        #![trigger captured_bindings@[g]]
                        0 <= g < n ==> summarizes(
                            captured_bindings@[g]@,
                            if g < f {
                                module.captured_by(g)
                            } else if g == f {
                                module.own_prefix(g, k as int)
                            } else {
                                module.own_prefix(g, 0)
                            },
                        ),
                    forall|g: int|
                        #![trigger captured_locals@[g]]
                        0 <= g < n ==> summarizes(
                            captured_locals@[g]@,
                            module.locals_prefix(g, f as int, k as int),
                        ),
                decreases visits@[f as int]@.len() - k,
            {
                let binding = visits[f][k].0;
                let access = visits[f][k].1;
                proof {
                    assert(module.visits(f as int)[k as int] == (binding, access));
                    assert(binding < module.binding_functions@.len());
                }
                let declaring = module.binding_functions[binding];
                let ghost fi = f as int;
                let ghost ki = k as int;
                if declaring != f {
                    let ghost seen_b = module.own_prefix(fi, ki);
                    let ghost seen_l = module.locals_prefix(declaring as int, fi, ki);
                    proof {
                        assert(summarizes(captured_bindings@[fi]@, seen_b));
                        assert(summarizes(captured_locals@[declaring as int]@, seen_l));
                    }
                    record_capture(&mut captured_bindings[f], binding, access, Ghost(seen_b));
                    record_capture(&mut captured_locals[declaring], binding, access, Ghost(seen_l));
                    proof {
                        assert forall|b: usize, a: CaptureAccess| #[trigger] seen_with(seen_b, binding, access)(b, a) == module.own_prefix(fi, ki + 1)(b, a) by {
                            if module.own_prefix(fi, ki + 1)(b, a) {
                                let j = choose|j: int|
                                    #![trigger module.visits(fi)[j]]
                                    0 <= j < ki + 1 && j < module.visits(fi).len() && module.visits(fi)[j] == (b, a)
                                        && module.binding_functions@[b as int] != fi;
                                if j < ki {
                                    assert(seen_b(b, a));
                                }
                            }
                        }
                        lemma_summarizes_same(captured_bindings@[fi]@, seen_with(seen_b, binding, access), module.own_prefix(fi, ki + 1));
                        let g0 = declaring as int;
                        assert forall|b: usize, a: CaptureAccess| #[trigger] seen_with(seen_l, binding, access)(b, a) == module.locals_prefix(g0, fi, ki + 1)(b, a) by {
                            if module.locals_prefix(g0, fi, ki + 1)(b, a) {
                                let (h, j) = choose|h: int, j: int|
                                    #![trigger module.visits(h)[j]]
                                    (0 <= h < fi || (h == fi && j < ki + 1)) && h != g0 && 0 <= j < module.visits(h).len()
                                        && module.visits(h)[j] == (b, a) && module.binding_functions@[b as int] == g0;
                                if !(h == fi && j == ki) {
                                    assert(seen_l(b, a));
                                }
                            }
                            if seen_with(seen_l, binding, access)(b, a) && !seen_l(b, a) {
                                assert(module.visits(fi)[ki] == (b, a));
                            }
                        }
                        lemma_summarizes_same(captured_locals@[g0]@, seen_with(seen_l, binding, access), module.locals_prefix(g0, fi, ki + 1));
                        assert forall|g: int| #![trigger captured_locals@[g]] 0 <= g < n && g != g0 implies summarizes(
                            captured_locals@[g]@,
                            module.locals_prefix(g, fi, ki + 1),
                        ) by {
                            assert forall|b: usize, a: CaptureAccess| #[trigger] module.locals_prefix(g, fi, ki)(b, a) == module.locals_prefix(g, fi, ki + 1)(b, a) by {
                                if module.locals_prefix(g, fi, ki + 1)(b, a) {
                                    let (h, j) = choose|h: int, j: int|
                                        #![trigger module.visits(h)[j]]
                                        (0 <= h < fi || (h == fi && j < ki + 1)) && h != g && 0 <= j < module.visits(h).len()
                                            && module.visits(h)[j] == (b, a) && module.binding_functions@[b as int] == g;
                                    if h == fi && j == ki {
                                        assert(module.binding_functions@[binding as int] == g0);
                                    }
                                }
                            }
                            lemma_summarizes_same(captured_locals@[g]@, module.locals_prefix(g, fi, ki), module.locals_prefix(g, fi, ki + 1));
                        }
                    }
                } else {
                    proof {
                        assert forall|b: usize, a: CaptureAccess| #[trigger] module.own_prefix(fi, ki)(b, a) == module.own_prefix(fi, ki + 1)(b, a) by {
                            if module.own_prefix(fi, ki + 1)(b, a) {
                                let j = choose|j: int|
                                    #![trigger module.visits(fi)[j]]
                                    0 <= j < ki + 1 && j < module.visits(fi).len() && module.visits(fi)[j] == (b, a)
                                        && module.binding_functions@[b as int] != fi;
                                if j == ki {
                                    assert(b == binding);
                                }
                            }
                        }
                        lemma_summarizes_same(captured_bindings@[fi]@, module.own_prefix(fi, ki), module.own_prefix(fi, ki + 1));
                        assert forall|g: int| #![trigger captured_locals@[g]] 0 <= g < n implies summarizes(
                            captured_locals@[g]@,
                            module.locals_prefix(g, fi, ki + 1),
                        ) by {
                            assert forall|b: usize, a: CaptureAccess| #[trigger] module.locals_prefix(g, fi, ki)(b, a) == module.locals_prefix(g, fi, ki + 1)(b, a) by {
                                if module.locals_prefix(g, fi, ki + 1)(b, a) {
                                    let (h, j) = choose|h: int, j: int|
                                        #![trigger module.visits(h)[j]]
                                        (0 <= h < fi || (h == fi && j < ki + 1)) && h != g && 0 <= j < module.visits(h).len()
                                            && module.visits(h)[j] == (b, a) && module.binding_functions@[b as int] == g;
                                    if h == fi && j == ki {
                                        assert(module.binding_functions@[binding as int] == fi);
                                    }
                                }
                            }
                            lemma_summarizes_same(captured_locals@[g]@, module.locals_prefix(g, fi, ki), module.locals_prefix(g, fi, ki + 1));
                        }
                    }
                }
                k = k + 1;
            }
            proof {
                let fi = f as int;
                let len = module.visits(fi).len() as int;
                assert forall|b: usize, a: CaptureAccess| #[trigger] module.own_prefix(fi, len)(b, a) == module.captured_by(fi)(b, a) by {
                    if module.captured_by(fi)(b, a) {
                        let j = choose|j: int|
                            #![trigger module.visits(fi)[j]]
                            0 <= j < module.visits(fi).len() && module.visits(fi)[j] == (b, a)
                                && module.binding_functions@[b as int] != fi;
                    }
                }
                lemma_summarizes_same(captured_bindings@[fi]@, module.own_prefix(fi, len), module.captured_by(fi));
                assert forall|g: int| #![trigger captured_locals@[g]] 0 <= g < n implies summarizes(
                    captured_locals@[g]@,
                    module.locals_prefix(g, fi + 1, 0),
                ) by {
                    assert forall|b: usize, a: CaptureAccess| #[trigger] module.locals_prefix(g, fi, len)(b, a) == module.locals_prefix(g, fi + 1, 0)(b, a) by {
                        if module.locals_prefix(g, fi + 1, 0)(b, a) {
                            let (h, j) = choose|h: int, j: int|
                                #![trigger module.visits(h)[j]]
                                (0 <= h < fi + 1 || (h == fi + 1 && j < 0)) && h != g && 0 <= j < module.visits(h).len()
                                    && module.visits(h)[j] == (b, a) && module.binding_functions@[b as int] == g;
                        }
                    }
                    lemma_summarizes_same(captured_locals@[g]@, module.locals_prefix(g, fi, len), module.locals_prefix(g, fi + 1, 0));
                }
            }
            f = f + 1;
        }
        proof {
            assert forall|g: int| #![trigger captured_locals@[g]] 0 <= g < n implies summarizes(
                captured_locals@[g]@,
                module.locals_captured(g),
            ) by {
                assert forall|b: usize, a: CaptureAccess| #[trigger] module.locals_prefix(g, n as int, 0)(b, a) == module.locals_captured(g)(b, a) by {
                    if module.locals_captured(g)(b, a) {
                        let (h, j) = choose|h: int, j: int|
                            #![trigger module.visits(h)[j]]
                            0 <= h < module.operations@.len() && h != g && 0 <= j < module.visits(h).len()
                                && module.visits(h)[j] == (b, a) && module.binding_functions@[b as int] == g;
                    }
                }
                lemma_summarizes_same(captured_locals@[g]@, module.locals_prefix(g, n as int, 0), module.locals_captured(g));
            }
        }
        FunctionCaptureAnalysis { captured_bindings, captured_locals }
    }

    /// The bindings that `function` captures directly, in binding order.
    pub fn captured_bindings(&self, function: usize) -> (captures: Option<&[BindingCapture]>)
        ensures
            match captures {
                Some(c) => function < self.spec_function_count() && c@ == self.spec_captured_bindings(function as int),
                None => function >= self.spec_function_count(),
            },
    {
        if function < self.captured_bindings.len() {
            Some(self.captured_bindings[function].as_slice())
        } else {
            None
        }
    }

    /// The locals of `function` that other functions capture, with access
    /// aggregated over every capturing function.
    pub fn captured_locals(&self, function: usize) -> (captures: Option<&[BindingCapture]>)
        ensures
            match captures {
                Some(c) => function < self.spec_function_count() && c@ == self.spec_captured_locals(function as int),
                None => function >= self.spec_function_count(),
            },
    {
        proof {
            use_type_invariant(self);
        }
        if function < self.captured_locals.len() {
            Some(self.captured_locals[function].as_slice())
        } else {
            None
        }
    }
}

} // verus!
