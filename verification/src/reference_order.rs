//! The stable order of function references: by target, then by the kind of
//! site, its operation, operand index and binding, where an absent operation
//! or binding comes first.

use vstd::prelude::*;

use crate::program_call_graph::FunctionReference;
use crate::program_call_graph::FunctionReferenceSite;

verus! {

/// The sort key of a reference, one integer per component: the target's
/// module and function, the site kind, whether an operation is present and
/// its function and index, the operand index, and whether a binding is
/// present and its module and index.
pub open spec fn reference_key(r: FunctionReference) -> Seq<int> {
    let t = seq![r.target.module as int, r.target.function as int];
    let rest = match r.site {
        FunctionReferenceSite::ProgramEntry => seq![0int, 0, 0, 0, 0, 0, 0, 0, 0],
        FunctionReferenceSite::Allocation { operation } => seq![
            1int,
            1,
            operation.function.module as int,
            operation.function.function as int,
            operation.operation as int,
            0,
            0,
            0,
            0,
        ],
        FunctionReferenceSite::Embedded { operation } => seq![
            2int,
            1,
            operation.function.module as int,
            operation.function.function as int,
            operation.operation as int,
            0,
            0,
            0,
            0,
        ],
        FunctionReferenceSite::ValueUse { operation, operand_index } => seq![
            3int,
            1,
            operation.function.module as int,
            operation.function.function as int,
            operation.operation as int,
            operand_index as int,
            0,
            0,
            0,
        ],
        FunctionReferenceSite::Export { binding } => seq![
            4int,
            0,
            0,
            0,
            0,
            0,
            1,
            binding.module as int,
            binding.binding as int,
        ],
        FunctionReferenceSite::DirectEval { operation, binding } => seq![
            5int,
            1,
            operation.function.module as int,
            operation.function.function as int,
            operation.operation as int,
            0,
            1,
            binding.module as int,
            binding.binding as int,
        ],
    };
    t + rest
}

/// Key `a` comes before key `b` lexicographically from position `i` on.
pub open spec fn key_lt_from(a: Seq<int>, b: Seq<int>, i: int) -> bool
    decreases a.len() - i,
{
    if i < 0 || i >= a.len() || i >= b.len() {
        false
    } else if a[i] < b[i] {
        true
    } else if a[i] == b[i] {
        key_lt_from(a, b, i + 1)
    } else {
        false
    }
}

/// Reference `a` comes before reference `b` in the stable order.
pub open spec fn reference_lt(a: FunctionReference, b: FunctionReference) -> bool {
    key_lt_from(reference_key(a), reference_key(b), 0)
}

/// The references of `refs` come in strictly increasing stable order.
pub open spec fn references_sorted(refs: Seq<FunctionReference>) -> bool {
    forall|i: int, j: int| 0 <= i < j < refs.len() ==> #[trigger] reference_lt(refs[i], refs[j])
}

/// The lexicographic order is a strict total order on keys of one length.
proof fn lemma_key_order(a: Seq<int>, b: Seq<int>, c: Seq<int>, i: int)
    requires
        a.len() == b.len(),
        b.len() == c.len(),
        0 <= i,
    ensures
        !key_lt_from(a, a, i),
        key_lt_from(a, b, i) && key_lt_from(b, c, i) ==> key_lt_from(a, c, i),
        (exists|k: int| i <= k < a.len() && a[k] != b[k]) ==> key_lt_from(a, b, i) || key_lt_from(b, a, i),
    decreases a.len() - i,
{
    if i < a.len() {
        lemma_key_order(a, b, c, i + 1);
        if exists|k: int| i <= k < a.len() && a[k] != b[k] {
            let k = choose|k: int| i <= k < a.len() && a[k] != b[k];
            if a[i] == b[i] {
                assert(k != i);
                assert(exists|k2: int| i + 1 <= k2 < a.len() && a[k2] != b[k2]);
            }
        }
    }
}

/// Two references with one key are one reference.
proof fn lemma_key_injective(a: FunctionReference, b: FunctionReference)
    requires
        reference_key(a) == reference_key(b),
    ensures
        a == b,
{
    let ka = reference_key(a);
    let kb = reference_key(b);
    assert(ka[0] == kb[0] && ka[1] == kb[1] && ka[2] == kb[2] && ka[3] == kb[3] && ka[4] == kb[4] && ka[5] == kb[5]);
    assert(ka[6] == kb[6] && ka[7] == kb[7] && ka[8] == kb[8] && ka[9] == kb[9] && ka[10] == kb[10]);
}

/// The stable order of references is a strict total order.
pub proof fn lemma_reference_order(a: FunctionReference, b: FunctionReference, c: FunctionReference)
    ensures
        !reference_lt(a, a),
        reference_lt(a, b) && reference_lt(b, c) ==> reference_lt(a, c),
        a != b ==> reference_lt(a, b) || reference_lt(b, a),
{
    let ka = reference_key(a);
    let kb = reference_key(b);
    let kc = reference_key(c);
    assert(ka.len() == 11 && kb.len() == 11 && kc.len() == 11);
    lemma_key_order(ka, kb, kc, 0);
    if a != b {
        if ka =~= kb {
            lemma_key_injective(a, b);
        }
        assert(exists|k: int| 0 <= k < ka.len() && ka[k] != kb[k]);
    }
}

/// The sort key of `r`.
fn key_of(r: &FunctionReference) -> (key: Vec<u64>)
    ensures
        key@.len() == reference_key(*r).len(),
        forall|i: int| 0 <= i < key@.len() ==> key@[i] as int == #[trigger] reference_key(*r)[i],
{
    let (kind, op, operand, binding): (u64, Option<crate::program::ProgramOperationId>, u64, Option<crate::program::ProgramBindingId>) = match r.site {
        FunctionReferenceSite::ProgramEntry => (0, None, 0, None),
        FunctionReferenceSite::Allocation { operation } => (1, Some(operation), 0, None),
        FunctionReferenceSite::Embedded { operation } => (2, Some(operation), 0, None),
        FunctionReferenceSite::ValueUse { operation, operand_index } => (3, Some(operation), operand_index as u64, None),
        FunctionReferenceSite::Export { binding } => (4, None, 0, Some(binding)),
        FunctionReferenceSite::DirectEval { operation, binding } => (5, Some(operation), 0, Some(binding)),
    };
    let mut key: Vec<u64> = Vec::new();
    key.push(r.target.module as u64);
    key.push(r.target.function as u64);
    key.push(kind);
    match op {
        Some(o) => {
            key.push(1);
            key.push(o.function.module as u64);
            key.push(o.function.function as u64);
            key.push(o.operation as u64);
        },
        None => {
            key.push(0);
            key.push(0);
            key.push(0);
            key.push(0);
        },
    }
    key.push(operand);
    match binding {
        Some(b) => {
            key.push(1);
            key.push(b.module as u64);
            key.push(b.binding as u64);
        },
        None => {
            key.push(0);
            key.push(0);
            key.push(0);
        },
    }
    key
}

/// Whether `a` comes before `b` in the stable order.
pub fn reference_before(a: &FunctionReference, b: &FunctionReference) -> (r: bool)
    ensures
        r == reference_lt(*a, *b),
{
    let ka = key_of(a);
    let kb = key_of(b);
    let ghost sa = reference_key(*a);
    let ghost sb = reference_key(*b);
    assert(sa.len() == 11 && sb.len() == 11);
    let mut i: usize = 0;
    while i < ka.len()
        invariant
            ka@.len() == 11,
            kb@.len() == 11,
            sa == reference_key(*a),
            sb == reference_key(*b),
            sa.len() == 11,
            sb.len() == 11,
            forall|k: int| 0 <= k < 11 ==> ka@[k] as int == #[trigger] sa[k],
            forall|k: int| 0 <= k < 11 ==> kb@[k] as int == #[trigger] sb[k],
            i <= 11,
            key_lt_from(sa, sb, 0) == key_lt_from(sa, sb, i as int),
        decreases 11 - i,
    {
        assert(ka@[i as int] as int == sa[i as int] && kb@[i as int] as int == sb[i as int]);
        if ka[i] < kb[i] {
            return true;
        }
        if ka[i] > kb[i] {
            return false;
        }
        i = i + 1;
    }
    false
}

/// The references of `refs`, which has no duplicates, in stable order.
pub fn sort_references(refs: Vec<FunctionReference>) -> (sorted: Vec<FunctionReference>)
    requires
        refs@.no_duplicates(),
    ensures
        references_sorted(sorted@),
        sorted@.no_duplicates(),
        forall|r: FunctionReference| #[trigger] sorted@.contains(r) <==> refs@.contains(r),
{
    let mut sorted: Vec<FunctionReference> = Vec::new();
    let mut i: usize = 0;
    while i < refs.len()
        invariant
            refs@.no_duplicates(),
            i <= refs@.len(),
            references_sorted(sorted@),
            forall|r: FunctionReference| #[trigger] sorted@.contains(r) <==> refs@.take(i as int).contains(r),
        decreases refs@.len() - i,
    {
        let x = refs[i];
        proof {
            if sorted@.contains(x) {
                let k = choose|k: int| 0 <= k < i && #[trigger] refs@.take(i as int)[k] == x;
                assert(refs@[k] == refs@[i as int]);
            }
        }
        let mut p: usize = 0;
        while p < sorted.len() && reference_before(&sorted[p], &x)
            invariant
                p <= sorted@.len(),
                forall|k: int| 0 <= k < p ==> reference_lt(#[trigger] sorted@[k], x),
            decreases sorted@.len() - p,
        {
            p = p + 1;
        }
        let ghost before = sorted@;
        proof {
            if p < before.len() {
                lemma_reference_order(before[p as int], x, x);
                assert(before[p as int] != x);
            }
            assert forall|k: int| p <= k < before.len() implies reference_lt(x, #[trigger] before[k]) by {
                lemma_reference_order(x, before[p as int], before[k]);
                lemma_reference_order(before[p as int], x, x);
                if k > p {
                    assert(reference_lt(before[p as int], before[k]));
                }
            }
        }
        sorted.insert(p, x);
        proof {
            assert(sorted@ == before.insert(p as int, x));
            assert forall|a: int, b: int| 0 <= a < b < sorted@.len() implies #[trigger] reference_lt(sorted@[a], sorted@[b]) by {
                if b < p {
                    assert(sorted@[a] == before[a] && sorted@[b] == before[b]);
                } else if b == p {
                    assert(sorted@[a] == before[a]);
                } else if a == p {
                    assert(sorted@[b] == before[b - 1]);
                } else if a < p {
                    assert(sorted@[a] == before[a] && sorted@[b] == before[b - 1]);
                } else {
                    assert(sorted@[a] == before[a - 1] && sorted@[b] == before[b - 1]);
                }
            }
            assert(refs@.take(i + 1) =~= refs@.take(i as int).push(x));
            assert forall|r: FunctionReference| #[trigger] sorted@.contains(r) <==> refs@.take(i + 1).contains(r) by {
                if sorted@.contains(r) {
                    let k = choose|k: int| 0 <= k < sorted@.len() && sorted@[k] == r;
                    if k < p {
                        assert(before[k] == r);
                        assert(before.contains(r));
                    } else if k > p {
                        assert(before[k - 1] == r);
                        assert(before.contains(r));
                    }
                    if r != x {
                        let q = choose|q: int| 0 <= q < i && #[trigger] refs@.take(i as int)[q] == r;
                        assert(refs@.take(i + 1)[q] == r);
                    } else {
                        assert(refs@.take(i + 1)[i as int] == r);
                    }
                }
                if refs@.take(i + 1).contains(r) {
                    let q = choose|q: int| 0 <= q < i + 1 && #[trigger] refs@.take(i + 1)[q] == r;
                    if q < i {
                        assert(refs@.take(i as int)[q] == r);
                        assert(before.contains(r));
                        let k = choose|k: int| 0 <= k < before.len() && before[k] == r;
                        if k < p {
                            assert(sorted@[k] == r);
                        } else {
                            assert(sorted@[k + 1] == r);
                        }
                    } else {
                        assert(sorted@[p as int] == r);
                    }
                }
            }
        }
        i = i + 1;
    }
    proof {
        assert(refs@.take(i as int) =~= refs@);
        assert forall|a: int, b: int| 0 <= a < sorted@.len() && 0 <= b < sorted@.len() && a != b implies sorted@[a] != sorted@[b] by {
            if a < b {
                assert(reference_lt(sorted@[a], sorted@[b]));
            } else {
                assert(reference_lt(sorted@[b], sorted@[a]));
            }
            lemma_reference_order(sorted@[a], sorted@[a], sorted@[a]);
        }
    }
    sorted
}

} // verus!
