//! Facts about a function's operations that the escape and points-to
//! analyses both build on: the role of each inline region, the bindings that
//! a created function captures, and calls that may be direct `eval`.

use vstd::prelude::*;

use crate::capture::ancestor_at;
use crate::capture::is_ancestor;
use crate::capture::lemma_ancestor_end;
use crate::ir::ArrayLiteralElement;
use crate::ir::ClassElement;
use crate::ir::FunctionIr;
use crate::ir::ModuleIr;
use crate::ir::ObjectLiteralEntry;
use crate::ir::Operation;
use crate::ir::OperationKind;

verus! {

/// What becomes of the values an inline region yields.
#[derive(Debug, Clone, Copy, PartialEq, Eq, Structural)]
pub enum RegionRole {
    /// They are stored in the container value.
    ContainedBy(usize),
    /// They reach code the analysis does not follow.
    Escapes,
    /// They are only compared.
    ObservedOnly,
}

/// The claims of the first `i` items, each item claiming the regions `claim` gives.
pub open spec fn claims_of<T>(items: Seq<T>, claim: spec_fn(T) -> Seq<(usize, RegionRole)>, i: int) -> Seq<(usize, RegionRole)>
    decreases i,
{
    if i <= 0 {
        Seq::empty()
    } else {
        claims_of(items, claim, i - 1) + claim(items[i - 1])
    }
}

/// The region an array element names, with its role.
pub open spec fn element_claim(element: ArrayLiteralElement, container: usize) -> Seq<(usize, RegionRole)> {
    match element {
        ArrayLiteralElement::Value(r) => seq![(r, RegionRole::ContainedBy(container))],
        ArrayLiteralElement::Spread(r) => seq![(r, RegionRole::Escapes)],
        ArrayLiteralElement::Elision => Seq::empty(),
    }
}

/// The regions an object entry names, with their roles, computed key first.
pub open spec fn entry_claim(entry: ObjectLiteralEntry, container: usize) -> Seq<(usize, RegionRole)> {
    match entry {
        ObjectLiteralEntry::Property { computed_key, value } => match computed_key {
            Some(k) => seq![(k, RegionRole::Escapes), (value, RegionRole::ContainedBy(container))],
            None => seq![(value, RegionRole::ContainedBy(container))],
        },
        ObjectLiteralEntry::Prototype(r) => seq![(r, RegionRole::ContainedBy(container))],
        ObjectLiteralEntry::Method { computed_key } => match computed_key {
            Some(k) => seq![(k, RegionRole::Escapes)],
            None => Seq::empty(),
        },
        ObjectLiteralEntry::Spread(r) => seq![(r, RegionRole::Escapes)],
    }
}

/// The test region of a switch case, only observed.
pub open spec fn case_claim(test: Option<usize>) -> Seq<(usize, RegionRole)> {
    match test {
        Some(r) => seq![(r, RegionRole::ObservedOnly)],
        None => Seq::empty(),
    }
}

/// An owned region whose values escape.
pub open spec fn escaping_claim(region: usize) -> Seq<(usize, RegionRole)> {
    seq![(region, RegionRole::Escapes)]
}

/// Whether the roles of the regions of `op` follow its kind; with
/// `look_through_invoke` false, an invoked operation's regions all escape.
pub open spec fn reads_kind(op: Operation, look_through_invoke: bool) -> bool {
    look_through_invoke || !op.invoked
}

/// Whether `op` stores region values in its first result.
pub open spec fn is_region_container(op: Operation, look_through_invoke: bool) -> bool {
    reads_kind(op, look_through_invoke) && (op.kind is ArrayLiteral || op.kind is ObjectLiteral)
}

/// The regions `op` names, with their roles, in order.
pub open spec fn op_claims(op: Operation, look_through_invoke: bool) -> Seq<(usize, RegionRole)> {
    if !reads_kind(op, look_through_invoke) {
        claims_of(op.regions@, |r: usize| escaping_claim(r), op.regions@.len() as int)
    } else {
        match op.kind {
            OperationKind::ArrayLiteral(elements) => claims_of(
                elements@,
                |e: ArrayLiteralElement| element_claim(e, op.results@[0]),
                elements@.len() as int,
            ),
            OperationKind::ObjectLiteral(entries) => claims_of(
                entries@,
                |e: ObjectLiteralEntry| entry_claim(e, op.results@[0]),
                entries@.len() as int,
            ),
            OperationKind::Switch { case_tests } => claims_of(
                case_tests@,
                |t: Option<usize>| case_claim(t),
                case_tests@.len() as int,
            ),
            _ => claims_of(op.regions@, |r: usize| escaping_claim(r), op.regions@.len() as int),
        }
    }
}

/// The region claims of all operations of a function, in order.
pub open spec fn function_claims(ops: Seq<Operation>, look_through_invoke: bool) -> Seq<(usize, RegionRole)> {
    claims_of(ops, |op: Operation| op_claims(op, look_through_invoke), ops.len() as int)
}

/// No region is claimed twice.
pub open spec fn distinct_regions(claims: Seq<(usize, RegionRole)>) -> bool {
    forall|i: int, j: int|
        #![trigger claims[i], claims[j]]
        0 <= i < j < claims.len() ==> claims[i].0 != claims[j].0
}

/// The role the claims give region `x`: that of its last claim.
pub open spec fn role_in(claims: Seq<(usize, RegionRole)>, x: int) -> Option<RegionRole>
    decreases claims.len(),
{
    if claims.len() == 0 {
        None
    } else if claims.last().0 as int == x {
        Some(claims.last().1)
    } else {
        role_in(claims.drop_last(), x)
    }
}

/// `roles` holds the role the claims give each region.
pub open spec fn roles_match(roles: Seq<Option<RegionRole>>, claims: Seq<(usize, RegionRole)>) -> bool {
    forall|x: int| #![trigger roles[x]] 0 <= x < roles.len() ==> roles[x] == role_in(claims, x)
}

proof fn lemma_claim(roles: Seq<Option<RegionRole>>, claims: Seq<(usize, RegionRole)>, c: (usize, RegionRole))
    requires
        roles_match(roles, claims),
        c.0 < roles.len(),
    ensures
        roles_match(roles.update(c.0 as int, Some(c.1)), claims.push(c)),
{
    let s = claims.push(c);
    assert(s.drop_last() =~= claims);
    assert(s.last() == c);
}

proof fn lemma_claims_step<T>(prefix: Seq<(usize, RegionRole)>, items: Seq<T>, claim: spec_fn(T) -> Seq<(usize, RegionRole)>, i: int)
    requires
        0 <= i,
    ensures
        prefix + claims_of(items, claim, i + 1) == (prefix + claims_of(items, claim, i)) + claim(items[i]),
{
    assert(claims_of(items, claim, i + 1) == claims_of(items, claim, i) + claim(items[i]));
    assert(prefix + (claims_of(items, claim, i) + claim(items[i])) =~= (prefix + claims_of(items, claim, i)) + claim(items[i]));
}

/// Sets the role of region `r`.
fn set_role(roles: &mut Vec<Option<RegionRole>>, r: usize, role: RegionRole, Ghost(claims): Ghost<Seq<(usize, RegionRole)>>)
    requires
        roles_match(old(roles)@, claims),
        r < old(roles)@.len(),
    ensures
        final(roles)@.len() == old(roles)@.len(),
        roles_match(final(roles)@, claims.push((r, role))),
{
    proof {
        lemma_claim(roles@, claims, (r, role));
    }
    roles.set(r, Some(role));
}

/// Whether every region claim of `ops` names a region below `n`, and each
/// container operation has a result.
pub open spec fn claims_ready(ops: Seq<Operation>, n: int, look_through_invoke: bool) -> bool {
    &&& forall|j: int|
        #![trigger ops[j]]
        0 <= j < ops.len() ==> {
            &&& crate::ir::all_below(ops[j].regions@, n)
            &&& crate::ir::kind_regions_below(ops[j].kind, n)
            &&& is_region_container(ops[j], look_through_invoke) ==> ops[j].results@.len() > 0
        }
}

/// The role of each region of `function`, as its operations claim them; no
/// region may be claimed twice.
pub fn region_roles(function: &FunctionIr, look_through_invoke: bool) -> (roles: Vec<Option<RegionRole>>)
    requires
        claims_ready(function.operations@, function.regions@.len() as int, look_through_invoke),
        distinct_regions(function_claims(function.operations@, look_through_invoke)),
    ensures
        roles@.len() == function.regions@.len(),
        roles_match(roles@, function_claims(function.operations@, look_through_invoke)),
{
    let ghost ops = function.operations@;
    let ghost n = function.regions@.len() as int;
    let ghost g = |op: Operation| op_claims(op, look_through_invoke);
    let mut roles: Vec<Option<RegionRole>> = Vec::new();
    let mut x: usize = 0;
    while x < function.regions.len()
        invariant
            x <= n,
            n == function.regions@.len(),
            roles@.len() == x,
            forall|y: int| #![trigger roles@[y]] 0 <= y < x ==> roles@[y] is None,
        decreases n - x,
    {
        roles.push(None);
        x = x + 1;
    }
    assert(roles_match(roles@, claims_of(ops, g, 0)));
    let mut j: usize = 0;
    while j < function.operations.len()
        invariant
            ops == function.operations@,
            n == function.regions@.len(),
            claims_ready(ops, n, look_through_invoke),
            g == (|op: Operation| op_claims(op, look_through_invoke)),
            j <= ops.len(),
            roles@.len() == n,
            roles_match(roles@, claims_of(ops, g, j as int)),
        decreases ops.len() - j,
    {
        let op = &function.operations[j];
        let ghost prefix = claims_of(ops, g, j as int);
        assert(ops[j as int] == *op);
        let mut handled = false;
        if look_through_invoke || !op.invoked {
            match &op.kind {
                OperationKind::ArrayLiteral(elements) => {
                    let container = op.results[0];
                    let ghost f = |e: ArrayLiteralElement| element_claim(e, op.results@[0]);
                    let mut i: usize = 0;
                    while i < elements.len()
                        invariant
                            0 <= i <= elements@.len(),
                            roles@.len() == n,
                            container == op.results@[0],
                            f == (|e: ArrayLiteralElement| element_claim(e, op.results@[0])),
                            crate::ir::kind_regions_below(op.kind, n),
                            op.kind == OperationKind::ArrayLiteral(*elements),
                            roles_match(roles@, prefix + claims_of(elements@, f, i as int)),
                        decreases elements@.len() - i,
                    {
                        proof {
                            lemma_claims_step(prefix, elements@, f, i as int);
                        }
                        let ghost before = prefix + claims_of(elements@, f, i as int);
                        assert(elements@[i as int] == elements[i as int]);
                        match elements[i] {
                            ArrayLiteralElement::Value(r) => {
                                set_role(&mut roles, r, RegionRole::ContainedBy(container), Ghost(before));
                                assert(before.push((r, RegionRole::ContainedBy(container))) =~= before + f(elements@[i as int]));
                            },
                            ArrayLiteralElement::Spread(r) => {
                                set_role(&mut roles, r, RegionRole::Escapes, Ghost(before));
                                assert(before.push((r, RegionRole::Escapes)) =~= before + f(elements@[i as int]));
                            },
                            ArrayLiteralElement::Elision => {
                                assert(before =~= before + f(elements@[i as int]));
                            },
                        }
                        i = i + 1;
                    }
                    proof {
                        assert(op_claims(*op, look_through_invoke) == claims_of(elements@, f, elements@.len() as int));
                    }
                    handled = true;
                },
                OperationKind::ObjectLiteral(entries) => {
                    let container = op.results[0];
                    let ghost f = |e: ObjectLiteralEntry| entry_claim(e, op.results@[0]);
                    let mut i: usize = 0;
                    while i < entries.len()
                        invariant
                            0 <= i <= entries@.len(),
                            roles@.len() == n,
                            container == op.results@[0],
                            f == (|e: ObjectLiteralEntry| entry_claim(e, op.results@[0])),
                            crate::ir::kind_regions_below(op.kind, n),
                            op.kind == OperationKind::ObjectLiteral(*entries),
                            roles_match(roles@, prefix + claims_of(entries@, f, i as int)),
                        decreases entries@.len() - i,
                    {
                        proof {
                            lemma_claims_step(prefix, entries@, f, i as int);
                        }
                        let ghost before = prefix + claims_of(entries@, f, i as int);
                        assert(entries@[i as int] == entries[i as int]);
                        match entries[i] {
                            ObjectLiteralEntry::Property { computed_key, value } => {
                                match computed_key {
                                    Some(k) => {
                                        set_role(&mut roles, k, RegionRole::Escapes, Ghost(before));
                                        set_role(&mut roles, value, RegionRole::ContainedBy(container), Ghost(before.push((k, RegionRole::Escapes))));
                                        assert(before.push((k, RegionRole::Escapes)).push((value, RegionRole::ContainedBy(container))) =~= before + f(entries@[i as int]));
                                    },
                                    None => {
                                        set_role(&mut roles, value, RegionRole::ContainedBy(container), Ghost(before));
                                        assert(before.push((value, RegionRole::ContainedBy(container))) =~= before + f(entries@[i as int]));
                                    },
                                }
                            },
                            ObjectLiteralEntry::Prototype(r) => {
                                set_role(&mut roles, r, RegionRole::ContainedBy(container), Ghost(before));
                                assert(before.push((r, RegionRole::ContainedBy(container))) =~= before + f(entries@[i as int]));
                            },
                            ObjectLiteralEntry::Method { computed_key } => {
                                match computed_key {
                                    Some(k) => {
                                        set_role(&mut roles, k, RegionRole::Escapes, Ghost(before));
                                        assert(before.push((k, RegionRole::Escapes)) =~= before + f(entries@[i as int]));
                                    },
                                    None => {
                                        assert(before =~= before + f(entries@[i as int]));
                                    },
                                }
                            },
                            ObjectLiteralEntry::Spread(r) => {
                                set_role(&mut roles, r, RegionRole::Escapes, Ghost(before));
                                assert(before.push((r, RegionRole::Escapes)) =~= before + f(entries@[i as int]));
                            },
                        }
                        i = i + 1;
                    }
                    proof {
                        assert(op_claims(*op, look_through_invoke) == claims_of(entries@, f, entries@.len() as int));
                    }
                    handled = true;
                },
                OperationKind::Switch { case_tests } => {
                    let ghost f = |t: Option<usize>| case_claim(t);
                    let mut i: usize = 0;
                    while i < case_tests.len()
                        invariant
                            0 <= i <= case_tests@.len(),
                            roles@.len() == n,
                            f == (|t: Option<usize>| case_claim(t)),
                            crate::ir::kind_regions_below(op.kind, n),
                            op.kind == (OperationKind::Switch { case_tests: *case_tests }),
                            roles_match(roles@, prefix + claims_of(case_tests@, f, i as int)),
                        decreases case_tests@.len() - i,
                    {
                        proof {
                            lemma_claims_step(prefix, case_tests@, f, i as int);
                        }
                        let ghost before = prefix + claims_of(case_tests@, f, i as int);
                        assert(case_tests@[i as int] == case_tests[i as int]);
                        match case_tests[i] {
                            Some(r) => {
                                set_role(&mut roles, r, RegionRole::ObservedOnly, Ghost(before));
                                assert(before.push((r, RegionRole::ObservedOnly)) =~= before + f(case_tests@[i as int]));
                            },
                            None => {
                                assert(before =~= before + f(case_tests@[i as int]));
                            },
                        }
                        i = i + 1;
                    }
                    proof {
                        assert(op_claims(*op, look_through_invoke) == claims_of(case_tests@, f, case_tests@.len() as int));
                    }
                    handled = true;
                },
                _ => {},
            }
        }
        if !handled {
            let ghost f = |r: usize| escaping_claim(r);
            let mut i: usize = 0;
            while i < op.regions.len()
                invariant
                    0 <= i <= op.regions@.len(),
                    roles@.len() == n,
                    f == (|r: usize| escaping_claim(r)),
                    crate::ir::all_below(op.regions@, n),
                    roles_match(roles@, prefix + claims_of(op.regions@, f, i as int)),
                decreases op.regions@.len() - i,
            {
                proof {
                    lemma_claims_step(prefix, op.regions@, f, i as int);
                }
                let ghost before = prefix + claims_of(op.regions@, f, i as int);
                let r = op.regions[i];
                set_role(&mut roles, r, RegionRole::Escapes, Ghost(before));
                assert(before.push((r, RegionRole::Escapes)) =~= before + f(op.regions@[i as int]));
                i = i + 1;
            }
        }
        proof {
            assert(claims_of(ops, g, j as int + 1) == prefix + g(ops[j as int]));
        }
        j = j + 1;
    }
    roles
}

/// Whether function `f` is `root` or lies lexically inside it.
pub open spec fn is_descendant(module: ModuleIr, f: int, root: int) -> bool {
    f == root || is_ancestor(module.parents(), root, f)
}

/// Whether some operation of `function` references binding `b`.
pub open spec fn references_binding(function: FunctionIr, b: int) -> bool {
    exists|j: int, k: int|
        #![trigger function.operations@[j].referenced_bindings@[k]]
        0 <= j < function.operations@.len() && 0 <= k < function.operations@[j].referenced_bindings@.len()
            && function.operations@[j].referenced_bindings@[k] as int == b
}

/// Whether binding `b`, declared by function `owner`, is referenced from
/// function `root` or a function inside it.
pub open spec fn captured_through(module: ModuleIr, owner: int, root: int, b: int) -> bool {
    &&& 0 <= b < module.bindings@.len()
    &&& module.bindings@[b].declaring_function as int == owner
    &&& exists|f: int|
        #![trigger module.functions@[f]]
        0 <= f < module.functions@.len() && is_descendant(module, f, root) && references_binding(module.functions@[f], b)
}

/// Whether `function` is `root` or lies lexically inside it.
pub fn is_descendant_of(module: &ModuleIr, function: usize, root: usize) -> (r: bool)
    requires
        module.wf(),
        function < module.functions@.len(),
    ensures
        r == is_descendant(*module, function as int, root as int),
{
    if function == root {
        return true;
    }
    let ghost n = module.functions@.len();
    let ghost parents = module.parents();
    let mut current = module.functions[function].parent;
    let ghost mut k: nat = 1;
    proof {
        assert(ancestor_at(parents, function as int, 0) == Some(function as int));
        assert(parents[function as int] == module.functions@[function as int].parent);
        assert(module.functions@[function as int].wf(n as int, module.bindings@.len() as int));
    }
    while current.is_some()
        invariant
            module.wf(),
            n == module.functions@.len(),
            parents == module.parents(),
            function < n,
            function != root,
            k >= 1,
            ancestor_at(parents, function as int, k) == (match current {
                Some(p) => Some(p as int),
                None => None::<int>,
            }),
            current matches Some(p) ==> p < n,
            forall|j: nat| 1 <= j < k ==> #[trigger] ancestor_at(parents, function as int, j) != Some(root as int),
        decreases n - k,
    {
        let parent = current.unwrap();
        if parent == root {
            return true;
        }
        proof {
            if k >= n {
                lemma_ancestor_end(parents, function as int, n as nat, k);
            }
            assert(parents[parent as int] == module.functions@[parent as int].parent);
            assert(module.functions@[parent as int].wf(n as int, module.bindings@.len() as int));
        }
        current = module.functions[parent].parent;
        proof {
            k = k + 1;
        }
    }
    proof {
        assert forall|j: nat| j >= 1 implies #[trigger] ancestor_at(parents, function as int, j) != Some(root as int) by {
            if j >= k {
                lemma_ancestor_end(parents, function as int, k, j);
            }
        }
    }
    false
}

/// The bindings declared by function `owner` that function `root`, or a
/// function inside it, references.
pub fn captured_bindings(module: &ModuleIr, owner: usize, root: usize) -> (captured: Vec<usize>)
    requires
        module.wf(),
    ensures
        forall|i: int| #![trigger captured@[i]] 0 <= i < captured@.len() ==> captured@[i] < module.bindings@.len(),
        forall|b: usize|
            captured@.contains(b) <==> captured_through(*module, owner as int, root as int, b as int),
{
    let ghost n = module.functions@.len() as int;
    let ghost nb = module.bindings@.len() as int;
    let mut captured: Vec<usize> = Vec::new();
    let mut f: usize = 0;
    while f < module.functions.len()
        invariant
            module.wf(),
            n == module.functions@.len(),
            nb == module.bindings@.len(),
            f <= n,
            forall|i: int| #![trigger captured@[i]] 0 <= i < captured@.len() ==> captured@[i] < nb,
            forall|b: usize|
                #![trigger captured@.contains(b)]
                (captured@.contains(b) <==> (b < nb
                    && module.bindings@[b as int].declaring_function as int == owner as int
                    && exists|g: int|
                        #![trigger module.functions@[g]]
                        0 <= g < f && is_descendant(*module, g, root as int) && references_binding(module.functions@[g], b as int))),
        decreases n - f,
    {
        let ghost before_f = captured@;
        if is_descendant_of(module, f, root) {
            let function = &module.functions[f];
            proof {
                assert(module.functions@[f as int] == *function);
                assert(function.wf(n, nb));
            }
            let mut j: usize = 0;
            while j < function.operations.len()
                invariant
                    module.wf(),
                    n == module.functions@.len(),
                    nb == module.bindings@.len(),
                    f < n,
                    *function == module.functions@[f as int],
                    function.wf(n, nb),
                    j <= function.operations@.len(),
                    forall|i: int| #![trigger captured@[i]] 0 <= i < captured@.len() ==> captured@[i] < nb,
                    forall|b: usize|
                        #![trigger captured@.contains(b)]
                        (captured@.contains(b) <==> (before_f.contains(b as usize) || (b < nb
                            && module.bindings@[b as int].declaring_function as int == owner as int
                            && exists|j2: int, k: int|
                                #![trigger function.operations@[j2].referenced_bindings@[k]]
                                0 <= j2 < j && 0 <= k < function.operations@[j2].referenced_bindings@.len()
                                    && function.operations@[j2].referenced_bindings@[k] == b))),
                decreases function.operations@.len() - j,
            {
                let op = &function.operations[j];
                proof {
                    assert(function.operations@[j as int] == *op);
                    assert(op.wf(function.value_count as int, function.regions@.len() as int, n, nb));
                }
                let mut k: usize = 0;
                while k < op.referenced_bindings.len()
                    invariant
                        nb == module.bindings@.len(),
                        *op == function.operations@[j as int],
                        j < function.operations@.len(),
                        crate::ir::all_below(op.referenced_bindings@, nb),
                        k <= op.referenced_bindings@.len(),
                        forall|i: int| #![trigger captured@[i]] 0 <= i < captured@.len() ==> captured@[i] < nb,
                        forall|b: usize|
                            #![trigger captured@.contains(b)]
                            (captured@.contains(b) <==> (before_f.contains(b as usize) || (b < nb
                                && module.bindings@[b as int].declaring_function as int == owner as int
                                && ((exists|j2: int, k2: int|
                                    #![trigger function.operations@[j2].referenced_bindings@[k2]]
                                    0 <= j2 < j && 0 <= k2 < function.operations@[j2].referenced_bindings@.len()
                                        && function.operations@[j2].referenced_bindings@[k2] == b)
                                    || exists|k2: int|
                                    #![trigger op.referenced_bindings@[k2]]
                                    0 <= k2 < k && op.referenced_bindings@[k2] == b)))),
                    decreases op.referenced_bindings@.len() - k,
                {
                    let b = op.referenced_bindings[k];
                    let ghost before = captured@;
                    if module.bindings[b].declaring_function == owner {
                        captured.push(b);
                        proof {
                            assert(captured@[before.len() as int] == b);
                            assert forall|x: usize|
                                #![trigger captured@.contains(x)]
                                captured@.contains(x) <==> (before.contains(x) || x == b) by {
                                if captured@.contains(x) && x != b {
                                    let i = choose|i: int| 0 <= i < captured@.len() && captured@[i] == x;
                                    assert(before[i] == x);
                                }
                                if before.contains(x) {
                                    let i = choose|i: int| 0 <= i < before.len() && before[i] == x;
                                    assert(captured@[i] == x);
                                }
                            }
                        }
                    }
                    proof {
                        assert(op.referenced_bindings@[k as int] == b);
                        assert forall|x: usize|
                            #![trigger captured@.contains(x)]
                            (captured@.contains(x) <==> (before_f.contains(x) || (x < nb
                                && module.bindings@[x as int].declaring_function as int == owner as int
                                && ((exists|j2: int, k2: int|
                                    #![trigger function.operations@[j2].referenced_bindings@[k2]]
                                    0 <= j2 < j && 0 <= k2 < function.operations@[j2].referenced_bindings@.len()
                                        && function.operations@[j2].referenced_bindings@[k2] == x)
                                    || exists|k2: int|
                                    #![trigger op.referenced_bindings@[k2]]
                                    0 <= k2 < k + 1 && op.referenced_bindings@[k2] == x)))) by {
                            assert(before.contains(x) <==> (before_f.contains(x) || (x < nb
                                && module.bindings@[x as int].declaring_function as int == owner as int
                                && ((exists|j2: int, k2: int|
                                    #![trigger function.operations@[j2].referenced_bindings@[k2]]
                                    0 <= j2 < j && 0 <= k2 < function.operations@[j2].referenced_bindings@.len()
                                        && function.operations@[j2].referenced_bindings@[k2] == x)
                                    || exists|k2: int|
                                    #![trigger op.referenced_bindings@[k2]]
                                    0 <= k2 < k && op.referenced_bindings@[k2] == x))));
                            if x == b {
                                if module.bindings@[b as int].declaring_function == owner {
                                    assert(captured@.contains(x));
                                    assert(0 <= k < k + 1 && op.referenced_bindings@[k as int] == x);
                                } else {
                                    assert(captured@ == before);
                                }
                            }
                            if x != b {
                                if exists|k2: int| #![trigger op.referenced_bindings@[k2]] 0 <= k2 < k + 1 && op.referenced_bindings@[k2] == x {
                                    let k2 = choose|k2: int| #![trigger op.referenced_bindings@[k2]] 0 <= k2 < k + 1 && op.referenced_bindings@[k2] == x;
                                    assert(k2 < k);
                                }
                            }
                        }
                    }
                    k = k + 1;
                }
                proof {
                    assert forall|b: usize|
                        #![trigger captured@.contains(b)]
                        (captured@.contains(b) <==> (before_f.contains(b as usize) || (b < nb
                            && module.bindings@[b as int].declaring_function as int == owner as int
                            && exists|j2: int, k2: int|
                                #![trigger function.operations@[j2].referenced_bindings@[k2]]
                                0 <= j2 < j + 1 && 0 <= k2 < function.operations@[j2].referenced_bindings@.len()
                                    && function.operations@[j2].referenced_bindings@[k2] == b))) by {
                        if exists|k2: int| #![trigger op.referenced_bindings@[k2]] 0 <= k2 < op.referenced_bindings@.len() && op.referenced_bindings@[k2] == b {
                            let k2 = choose|k2: int| #![trigger op.referenced_bindings@[k2]] 0 <= k2 < op.referenced_bindings@.len() && op.referenced_bindings@[k2] == b;
                            assert(function.operations@[j as int].referenced_bindings@[k2] == b);
                        }
                        if exists|j2: int, k2: int|
                            #![trigger function.operations@[j2].referenced_bindings@[k2]]
                            0 <= j2 < j + 1 && 0 <= k2 < function.operations@[j2].referenced_bindings@.len()
                                && function.operations@[j2].referenced_bindings@[k2] == b {
                            let (j2, k2) = choose|j2: int, k2: int|
                                #![trigger function.operations@[j2].referenced_bindings@[k2]]
                                0 <= j2 < j + 1 && 0 <= k2 < function.operations@[j2].referenced_bindings@.len()
                                    && function.operations@[j2].referenced_bindings@[k2] == b;
                            if j2 == j {
                                assert(op.referenced_bindings@[k2] == b);
                            }
                        }
                    }
                }
                j = j + 1;
            }
            proof {
                assert forall|b: usize|
                    #![trigger captured@.contains(b)]
                    (captured@.contains(b) <==> (b < nb
                        && module.bindings@[b as int].declaring_function as int == owner as int
                        && exists|g: int|
                            #![trigger module.functions@[g]]
                            0 <= g < f + 1 && is_descendant(*module, g, root as int) && references_binding(module.functions@[g], b as int))) by {
                    if exists|j2: int, k2: int|
                        #![trigger function.operations@[j2].referenced_bindings@[k2]]
                        0 <= j2 < function.operations@.len() && 0 <= k2 < function.operations@[j2].referenced_bindings@.len()
                            && function.operations@[j2].referenced_bindings@[k2] == b {
                        assert(references_binding(module.functions@[f as int], b as int));
                    }
                    if exists|g: int|
                        #![trigger module.functions@[g]]
                        0 <= g < f + 1 && is_descendant(*module, g, root as int) && references_binding(module.functions@[g], b as int) {
                        let g = choose|g: int|
                            #![trigger module.functions@[g]]
                            0 <= g < f + 1 && is_descendant(*module, g, root as int) && references_binding(module.functions@[g], b as int);
                        if g == f {
                            assert(references_binding(*function, b as int));
                        }
                    }
                }
            }
        } else {
            proof {
                assert forall|b: usize|
                    #![trigger captured@.contains(b)]
                    (captured@.contains(b) <==> (b < nb
                        && module.bindings@[b as int].declaring_function as int == owner as int
                        && exists|g: int|
                            #![trigger module.functions@[g]]
                            0 <= g < f + 1 && is_descendant(*module, g, root as int) && references_binding(module.functions@[g], b as int))) by {
                    if exists|g: int|
                        #![trigger module.functions@[g]]
                        0 <= g < f + 1 && is_descendant(*module, g, root as int) && references_binding(module.functions@[g], b as int) {
                        let g = choose|g: int|
                            #![trigger module.functions@[g]]
                            0 <= g < f + 1 && is_descendant(*module, g, root as int) && references_binding(module.functions@[g], b as int);
                        assert(g != f);
                    }
                }
            }
        }
        f = f + 1;
    }
    proof {
        assert forall|b: usize|
            #![trigger captured@.contains(b)]
            captured@.contains(b) <==> captured_through(*module, owner as int, root as int, b as int) by {
        }
    }
    captured
}

/// Whether a name is `eval`.
pub open spec fn names_eval(name: Seq<char>) -> bool {
    name == seq!['e', 'v', 'a', 'l']
}

/// Whether `op` itself defines value `v`; an invoked operation's results are
/// parameters of its normal successor instead.
pub open spec fn defines(op: Operation, v: usize) -> bool {
    !op.invoked && op.results@.contains(v)
}

/// Whether operation `j` is the first operation of `ops` that defines `v`.
pub open spec fn first_definer(ops: Seq<Operation>, v: usize, j: int) -> bool {
    &&& 0 <= j < ops.len()
    &&& defines(ops[j], v)
    &&& forall|i: int| #![trigger ops[i]] 0 <= i < j ==> !defines(ops[i], v)
}

/// Whether `op` loads the global `eval` or a binding named `eval`.
pub open spec fn loads_eval(module: ModuleIr, op: Operation) -> bool {
    match op.kind {
        OperationKind::LoadGlobal { name } => names_eval(name@),
        OperationKind::LoadBinding { binding } => binding < module.bindings@.len() && names_eval(
            module.bindings@[binding as int].name@,
        ),
        _ => false,
    }
}

/// Whether `op` is a call whose callee is a value loaded from a name `eval`,
/// so that it may evaluate code in the caller's scope.
pub open spec fn is_direct_eval(module: ModuleIr, function: FunctionIr, op: Operation) -> bool {
    match op.kind {
        OperationKind::Call { callee: Some(i) } => i < op.operands@.len() && exists|j: int|
            #![trigger function.operations@[j]]
            first_definer(function.operations@, op.operands@[i as int], j) && loads_eval(module, function.operations@[j]),
        _ => false,
    }
}

/// Whether `name` is `eval`.
pub fn is_eval_name(name: &String) -> (r: bool)
    ensures
        r == names_eval(name@),
{
    let s = name.as_str();
    let len = s.unicode_len();
    if len != 4 {
        return false;
    }
    let r = s.get_char(0) == 'e' && s.get_char(1) == 'v' && s.get_char(2) == 'a' && s.get_char(3) == 'l';
    proof {
        if r {
            assert(s@ =~= seq!['e', 'v', 'a', 'l']);
        }
    }
    r
}

/// Whether `op` is a call that may be direct `eval`.
pub fn is_direct_eval_call(module: &ModuleIr, function: &FunctionIr, op: &Operation) -> (r: bool)
    ensures
        r == is_direct_eval(*module, *function, *op),
{
    let callee = match &op.kind {
        OperationKind::Call { callee: Some(i) } => *i,
        _ => return false,
    };
    assert(op.kind == OperationKind::Call { callee: Some(callee) });
    if callee >= op.operands.len() {
        return false;
    }
    let v = op.operands[callee];
    assert(v == op.operands@[callee as int]);
    let ghost ops = function.operations@;
    let mut j: usize = 0;
    while j < function.operations.len()
        invariant
            ops == function.operations@,
            op.kind == (OperationKind::Call { callee: Some(callee) }),
            callee < op.operands@.len(),
            v == op.operands@[callee as int],
            j <= ops.len(),
            forall|i: int| #![trigger ops[i]] 0 <= i < j ==> !defines(ops[i], v),
        decreases ops.len() - j,
    {
        let candidate = &function.operations[j];
        proof {
            assert(ops[j as int] == *candidate);
        }
        let mut defined = false;
        if !candidate.invoked {
            let mut k: usize = 0;
            while k < candidate.results.len()
                invariant
                    k <= candidate.results@.len(),
                    defined <==> exists|i: int| 0 <= i < k && candidate.results@[i] == v,
                decreases candidate.results@.len() - k,
            {
                if candidate.results[k] == v {
                    defined = true;
                }
                k = k + 1;
            }
        }
        if defined {
            proof {
                let i = choose|i: int| 0 <= i < candidate.results@.len() && candidate.results@[i] == v;
                assert(candidate.results@.contains(v));
                assert(first_definer(ops, v, j as int));
            }
            let r = match &candidate.kind {
                OperationKind::LoadGlobal { name } => is_eval_name(name),
                OperationKind::LoadBinding { binding } => *binding < module.bindings.len() && is_eval_name(
                    &module.bindings[*binding].name,
                ),
                _ => false,
            };
            proof {
                assert(r == loads_eval(*module, ops[j as int]));
                if r {
                    assert(first_definer(function.operations@, v, j as int) && loads_eval(*module, function.operations@[j as int]));
                }
                if !r {
                    assert forall|j2: int| #![trigger ops[j2]] first_definer(ops, v, j2) implies j2 == j by {
                        if j2 < j {
                            assert(!defines(ops[j2], v));
                        }
                        if j2 > j {
                            assert(!defines(ops[j as int], v));
                        }
                    }
                    assert(!is_direct_eval(*module, *function, *op));
                } else {
                    assert(is_direct_eval(*module, *function, *op));
                }
            }
            return r;
        }
        proof {
            assert(!defines(ops[j as int], v)) by {
                if candidate.results@.contains(v) && !candidate.invoked {
                    let i = choose|i: int| 0 <= i < candidate.results@.len() && candidate.results@[i] == v;
                }
            }
        }
        j = j + 1;
    }
    proof {
        assert forall|j2: int| #![trigger ops[j2]] !first_definer(ops, v, j2) by {}
    }
    false
}

/// Whether a class element runs code while the class is defined.
pub open spec fn is_static_initializer(element: ClassElement) -> bool {
    match element {
        ClassElement::Field { is_static, has_initializer } => is_static && has_initializer,
        ClassElement::StaticBlock => true,
        ClassElement::Method => false,
    }
}

/// Whether defining a class with these elements runs static initialization code.
pub open spec fn runs_static_initialization(elements: Seq<ClassElement>) -> bool {
    exists|i: int| #![trigger elements[i]] 0 <= i < elements.len() && is_static_initializer(elements[i])
}

/// Whether defining a class with these elements runs static initialization code.
pub fn has_static_initialization(elements: &Vec<ClassElement>) -> (r: bool)
    ensures
        r == runs_static_initialization(elements@),
{
    let mut i: usize = 0;
    while i < elements.len()
        invariant
            i <= elements@.len(),
            forall|k: int| #![trigger elements@[k]] 0 <= k < i ==> !is_static_initializer(elements@[k]),
        decreases elements@.len() - i,
    {
        let found = match elements[i] {
            ClassElement::Field { is_static, has_initializer } => is_static && has_initializer,
            ClassElement::StaticBlock => true,
            ClassElement::Method => false,
        };
        if found {
            assert(is_static_initializer(elements@[i as int]));
            return true;
        }
        i = i + 1;
    }
    false
}


/// The first operation of `function` that defines value `v`, if any.
pub fn find_definer(function: &FunctionIr, v: usize) -> (j: Option<usize>)
    ensures
        match j {
            Some(j) => first_definer(function.operations@, v, j as int),
            None => forall|i: int| #![trigger function.operations@[i]] 0 <= i < function.operations@.len() ==> !defines(function.operations@[i], v),
        },
{
    let ghost ops = function.operations@;
    let mut j: usize = 0;
    while j < function.operations.len()
        invariant
            ops == function.operations@,
            j <= ops.len(),
            forall|i: int| #![trigger ops[i]] 0 <= i < j ==> !defines(ops[i], v),
        decreases ops.len() - j,
    {
        let candidate = &function.operations[j];
        proof {
            assert(ops[j as int] == *candidate);
        }
        if !candidate.invoked {
            let mut k: usize = 0;
            while k < candidate.results.len()
                invariant
                    ops == function.operations@,
                    j < ops.len(),
                    ops[j as int] == *candidate,
                    !candidate.invoked,
                    forall|i: int| #![trigger ops[i]] 0 <= i < j ==> !defines(ops[i], v),
                    k <= candidate.results@.len(),
                    forall|i: int| 0 <= i < k ==> candidate.results@[i] != v,
                decreases candidate.results@.len() - k,
            {
                if candidate.results[k] == v {
                    proof {
                        assert(candidate.results@[k as int] == v);
                        assert(candidate.results@.contains(v));
                    }
                    return Some(j);
                }
                k = k + 1;
            }
        }
        j = j + 1;
    }
    None
}

} // verus!
