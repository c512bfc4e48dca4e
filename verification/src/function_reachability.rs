//! Reachability of module-owned function bodies.

use vstd::prelude::*;

use crate::dependence::lists_in_range;
use crate::ir::ModuleIr;
use crate::ir::Operation;
use crate::dependence::reach_from;
use crate::paths::reaches;
use crate::pointer_solver::list_step;

verus! {

/// The functions of one module: the lexical parent of each and the
/// functions each one's operations reference.
pub struct ModuleFunctionShape {
    /// The module's entry function.
    pub entry: usize,
    /// The lexical parent of each function.
    pub parents: Vec<Option<usize>>,
    /// The functions each function's operations reference.
    pub references: Vec<Vec<usize>>,
}

impl ModuleFunctionShape {
    /// Every function named is a function of the module.
    pub open spec fn wf(&self) -> bool {
        let n = self.parents@.len();
        &&& n <= usize::MAX
        &&& self.references@.len() == n
        &&& self.entry < n
        &&& forall|f: int| #![trigger self.parents@[f]] 0 <= f < n ==> (self.parents@[f] matches Some(p) ==> p < n)
        &&& lists_in_range(self.references@)
    }

    /// A retained function keeps alive every function it references and its lexical parent.
    pub open spec fn retains(&self) -> spec_fn(int, int) -> bool {
        |f: int, g: int|
            0 <= f < self.parents@.len() && ((self.parents@[f] matches Some(p) && p as int == g)
                || exists|k: int|
                #![trigger self.references@[f]@[k]]
                0 <= k < self.references@[f]@.len() && self.references@[f]@[k] as int == g)
    }

    /// The functions that function `f` keeps alive, its references first.
    pub open spec fn retained_by(&self, f: int) -> Seq<usize> {
        match self.parents@[f] {
            Some(p) => self.references@[f]@.push(p),
            None => self.references@[f]@,
        }
    }
}

/// The functions that the operations `ops[..j]` reference, operation by
/// operation, each in its own order.
pub open spec fn referenced_functions_upto(ops: Seq<Operation>, j: int) -> Seq<usize>
    decreases j,
{
    if j <= 0 {
        Seq::empty()
    } else {
        referenced_functions_upto(ops, j - 1) + ops[j - 1].referenced_functions@
    }
}

impl ModuleFunctionShape {
    /// The functions of `module`: function 0 is its entry, each has the
    /// lexical parent the module gives, and references the functions its
    /// operations reference, in order.
    pub fn of_module(module: &ModuleIr) -> (shape: Self)
        requires
            module.wf(),
            module.functions@.len() > 0,
        ensures
            shape.wf(),
            shape.entry == 0,
            shape.parents@ == module.parents(),
            shape.references@.len() == module.functions@.len(),
            forall|f: int|
                #![trigger shape.references@[f]]
                0 <= f < module.functions@.len() ==> shape.references@[f]@ == referenced_functions_upto(
                    module.functions@[f].operations@,
                    module.functions@[f].operations@.len() as int,
                ),
    {
        let n = module.functions.len();
        let mut parents: Vec<Option<usize>> = Vec::new();
        let mut references: Vec<Vec<usize>> = Vec::new();
        let mut f: usize = 0;
        while f < n
            invariant
                module.wf(),
                n == module.functions@.len(),
                f <= n,
                parents@.len() == f,
                references@.len() == f,
                forall|g: int| #![trigger parents@[g]] 0 <= g < f ==> parents@[g] == module.functions@[g].parent,
                forall|g: int|
                    #![trigger references@[g]]
                    0 <= g < f ==> references@[g]@ == referenced_functions_upto(
                        module.functions@[g].operations@,
                        module.functions@[g].operations@.len() as int,
                    ),
                forall|g: int, k: int| #![trigger references@[g]@[k]] 0 <= g < f && 0 <= k < references@[g]@.len() ==> references@[g]@[k] < n,
            decreases n - f,
        {
            let function = &module.functions[f];
            assert(function.wf(n as int, module.bindings@.len() as int));
            let ghost ops = function.operations@;
            let mut list: Vec<usize> = Vec::new();
            let mut j: usize = 0;
            while j < function.operations.len()
                invariant
                    ops == function.operations@,
                    function.wf(n as int, module.bindings@.len() as int),
                    j <= ops.len(),
                    list@ == referenced_functions_upto(ops, j as int),
                    forall|k: int| #![trigger list@[k]] 0 <= k < list@.len() ==> list@[k] < n,
                decreases ops.len() - j,
            {
                let op = &function.operations[j];
                assert(op.wf(function.value_count as int, function.regions@.len() as int, n as int, module.bindings@.len() as int));
                let ghost prefix = list@;
                let mut k: usize = 0;
                while k < op.referenced_functions.len()
                    invariant
                        ops == function.operations@,
                        j < ops.len(),
                        ops[j as int] == *op,
                        crate::ir::all_below(op.referenced_functions@, n as int),
                        k <= op.referenced_functions@.len(),
                        list@ == prefix + op.referenced_functions@.take(k as int),
                        forall|q: int| #![trigger list@[q]] 0 <= q < list@.len() ==> list@[q] < n,
                    decreases op.referenced_functions@.len() - k,
                {
                    list.push(op.referenced_functions[k]);
                    k = k + 1;
                    assert(list@ =~= prefix + op.referenced_functions@.take(k as int));
                }
                assert(op.referenced_functions@.take(k as int) =~= op.referenced_functions@);
                j = j + 1;
            }
            parents.push(function.parent);
            references.push(list);
            f = f + 1;
        }
        let shape = ModuleFunctionShape { entry: 0, parents, references };
        proof {
            assert(shape.parents@ =~= module.parents());
            assert forall|g: int| #![trigger shape.parents@[g]] 0 <= g < n implies (shape.parents@[g] matches Some(p) ==> p < n) by {
                assert(module.functions@[g].wf(n as int, module.bindings@.len() as int));
            }
        }
        shape
    }
}

/// Functions transitively referenced from the module entry function.
pub struct ModuleFunctionReachability {
    reachable: Vec<bool>,
}

impl ModuleFunctionReachability {
    /// Whether function `f` is reachable.
    pub closed spec fn spec_reachable(&self, f: int) -> bool {
        0 <= f < self.reachable@.len() && self.reachable@[f]
    }

    /// Computes which functions the entry function retains, directly or
    /// through references and lexical parents.
    pub fn compute(module: &ModuleFunctionShape) -> (reachability: Self)
        requires
            module.wf(),
        ensures
            forall|f: int|
                #![trigger reachability.spec_reachable(f)]
                reachability.spec_reachable(f) <==> (0 <= f < module.parents@.len() && reaches(
                    module.retains(),
                    module.entry as int,
                    f,
                )),
    {
        let n = module.parents.len();
        let mut lists: Vec<Vec<usize>> = Vec::new();
        let mut f: usize = 0;
        while f < n
            invariant
                module.wf(),
                n == module.parents@.len(),
                f <= n,
                lists@.len() == f,
                forall|g: int, k: int| #![trigger lists@[g]@[k]] 0 <= g < f && 0 <= k < lists@[g]@.len() ==> lists@[g]@[k] < n,
                forall|g: int| #![trigger lists@[g]] 0 <= g < f ==> lists@[g]@ == module.retained_by(g),
            decreases n - f,
        {
            let mut list: Vec<usize> = Vec::new();
            let mut k: usize = 0;
            while k < module.references[f].len()
                invariant
                    module.wf(),
                    n == module.parents@.len(),
                    f < n,
                    k <= module.references@[f as int]@.len(),
                    list@ == module.references@[f as int]@.take(k as int),
                decreases module.references@[f as int]@.len() - k,
            {
                list.push(module.references[f][k]);
                k = k + 1;
                assert(list@ =~= module.references@[f as int]@.take(k as int));
            }
            proof {
                assert(list@ =~= module.references@[f as int]@);
            }
            if let Some(parent) = module.parents[f] {
                list.push(parent);
            }
            proof {
                assert(list@ =~= module.retained_by(f as int));
                assert forall|k: int| #![trigger list@[k]] 0 <= k < list@.len() implies list@[k] < n by {
                    if k < module.references@[f as int]@.len() {
                        assert(module.references@[f as int]@[k] == list@[k]);
                    }
                }
            }
            lists.push(list);
            f = f + 1;
        }
        let mut sources: Vec<usize> = Vec::new();
        sources.push(module.entry);
        let reachable = reach_from(&lists, sources.as_slice());
        let reachability = ModuleFunctionReachability { reachable };
        proof {
            assert forall|u: int, v: int| #[trigger] list_step(lists@)(u, v) == module.retains()(u, v) by {
                if 0 <= u < n {
                    let refs = module.references@[u]@;
                    assert(lists@[u]@ == module.retained_by(u));
                    if list_step(lists@)(u, v) {
                        let k = choose|k: int| #![trigger lists@[u]@[k]] 0 <= k < lists@[u]@.len() && lists@[u]@[k] as int == v;
                        if k < refs.len() {
                            assert(refs[k] == lists@[u]@[k]);
                        }
                    }
                    if module.retains()(u, v) {
                        if module.parents@[u] is Some && module.parents@[u]->0 as int == v {
                            assert(lists@[u]@[refs.len() as int] == module.parents@[u]->0);
                        } else {
                            let k = choose|k: int| #![trigger refs[k]] 0 <= k < refs.len() && refs[k] as int == v;
                            assert(lists@[u]@[k] == refs[k]);
                        }
                    }
                }
            }
            assert(list_step(lists@) =~= module.retains());
            assert forall|f: int| #![trigger reachability.spec_reachable(f)] reachability.spec_reachable(f) <==> (0 <= f < module.parents@.len() && reaches(
                module.retains(),
                module.entry as int,
                f,
            )) by {
                if 0 <= f < n && reaches(module.retains(), module.entry as int, f) {
                    assert(sources@[0] == module.entry);
                }
            }
        }
        reachability
    }

    /// Whether the module entry can transitively reference `function`.
    pub fn is_reachable(&self, function: usize) -> (r: bool)
        ensures
            r == self.spec_reachable(function as int),
    {
        function < self.reachable.len() && self.reachable[function]
    }

    /// The functions among the first `k` that are not reachable, in increasing order.
    pub open spec fn unreachable_upto(&self, k: int) -> Seq<usize>
        decreases k,
    {
        if k <= 0 {
            Seq::empty()
        } else if self.spec_reachable(k - 1) {
            self.unreachable_upto(k - 1)
        } else {
            self.unreachable_upto(k - 1).push((k - 1) as usize)
        }
    }

    /// The functions of a module of `function_count` functions that are not
    /// reachable, in increasing order: the functions to remove.
    pub fn unreachable_functions(&self, function_count: usize) -> (unreachable: Vec<usize>)
        ensures
            unreachable@ == self.unreachable_upto(function_count as int),
    {
        let mut unreachable: Vec<usize> = Vec::new();
        let mut f: usize = 0;
        while f < function_count
            invariant
                f <= function_count,
                unreachable@ == self.unreachable_upto(f as int),
            decreases function_count - f,
        {
            if !self.is_reachable(f) {
                unreachable.push(f);
            }
            f = f + 1;
        }
        unreachable
    }
}

} // verus!
