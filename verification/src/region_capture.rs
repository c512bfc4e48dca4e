//! SSA values captured across structured region boundaries.
//!
//! A region captures a value when an operation in that region, or in a region
//! nested inside it, uses the value and the value is defined in a region that
//! encloses it. Function parameters are inputs of the body region, so the body
//! itself does not capture them, while nested regions that use them do.

use vstd::prelude::*;

use crate::capture::ancestor_at;
use crate::capture::lemma_ancestor_end;
use crate::ir::FunctionIr;

verus! {

/// Where a value is defined.
#[derive(Debug, Clone, Copy, PartialEq, Eq, Structural)]
pub enum ValueDefinition {
    /// A parameter of the function, an input of its body region.
    FunctionParameter,
    /// A result of an operation.
    OperationResult { operation: usize },
    /// A parameter of a block of region `region`.
    BlockParameter { region: usize },
}

/// The region structure of one function.
pub struct RegionLayout {
    /// The region that encloses each region; `None` for the body region and
    /// for regions that no region encloses.
    pub parents: Vec<Option<usize>>,
    /// The body region.
    pub body: usize,
    /// The region of the block holding each operation.
    pub operation_regions: Vec<usize>,
    /// How each value is defined.
    pub definitions: Vec<ValueDefinition>,
}

impl RegionLayout {
    /// The region in which value `v` is defined.
    pub open spec fn definition_region(&self, v: int) -> int {
        match self.definitions@[v] {
            ValueDefinition::FunctionParameter => self.body as int,
            ValueDefinition::OperationResult { operation } => self.operation_regions@[operation as int] as int,
            ValueDefinition::BlockParameter { region } => region as int,
        }
    }

    /// Region `d` is `r` or encloses it.
    pub open spec fn encloses(&self, d: int, r: int) -> bool {
        exists|k: nat| #[trigger] ancestor_at(self.parents@, r, k) == Some(d)
    }

    /// Every index names a region, operation or value of `function`, and
    /// every operand is defined in the region of its use or one enclosing it.
    pub open spec fn wf(&self, function: FunctionIr) -> bool {
        let n = function.regions@.len();
        let ops = function.operations@;
        &&& self.parents@.len() == n
        &&& self.body < n
        &&& forall|r: int| #![trigger self.parents@[r]] 0 <= r < n && self.parents@[r] is Some ==> self.parents@[r]->Some_0 < n
        &&& self.operation_regions@.len() == ops.len()
        &&& forall|j: int| #![trigger self.operation_regions@[j]] 0 <= j < ops.len() ==> self.operation_regions@[j] < n
        &&& self.definitions@.len() == function.value_count
        &&& forall|v: int|
            #![trigger self.definitions@[v]]
            0 <= v < self.definitions@.len() ==> match self.definitions@[v] {
                ValueDefinition::OperationResult { operation } => operation < ops.len(),
                ValueDefinition::BlockParameter { region } => region < n,
                ValueDefinition::FunctionParameter => true,
            }
        &&& forall|j: int, i: int|
            #![trigger ops[j].operands@[i]]
            0 <= j < ops.len() && 0 <= i < ops[j].operands@.len() ==> ops[j].operands@[i] < function.value_count
                && self.encloses(self.definition_region(ops[j].operands@[i] as int), self.operation_regions@[j] as int)
    }
}

/// Walking out from region `u` towards region `d`, region `r` is passed
/// before `d` is reached.
pub open spec fn crosses(parents: Seq<Option<usize>>, u: int, d: int, r: int) -> bool {
    exists|k: nat|
        #[trigger] ancestor_at(parents, u, k) == Some(r) && forall|m: nat| m <= k ==> ancestor_at(parents, u, m) != Some(d)
}

/// Operand `i` of operation `j` is `v` and crosses region `r` on its way to
/// its definition.
pub open spec fn use_crosses(function: FunctionIr, layout: RegionLayout, j: int, i: int, r: int, v: int) -> bool {
    &&& 0 <= j < function.operations@.len()
    &&& 0 <= i < function.operations@[j].operands@.len()
    &&& function.operations@[j].operands@[i] == v
    &&& crosses(layout.parents@, layout.operation_regions@[j] as int, layout.definition_region(v), r)
}

/// Region `r` captures value `v`.
pub open spec fn captures(function: FunctionIr, layout: RegionLayout, r: int, v: int) -> bool {
    exists|j: int, i: int| #[trigger] use_crosses(function, layout, j, i, r, v)
}

/// Some operand before operand `i` of operation `j` is `v` and crosses `r`.
pub open spec fn captured_before(function: FunctionIr, layout: RegionLayout, j: int, i: int, r: int, v: int) -> bool {
    exists|j2: int, i2: int| (j2 < j || (j2 == j && i2 < i)) && #[trigger] use_crosses(function, layout, j2, i2, r, v)
}

/// A region never captures a value defined in it; in particular the body
/// region never captures a parameter of the function.
pub proof fn lemma_no_capture_of_own_definitions(function: FunctionIr, layout: RegionLayout, v: int)
    ensures
        !captures(function, layout, layout.definition_region(v), v),
{
    let d = layout.definition_region(v);
    if captures(function, layout, d, v) {
        let (j, i) = choose|j: int, i: int| #[trigger] use_crosses(function, layout, j, i, d, v);
        let u = layout.operation_regions@[j] as int;
        let k = choose|k: nat|
            #[trigger] ancestor_at(layout.parents@, u, k) == Some(d) && forall|m: nat|
                m <= k ==> ancestor_at(layout.parents@, u, m) != Some(d);
        assert(ancestor_at(layout.parents@, u, k) != Some(d));
    }
}

/// A value that a region captures is captured by the region enclosing it
/// too, unless it is defined there.
pub proof fn lemma_capture_propagates_outward(function: FunctionIr, layout: RegionLayout, r: int, p: usize, v: int)
    requires
        0 <= r < layout.parents@.len(),
        layout.parents@[r] == Some(p),
        captures(function, layout, r, v),
        layout.definition_region(v) != p,
    ensures
        captures(function, layout, p as int, v),
{
    let d = layout.definition_region(v);
    let (j, i) = choose|j: int, i: int| #[trigger] use_crosses(function, layout, j, i, r, v);
    let u = layout.operation_regions@[j] as int;
    let k = choose|k: nat|
        #[trigger] ancestor_at(layout.parents@, u, k) == Some(r) && forall|m: nat|
            m <= k ==> ancestor_at(layout.parents@, u, m) != Some(d);
    assert(ancestor_at(layout.parents@, u, k + 1) == Some(p as int));
    assert forall|m: nat| m <= k + 1 implies ancestor_at(layout.parents@, u, m) != Some(d) by {}
    assert(crosses(layout.parents@, u, d, p as int));
    assert(use_crosses(function, layout, j, i, p as int, v));
}

/// The values each region of one function captures.
pub struct RegionCaptureAnalysis {
    captured_values: Vec<Vec<usize>>,
}

impl RegionCaptureAnalysis {
    /// The number of regions.
    pub closed spec fn spec_region_count(&self) -> nat {
        self.captured_values@.len()
    }

    /// The values region `r` captures, in increasing order.
    pub closed spec fn spec_captured(&self, r: int) -> Seq<usize> {
        self.captured_values@[r]@
    }

    /// Computes the captures of every region of `function`.
    pub fn analyze(function: &FunctionIr, layout: &RegionLayout) -> (analysis: Self)
        requires
            layout.wf(*function),
        ensures
            analysis.spec_region_count() == function.regions@.len(),
            forall|r: int, a: int, b: int|
                0 <= r < function.regions@.len() && 0 <= a < b < analysis.spec_captured(r).len() ==> #[trigger] analysis.spec_captured(r)[a]
                    < #[trigger] analysis.spec_captured(r)[b],
            forall|r: int, v: usize|
                0 <= r < function.regions@.len() ==> (#[trigger] analysis.spec_captured(r).contains(v) <==> captures(
                    *function,
                    *layout,
                    r,
                    v as int,
                )),
    {
        let n = layout.parents.len();
        let vc = function.value_count;
        let ghost ops = function.operations@;
        let mut marks: Vec<Vec<bool>> = Vec::new();
        let mut r: usize = 0;
        while r < n
            invariant
                r <= n,
                marks@.len() == r,
                forall|x: int| 0 <= x < r ==> (#[trigger] marks@[x])@ == Seq::new(vc as nat, |v: int| false),
            decreases n - r,
        {
            let mut row: Vec<bool> = Vec::new();
            let mut v: usize = 0;
            while v < vc
                invariant
                    v <= vc,
                    row@ == Seq::new(v as nat, |x: int| false),
                decreases vc - v,
            {
                row.push(false);
                v = v + 1;
                assert(row@ =~= Seq::new(v as nat, |x: int| false));
            }
            marks.push(row);
            r = r + 1;
        }
        let mut j: usize = 0;
        while j < function.operations.len()
            invariant
                layout.wf(*function),
                ops == function.operations@,
                n == function.regions@.len(),
                vc == function.value_count,
                j <= ops.len(),
                marks@.len() == n,
                forall|x: int| 0 <= x < n ==> (#[trigger] marks@[x])@.len() == vc,
                forall|x: int, v: int|
                    0 <= x < n && 0 <= v < vc ==> (#[trigger] marks@[x]@[v] <==> captured_before(
                        *function,
                        *layout,
                        j as int,
                        0,
                        x,
                        v,
                    )),
            decreases ops.len() - j,
        {
            let op = &function.operations[j];
            let use_region = layout.operation_regions[j];
            let mut i: usize = 0;
            while i < op.operands.len()
                invariant
                    layout.wf(*function),
                    ops == function.operations@,
                    n == function.regions@.len(),
                    vc == function.value_count,
                    j < ops.len(),
                    ops[j as int] == *op,
                    use_region == layout.operation_regions@[j as int],
                    i <= op.operands@.len(),
                    marks@.len() == n,
                    forall|x: int| 0 <= x < n ==> (#[trigger] marks@[x])@.len() == vc,
                    forall|x: int, v: int|
                        0 <= x < n && 0 <= v < vc ==> (#[trigger] marks@[x]@[v] <==> captured_before(
                            *function,
                            *layout,
                            j as int,
                            i as int,
                            x,
                            v,
                        )),
                decreases op.operands@.len() - i,
            {
                let v = op.operands[i];
                assert(ops[j as int].operands@[i as int] == v);
                let def = definition_region_of(layout, v);
                let ghost parents = layout.parents@;
                let ghost steps: nat = choose|k: nat| #[trigger] ancestor_at(parents, use_region as int, k) == Some(def as int);
                let mut boundary = use_region;
                let ghost mut k: nat = 0;
                while boundary != def
                    invariant
                        layout.wf(*function),
                        parents == layout.parents@,
                        n == function.regions@.len(),
                        vc == function.value_count,
                        v < vc,
                        def < n,
                        boundary < n,
                        ancestor_at(parents, use_region as int, steps) == Some(def as int),
                        ancestor_at(parents, use_region as int, k) == Some(boundary as int),
                        forall|m: nat| m < k ==> ancestor_at(parents, use_region as int, m) != Some(def as int),
                        k <= steps,
                        marks@.len() == n,
                        forall|x: int| 0 <= x < n ==> (#[trigger] marks@[x])@.len() == vc,
                        forall|x: int, w: int|
                            0 <= x < n && 0 <= w < vc ==> (#[trigger] marks@[x]@[w] <==> (captured_before(
                                *function,
                                *layout,
                                j as int,
                                i as int,
                                x,
                                w,
                            ) || (w == v && exists|m: nat| m < k && #[trigger] ancestor_at(parents, use_region as int, m) == Some(x)))),
                    decreases steps - k,
                {
                    let ghost before = marks@;
                    marks[boundary].set(v, true);
                    proof {
                        assert(k != steps);
                        if ancestor_at(parents, use_region as int, k + 1) is None {
                            lemma_ancestor_end(parents, use_region as int, k + 1, steps);
                        }
                        assert forall|x: int, w: int|
                            0 <= x < n && 0 <= w < vc implies (#[trigger] marks@[x]@[w] <==> (captured_before(
                                *function,
                                *layout,
                                j as int,
                                i as int,
                                x,
                                w,
                            ) || (w == v && exists|m: nat| m < k + 1 && #[trigger] ancestor_at(parents, use_region as int, m) == Some(x)))) by {
                            if x != boundary || w != v {
                                assert(marks@[x]@[w] == before[x]@[w]);
                            }
                            if w == v && x == boundary {
                                assert(ancestor_at(parents, use_region as int, k) == Some(x));
                            }
                            if w == v && exists|m: nat| m < k + 1 && #[trigger] ancestor_at(parents, use_region as int, m) == Some(x) {
                                let m = choose|m: nat| m < k + 1 && #[trigger] ancestor_at(parents, use_region as int, m) == Some(x);
                                if m < k {
                                    assert(exists|m: nat| m < k && #[trigger] ancestor_at(parents, use_region as int, m) == Some(x));
                                }
                            }
                        }
                    }
                    boundary = layout.parents[boundary].unwrap();
                    proof {
                        k = k + 1;
                    }
                }
                proof {
                    assert forall|x: int, w: int|
                        0 <= x < n && 0 <= w < vc implies (#[trigger] marks@[x]@[w] <==> captured_before(
                            *function,
                            *layout,
                            j as int,
                            i + 1,
                            x,
                            w,
                        )) by {
                        let u = use_region as int;
                        if captured_before(*function, *layout, j as int, i + 1, x, w) {
                            let (j2, i2) = choose|j2: int, i2: int|
                                (j2 < j || (j2 == j && i2 < i + 1)) && #[trigger] use_crosses(*function, *layout, j2, i2, x, w);
                            if j2 == j && i2 == i {
                                let m = choose|m: nat|
                                    #[trigger] ancestor_at(parents, u, m) == Some(x) && forall|q: nat|
                                        q <= m ==> ancestor_at(parents, u, q) != Some(def as int);
                                assert(m < k);
                            } else {
                                assert(captured_before(*function, *layout, j as int, i as int, x, w));
                            }
                        }
                        if w == v && exists|m: nat| m < k && #[trigger] ancestor_at(parents, u, m) == Some(x) {
                            let m = choose|m: nat| m < k && #[trigger] ancestor_at(parents, u, m) == Some(x);
                            assert(forall|q: nat| q <= m ==> ancestor_at(parents, u, q) != Some(def as int));
                            assert(crosses(parents, u, def as int, x));
                            assert(use_crosses(*function, *layout, j as int, i as int, x, w));
                        }
                        if captured_before(*function, *layout, j as int, i as int, x, w) {
                            let (j2, i2) = choose|j2: int, i2: int|
                                (j2 < j || (j2 == j && i2 < i)) && #[trigger] use_crosses(*function, *layout, j2, i2, x, w);
                            assert(use_crosses(*function, *layout, j2, i2, x, w));
                        }
                    }
                }
                i = i + 1;
            }
            proof {
                assert forall|x: int, w: int|
                    0 <= x < n && 0 <= w < vc implies (#[trigger] marks@[x]@[w] <==> captured_before(
                        *function,
                        *layout,
                        j + 1,
                        0,
                        x,
                        w,
                    )) by {
                    if captured_before(*function, *layout, j + 1, 0, x, w) {
                        let (j2, i2) = choose|j2: int, i2: int|
                            (j2 < j + 1 || (j2 == j + 1 && i2 < 0)) && #[trigger] use_crosses(*function, *layout, j2, i2, x, w);
                        assert(use_crosses(*function, *layout, j2, i2, x, w));
                        assert(captured_before(*function, *layout, j as int, i as int, x, w));
                    }
                    if captured_before(*function, *layout, j as int, i as int, x, w) {
                        let (j2, i2) = choose|j2: int, i2: int|
                            (j2 < j || (j2 == j && i2 < i)) && #[trigger] use_crosses(*function, *layout, j2, i2, x, w);
                        assert(use_crosses(*function, *layout, j2, i2, x, w));
                    }
                }
            }
            j = j + 1;
        }
        let mut captured_values: Vec<Vec<usize>> = Vec::new();
        let mut r: usize = 0;
        while r < n
            invariant
                layout.wf(*function),
                ops == function.operations@,
                n == function.regions@.len(),
                vc == function.value_count,
                j == ops.len(),
                marks@.len() == n,
                forall|x: int| 0 <= x < n ==> (#[trigger] marks@[x])@.len() == vc,
                forall|x: int, v: int|
                    0 <= x < n && 0 <= v < vc ==> (#[trigger] marks@[x]@[v] <==> captured_before(
                        *function,
                        *layout,
                        j as int,
                        0,
                        x,
                        v,
                    )),
                r <= n,
                captured_values@.len() == r,
                forall|x: int, a: int, b: int|
                    0 <= x < r && 0 <= a < b < captured_values@[x]@.len() ==> #[trigger] captured_values@[x]@[a]
                        < #[trigger] captured_values@[x]@[b],
                forall|x: int, v: usize|
                    0 <= x < r ==> (#[trigger] captured_values@[x]@.contains(v) <==> captures(*function, *layout, x, v as int)),
            decreases n - r,
        {
            let row = &marks[r];
            let mut values: Vec<usize> = Vec::new();
            let mut v: usize = 0;
            while v < vc
                invariant
                    row@.len() == vc,
                    v <= vc,
                    forall|a: int, b: int| 0 <= a < b < values@.len() ==> values@[a] < values@[b],
                    forall|a: int| 0 <= a < values@.len() ==> values@[a] < v,
                    forall|w: usize| values@.contains(w) <==> (w < v && row@[w as int]),
                decreases vc - v,
            {
                let ghost before = values@;
                if row[v] {
                    values.push(v);
                    proof {
                        assert forall|w: usize| values@.contains(w) <==> (before.contains(w) || w == v) by {
                            if values@.contains(w) {
                                let a = choose|a: int| 0 <= a < values@.len() && values@[a] == w;
                                if a < before.len() {
                                    assert(before[a] == w);
                                }
                            }
                            if before.contains(w) {
                                let a = choose|a: int| 0 <= a < before.len() && before[a] == w;
                                assert(values@[a] == w);
                            }
                            if w == v {
                                assert(values@[before.len() as int] == w);
                            }
                        }
                    }
                }
                v = v + 1;
            }
            proof {
                assert forall|w: usize| values@.contains(w) <==> captures(*function, *layout, r as int, w as int) by {
                    if captures(*function, *layout, r as int, w as int) {
                        let (j2, i2) = choose|j2: int, i2: int| #[trigger] use_crosses(*function, *layout, j2, i2, r as int, w as int);
                        assert(ops[j2].operands@[i2] < vc);
                        assert(captured_before(*function, *layout, j as int, 0, r as int, w as int));
                    }
                    if values@.contains(w) {
                        assert(marks@[r as int]@[w as int]);
                        let (j2, i2) = choose|j2: int, i2: int|
                            (j2 < j || (j2 == j && i2 < 0)) && #[trigger] use_crosses(*function, *layout, j2, i2, r as int, w as int);
                        assert(use_crosses(*function, *layout, j2, i2, r as int, w as int));
                    }
                }
            }
            captured_values.push(values);
            r = r + 1;
        }
        RegionCaptureAnalysis { captured_values }
    }

    /// Returns the values captured by region `region` in increasing order.
    pub fn captured_values(&self, region: usize) -> (r: Option<&[usize]>)
        ensures
            match r {
                Some(values) => region < self.spec_region_count() && values@ == self.spec_captured(region as int),
                None => region >= self.spec_region_count(),
            },
    {
        if region < self.captured_values.len() {
            Some(self.captured_values[region].as_slice())
        } else {
            None
        }
    }
}

/// The region in which value `v` is defined.
fn definition_region_of(layout: &RegionLayout, v: usize) -> (r: usize)
    requires
        v < layout.definitions@.len(),
        match layout.definitions@[v as int] {
            ValueDefinition::OperationResult { operation } => operation < layout.operation_regions@.len(),
            _ => true,
        },
    ensures
        r as int == layout.definition_region(v as int),
{
    match layout.definitions[v] {
        ValueDefinition::FunctionParameter => layout.body,
        ValueDefinition::OperationResult { operation } => layout.operation_regions[operation],
        ValueDefinition::BlockParameter { region } => region,
    }
}

} // verus!
