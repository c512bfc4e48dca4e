use lib::ir::{ArrayLiteralElement, FunctionIr, Operation, OperationKind, Region, RegionOwner};
use lib::region_capture::{RegionCaptureAnalysis, RegionLayout, ValueDefinition};
use lib::transfer::BinaryOperator;

fn op(kind: OperationKind, operands: Vec<usize>, results: Vec<usize>) -> Operation {
    Operation {
        kind,
        invoked: false,
        operands,
        results,
        regions: vec![],
        referenced_functions: vec![],
        referenced_bindings: vec![],
        successors: vec![],
    }
}

fn region(owner: RegionOwner, yielded: Vec<usize>) -> Region {
    Region { owner, yielded, produced_parameters: vec![] }
}

#[test]
fn computes_captures_across_nested_region_boundaries() {
    let (body, outer, inner) = (0, 1, 2);
    let (outside, local, comparison, inner_result, outer_result) = (0, 1, 2, 3, 4);
    let mut inner_owner =
        op(OperationKind::ArrayLiteral(vec![ArrayLiteralElement::Value(inner)]), vec![], vec![inner_result]);
    inner_owner.regions = vec![inner];
    let mut outer_owner =
        op(OperationKind::ArrayLiteral(vec![ArrayLiteralElement::Value(outer)]), vec![], vec![outer_result]);
    outer_owner.regions = vec![outer];
    let function = FunctionIr {
        parent: None,
        value_count: 5,
        parameters: vec![],
        self_binding: None,
        operations: vec![
            op(OperationKind::Constant { string: None }, vec![], vec![outside]),
            op(OperationKind::Constant { string: None }, vec![], vec![local]),
            op(OperationKind::Binary(BinaryOperator::StrictEqual), vec![outside, local], vec![comparison]),
            op(OperationKind::RegionYield, vec![comparison], vec![]),
            inner_owner,
            op(OperationKind::RegionYield, vec![inner_result], vec![]),
            outer_owner,
        ],
        regions: vec![
            region(RegionOwner::FunctionBody, vec![]),
            region(RegionOwner::Operation, vec![inner_result]),
            region(RegionOwner::Operation, vec![comparison]),
        ],
    };
    let layout = RegionLayout {
        parents: vec![None, Some(body), Some(outer)],
        body,
        operation_regions: vec![body, outer, inner, inner, outer, outer, body],
        definitions: (0..7)
            .filter(|&operation| operation != 3 && operation != 5)
            .map(|operation| ValueDefinition::OperationResult { operation })
            .collect(),
    };

    let captures = RegionCaptureAnalysis::analyze(&function, &layout);

    assert_eq!(captures.captured_values(body), Some([].as_slice()));
    assert_eq!(captures.captured_values(outer), Some([outside].as_slice()));
    assert_eq!(captures.captured_values(inner), Some([outside, local].as_slice()));
}

#[test]
fn captures_parameters_in_nested_regions_only() {
    let (body, nested, detached_parent) = (0, 1, 2);
    let (parameter, block_parameter, sum) = (0, 1, 2);
    let function = FunctionIr {
        parent: None,
        value_count: 3,
        parameters: vec![parameter],
        self_binding: None,
        operations: vec![
            op(OperationKind::Binary(BinaryOperator::Add), vec![parameter, block_parameter], vec![sum]),
            op(OperationKind::Return, vec![parameter], vec![]),
        ],
        regions: vec![
            region(RegionOwner::FunctionBody, vec![]),
            region(RegionOwner::Operation, vec![]),
            region(RegionOwner::Detached, vec![]),
        ],
    };
    let layout = RegionLayout {
        parents: vec![None, Some(body), None],
        body,
        operation_regions: vec![nested, body],
        definitions: vec![
            ValueDefinition::FunctionParameter,
            ValueDefinition::BlockParameter { region: nested },
            ValueDefinition::OperationResult { operation: 0 },
        ],
    };

    let captures = RegionCaptureAnalysis::analyze(&function, &layout);

    assert_eq!(captures.captured_values(body), Some([].as_slice()));
    assert_eq!(captures.captured_values(nested), Some([parameter].as_slice()));
    assert_eq!(captures.captured_values(detached_parent), Some([].as_slice()));
    assert_eq!(captures.captured_values(3), None);
}
