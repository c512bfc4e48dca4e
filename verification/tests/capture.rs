use lib::capture::{
    BindingCapture, CaptureAccess, CaptureOperation, FunctionCaptureAnalysis, ModuleCaptureShape,
};
use lib::ir::{BindingData, BindingKind, FunctionIr, ModuleIr, Operation, OperationKind};

fn ir_operation(kind: OperationKind, referenced_bindings: Vec<usize>) -> Operation {
    Operation {
        kind,
        invoked: false,
        operands: vec![],
        results: vec![],
        regions: vec![],
        referenced_functions: vec![],
        referenced_bindings,
        successors: vec![],
    }
}

fn ir_function(parent: Option<usize>, operations: Vec<Operation>) -> FunctionIr {
    FunctionIr { parent, value_count: 0, parameters: vec![], self_binding: None, operations, regions: vec![] }
}

#[test]
fn computes_direct_captures_and_captured_locals() {
    let (entry, component, callback, nested) = (0, 1, 2, 3);
    let (module_binding, local_binding) = (0, 1);
    let module = ModuleCaptureShape {
        parents: vec![None, Some(entry), Some(component), Some(callback)],
        binding_functions: vec![entry, component],
        operations: vec![
            vec![],
            vec![],
            vec![
                CaptureOperation::LoadBinding(module_binding),
                CaptureOperation::LoadBinding(local_binding),
                CaptureOperation::Other,
                CaptureOperation::StoreBinding(local_binding),
            ],
            vec![CaptureOperation::Other, CaptureOperation::StoreBinding(local_binding)],
        ],
    };

    let captures = FunctionCaptureAnalysis::analyze(&module);

    assert_eq!(captures.captured_bindings(entry), Some([].as_slice()));
    assert_eq!(captures.captured_bindings(component), Some([].as_slice()));
    assert_eq!(
        captures.captured_bindings(callback),
        Some(
            [
                BindingCapture::new(module_binding, CaptureAccess::Read),
                BindingCapture::new(local_binding, CaptureAccess::ReadWrite),
            ]
            .as_slice()
        )
    );
    assert_eq!(
        captures.captured_bindings(nested),
        Some([BindingCapture::new(local_binding, CaptureAccess::Write)].as_slice())
    );
    assert_eq!(
        captures.captured_locals(entry),
        Some([BindingCapture::new(module_binding, CaptureAccess::Read)].as_slice())
    );
    assert_eq!(
        captures.captured_locals(component),
        Some([BindingCapture::new(local_binding, CaptureAccess::ReadWrite)].as_slice())
    );
    assert_eq!(captures.captured_locals(callback), Some([].as_slice()));
}

#[test]
fn exposes_capture_access_queries() {
    assert!(CaptureAccess::Read.reads());
    assert!(!CaptureAccess::Read.writes());
    assert!(!CaptureAccess::Write.reads());
    assert!(CaptureAccess::Write.writes());
    assert!(CaptureAccess::ReadWrite.reads());
    assert!(CaptureAccess::ReadWrite.writes());
}

#[test]
fn merges_capture_accesses() {
    assert_eq!(CaptureAccess::Read.merge(CaptureAccess::Write), CaptureAccess::ReadWrite);
    assert_eq!(CaptureAccess::Write.merge(CaptureAccess::Read), CaptureAccess::ReadWrite);
    assert_eq!(CaptureAccess::Read.merge(CaptureAccess::Read), CaptureAccess::Read);
    assert_eq!(CaptureAccess::Write.merge(CaptureAccess::Write), CaptureAccess::Write);
    assert_eq!(CaptureAccess::ReadWrite.merge(CaptureAccess::Read), CaptureAccess::ReadWrite);
}

#[test]
fn records_pattern_and_class_writes_but_not_loop_environments() {
    let module = ModuleCaptureShape {
        parents: vec![None, Some(0)],
        binding_functions: vec![0, 0, 0, 0],
        operations: vec![
            vec![CaptureOperation::InitializeBinding(0)],
            vec![
                CaptureOperation::DestructureBinding(vec![2, 1]),
                CaptureOperation::Loop,
                CaptureOperation::CreateClass(Some(3)),
                CaptureOperation::CreateClass(None),
                CaptureOperation::DestructureAssignment(vec![1]),
            ],
        ],
    };
    let captures = FunctionCaptureAnalysis::analyze(&module);

    assert_eq!(
        captures.captured_bindings(1),
        Some(
            [
                BindingCapture::new(1, CaptureAccess::Write),
                BindingCapture::new(2, CaptureAccess::Write),
                BindingCapture::new(3, CaptureAccess::Write),
            ]
            .as_slice()
        )
    );
    assert_eq!(captures.captured_bindings(0), Some([].as_slice()));
    assert_eq!(captures.captured_locals(0).map(|list| list.len()), Some(3));
    assert_eq!(captures.captured_bindings(2), None);
    assert!(module.is_lexical_ancestor(0, 1));
    assert!(!module.is_lexical_ancestor(1, 0));
    assert!(!module.is_lexical_ancestor(1, 1));
}

#[test]
fn reads_captures_from_the_module_ir() {
    // let outer; function component() { let inner; [outer, inner] = pair; for (inner of list) {} }
    let (entry, component, nested) = (0, 1, 2);
    let (outer, inner) = (0, 1);
    let module = ModuleIr {
        functions: vec![
            ir_function(None, vec![]),
            ir_function(
                Some(entry),
                vec![
                    ir_operation(OperationKind::DestructureAssignment, vec![outer, inner]),
                    ir_operation(OperationKind::ForOf, vec![inner]),
                ],
            ),
            ir_function(
                Some(component),
                vec![
                    ir_operation(OperationKind::LoadBinding { binding: inner }, vec![inner]),
                    ir_operation(OperationKind::StoreBinding { binding: outer }, vec![outer]),
                ],
            ),
        ],
        bindings: vec![
            BindingData { declaring_function: entry, kind: BindingKind::Let, name: "outer".to_string() },
            BindingData { declaring_function: component, kind: BindingKind::Let, name: "inner".to_string() },
        ],
        imports: vec![],
        exports: vec![],
    };

    let shape = ModuleCaptureShape::of_module(&module);
    assert_eq!(shape.parents, vec![None, Some(entry), Some(component)]);
    assert_eq!(shape.binding_functions, vec![entry, component]);
    assert_eq!(
        shape.operations[component],
        vec![CaptureOperation::DestructureAssignment(vec![outer, inner]), CaptureOperation::Loop]
    );

    let captures = FunctionCaptureAnalysis::analyze(&shape);
    assert_eq!(
        captures.captured_bindings(component),
        Some([BindingCapture::new(outer, CaptureAccess::Write)].as_slice())
    );
    assert_eq!(
        captures.captured_bindings(nested),
        Some(
            [
                BindingCapture::new(outer, CaptureAccess::Write),
                BindingCapture::new(inner, CaptureAccess::Read),
            ]
            .as_slice()
        )
    );
    assert_eq!(
        captures.captured_locals(entry),
        Some([BindingCapture::new(outer, CaptureAccess::Write)].as_slice())
    );
}
