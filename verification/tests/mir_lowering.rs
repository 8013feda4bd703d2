use lib::ast::{BinaryOp, Block, Expression, Item, Parameter, Statement, Type};
use lib::codegen::mir_lowering::MirLowerer;
use lib::mir::{Constant, Operand, Place, Rvalue, Terminator};

#[test]
fn test_mir_lowerer_creation() {
    let lowerer = MirLowerer::new();
    assert_eq!(lowerer.functions.len(), 0);
}

fn var(n: &str) -> Expression {
    Expression::Variable(n.to_string())
}

fn lit_int(n: i64) -> Expression {
    Expression::Integer(n)
}

#[test]
fn lowering_builds_blocks_branches_and_temporaries() {
    let body = Block {
        statements: vec![
            Statement::Let {
                name: "x".to_string(),
                mutable: false,
                ty: None,
                initializer: Expression::Binary { left: Box::new(var("a")), op: BinaryOp::Add, right: Box::new(lit_int(1)) },
            },
            Statement::If {
                condition: Expression::Binary { left: Box::new(var("x")), op: BinaryOp::Less, right: Box::new(lit_int(10)) },
                then_body: Block {
                    statements: vec![Statement::Return(Some(Expression::FunctionCall {
                        name: "f".to_string(),
                        args: vec![var("x")],
                    }))],
                    expression: None,
                },
                else_body: None,
            },
        ],
        expression: Some(Box::new(var("x"))),
    };
    let items = vec![
        Item::Function {
            name: "main".to_string(),
            generics: vec![],
            params: vec![Parameter { name: "a".to_string(), mutable: true, ty: Type::Named("i64".to_string()) }],
            body,
            return_type: None,
        },
        Item::Use { path: "std::fmt".to_string() },
    ];
    let mut lowerer = MirLowerer::new();
    let mir = lowerer.lower_program(&items);
    assert_eq!(mir.functions.len(), 1);
    let f = &mir.functions[0];
    assert_eq!(f.name, "main");
    assert_eq!(f.params.len(), 1);
    assert_eq!(f.params[0].0, "a");
    assert_eq!(f.basic_blocks.len(), 4);

    let entry = &f.basic_blocks[0];
    assert_eq!(entry.statements.len(), 3);
    match &entry.statements[0].rvalue {
        Rvalue::BinaryOp(lib::mir::BinaryOp::Add, Operand::Copy(Place::Local(a)), Operand::Constant(Constant::Integer(1))) => {
            assert_eq!(a, "a")
        }
        _ => panic!("expected the addition"),
    }
    match &entry.statements[0].place {
        Place::Local(t) => assert_eq!(t, "_t0"),
        _ => panic!("expected a local"),
    }
    match &entry.terminator {
        Terminator::If(Operand::Copy(Place::Local(c)), 1, 2) => assert_eq!(c, "_t1"),
        _ => panic!("expected the branch"),
    }
    let then_block = &f.basic_blocks[1];
    match &then_block.statements[0].rvalue {
        Rvalue::Call(name, args) => {
            assert_eq!(name, "f");
            assert_eq!(args.len(), 1);
        }
        _ => panic!("expected the call"),
    }
    assert!(matches!(then_block.terminator, Terminator::Return(Some(_))));
    assert!(matches!(f.basic_blocks[2].terminator, Terminator::Goto(3)));
    match &f.basic_blocks[3].terminator {
        Terminator::Return(Some(Operand::Copy(Place::Local(x)))) => assert_eq!(x, "x"),
        _ => panic!("expected the return of x"),
    }
    assert_eq!(lowerer.current_func_params.get("a"), Some(&true));
    assert_eq!(lowerer.functions.len(), 1);
}
