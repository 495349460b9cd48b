use purple_garden::ast::{InnerNode, Node};
use purple_garden::cc::{hash_name, Cc};
use purple_garden::ctx::Const;
use purple_garden::lex::{Token, Type};
use purple_garden::op::Op;
use purple_garden::value::Value;

fn token(t: Type) -> Token {
    Token { line: 0, col: 0, t }
}

fn node(t: Type, inner: InnerNode) -> Node {
    Node { token: token(t), inner }
}

#[test]
fn atom_false() {
    let mut cc = Cc::new();
    let ast = Node {
        token: token(Type::False),
        inner: InnerNode::Atom,
    };

    let _ = cc.compile(ast).expect("Failed to compile node");
    let expected_idx: usize = 0;
    assert_eq!(
        cc.buf,
        vec![Op::LoadG {
            dst: 0,
            idx: expected_idx as u32
        }],
    );
    assert_eq!(cc.ctx.globals_vec[expected_idx], Const::False);
}

#[test]
fn atom_true() {
    let mut cc = Cc::new();
    let ast = Node {
        token: token(Type::True),
        inner: InnerNode::Atom,
    };

    let _ = cc.compile(ast).expect("Failed to compile node");
    let expected_idx: usize = 1;
    assert_eq!(
        cc.buf,
        vec![Op::LoadG {
            dst: 0,
            idx: expected_idx as u32
        }],
    );
    assert_eq!(cc.ctx.globals_vec[expected_idx], Const::True);
}

#[test]
fn atom_string() {
    let mut cc = Cc::new();
    let ast = Node {
        token: token(Type::String(String::from("hola"))),
        inner: InnerNode::Atom,
    };

    let _ = cc.compile(ast).expect("Failed to compile node");
    let expected_idx: usize = 2;
    assert_eq!(
        cc.buf,
        vec![Op::LoadG {
            dst: 0,
            idx: expected_idx as u32
        }],
    );
    assert_eq!(
        cc.ctx.globals_vec[expected_idx],
        Const::Str(String::from("hola"))
    );
}

#[test]
fn atom_int() {
    let mut cc = Cc::new();
    let ast = Node {
        token: token(Type::Integer(String::from("25"))),
        inner: InnerNode::Atom,
    };
    let _ = cc.compile(ast).expect("Failed to compile node");
    assert_eq!(cc.buf, vec![Op::LoadI { dst: 0, value: 25 }],);
}

#[test]
fn atom_double() {
    let mut cc = Cc::new();
    let ast = Node {
        token: token(Type::Double {
            text: String::from("3.1415"),
            bits: (3.1415_f64).to_bits(),
        }),
        inner: InnerNode::Atom,
    };
    let _ = cc.compile(ast).expect("Failed to compile node");
    let expected_idx: usize = 2;
    assert_eq!(
        cc.buf,
        vec![Op::LoadG {
            dst: 0,
            idx: expected_idx as u32
        }],
    );
    assert_eq!(
        cc.ctx.globals_vec[expected_idx],
        Const::Double((3.1415_f64).to_bits())
    );
}

#[test]
fn atom_ident() {
    let mut cc = Cc::new();
    let name = "thisisavariablename";
    let ast = Node {
        token: token(Type::Ident(String::from(name))),
        inner: InnerNode::Ident,
    };
    let hash = hash_name(name);
    let _ = cc.compile(ast).expect("Failed to compile node");
    assert_eq!(cc.buf, vec![Op::LoadV { dst: 0, hash }],);
}

#[test]
fn atom_bin() {
    let tests: Vec<(Type, fn(u8, u8, u8) -> Op)> = vec![
        (Type::Plus, |dst, lhs, rhs| Op::Add { dst, lhs, rhs }),
        (Type::Minus, |dst, lhs, rhs| Op::Sub { dst, lhs, rhs }),
        (Type::Asteriks, |dst, lhs, rhs| Op::Mul { dst, lhs, rhs }),
        (Type::Slash, |dst, lhs, rhs| Op::Div { dst, lhs, rhs }),
        (Type::Equal, |dst, lhs, rhs| Op::Eq { dst, lhs, rhs }),
        (Type::LessThan, |dst, lhs, rhs| Op::Lt { dst, lhs, rhs }),
        (Type::GreaterThan, |dst, lhs, rhs| Op::Gt { dst, lhs, rhs }),
    ];

    for (token_type, make_op) in tests {
        let mut cc = Cc::new();

        let ast = Node {
            token: token(token_type.clone()),
            inner: InnerNode::Bin {
                lhs: Box::new(node(
                    Type::Integer(String::from("45")),
                    InnerNode::Atom,
                )),
                rhs: Box::new(node(
                    Type::Integer(String::from("45")),
                    InnerNode::Atom,
                )),
            },
        };

        let _ = cc.compile(ast).expect("Failed to compile node");

        let expected_op = make_op(2, 0, 1);

        assert_eq!(
            cc.buf,
            vec![
                Op::LoadI { dst: 0, value: 45 },
                Op::LoadI { dst: 1, value: 45 },
                expected_op,
            ],
            "Failed for operator: {:?}",
            token_type
        );
    }
}

#[test]
fn ident_sum_uses_low_registers_and_reuses_them() {
    // `a + b` over identifiers: load-by-hash into r0 and r1, the sum
    // into r2; r0 and r1 are free again right after.
    let mut cc = Cc::new();
    let ast = Node {
        token: token(Type::Plus),
        inner: InnerNode::Bin {
            lhs: Box::new(node(Type::Ident(String::from("a")), InnerNode::Ident)),
            rhs: Box::new(node(Type::Ident(String::from("b")), InnerNode::Ident)),
        },
    };
    let dst = cc.cc(ast).expect("Failed to compile node");
    assert_eq!(dst, 2);
    assert_eq!(
        cc.buf,
        vec![
            Op::LoadV {
                dst: 0,
                hash: hash_name("a")
            },
            Op::LoadV {
                dst: 1,
                hash: hash_name("b")
            },
            Op::Add {
                dst: 2,
                lhs: 0,
                rhs: 1
            },
        ]
    );
    // The operand registers are available for reuse by the next
    // allocations (LIFO: the most recently freed comes first).
    assert_eq!(cc.register.allocate(), 1);
    assert_eq!(cc.register.allocate(), 0);
}

#[test]
fn same_string_twice_shares_one_pool_index() {
    let mut cc = Cc::new();
    for _ in 0..2 {
        let ast = Node {
            token: token(Type::String(String::from("hola"))),
            inner: InnerNode::Atom,
        };
        cc.compile(ast).expect("Failed to compile node");
    }
    assert_eq!(
        cc.buf,
        vec![Op::LoadG { dst: 0, idx: 2 }, Op::LoadG { dst: 0, idx: 2 }]
    );
    assert_eq!(cc.ctx.globals_vec.len(), 3);
}

#[test]
fn let_binding_emits_var() {
    let mut cc = Cc::new();
    let ast = Node {
        token: token(Type::Ident(String::from("x"))),
        inner: InnerNode::Let {
            rhs: Box::new(node(Type::Integer(String::from("7")), InnerNode::Atom)),
        },
    };
    cc.compile(ast).expect("Failed to compile node");
    assert_eq!(
        cc.buf,
        vec![
            Op::LoadI { dst: 0, value: 7 },
            Op::Var {
                hash: hash_name("x"),
                src: 0
            },
        ]
    );
    assert!(cc.register.all_free());
}

#[test]
fn bad_integer_literal_aborts_with_location() {
    let mut cc = Cc::new();
    let ast = Node {
        token: Token {
            line: 3,
            col: 5,
            t: Type::Integer(String::from("12a4")),
        },
        inner: InnerNode::Atom,
    };
    let e = cc.compile(ast).expect_err("malformed literal must fail");
    assert_eq!(e.msg.as_deref(), Some("invalid integer literal"));
    assert_eq!(e.line, 3);
    assert_eq!(e.start, 5);
    assert_eq!(e.end, 9);
    assert_eq!(e.render_string(), "err: invalid integer literal at l:3:5-9");
}

#[test]
fn out_of_range_integer_literal_fails() {
    let mut cc = Cc::new();
    let ast = Node {
        token: token(Type::Integer(String::from("9223372036854775808"))),
        inner: InnerNode::Atom,
    };
    assert!(cc.compile(ast).is_err());

    let mut cc2 = Cc::new();
    let ast2 = Node {
        token: token(Type::Integer(String::from("-9223372036854775808"))),
        inner: InnerNode::Atom,
    };
    cc2.compile(ast2).expect("i64::MIN is in range");
    assert_eq!(
        cc2.buf,
        vec![Op::LoadI {
            dst: 0,
            value: i64::MIN
        }]
    );
}

#[test]
fn unsupported_construct_aborts() {
    let mut cc = Cc::new();
    let ast = Node {
        token: Token {
            line: 1,
            col: 0,
            t: Type::BraketLeft,
        },
        inner: InnerNode::Array { members: vec![] },
    };
    let e = cc.compile(ast).expect_err("arrays are not lowered");
    assert_eq!(e.msg.as_deref(), Some("unsupported construct"));
    assert_eq!(e.line, 1);
}

#[test]
fn finalize_maps_pool_into_globals() {
    let mut cc = Cc::new();
    let ast = Node {
        token: token(Type::Integer(String::from("25"))),
        inner: InnerNode::Atom,
    };
    cc.compile(ast).expect("Failed to compile node");
    let vm = cc.finalize();
    assert_eq!(vm.bytecode, vec![Op::LoadI { dst: 0, value: 25 }]);
    assert_eq!(vm.globals.len(), 2);
    assert_eq!(vm.globals[0], Value::False);
    assert_eq!(vm.globals[1], Value::True);
    assert_eq!(vm.pc, 0);
    assert_eq!(vm.frames.len(), 1);
}
