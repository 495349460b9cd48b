use purple_garden::op::{New, Op};
use purple_garden::value::Value;
use purple_garden::vm::{Slot, StepResult, Vm, VmErrorKind};
use purple_garden::ast::{InnerNode, Node};
use purple_garden::cc::Cc;
use purple_garden::lex::{Token, Type};

fn fresh_vm(bytecode: Vec<Op>) -> Vm {
    Vm::new(bytecode, Vec::new(), 64)
}

fn run_to_end(vm: &mut Vm) -> StepResult {
    vm.run(10_000)
}

#[test]
fn arithmetic_executes() {
    let mut vm = fresh_vm(vec![
        Op::LoadI { dst: 0, value: 10 },
        Op::LoadI { dst: 1, value: 32 },
        Op::Add {
            dst: 2,
            lhs: 0,
            rhs: 1,
        },
        Op::Sub {
            dst: 3,
            lhs: 2,
            rhs: 1,
        },
        Op::Mul {
            dst: 4,
            lhs: 0,
            rhs: 1,
        },
        Op::Div {
            dst: 5,
            lhs: 1,
            rhs: 0,
        },
    ]);
    assert_eq!(run_to_end(&mut vm), StepResult::Halted);
    assert_eq!(vm.registers[2], Some(Value::Int(42)));
    assert_eq!(vm.registers[3], Some(Value::Int(10)));
    assert_eq!(vm.registers[4], Some(Value::Int(320)));
    assert_eq!(vm.registers[5], Some(Value::Int(3)));
}

#[test]
fn division_truncates_toward_zero_and_wraps_min() {
    let mut vm = fresh_vm(vec![
        Op::LoadI { dst: 0, value: -7 },
        Op::LoadI { dst: 1, value: 2 },
        Op::Div {
            dst: 2,
            lhs: 0,
            rhs: 1,
        },
        Op::LoadI {
            dst: 3,
            value: i64::MIN,
        },
        Op::LoadI { dst: 4, value: -1 },
        Op::Div {
            dst: 5,
            lhs: 3,
            rhs: 4,
        },
    ]);
    assert_eq!(run_to_end(&mut vm), StepResult::Halted);
    assert_eq!(vm.registers[2], Some(Value::Int(-3)));
    assert_eq!(vm.registers[5], Some(Value::Int(i64::MIN)));
}

#[test]
fn division_by_zero_is_fatal_with_pc() {
    let mut vm = fresh_vm(vec![
        Op::LoadI { dst: 0, value: 1 },
        Op::LoadI { dst: 1, value: 0 },
        Op::Div {
            dst: 2,
            lhs: 0,
            rhs: 1,
        },
    ]);
    match run_to_end(&mut vm) {
        StepResult::Fatal(e) => {
            assert_eq!(e.kind, VmErrorKind::DivByZero);
            assert_eq!(e.pc, 2);
        }
        other => panic!("expected a fatal division, got {:?}", other),
    }
}

#[test]
fn wrapping_addition() {
    let mut vm = fresh_vm(vec![
        Op::LoadI {
            dst: 0,
            value: i64::MAX,
        },
        Op::LoadI { dst: 1, value: 1 },
        Op::Add {
            dst: 2,
            lhs: 0,
            rhs: 1,
        },
    ]);
    assert_eq!(run_to_end(&mut vm), StepResult::Halted);
    assert_eq!(vm.registers[2], Some(Value::Int(i64::MIN)));
}

#[test]
fn compare_and_branch() {
    // r0 = 1, r1 = 2; r2 = (r0 < r1); JmpF over the next load.
    let mut vm = fresh_vm(vec![
        Op::LoadI { dst: 0, value: 1 },
        Op::LoadI { dst: 1, value: 2 },
        Op::Lt {
            dst: 2,
            lhs: 0,
            rhs: 1,
        },
        Op::JmpF { cond: 2, target: 5 },
        Op::LoadI { dst: 3, value: 11 },
        Op::Eq {
            dst: 4,
            lhs: 0,
            rhs: 1,
        },
        Op::JmpF { cond: 4, target: 8 },
        Op::LoadI { dst: 5, value: 22 },
    ]);
    assert_eq!(run_to_end(&mut vm), StepResult::Halted);
    // r2 is true, so the branch is not taken and r3 is written.
    assert_eq!(vm.registers[3], Some(Value::Int(11)));
    // r4 is false, so the second branch is taken and r5 stays empty.
    assert_eq!(vm.registers[5], None);
    assert_eq!(vm.registers[2], Some(Value::True));
    assert_eq!(vm.registers[4], Some(Value::False));
}

#[test]
fn bind_and_lookup_by_hash() {
    let hash = purple_garden::cc::hash_name("answer");
    let mut vm = fresh_vm(vec![
        Op::LoadI { dst: 0, value: 42 },
        Op::Var { hash, src: 0 },
        Op::LoadV { hash, dst: 1 },
    ]);
    assert_eq!(run_to_end(&mut vm), StepResult::Halted);
    assert_eq!(vm.registers[1], Some(Value::Int(42)));
}

#[test]
fn lookup_walks_the_caller_chain() {
    // A name bound in the caller's frame is visible in the callee.
    let hash = purple_garden::cc::hash_name("outer");
    let mut vm = fresh_vm(vec![
        Op::LoadI { dst: 0, value: 7 },
        Op::Var { hash, src: 0 },
        Op::Call {
            func: 4,
            args_start: 0,
            args_len: 0,
        },
        Op::Jmp { target: 6 },
        Op::LoadV { hash, dst: 1 },
        Op::Ret { times: 1 },
    ]);
    assert_eq!(run_to_end(&mut vm), StepResult::Halted);
    assert_eq!(vm.registers[1], Some(Value::Int(7)));
}

#[test]
fn rebinding_overwrites_in_place() {
    let hash = purple_garden::cc::hash_name("x");
    let mut vm = fresh_vm(vec![
        Op::LoadI { dst: 0, value: 1 },
        Op::Var { hash, src: 0 },
        Op::LoadI { dst: 0, value: 2 },
        Op::Var { hash, src: 0 },
        Op::LoadV { hash, dst: 1 },
    ]);
    assert_eq!(run_to_end(&mut vm), StepResult::Halted);
    assert_eq!(vm.registers[1], Some(Value::Int(2)));
    assert_eq!(vm.frames[0].vars.len(), 1);
}

#[test]
fn unresolved_name_is_fatal() {
    let mut vm = fresh_vm(vec![Op::LoadV {
        hash: 0x1234,
        dst: 0,
    }]);
    match run_to_end(&mut vm) {
        StepResult::Fatal(e) => {
            assert_eq!(e.kind, VmErrorKind::UnresolvedName);
            assert_eq!(e.pc, 0);
        }
        other => panic!("expected an unresolved name, got {:?}", other),
    }
}

#[test]
fn call_then_ret_resumes_after_call() {
    // 0: Call 3        (pushes a frame, return address 1)
    // 1: LoadI r1, 5   (runs after the return)
    // 2: Jmp 5         (halt)
    // 3: LoadI r0, 9   (callee body)
    // 4: Ret *1
    let mut vm = fresh_vm(vec![
        Op::Call {
            func: 3,
            args_start: 0,
            args_len: 0,
        },
        Op::LoadI { dst: 1, value: 5 },
        Op::Jmp { target: 5 },
        Op::LoadI { dst: 0, value: 9 },
        Op::Ret { times: 1 },
    ]);
    assert_eq!(vm.step(), StepResult::Continue); // Call
    assert_eq!(vm.frames.len(), 2);
    assert_eq!(vm.pc, 3);
    assert_eq!(vm.step(), StepResult::Continue); // callee LoadI
    assert_eq!(vm.step(), StepResult::Continue); // Ret *1
    assert_eq!(vm.frames.len(), 1);
    assert_eq!(vm.pc, 1); // the instruction following Call
    assert_eq!(run_to_end(&mut vm), StepResult::Halted);
    assert_eq!(vm.registers[0], Some(Value::Int(9)));
    assert_eq!(vm.registers[1], Some(Value::Int(5)));
}

#[test]
fn ret_twice_pops_two_frames_at_once() {
    // 0: Call 2   (outer; returns to 1)
    // 1: Jmp 5    (halt)
    // 2: Call 4   (inner; returns to 3)
    // 3: Ret *1   (never reached)
    // 4: Ret *2   (merged return: pops both frames)
    let mut vm = fresh_vm(vec![
        Op::Call {
            func: 2,
            args_start: 0,
            args_len: 0,
        },
        Op::Jmp { target: 5 },
        Op::Call {
            func: 4,
            args_start: 0,
            args_len: 0,
        },
        Op::Ret { times: 1 },
        Op::Ret { times: 2 },
    ]);
    assert_eq!(vm.step(), StepResult::Continue); // outer Call
    assert_eq!(vm.step(), StepResult::Continue); // inner Call
    assert_eq!(vm.frames.len(), 3);
    assert_eq!(vm.pc, 4);
    assert_eq!(vm.step(), StepResult::Continue); // Ret *2
    assert_eq!(vm.frames.len(), 1);
    assert_eq!(vm.pc, 1); // the outer caller's resume point
    assert_eq!(run_to_end(&mut vm), StepResult::Halted);
}

#[test]
fn ret_underflow_is_fatal() {
    let mut vm = fresh_vm(vec![Op::Ret { times: 1 }]);
    match vm.step() {
        StepResult::Fatal(e) => {
            assert_eq!(e.kind, VmErrorKind::StackUnderflow);
            assert_eq!(e.pc, 0);
        }
        other => panic!("expected a stack underflow, got {:?}", other),
    }
}

#[test]
fn arrays_append_len_index() {
    let mut vm = fresh_vm(vec![
        Op::New {
            dst: 0,
            size: 0,
            new_type: New::Array,
        },
        Op::LoadI { dst: 1, value: 7 },
        Op::Append {
            container: 0,
            src: 1,
        },
        Op::LoadI { dst: 2, value: 9 },
        Op::Append {
            container: 0,
            src: 2,
        },
        Op::Len { dst: 3, src: 0 },
        Op::LoadI { dst: 4, value: 1 },
        Op::Idx {
            dst: 5,
            container: 0,
            index: 4,
        },
    ]);
    assert_eq!(run_to_end(&mut vm), StepResult::Halted);
    assert_eq!(vm.registers[3], Some(Value::Int(2)));
    assert_eq!(vm.registers[5], Some(Value::Int(9)));
    match &vm.registers[0] {
        Some(Value::Arr(h)) => match &vm.heap[*h] {
            Slot::Arr(vs) => assert_eq!(vs.as_slice(), &[Value::Int(7), Value::Int(9)]),
            other => panic!("expected an array block, got {:?}", other),
        },
        other => panic!("expected an array handle, got {:?}", other),
    }
}

#[test]
fn index_out_of_range_is_fatal() {
    let mut vm = fresh_vm(vec![
        Op::New {
            dst: 0,
            size: 0,
            new_type: New::Array,
        },
        Op::LoadI { dst: 1, value: 0 },
        Op::Idx {
            dst: 2,
            container: 0,
            index: 1,
        },
    ]);
    match run_to_end(&mut vm) {
        StepResult::Fatal(e) => assert_eq!(e.kind, VmErrorKind::OutOfRangeIndex),
        other => panic!("expected an index error, got {:?}", other),
    }
}

#[test]
fn sys_hands_builtin_to_host_and_advances() {
    let mut vm = fresh_vm(vec![
        Op::LoadI { dst: 0, value: 1 },
        Op::Sys {
            func: 3,
            args_start: 0,
            args_len: 1,
        },
        Op::LoadI { dst: 1, value: 2 },
    ]);
    assert_eq!(vm.step(), StepResult::Continue);
    assert_eq!(
        vm.step(),
        StepResult::Sys {
            func: 3,
            args_start: 0,
            args_len: 1
        }
    );
    assert_eq!(vm.pc, 2);
    assert_eq!(run_to_end(&mut vm), StepResult::Halted);
}

#[test]
fn reachable_array_survives_collection() {
    // An array value reachable only through an occupied register
    // survives a collection triggered mid-execution; once the register
    // is overwritten and no other root references it, the next
    // collection reclaims it.
    let mut vm = fresh_vm(vec![
        Op::New {
            dst: 0,
            size: 0,
            new_type: New::Array,
        },
        Op::LoadI { dst: 1, value: 5 },
        Op::Append {
            container: 0,
            src: 1,
        },
    ]);
    assert_eq!(run_to_end(&mut vm), StepResult::Halted);
    let h = match vm.registers[0] {
        Some(Value::Arr(h)) => h,
        _ => panic!("expected an array handle"),
    };

    vm.collect();
    match &vm.heap[h] {
        Slot::Arr(vs) => assert_eq!(vs.as_slice(), &[Value::Int(5)]),
        _ => panic!("reachable block must survive the collection"),
    }

    // Overwrite the only root; the block becomes collectible.
    vm.registers[0] = Some(Value::Int(0));
    vm.collect();
    assert!(matches!(vm.heap[h], Slot::Free));
    assert!(vm.heap_free.contains(&h));
}

#[test]
fn collection_triggered_by_allocation_keeps_live_blocks() {
    // Threshold 0: the New instruction itself triggers a collection.
    let mut vm = Vm::new(
        vec![
            Op::New {
                dst: 0,
                size: 0,
                new_type: New::Array,
            },
            Op::LoadI { dst: 1, value: 3 },
            Op::Append {
                container: 0,
                src: 1,
            },
            Op::New {
                dst: 2,
                size: 0,
                new_type: New::Object,
            },
        ],
        Vec::new(),
        0,
    );
    assert_eq!(run_to_end(&mut vm), StepResult::Halted);
    // The first array was still referenced by r0 when the second
    // allocation collected, so it survived with its element.
    let h = match vm.registers[0] {
        Some(Value::Arr(h)) => h,
        _ => panic!("expected an array handle"),
    };
    match &vm.heap[h] {
        Slot::Arr(vs) => assert_eq!(vs.as_slice(), &[Value::Int(3)]),
        _ => panic!("live block was collected"),
    }
    assert!(matches!(vm.registers[2], Some(Value::Obj(_))));
}

#[test]
fn nested_array_survives_through_parent() {
    // A block reachable only through another block (not directly from a
    // register) still survives: marking is transitive.
    let mut vm = fresh_vm(vec![
        Op::New {
            dst: 0,
            size: 0,
            new_type: New::Array,
        },
        Op::New {
            dst: 1,
            size: 0,
            new_type: New::Array,
        },
        Op::LoadI { dst: 2, value: 8 },
        Op::Append {
            container: 1,
            src: 2,
        },
        Op::Append {
            container: 0,
            src: 1,
        },
    ]);
    assert_eq!(run_to_end(&mut vm), StepResult::Halted);
    let inner = match vm.registers[1] {
        Some(Value::Arr(h)) => h,
        _ => panic!("expected an array handle"),
    };
    // Drop the direct root to the inner array; it stays reachable
    // through the outer one.
    vm.registers[1] = None;
    vm.collect();
    match &vm.heap[inner] {
        Slot::Arr(vs) => assert_eq!(vs.as_slice(), &[Value::Int(8)]),
        _ => panic!("transitively reachable block was collected"),
    }
}

#[test]
fn out_of_range_register_is_fatal() {
    let mut vm = fresh_vm(vec![
        Op::LoadI { dst: 0, value: 1 },
        Op::Mov { dst: 1, src: 0 },
        Op::Add {
            dst: 2,
            lhs: 40,
            rhs: 0,
        },
    ]);
    match run_to_end(&mut vm) {
        StepResult::Fatal(e) => {
            assert_eq!(e.kind, VmErrorKind::OutOfRangeRegister);
            assert_eq!(e.pc, 2);
        }
        other => panic!("expected a register fault, got {:?}", other),
    }
    // The Mov before the fault completed.
    assert_eq!(vm.registers[1], Some(Value::Int(1)));
}

#[test]
fn out_of_range_jump_target_is_fatal() {
    let mut vm = fresh_vm(vec![Op::Jmp { target: 99 }]);
    match vm.step() {
        StepResult::Fatal(e) => assert_eq!(e.kind, VmErrorKind::OutOfRangeTarget),
        other => panic!("expected a target fault, got {:?}", other),
    }
}

#[test]
fn arithmetic_on_non_integers_is_fatal() {
    let mut vm = fresh_vm(vec![
        Op::LoadI { dst: 0, value: 1 },
        Op::New {
            dst: 1,
            size: 0,
            new_type: New::Array,
        },
        Op::Add {
            dst: 2,
            lhs: 0,
            rhs: 1,
        },
    ]);
    match run_to_end(&mut vm) {
        StepResult::Fatal(e) => {
            assert_eq!(e.kind, VmErrorKind::TypeMismatch);
            assert_eq!(e.pc, 2);
        }
        other => panic!("expected a type mismatch, got {:?}", other),
    }
}

#[test]
fn equality_works_on_all_values() {
    let mut vm = fresh_vm(vec![
        Op::New {
            dst: 0,
            size: 0,
            new_type: New::Array,
        },
        Op::Mov { dst: 1, src: 0 },
        Op::Eq {
            dst: 2,
            lhs: 0,
            rhs: 1,
        },
        Op::LoadI { dst: 3, value: 4 },
        Op::Eq {
            dst: 4,
            lhs: 0,
            rhs: 3,
        },
    ]);
    assert_eq!(run_to_end(&mut vm), StepResult::Halted);
    // An aggregate equals itself (same handle), not an integer.
    assert_eq!(vm.registers[2], Some(Value::True));
    assert_eq!(vm.registers[4], Some(Value::False));
}

#[test]
fn empty_register_read_is_fatal() {
    let mut vm = fresh_vm(vec![Op::Mov { dst: 0, src: 5 }]);
    match vm.step() {
        StepResult::Fatal(e) => {
            assert_eq!(e.kind, VmErrorKind::EmptyRegister);
            assert_eq!(e.pc, 0);
        }
        other => panic!("expected an empty-register fault, got {:?}", other),
    }
}

#[test]
fn out_of_range_global_is_fatal() {
    let mut vm = fresh_vm(vec![Op::LoadG { dst: 0, idx: 3 }]);
    match vm.step() {
        StepResult::Fatal(e) => assert_eq!(e.kind, VmErrorKind::OutOfRangeGlobal),
        other => panic!("expected a global-index fault, got {:?}", other),
    }
}

#[test]
fn compiled_program_runs_end_to_end() {

    // 25 + 17, compiled and then executed.
    let mut cc = Cc::new();
    let ast = Node {
        token: Token {
            line: 0,
            col: 0,
            t: Type::Plus,
        },
        inner: InnerNode::Bin {
            lhs: Box::new(Node {
                token: Token {
                    line: 0,
                    col: 0,
                    t: Type::Integer(String::from("25")),
                },
                inner: InnerNode::Atom,
            }),
            rhs: Box::new(Node {
                token: Token {
                    line: 0,
                    col: 0,
                    t: Type::Integer(String::from("17")),
                },
                inner: InnerNode::Atom,
            }),
        },
    };
    cc.compile(ast).expect("Failed to compile node");
    let mut vm = cc.finalize();
    assert_eq!(run_to_end(&mut vm), StepResult::Halted);
    assert_eq!(vm.registers[2], Some(Value::Int(42)));
}
