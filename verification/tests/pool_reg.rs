use purple_garden::cc::parse_int;
use purple_garden::ctx::{Const, Context};
use purple_garden::reg::RegisterAllocator;
use purple_garden::err::PgError;
use purple_garden::lex::{Token, Type};

#[test]
fn intern_same_constant_twice_returns_same_index() {
    let mut ctx = Context::new();
    ctx.intern(Const::False);
    ctx.intern(Const::True);
    let a = ctx.intern(Const::Int(7));
    let b = ctx.intern(Const::Str(String::from("x")));
    let a2 = ctx.intern(Const::Int(7));
    let b2 = ctx.intern(Const::Str(String::from("x")));
    assert_eq!(a, a2);
    assert_eq!(b, b2);
    assert_eq!(ctx.globals_vec.len(), 4);
}

#[test]
fn booleans_keep_reserved_indices() {
    let mut ctx = Context::new();
    ctx.intern(Const::False);
    ctx.intern(Const::True);
    for i in 0..10i64 {
        ctx.intern(Const::Int(i));
    }
    assert_eq!(ctx.intern(Const::False), 0);
    assert_eq!(ctx.intern(Const::True), 1);
    assert_eq!(ctx.globals_vec[0], Const::False);
    assert_eq!(ctx.globals_vec[1], Const::True);
}

#[test]
fn doubles_dedupe_by_bit_pattern_only() {
    let mut ctx = Context::new();
    ctx.intern(Const::False);
    ctx.intern(Const::True);
    let pos = ctx.intern(Const::Double((0.0_f64).to_bits()));
    let neg = ctx.intern(Const::Double((-0.0_f64).to_bits()));
    // +0.0 and -0.0 are numerically equal but differ in bit pattern, so
    // they never merge.
    assert_ne!(pos, neg);
    let pos2 = ctx.intern(Const::Double((0.0_f64).to_bits()));
    assert_eq!(pos, pos2);
}

#[test]
fn allocator_reuses_freed_register_lifo() {
    let mut reg = RegisterAllocator::new();
    let a = reg.allocate();
    let b = reg.allocate();
    assert_eq!(a, 0);
    assert_eq!(b, 1);
    reg.free(a);
    // LIFO reuse: the id just freed comes back first.
    assert_eq!(reg.allocate(), a);
}

#[test]
fn allocator_exhaustion_fails_on_extra_allocation() {
    let mut reg = RegisterAllocator::new();
    for _ in 0..32 {
        assert!(reg.try_allocate().is_some());
    }
    // The register bank has 32 slots: a 33rd simultaneous allocation
    // fails.
    assert!(reg.try_allocate().is_none());
}

#[test]
fn allocator_teardown_check() {
    let mut reg = RegisterAllocator::new();
    assert!(reg.all_free());
    let a = reg.allocate();
    let b = reg.allocate();
    assert!(!reg.all_free());
    reg.free(b);
    assert!(!reg.all_free());
    reg.free(a);
    assert!(reg.all_free());
}

#[test]
fn parse_int_accepts_signs_and_bounds() {
    assert_eq!(parse_int("25"), Some(25));
    assert_eq!(parse_int("+25"), Some(25));
    assert_eq!(parse_int("-25"), Some(-25));
    assert_eq!(parse_int("0"), Some(0));
    assert_eq!(parse_int("9223372036854775807"), Some(i64::MAX));
    assert_eq!(parse_int("-9223372036854775808"), Some(i64::MIN));
}

#[test]
fn parse_int_rejects_bad_input() {
    assert_eq!(parse_int(""), None);
    assert_eq!(parse_int("-"), None);
    assert_eq!(parse_int("+"), None);
    assert_eq!(parse_int("12a"), None);
    assert_eq!(parse_int("a12"), None);
    assert_eq!(parse_int("9223372036854775808"), None);
    assert_eq!(parse_int("-9223372036854775809"), None);
    assert_eq!(parse_int("99999999999999999999999999"), None);
}

#[test]
fn error_span_uses_token_widths() {
    let t = Token {
        line: 2,
        col: 3,
        t: Type::True,
    };
    let e = PgError::from_token(&t);
    assert_eq!((e.line, e.start, e.end), (2, 3, 7));

    let t2 = Token {
        line: 0,
        col: 10,
        t: Type::Ident(String::from("abcdef")),
    };
    let e2 = PgError::from_token(&t2);
    assert_eq!((e2.start, e2.end), (10, 16));

    let t3 = Token {
        line: 0,
        col: 0,
        t: Type::DoubleColon,
    };
    assert_eq!(PgError::from_token(&t3).end, 2);
}
