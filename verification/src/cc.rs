//! The compiler: recursive lowering of syntax nodes to an instruction
//! sequence, consulting the constant pool and the register allocator.
//!
//! Each value-producing node lowers to code that leaves its result in
//! exactly one live register, which the caller frees once the value is
//! consumed.  Identifiers are resolved purely by hashing their name
//! bytes — no compile-time symbol table exists, so two distinct names
//! with colliding hashes are indistinguishable at run time.
//! Compilation is one-shot and fail-fast: the first error aborts the
//! whole pass.

use vstd::prelude::*;
use vstd::string::StrSliceExecFns;
use vstd::string::StringSliceAdditionalSpecFns;
use vstd::utf8::encode_utf8;

use crate::ast::{InnerNode, Node};
use crate::ctx::{ceq, pool_has, pool_wf, Const, Context};
use crate::err::{span_end, token_len, PgError};
use crate::lex::{Token, Type};
use crate::op::Op;
use crate::reg::{RegisterAllocator, REGISTER_COUNT};

verus! {

// ---------------------------------------------------------------------
// Name hashing.
// ---------------------------------------------------------------------

/// The 64-bit FNV-1a digest of a byte sequence: the name-hash function,
/// the sole run-time key for variable binding and lookup.
pub open spec fn name_hash_bytes(bytes: Seq<u8>) -> u64
    decreases bytes.len(),
{
    if bytes.len() == 0 {
        0xcbf29ce484222325u64
    } else {
        vstd::wrapping::u64_specs::wrapping_mul(
            name_hash_bytes(bytes.drop_last()) ^ (bytes.last() as u64),
            0x100000001b3u64,
        )
    }
}

/// Hashes an identifier's bytes to its 64-bit name hash.
pub fn hash_name(name: &str) -> (h: u64)
    ensures
        h == name_hash_bytes(name.spec_bytes()),
{
    let bytes = name.as_bytes();
    let mut h: u64 = 0xcbf29ce484222325u64;
    let mut i: usize = 0;
    while i < bytes.len()
        invariant
            i <= bytes@.len(),
            bytes@ == name.spec_bytes(),
            h == name_hash_bytes(bytes@.subrange(0, i as int)),
        decreases bytes@.len() - i,
    {
        proof {
            assert(bytes@.subrange(0, i + 1 as int).drop_last() =~= bytes@.subrange(0, i as int));
            assert(bytes@.subrange(0, i + 1 as int).last() == bytes@[i as int]);
        }
        h = (h ^ (bytes[i] as u64)).wrapping_mul(0x100000001b3u64);
        i = i + 1;
    }
    proof {
        assert(bytes@.subrange(0, bytes@.len() as int) =~= bytes@);
    }
    h
}

// ---------------------------------------------------------------------
// Integer literal parsing.
// ---------------------------------------------------------------------

/// The numeric value of a sequence of decimal digits.
pub open spec fn digits_value(s: Seq<char>) -> int
    decreases s.len(),
{
    if s.len() == 0 {
        0
    } else {
        digits_value(s.drop_last()) * 10 + (s.last() as int - '0' as int)
    }
}

/// Every character is a decimal digit.
pub open spec fn all_digits(s: Seq<char>) -> bool {
    forall|i: int| 0 <= i < s.len() ==> '0' <= #[trigger] s[i] <= '9'
}

/// What parsing a 64-bit integer literal yields: an optional sign, then
/// at least one decimal digit; rejected if empty, non-numeric, or out of
/// the 64-bit range.
pub open spec fn parse_int_spec(s: Seq<char>) -> Option<i64> {
    let neg = s.len() > 0 && s[0] == '-';
    let ds = if s.len() > 0 && (s[0] == '-' || s[0] == '+') {
        s.drop_first()
    } else {
        s
    };
    if ds.len() == 0 || !all_digits(ds) {
        None
    } else {
        let v = if neg {
            -digits_value(ds)
        } else {
            digits_value(ds)
        };
        if i64::MIN <= v <= i64::MAX {
            Some(v as i64)
        } else {
            None
        }
    }
}

proof fn lemma_digits_value_nonneg(s: Seq<char>)
    requires
        all_digits(s),
    ensures
        digits_value(s) >= 0,
    decreases s.len(),
{
    if s.len() > 0 {
        assert(all_digits(s.drop_last())) by {
            assert forall|i: int| 0 <= i < s.len() - 1 implies '0' <= #[trigger] s.drop_last()[i]
                <= '9' by {
                assert(s.drop_last()[i] == s[i]);
            }
        }
        lemma_digits_value_nonneg(s.drop_last());
    }
}

/// Appending digits never shrinks the value.
proof fn lemma_digits_value_prefix_le(s: Seq<char>, k: int)
    requires
        all_digits(s),
        0 <= k <= s.len(),
    ensures
        digits_value(s.subrange(0, k)) <= digits_value(s),
    decreases s.len() - k,
{
    if k < s.len() {
        let p = s.subrange(0, k);
        let q = s.subrange(0, k + 1);
        assert(q.drop_last() =~= p);
        assert(q.last() == s[k]);
        assert(all_digits(p)) by {
            assert forall|i: int| 0 <= i < p.len() implies '0' <= #[trigger] p[i] <= '9' by {
                assert(p[i] == s[i]);
            }
        }
        lemma_digits_value_nonneg(p);
        assert(digits_value(q) == digits_value(p) * 10 + (s[k] as int - '0' as int));
        assert(digits_value(p) * 10 >= digits_value(p));
        lemma_digits_value_prefix_le(s, k + 1);
    } else {
        assert(s.subrange(0, k) =~= s);
    }
}

/// Parses a 64-bit decimal integer literal.
pub fn parse_int(s: &str) -> (r: Option<i64>)
    ensures
        r == parse_int_spec(s@),
{
    let n = s.unicode_len();
    let mut i: usize = 0;
    let mut neg = false;
    if n > 0 {
        let c0 = s.get_char(0);
        if c0 == '-' {
            neg = true;
            i = 1;
        } else if c0 == '+' {
            i = 1;
        }
    }
    let start = i;
    let ghost ds = if start == 1 {
        s@.drop_first()
    } else {
        s@
    };
    if i >= n {
        return None;
    }
    let mut mag: u128 = 0;
    while i < n
        invariant
            start <= i <= n,
            start <= 1,
            n == s@.len(),
            (start == 1) <==> (s@.len() > 0 && (s@[0] == '-' || s@[0] == '+')),
            neg <==> (s@.len() > 0 && s@[0] == '-'),
            ds == (if start == 1 {
                s@.drop_first()
            } else {
                s@
            }),
            ds.len() == n - start,
            forall|j: int| 0 <= j < ds.len() ==> ds[j] == s@[j + start],
            all_digits(ds.subrange(0, (i - start) as int)),
            mag as int == digits_value(ds.subrange(0, (i - start) as int)),
            mag <= 0x8000_0000_0000_0000u128,
        decreases n - i,
    {
        let c = s.get_char(i);
        if !('0' <= c && c <= '9') {
            proof {
                assert(ds[(i - start) as int] == c);
                assert(!all_digits(ds));
            }
            return None;
        }
        proof {
            let k = (i - start) as int;
            assert(ds.subrange(0, k + 1).drop_last() =~= ds.subrange(0, k));
            assert(ds.subrange(0, k + 1).last() == ds[k]);
            assert forall|j: int| 0 <= j < k + 1 implies '0' <= #[trigger] ds.subrange(
                0,
                k + 1,
            )[j] <= '9' by {
                assert(ds.subrange(0, k + 1)[j] == ds[j]);
                if j < k {
                    assert(ds.subrange(0, k)[j] == ds[j]);
                }
            }
        }
        let d = (c as u32) - ('0' as u32);
        mag = mag * 10 + (d as u128);
        if mag > 0x8000_0000_0000_0000u128 {
            proof {
                let k = (i + 1 - start) as int;
                if all_digits(ds) {
                    lemma_digits_value_prefix_le(ds, k);
                    lemma_digits_value_nonneg(ds);
                }
            }
            return None;
        }
        i = i + 1;
    }
    proof {
        assert(ds.subrange(0, (n - start) as int) =~= ds);
    }
    if neg {
        if mag == 0x8000_0000_0000_0000u128 {
            Some(i64::MIN)
        } else {
            Some(-(mag as i64))
        }
    } else {
        if mag == 0x8000_0000_0000_0000u128 {
            None
        } else {
            Some(mag as i64)
        }
    }
}

// ---------------------------------------------------------------------
// The constant pool's interning, as functions of the pool.
// ---------------------------------------------------------------------

/// The first pool entry equal to `c` (meaningful when the pool has one).
pub open spec fn first_index(pool: Seq<Const>, c: Const) -> int
    decreases pool.len(),
{
    if pool.len() == 0 {
        0
    } else if ceq(pool[0], c) {
        0
    } else {
        1 + first_index(pool.drop_first(), c)
    }
}

/// The index `intern` returns for `c`: the first equal entry, else the
/// index of the appended one.
pub open spec fn intern_index(pool: Seq<Const>, c: Const) -> int {
    if pool_has(pool, c) {
        first_index(pool, c)
    } else {
        pool.len() as int
    }
}

/// The pool after interning `c`.
pub open spec fn intern_pool(pool: Seq<Const>, c: Const) -> Seq<Const> {
    if pool_has(pool, c) {
        pool
    } else {
        pool.push(c)
    }
}

proof fn lemma_first_index_props(pool: Seq<Const>, c: Const)
    requires
        pool_has(pool, c),
    ensures
        0 <= first_index(pool, c) < pool.len(),
        ceq(pool[first_index(pool, c)], c),
        forall|j: int| 0 <= j < first_index(pool, c) ==> !ceq(pool[j], c),
    decreases pool.len(),
{
    if !ceq(pool[0], c) {
        let w = choose|i: int| 0 <= i < pool.len() && ceq(pool[i], c);
        assert(pool.drop_first()[w - 1] == pool[w]);
        assert(pool_has(pool.drop_first(), c));
        lemma_first_index_props(pool.drop_first(), c);
        let fi = first_index(pool.drop_first(), c);
        assert(pool[fi + 1] == pool.drop_first()[fi]);
        assert forall|j: int| 0 <= j < fi + 1 implies !ceq(pool[j], c) by {
            if j > 0 {
                assert(pool.drop_first()[j - 1] == pool[j]);
            }
        }
    }
}

/// Ties the relational description of `intern` to its functional form.
pub proof fn lemma_intern_post_functional(p: Seq<Const>, c: Const, r: int, q: Seq<Const>)
    requires
        crate::ctx::intern_post(p, c, r, q),
    ensures
        r == intern_index(p, c),
        q == intern_pool(p, c),
{
    if pool_has(p, c) {
        lemma_first_index_props(p, c);
        let fi = first_index(p, c);
        if r < fi {
            assert(!ceq(p[r], c));
        }
        if fi < r {
            assert(!ceq(p[fi], c));
        }
    }
}

// ---------------------------------------------------------------------
// The lowering, as a function of node, pool and free registers.
// ---------------------------------------------------------------------

/// The compile-time error a lowering produces, if any.
pub ghost enum CompileErr {
    /// A malformed or out-of-range integer literal.
    BadInt { token: Token },
    /// A construct this lowering does not support.
    Unsupported { token: Token },
}

/// What lowering one node does: the instructions emitted, the pool and
/// free-register stack afterwards, and the result register or error.
pub ghost struct CompileOut {
    pub code: Seq<Op>,
    pub pool: Seq<Const>,
    pub regs: Seq<u8>,
    pub res: Result<u8, CompileErr>,
}

/// Shape-validity of a syntax node: atoms carry literal tokens,
/// identifiers and bindings carry a name, binary nodes carry an operator
/// token.  (This is what the external parser produces.)
pub open spec fn wf_node(ast: Node) -> bool
    decreases ast,
{
    match ast.inner {
        InnerNode::Atom => ast.token.t is Integer || ast.token.t is Double || ast.token.t
            is String || ast.token.t is True || ast.token.t is False,
        InnerNode::Ident => ast.token.t is Ident,
        InnerNode::Bin { lhs, rhs } => (ast.token.t is Plus || ast.token.t is Minus
            || ast.token.t is Asteriks || ast.token.t is Slash || ast.token.t is LessThan
            || ast.token.t is GreaterThan || ast.token.t is Equal) && wf_node(*lhs) && wf_node(
            *rhs,
        ),
        InnerNode::Let { rhs } => ast.token.t is Ident && wf_node(*rhs),
        _ => true,
    }
}

/// How many free registers lowering a node needs at once.
pub open spec fn regs_needed(ast: Node) -> nat
    decreases ast,
{
    match ast.inner {
        InnerNode::Atom => 1,
        InnerNode::Ident => 1,
        InnerNode::Bin { lhs, rhs } => {
            let a = regs_needed(*lhs);
            let b = regs_needed(*rhs) + 1;
            let m = if a >= b {
                a
            } else {
                b
            };
            if m >= 3 {
                m
            } else {
                3
            }
        },
        InnerNode::Let { rhs } => regs_needed(*rhs),
        _ => 0,
    }
}

/// An upper bound on how many constants lowering a node can intern.
pub open spec fn node_size(ast: Node) -> nat
    decreases ast,
{
    match ast.inner {
        InnerNode::Bin { lhs, rhs } => 1 + node_size(*lhs) + node_size(*rhs),
        InnerNode::Let { rhs } => 1 + node_size(*rhs),
        _ => 1,
    }
}

/// Lowering a pooled constant: allocate the top free register and load
/// the constant's pool index into it.
pub open spec fn load_const_out(pool: Seq<Const>, regs: Seq<u8>, c: Const) -> CompileOut {
    CompileOut {
        code: seq![Op::LoadG { dst: regs.last(), idx: intern_index(pool, c) as u32 }],
        pool: intern_pool(pool, c),
        regs: regs.drop_last(),
        res: Ok(regs.last()),
    }
}

/// The opcode a binary operator token lowers to.
pub open spec fn binop_op(t: Type, dst: u8, lhs: u8, rhs: u8) -> Op {
    match t {
        Type::Plus => Op::Add { dst, lhs, rhs },
        Type::Minus => Op::Sub { dst, lhs, rhs },
        Type::Asteriks => Op::Mul { dst, lhs, rhs },
        Type::Slash => Op::Div { dst, lhs, rhs },
        Type::LessThan => Op::Lt { dst, lhs, rhs },
        Type::GreaterThan => Op::Gt { dst, lhs, rhs },
        _ => Op::Eq { dst, lhs, rhs },
    }
}

/// The lowering itself.  Literal atoms load an immediate (integers) or a
/// pooled constant; identifiers load by name hash; a binary node lowers
/// left before right, allocates a destination, and frees both operand
/// registers; a binding lowers its right-hand side and binds it under
/// the name's hash.  Errors propagate fail-fast, leaving the code
/// emitted so far in place.
pub open spec fn compile_node(ast: Node, pool: Seq<Const>, regs: Seq<u8>) -> CompileOut
    decreases ast,
{
    match ast.inner {
        InnerNode::Atom => match ast.token.t {
            Type::Integer(s) => match parse_int_spec(s@) {
                Some(v) => CompileOut {
                    code: seq![Op::LoadI { dst: regs.last(), value: v }],
                    pool,
                    regs: regs.drop_last(),
                    res: Ok(regs.last()),
                },
                None => CompileOut {
                    code: Seq::empty(),
                    pool,
                    regs,
                    res: Err(CompileErr::BadInt { token: ast.token }),
                },
            },
            Type::Double { text, bits } => load_const_out(pool, regs, Const::Double(bits)),
            Type::String(st) => load_const_out(pool, regs, Const::Str(st)),
            Type::True => load_const_out(pool, regs, Const::True),
            Type::False => load_const_out(pool, regs, Const::False),
            _ => CompileOut {
                code: Seq::empty(),
                pool,
                regs,
                res: Err(CompileErr::Unsupported { token: ast.token }),
            },
        },
        InnerNode::Ident => match ast.token.t {
            Type::Ident(name) => CompileOut {
                code: seq![
                    Op::LoadV { dst: regs.last(), hash: name_hash_bytes(encode_utf8(name@)) },
                ],
                pool,
                regs: regs.drop_last(),
                res: Ok(regs.last()),
            },
            _ => CompileOut {
                code: Seq::empty(),
                pool,
                regs,
                res: Err(CompileErr::Unsupported { token: ast.token }),
            },
        },
        InnerNode::Bin { lhs, rhs } => {
            let l = compile_node(*lhs, pool, regs);
            match l.res {
                Err(e) => CompileOut { code: l.code, pool: l.pool, regs: l.regs, res: Err(e) },
                Ok(lr) => {
                    let rt = compile_node(*rhs, l.pool, l.regs);
                    match rt.res {
                        Err(e) => CompileOut {
                            code: l.code + rt.code,
                            pool: rt.pool,
                            regs: rt.regs,
                            res: Err(e),
                        },
                        Ok(rr) => {
                            let dst = rt.regs.last();
                            CompileOut {
                                code: l.code + rt.code + seq![binop_op(ast.token.t, dst, lr, rr)],
                                pool: rt.pool,
                                regs: rt.regs.drop_last().push(lr).push(rr),
                                res: Ok(dst),
                            }
                        },
                    }
                },
            }
        },
        InnerNode::Let { rhs } => {
            let e = compile_node(*rhs, pool, regs);
            match e.res {
                Err(err) => CompileOut { code: e.code, pool: e.pool, regs: e.regs, res: Err(err) },
                Ok(sr) => match ast.token.t {
                    Type::Ident(name) => CompileOut {
                        code: e.code + seq![
                            Op::Var { hash: name_hash_bytes(encode_utf8(name@)), src: sr },
                        ],
                        pool: e.pool,
                        regs: e.regs,
                        res: Ok(sr),
                    },
                    _ => CompileOut {
                        code: e.code,
                        pool: e.pool,
                        regs: e.regs,
                        res: Err(CompileErr::Unsupported { token: ast.token }),
                    },
                },
            }
        },
        _ => CompileOut {
            code: Seq::empty(),
            pool,
            regs,
            res: Err(CompileErr::Unsupported { token: ast.token }),
        },
    }
}

/// Register and pool bookkeeping of one lowering: the pool only grows,
/// by at most the node count, staying well-formed; the free-register
/// stack keeps distinct, in-range registers drawn from the input stack,
/// and a successful lowering consumes exactly one register — its result,
/// which is outstanding (not on the stack) afterwards.
pub proof fn lemma_compile_node_frame(ast: Node, pool: Seq<Const>, regs: Seq<u8>)
    requires
        wf_node(ast),
        regs_needed(ast) <= regs.len(),
        regs.no_duplicates(),
        forall|i: int| 0 <= i < regs.len() ==> (#[trigger] regs[i] as usize) < REGISTER_COUNT,
    ensures
        ({
            let out = compile_node(ast, pool, regs);
            &&& pool.len() <= out.pool.len() <= pool.len() + node_size(ast)
            &&& (pool_wf(pool) ==> pool_wf(out.pool))
            &&& out.regs.no_duplicates()
            &&& forall|k: int|
                0 <= k < out.regs.len() ==> regs.contains(#[trigger] out.regs[k])
            &&& (out.res matches Ok(r) ==> {
                &&& out.regs.len() == regs.len() - 1
                &&& !out.regs.contains(r)
                &&& regs.contains(r)
            })
            &&& (out.res is Err ==> out.regs.len() <= regs.len())
        }),
    decreases ast,
{
    let out = compile_node(ast, pool, regs);
    match ast.inner {
        InnerNode::Atom => {
            lemma_atom_frame(ast, pool, regs);
        },
        InnerNode::Ident => {
            assert(regs.contains(regs.last()));
            assert(!regs.drop_last().contains(regs.last()));
            assert forall|k: int| 0 <= k < regs.drop_last().len() implies regs.contains(
                #[trigger] regs.drop_last()[k],
            ) by {
                assert(regs.drop_last()[k] == regs[k]);
            }
        },
        InnerNode::Bin { lhs, rhs } => {
            lemma_compile_node_frame(*lhs, pool, regs);
            let l = compile_node(*lhs, pool, regs);
            if l.res is Ok {
                let lr = l.res->Ok_0;
                assert forall|i: int|
                    0 <= i < l.regs.len() implies (#[trigger] l.regs[i] as usize)
                    < REGISTER_COUNT by {
                    assert(regs.contains(l.regs[i]));
                }
                lemma_compile_node_frame(*rhs, l.pool, l.regs);
                let rt = compile_node(*rhs, l.pool, l.regs);
                if rt.res is Ok {
                    let rr = rt.res->Ok_0;
                    let dst = rt.regs.last();
                    assert(rt.regs.contains(dst));
                    assert(l.regs.contains(rr));
                    assert(l.regs.contains(dst));
                    assert(regs.contains(dst));
                    assert(!l.regs.contains(lr));
                    assert(lr != rr && lr != dst);
                    assert(!rt.regs.contains(rr));
                    assert(rr != dst);
                    let base = rt.regs.drop_last();
                    assert(!base.contains(dst));
                    assert forall|k: int| 0 <= k < base.len() implies rt.regs.contains(
                        #[trigger] base[k],
                    ) by {
                        assert(base[k] == rt.regs[k]);
                    }
                    assert(!base.contains(lr));
                    assert(!base.contains(rr));
                    let fin = base.push(lr).push(rr);
                    assert forall|a: int, b: int|
                        0 <= a < b < fin.len() implies fin[a] != fin[b] by {
                        if b < fin.len() - 2 {
                            assert(fin[a] == base[a] && fin[b] == base[b]);
                        } else if b == fin.len() - 2 {
                            assert(fin[a] == base[a] && fin[b] == lr);
                        } else if a < fin.len() - 2 {
                            assert(fin[a] == base[a] && fin[b] == rr);
                        } else {
                            assert(fin[a] == lr && fin[b] == rr);
                        }
                    }
                    assert(fin.no_duplicates());
                    assert forall|k: int| 0 <= k < fin.len() implies regs.contains(
                        #[trigger] fin[k],
                    ) by {
                        if k < fin.len() - 2 {
                            assert(fin[k] == base[k]);
                            assert(rt.regs.contains(base[k]));
                            assert(l.regs.contains(base[k]));
                        } else if k == fin.len() - 2 {
                            assert(fin[k] == lr);
                        } else {
                            assert(fin[k] == rr);
                            assert(l.regs.contains(rr));
                        }
                    }
                    assert(!fin.contains(dst)) by {
                        if fin.contains(dst) {
                            let k = choose|k: int| 0 <= k < fin.len() && fin[k] == dst;
                            if k < fin.len() - 2 {
                                assert(base[k] == dst);
                            }
                        }
                    }
                }
            }
        },
        InnerNode::Let { rhs } => {
            lemma_compile_node_frame(*rhs, pool, regs);
        },
        _ => {},
    }
}

proof fn lemma_atom_frame(ast: Node, pool: Seq<Const>, regs: Seq<u8>)
    requires
        wf_node(ast),
        ast.inner is Atom,
        1 <= regs.len(),
        regs.no_duplicates(),
    ensures
        ({
            let out = compile_node(ast, pool, regs);
            &&& pool.len() <= out.pool.len() <= pool.len() + 1
            &&& (pool_wf(pool) ==> pool_wf(out.pool))
            &&& out.regs.no_duplicates()
            &&& forall|k: int| 0 <= k < out.regs.len() ==> regs.contains(#[trigger] out.regs[k])
            &&& (out.res matches Ok(r) ==> out.regs.len() == regs.len() - 1 && !out.regs.contains(
                r,
            ) && regs.contains(r))
            &&& (out.res is Err ==> out.regs == regs)
        }),
{
    let out = compile_node(ast, pool, regs);
    assert(regs.contains(regs.last()));
    assert(!regs.drop_last().contains(regs.last()));
    assert forall|k: int| 0 <= k < regs.drop_last().len() implies regs.contains(
        #[trigger] regs.drop_last()[k],
    ) by {
        assert(regs.drop_last()[k] == regs[k]);
    }
    match ast.token.t {
        Type::Double { text, bits } => {
            if pool_wf(pool) {
                lemma_intern_pool_wf(pool, Const::Double(bits));
            }
        },
        Type::String(st) => {
            if pool_wf(pool) {
                lemma_intern_pool_wf(pool, Const::Str(st));
            }
        },
        Type::True => {
            if pool_wf(pool) {
                lemma_intern_pool_wf(pool, Const::True);
            }
        },
        Type::False => {
            if pool_wf(pool) {
                lemma_intern_pool_wf(pool, Const::False);
            }
        },
        _ => {},
    }
}

/// Interning keeps the pool deduplicated and its reserved entries.
proof fn lemma_intern_pool_wf(pool: Seq<Const>, c: Const)
    requires
        pool_wf(pool),
    ensures
        pool_wf(intern_pool(pool, c)),
        pool.len() <= intern_pool(pool, c).len() <= pool.len() + 1,
{
    if !pool_has(pool, c) {
        let q = pool.push(c);
        assert forall|a: int, b: int| 0 <= a < b < q.len() implies !ceq(q[a], q[b]) by {
            if b < q.len() - 1 {
                assert(q[a] == pool[a] && q[b] == pool[b]);
            } else {
                assert(q[a] == pool[a] && q[b] == c);
            }
        }
        assert(q[0] == pool[0] && q[1] == pool[1]);
    }
}

// ---------------------------------------------------------------------
// The compiler.
// ---------------------------------------------------------------------

/// How a lowering error surfaces as a user-facing diagnostic: located at
/// the offending token, with the error's message.
pub open spec fn err_matches(ce: CompileErr, e: PgError) -> bool {
    match ce {
        CompileErr::BadInt { token } => {
            &&& e.msg matches Some(m) && m@ == "invalid integer literal"@
            &&& e.line == token.line
            &&& e.start == token.col
            &&& e.end as nat == span_end(token.col as nat, token_len(token.t))
        },
        CompileErr::Unsupported { token } => {
            &&& e.msg matches Some(m) && m@ == "unsupported construct"@
            &&& e.line == token.line
            &&& e.start == token.col
            &&& e.end as nat == span_end(token.col as nat, token_len(token.t))
        },
    }
}

/// The compiler: the instructions emitted so far, the constant pool, and
/// the register allocator.
pub struct Cc {
    pub buf: Vec<Op>,
    pub ctx: Context,
    pub register: RegisterAllocator,
}

impl Cc {
    /// The fixed pool indices of the boolean constants.
    pub const GLOBAL_FALSE: u32 = 0;

    pub const GLOBAL_TRUE: u32 = 1;

    /// The compiler invariant: the pool is deduplicated with the
    /// booleans pre-interned, and the free-register stack is sound.
    pub open spec fn wf(self) -> bool {
        &&& pool_wf(self.ctx@)
        &&& self.register.wf()
    }

    /// A fresh compiler: empty code, the booleans at pool indices 0 and
    /// 1, every register free with the lowest ids hot.
    pub fn new() -> (r: Self)
        ensures
            r.wf(),
            r.buf@ == Seq::<Op>::empty(),
            r.ctx@ =~= seq![Const::False, Const::True],
            r.register.free@.len() == REGISTER_COUNT,
            forall|i: int|
                0 <= i < REGISTER_COUNT ==> r.register.free@[i] as int == REGISTER_COUNT - 1 - i,
    {
        let mut ctx = Context::new();
        ctx.intern(Const::False);
        proof {
            assert(!pool_has(Seq::<Const>::empty(), Const::False));
        }
        ctx.intern(Const::True);
        proof {
            assert(!ceq(Const::False, Const::True));
            assert(!pool_has(seq![Const::False], Const::True));
        }
        Cc { buf: Vec::new(), ctx, register: RegisterAllocator::new() }
    }

    /// Allocates a register and loads the pooled constant `c` into it.
    fn load_const(&mut self, c: Const) -> (r: u8)
        requires
            old(self).wf(),
            old(self).register.free@.len() >= 1,
            old(self).ctx@.len() < u32::MAX as usize,
        ensures
            final(self).wf(),
            ({
                let out = load_const_out(old(self).ctx@, old(self).register.free@, c);
                &&& final(self).buf@ == old(self).buf@ + out.code
                &&& final(self).ctx@ == out.pool
                &&& final(self).register.free@ == out.regs
                &&& out.res == Ok::<u8, CompileErr>(r)
            }),
    {
        let r = self.register.allocate();
        let idx = self.ctx.intern(c);
        proof {
            lemma_intern_post_functional(old(self).ctx@, c, idx as int, self.ctx@);
        }
        self.buf.push(Op::LoadG { dst: r, idx });
        r
    }

    /// Lowers one node, returning the register holding its value; the
    /// caller frees that register once the value is consumed.  Exactly
    /// the code, pool and register effects of `compile_node`; a bad
    /// integer literal or an unsupported construct aborts with a located
    /// diagnostic.
    pub fn cc(&mut self, ast: Node) -> (res: Result<u8, PgError>)
        requires
            old(self).wf(),
            wf_node(ast),
            regs_needed(ast) <= old(self).register.free@.len(),
            old(self).ctx@.len() + node_size(ast) <= u32::MAX as usize,
        ensures
            final(self).wf(),
            ({
                let out = compile_node(ast, old(self).ctx@, old(self).register.free@);
                &&& final(self).buf@ == old(self).buf@ + out.code
                &&& final(self).ctx@ == out.pool
                &&& final(self).register.free@ == out.regs
                &&& match res {
                    Ok(reg) => out.res == Ok::<u8, CompileErr>(reg),
                    Err(e) => out.res matches Err(ce) && err_matches(ce, e),
                }
            }),
        decreases ast,
    {
        let ghost ast0 = ast;
        let ghost pool0 = old(self).ctx@;
        let ghost regs0 = old(self).register.free@;
        match ast.inner {
            InnerNode::Atom => {
                match &ast.token.t {
                    Type::Integer(s) => {
                        match parse_int(s.as_str()) {
                            Some(value) => {
                                let r = self.register.allocate();
                                self.buf.push(Op::LoadI { dst: r, value });
                                Ok(r)
                            },
                            None => {
                                Err(
                                    PgError::with_msg(
                                        "invalid integer literal".to_owned(),
                                        &ast.token,
                                    ),
                                )
                            },
                        }
                    },
                    Type::Double { text, bits } => Ok(self.load_const(Const::Double(*bits))),
                    Type::String(s) => Ok(self.load_const(Const::Str(s.clone()))),
                    Type::True => Ok(self.load_const(Const::True)),
                    Type::False => Ok(self.load_const(Const::False)),
                    _ => unreached(),
                }
            },
            InnerNode::Ident => {
                let name = match &ast.token.t {
                    Type::Ident(n) => n,
                    _ => unreached(),
                };
                let r = self.register.allocate();
                let hash = hash_name(name.as_str());
                self.buf.push(Op::LoadV { dst: r, hash });
                Ok(r)
            },
            InnerNode::Bin { lhs, rhs } => {
                let ghost lhs0 = *lhs;
                let ghost rhs0 = *rhs;
                proof {
                    lemma_compile_node_frame(lhs0, pool0, regs0);
                }
                let lr = match self.cc(*lhs) {
                    Ok(r) => r,
                    Err(e) => {
                        return Err(e);
                    },
                };
                let ghost pool1 = self.ctx@;
                let ghost regs1 = self.register.free@;
                proof {
                    assert forall|i: int|
                        0 <= i < regs1.len() implies (#[trigger] regs1[i] as usize)
                        < REGISTER_COUNT by {
                        assert(regs0.contains(regs1[i]));
                    }
                    lemma_compile_node_frame(rhs0, pool1, regs1);
                }
                let rr = match self.cc(*rhs) {
                    Ok(r) => r,
                    Err(e) => {
                        proof {
                            assert(self.buf@ == old(self).buf@ + compile_node(lhs0, pool0, regs0).code
                                + compile_node(rhs0, pool1, regs1).code);
                        }
                        return Err(e);
                    },
                };
                let dst = self.register.allocate();
                let op = match &ast.token.t {
                    Type::Plus => Op::Add { dst, lhs: lr, rhs: rr },
                    Type::Minus => Op::Sub { dst, lhs: lr, rhs: rr },
                    Type::Asteriks => Op::Mul { dst, lhs: lr, rhs: rr },
                    Type::Slash => Op::Div { dst, lhs: lr, rhs: rr },
                    Type::LessThan => Op::Lt { dst, lhs: lr, rhs: rr },
                    Type::GreaterThan => Op::Gt { dst, lhs: lr, rhs: rr },
                    Type::Equal => Op::Eq { dst, lhs: lr, rhs: rr },
                    _ => unreached(),
                };
                self.buf.push(op);
                proof {
                    let rt = compile_node(rhs0, pool1, regs1);
                    assert(!rt.regs.drop_last().contains(lr)) by {
                        if rt.regs.drop_last().contains(lr) {
                            let k = choose|k: int|
                                0 <= k < rt.regs.drop_last().len() && rt.regs.drop_last()[k] == lr;
                            assert(rt.regs[k] == lr);
                            assert(regs1.contains(lr));
                        }
                    }
                    assert(regs0.contains(lr));
                }
                self.register.free(lr);
                proof {
                    let rt = compile_node(rhs0, pool1, regs1);
                    assert(!rt.regs.drop_last().push(lr).contains(rr)) by {
                        if rt.regs.drop_last().push(lr).contains(rr) {
                            let k = choose|k: int|
                                0 <= k < rt.regs.drop_last().push(lr).len()
                                    && rt.regs.drop_last().push(lr)[k] == rr;
                            if k < rt.regs.drop_last().len() {
                                assert(rt.regs[k] == rr);
                                assert(rt.regs.contains(rr));
                            } else {
                                assert(lr == rr);
                                assert(regs1.contains(rr));
                            }
                        }
                    }
                    assert(regs1.contains(rr));
                    assert(regs0.contains(rr));
                }
                self.register.free(rr);
                proof {
                    let out = compile_node(ast0, pool0, regs0);
                    let l = compile_node(lhs0, pool0, regs0);
                    let rt = compile_node(rhs0, pool1, regs1);
                    assert(self.buf@ =~= old(self).buf@ + out.code) by {
                        assert(out.code == l.code + rt.code + seq![
                            binop_op(ast0.token.t, dst, lr, rr),
                        ]);
                    }
                    assert(self.register.free@ =~= out.regs);
                }
                Ok(dst)
            },
            InnerNode::Let { rhs } => {
                let ghost rhs0 = *rhs;
                proof {
                    lemma_compile_node_frame(rhs0, pool0, regs0);
                }
                let src = match self.cc(*rhs) {
                    Ok(r) => r,
                    Err(e) => {
                        return Err(e);
                    },
                };
                let name = match &ast.token.t {
                    Type::Ident(n) => n,
                    _ => unreached(),
                };
                let hash = hash_name(name.as_str());
                self.buf.push(Op::Var { hash, src });
                proof {
                    let out = compile_node(ast0, pool0, regs0);
                    assert(self.buf@ =~= old(self).buf@ + out.code);
                }
                Ok(src)
            },
            _ => Err(PgError::with_msg("unsupported construct".to_owned(), &ast.token)),
        }
    }

    /// The statement-level entry point: lowers one top-level node and
    /// frees the register it produced, so no register leaks across
    /// independent statements.
    pub fn compile(&mut self, ast: Node) -> (res: Result<(), PgError>)
        requires
            old(self).wf(),
            wf_node(ast),
            regs_needed(ast) <= old(self).register.free@.len(),
            old(self).ctx@.len() + node_size(ast) <= u32::MAX as usize,
        ensures
            final(self).wf(),
            ({
                let out = compile_node(ast, old(self).ctx@, old(self).register.free@);
                &&& final(self).buf@ == old(self).buf@ + out.code
                &&& final(self).ctx@ == out.pool
                &&& match res {
                    Ok(u) => out.res matches Ok(reg) && final(self).register.free@ == out.regs.push(
                        reg,
                    ),
                    Err(e) => out.res matches Err(ce) && err_matches(ce, e)
                        && final(self).register.free@ == out.regs,
                }
            }),
    {
        let ghost ast0 = ast;
        let ghost pool0 = old(self).ctx@;
        let ghost regs0 = old(self).register.free@;
        proof {
            lemma_compile_node_frame(ast0, pool0, regs0);
        }
        let register = match self.cc(ast) {
            Ok(r) => r,
            Err(e) => {
                return Err(e);
            },
        };
        self.register.free(register);
        Ok(())
    }

    /// Consumes the compiler and yields the machine: the emitted
    /// bytecode paired with the pool mapped 1:1 into the global value
    /// table, in a fresh initial state.  Irreversible.
    pub fn finalize(self) -> (vm: crate::vm::Vm)
        ensures
            vm.wf(),
            vm.bytecode@ == self.buf@,
            vm.globals@.len() == self.ctx@.len(),
            forall|i: int|
                0 <= i < self.ctx@.len() ==> vm.globals@[i] == crate::value::value_of_const(
                    #[trigger] self.ctx@[i],
                ),
            vm.pc == 0,
            vm.frames@.len() == 1,
            vm.frames@[0].vars@.len() == 0,
            vm.heap@.len() == 0,
            forall|r: int| 0 <= r < REGISTER_COUNT ==> vm.registers@[r] is None,
    {
        let Cc { buf, ctx, register } = self;
        let mut globals: Vec<crate::value::Value> = Vec::new();
        let n = ctx.globals_vec.len();
        let mut i: usize = 0;
        while i < n
            invariant
                i <= n,
                n == ctx.globals_vec@.len(),
                globals@.len() == i,
                forall|k: int|
                    0 <= k < i ==> globals@[k] == crate::value::value_of_const(
                        #[trigger] ctx.globals_vec@[k],
                    ),
                forall|k: int|
                    0 <= k < i ==> crate::vm::value_handle(#[trigger] globals@[k]) is None,
            decreases n - i,
        {
            globals.push(crate::value::Value::of_const(&ctx.globals_vec[i]));
            i = i + 1;
        }
        crate::vm::Vm::new(buf, globals, DEFAULT_GC_THRESHOLD)
    }
}

/// The default heap-pressure threshold (live blocks) at which an
/// allocation first triggers a collection.
pub const DEFAULT_GC_THRESHOLD: usize = 64;

// ---------------------------------------------------------------------
// Laws of the lowering.
// ---------------------------------------------------------------------

/// The free-register stack of a fresh compiler: every id, lowest on top.
pub open spec fn fresh_regs() -> Seq<u8> {
    Seq::new(REGISTER_COUNT as nat, |i: int| (REGISTER_COUNT - 1 - i) as u8)
}

proof fn lemma_ceq_sym_trans(a: Const, b: Const, c: Const)
    requires
        ceq(b, a),
        ceq(b, c),
    ensures
        ceq(a, c),
        ceq(a, b),
{
}

proof fn lemma_first_index_same(p: Seq<Const>, c1: Const, c2: Const)
    requires
        ceq(c1, c2),
    ensures
        first_index(p, c1) == first_index(p, c2),
    decreases p.len(),
{
    if p.len() > 0 {
        if ceq(p[0], c1) {
            lemma_ceq_sym_trans(c2, p[0], c1);
            assert(ceq(p[0], c2));
        } else if ceq(p[0], c2) {
            lemma_ceq_sym_trans(c1, p[0], c2);
            assert(false);
        } else {
            lemma_first_index_same(p.drop_first(), c1, c2);
        }
    }
}

/// Interning a constant equal to one already interned returns the same
/// pool index and leaves the pool unchanged.
pub proof fn lemma_intern_again(p: Seq<Const>, c1: Const, c2: Const)
    requires
        ceq(c1, c2),
    ensures
        intern_pool(intern_pool(p, c1), c2) == intern_pool(p, c1),
        intern_index(intern_pool(p, c1), c2) == intern_index(p, c1),
{
    if pool_has(p, c1) {
        assert forall|i: int| 0 <= i < p.len() && ceq(p[i], c1) implies ceq(p[i], c2) by {
            lemma_ceq_sym_trans(c1, p[i], c1);
            assert(ceq(c1, p[i]));
        }
        let w = choose|i: int| 0 <= i < p.len() && ceq(p[i], c1);
        assert(ceq(p[w], c2));
        assert(pool_has(p, c2));
        lemma_first_index_same(p, c1, c2);
    } else {
        let q = p.push(c1);
        crate::ctx::lemma_ceq_refl(c1);
        assert(q[p.len() as int] == c1);
        assert(ceq(q[p.len() as int], c2));
        assert(pool_has(q, c2));
        lemma_first_index_props(q, c2);
        let fi = first_index(q, c2);
        if fi < p.len() {
            assert(q[fi] == p[fi]);
            lemma_ceq_sym_trans(c1, p[fi], c2);
            assert(ceq(p[fi], c1));
            assert(pool_has(p, c1));
            assert(false);
        }
        assert(fi == p.len());
        if pool_has(p, c2) {
            let w2 = choose|i: int| 0 <= i < p.len() && ceq(p[i], c2);
            lemma_ceq_sym_trans(c2, p[w2], c2);
            lemma_ceq_sym_trans(c1, p[w2], c2);
            assert(false);
        }
        assert(intern_pool(q, c2) == q);
    }
}

/// Compiling the same string literal twice in one compilation emits two
/// pool loads that reference the same pool index: the text is interned
/// once and shared.
pub proof fn lemma_same_string_same_pool_index(
    a1: Node,
    a2: Node,
    pool: Seq<Const>,
    regs1: Seq<u8>,
    regs2: Seq<u8>,
)
    requires
        a1.inner is Atom,
        a2.inner is Atom,
        a1.token.t is String,
        a2.token.t is String,
        (a1.token.t->String_0)@ == (a2.token.t->String_0)@,
        regs1.len() >= 1,
        regs2.len() >= 1,
    ensures
        ({
            let o1 = compile_node(a1, pool, regs1);
            let o2 = compile_node(a2, o1.pool, regs2);
            &&& o1.code.len() == 1
            &&& o2.code.len() == 1
            &&& (o1.code[0] matches Op::LoadG { idx: i1, .. } && o2.code[0] matches Op::LoadG {
                idx: i2,
                ..
            } && i1 == i2)
        }),
{
    let s1 = a1.token.t->String_0;
    let s2 = a2.token.t->String_0;
    assert(ceq(Const::Str(s1), Const::Str(s2)));
    lemma_intern_again(pool, Const::Str(s1), Const::Str(s2));
}

/// From a fresh compiler, `a + b` over identifiers lowers to exactly:
/// load-by-hash of `a` into register 0, load-by-hash of `b` into
/// register 1, and the addition into a fresh register 2 — after which
/// registers 0 and 1 sit on top of the free stack, available for reuse
/// by the next allocations.
pub proof fn lemma_fresh_ident_sum_lowering(ast: Node, na: String, nb: String, pool: Seq<Const>)
    requires
        ast.token.t is Plus,
        (ast.inner matches InnerNode::Bin { lhs, rhs } && lhs.inner is Ident && lhs.token.t
            == Type::Ident(na) && rhs.inner is Ident && rhs.token.t == Type::Ident(nb)),
    ensures
        ({
            let out = compile_node(ast, pool, fresh_regs());
            &&& out.code =~= seq![
                Op::LoadV { dst: 0u8, hash: name_hash_bytes(encode_utf8(na@)) },
                Op::LoadV { dst: 1u8, hash: name_hash_bytes(encode_utf8(nb@)) },
                Op::Add { dst: 2u8, lhs: 0u8, rhs: 1u8 },
            ]
            &&& out.res == Ok::<u8, CompileErr>(2u8)
            &&& out.pool == pool
            &&& out.regs.last() == 1u8
            &&& out.regs[out.regs.len() - 2] == 0u8
        }),
{
    let regs = fresh_regs();
    assert(regs.len() == 32);
    assert(regs[31] == 0u8);
    assert(regs[30] == 1u8);
    assert(regs[29] == 2u8);
    assert(regs.last() == 0u8);
    let r1 = regs.drop_last();
    assert(r1.len() == 31 && r1.last() == regs[30]);
    let r2 = r1.drop_last();
    assert(r2.len() == 30 && r2.last() == regs[29]);
    let lhs = ast.inner->Bin_lhs;
    let rhs = ast.inner->Bin_rhs;
    let l = compile_node(*lhs, pool, regs);
    assert(l.res == Ok::<u8, CompileErr>(0u8));
    assert(l.regs == r1);
    assert(l.pool == pool);
    assert(l.code =~= seq![Op::LoadV { dst: 0u8, hash: name_hash_bytes(encode_utf8(na@)) }]);
    let rt = compile_node(*rhs, pool, r1);
    assert(rt.res == Ok::<u8, CompileErr>(1u8));
    assert(rt.regs == r2);
    assert(rt.pool == pool);
    assert(rt.code =~= seq![Op::LoadV { dst: 1u8, hash: name_hash_bytes(encode_utf8(nb@)) }]);
    let out = compile_node(ast, pool, regs);
    assert(out.code == l.code + rt.code + seq![binop_op(ast.token.t, 2u8, 0u8, 1u8)]);
    assert(binop_op(ast.token.t, 2u8, 0u8, 1u8) == (Op::Add { dst: 2u8, lhs: 0u8, rhs: 1u8 }));
}

/// Each of the seven binary operators, applied to two integer-literal
/// operands from a fresh compiler, lowers to its opcode (`binop_op`,
/// the 1:1 operator-to-opcode table) over the identical register
/// pattern: the literals into registers 0 and 1, the result into 2.
pub proof fn lemma_binop_register_pattern(
    ast: Node,
    sl: String,
    sr: String,
    vl: i64,
    vr: i64,
    pool: Seq<Const>,
)
    requires
        (ast.inner matches InnerNode::Bin { lhs, rhs } && lhs.inner is Atom && lhs.token.t
            == Type::Integer(sl) && rhs.inner is Atom && rhs.token.t == Type::Integer(sr)),
        ast.token.t is Plus || ast.token.t is Minus || ast.token.t is Asteriks || ast.token.t
            is Slash || ast.token.t is LessThan || ast.token.t is GreaterThan || ast.token.t
            is Equal,
        parse_int_spec(sl@) == Some(vl),
        parse_int_spec(sr@) == Some(vr),
    ensures
        ({
            let out = compile_node(ast, pool, fresh_regs());
            &&& out.code =~= seq![
                Op::LoadI { dst: 0u8, value: vl },
                Op::LoadI { dst: 1u8, value: vr },
                binop_op(ast.token.t, 2u8, 0u8, 1u8),
            ]
            &&& out.res == Ok::<u8, CompileErr>(2u8)
            &&& out.pool == pool
        }),
{
    let regs = fresh_regs();
    assert(regs.len() == 32);
    assert(regs[31] == 0u8);
    assert(regs[30] == 1u8);
    assert(regs[29] == 2u8);
    assert(regs.last() == 0u8);
    let r1 = regs.drop_last();
    assert(r1.len() == 31 && r1.last() == regs[30]);
    let r2 = r1.drop_last();
    assert(r2.len() == 30 && r2.last() == regs[29]);
    let lhs = ast.inner->Bin_lhs;
    let rhs = ast.inner->Bin_rhs;
    let l = compile_node(*lhs, pool, regs);
    assert(l.res == Ok::<u8, CompileErr>(0u8));
    assert(l.regs == r1);
    assert(l.pool == pool);
    assert(l.code =~= seq![Op::LoadI { dst: 0u8, value: vl }]);
    let rt = compile_node(*rhs, pool, r1);
    assert(rt.res == Ok::<u8, CompileErr>(1u8));
    assert(rt.regs == r2);
    assert(rt.pool == pool);
    assert(rt.code =~= seq![Op::LoadI { dst: 1u8, value: vr }]);
    let out = compile_node(ast, pool, regs);
    assert(out.code == l.code + rt.code + seq![binop_op(ast.token.t, 2u8, 0u8, 1u8)]);
}

/// A fresh compiler's free-register stack is exactly `fresh_regs()`.
pub proof fn lemma_new_compiler_regs(c: Cc)
    requires
        c.register.free@.len() == REGISTER_COUNT,
        forall|i: int|
            0 <= i < REGISTER_COUNT ==> #[trigger] c.register.free@[i] as int == REGISTER_COUNT - 1
                - i,
    ensures
        c.register.free@ =~= fresh_regs(),
{
}

} // verus!
