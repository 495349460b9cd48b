//! The constant pool: a deduplicated, insertion-ordered store of
//! compile-time constants.
//!
//! Indices 0 and 1 are reserved for the boolean `false` / `true` constants.
//! `intern` returns the index of an equal constant if one is already stored,
//! else appends.  Equality is structural; doubles are compared by their
//! exact IEEE-754 bit pattern, so numerically equal doubles with different
//! bit patterns are distinct constants.

use vstd::prelude::*;

verus! {

/// A compile-time constant.  A double is carried as its IEEE-754 bit
/// pattern, which is also how the pool compares and deduplicates it.
#[derive(Debug)]
pub enum Const {
    False,
    True,
    Int(i64),
    Double(u64),
    Str(String),
}

/// Structural equality of constants: variants and payloads must agree;
/// strings are compared by their character sequences.
pub open spec fn ceq(a: Const, b: Const) -> bool {
    match (a, b) {
        (Const::False, Const::False) => true,
        (Const::True, Const::True) => true,
        (Const::Int(x), Const::Int(y)) => x == y,
        (Const::Double(x), Const::Double(y)) => x == y,
        (Const::Str(x), Const::Str(y)) => x@ == y@,
        _ => false,
    }
}

pub proof fn lemma_ceq_refl(c: Const)
    ensures
        ceq(c, c),
{
}

impl PartialEq for Const {
    fn eq(&self, other: &Const) -> (r: bool) {
        match (self, other) {
            (Const::False, Const::False) => true,
            (Const::True, Const::True) => true,
            (Const::Int(x), Const::Int(y)) => x == y,
            (Const::Double(x), Const::Double(y)) => x == y,
            (Const::Str(x), Const::Str(y)) => x.eq(y),
            _ => false,
        }
    }
}

impl vstd::std_specs::cmp::PartialEqSpecImpl for Const {
    open spec fn obeys_eq_spec() -> bool {
        true
    }

    open spec fn eq_spec(&self, other: &Const) -> bool {
        ceq(*self, *other)
    }
}

/// Whether the pool already stores a constant equal to `c`.
pub open spec fn pool_has(pool: Seq<Const>, c: Const) -> bool {
    exists|i: int| 0 <= i < pool.len() && ceq(pool[i], c)
}

/// The pool invariant: the reserved boolean constants sit at indices 0 and
/// 1, and no two entries are equal.
pub open spec fn pool_wf(pool: Seq<Const>) -> bool {
    &&& pool.len() >= 2
    &&& pool[0] == Const::False
    &&& pool[1] == Const::True
    &&& forall|i: int, j: int| 0 <= i < j < pool.len() ==> !ceq(pool[i], pool[j])
}

/// Describes `intern` exactly: starting from pool `p`, interning `c`
/// yields index `r` and pool `q`.  A present constant is found at its
/// first equal entry and the pool is unchanged; an absent one is appended.
pub open spec fn intern_post(p: Seq<Const>, c: Const, r: int, q: Seq<Const>) -> bool {
    if pool_has(p, c) {
        &&& q == p
        &&& 0 <= r < p.len()
        &&& ceq(p[r], c)
        &&& forall|j: int| 0 <= j < r ==> !ceq(p[j], c)
    } else {
        &&& q == p.push(c)
        &&& r == p.len()
    }
}

/// Owns the pool's insertion-ordered constant sequence.
#[derive(Debug)]
pub struct Context {
    pub globals_vec: Vec<Const>,
}

impl View for Context {
    type V = Seq<Const>;

    open spec fn view(&self) -> Seq<Const> {
        self.globals_vec@
    }
}

impl Context {
    /// An empty pool; the compiler pre-interns the reserved booleans.
    pub fn new() -> (r: Self)
        ensures
            r@.len() == 0,
    {
        Context { globals_vec: Vec::new() }
    }

    /// Returns the index of an entry equal to `constant`, appending one if
    /// none is stored yet.
    pub fn intern(&mut self, constant: Const) -> (r: u32)
        requires
            old(self)@.len() < u32::MAX as usize,
        ensures
            intern_post(old(self)@, constant, r as int, final(self)@),
            pool_wf(old(self)@) ==> pool_wf(final(self)@),
    {
        let n = self.globals_vec.len();
        let mut i: usize = 0;
        while i < n
            invariant
                self.globals_vec@ == old(self).globals_vec@,
                n == self.globals_vec@.len(),
                n < u32::MAX as usize,
                i <= n,
                forall|j: int| 0 <= j < i ==> !ceq(self.globals_vec@[j], constant),
            decreases n - i,
        {
            if self.globals_vec[i].eq(&constant) {
                proof {
                    assert(ceq(self.globals_vec@[i as int], constant));
                    assert(pool_has(old(self)@, constant));
                }
                return i as u32;
            }
            i = i + 1;
        }
        proof {
            assert(!pool_has(old(self)@, constant));
            if pool_wf(old(self)@) {
                let q = old(self)@.push(constant);
                assert forall|a: int, b: int| 0 <= a < b < q.len() implies !ceq(q[a], q[b]) by {
                    if b < q.len() - 1 {
                        assert(q[a] == old(self)@[a] && q[b] == old(self)@[b]);
                    } else {
                        assert(q[a] == old(self)@[a] && q[b] == constant);
                        assert(!ceq(old(self)@[a], constant));
                    }
                }
                assert(q[0] == old(self)@[0]);
                assert(q[1] == old(self)@[1]);
            }
        }
        self.globals_vec.push(constant);
        n as u32
    }
}

/// Interning the same constant twice returns the same index, and the
/// second interning never changes the pool.
pub proof fn lemma_intern_twice_same_index(
    p: Seq<Const>,
    c: Const,
    r1: int,
    q1: Seq<Const>,
    r2: int,
    q2: Seq<Const>,
)
    requires
        intern_post(p, c, r1, q1),
        intern_post(q1, c, r2, q2),
    ensures
        r2 == r1,
        q2 == q1,
{
    lemma_ceq_refl(c);
    if pool_has(p, c) {
        assert(q1 == p);
        assert(pool_has(q1, c));
        if r1 < r2 {
            assert(!ceq(p[r1], c));
        }
        if r2 < r1 {
            assert(!ceq(p[r2], c));
        }
    } else {
        assert(q1 == p.push(c));
        assert(q1[p.len() as int] == c);
        assert(pool_has(q1, c));
        assert forall|j: int| 0 <= j < p.len() implies !ceq(q1[j], c) by {
            assert(q1[j] == p[j]);
            assert(!pool_has(p, c));
        }
        if r2 < p.len() {
            assert(!ceq(q1[r2], c));
        }
    }
}

/// The reserved boolean constants keep indices 0 and 1 across any
/// interning, and the pool stays deduplicated.
pub proof fn lemma_intern_preserves_reserved(
    p: Seq<Const>,
    c: Const,
    r: int,
    q: Seq<Const>,
)
    requires
        pool_wf(p),
        intern_post(p, c, r, q),
    ensures
        pool_wf(q),
        q[0] == Const::False,
        q[1] == Const::True,
{
    if !pool_has(p, c) {
        assert forall|a: int, b: int| 0 <= a < b < q.len() implies !ceq(q[a], q[b]) by {
            if b < q.len() - 1 {
                assert(q[a] == p[a] && q[b] == p[b]);
            } else {
                assert(q[a] == p[a] && q[b] == c);
                assert(!pool_has(p, c));
            }
        }
        assert(q[0] == p[0]);
        assert(q[1] == p[1]);
    }
}

/// Two doubles with different bit patterns never deduplicate to one pool
/// entry, even if they are numerically equal.
pub proof fn lemma_distinct_double_bits_never_merge(
    p: Seq<Const>,
    b1: u64,
    b2: u64,
    r1: int,
    q1: Seq<Const>,
    r2: int,
    q2: Seq<Const>,
)
    requires
        b1 != b2,
        intern_post(p, Const::Double(b1), r1, q1),
        intern_post(q1, Const::Double(b2), r2, q2),
    ensures
        r1 != r2,
        ceq(q2[r1], Const::Double(b1)),
        ceq(q2[r2], Const::Double(b2)),
{
    lemma_ceq_refl(Const::Double(b1));
    lemma_ceq_refl(Const::Double(b2));
    assert(0 <= r1 < q1.len() && ceq(q1[r1], Const::Double(b1)));
    assert(0 <= r2 < q2.len() && ceq(q2[r2], Const::Double(b2)));
    assert(q2[r1] == q1[r1]);
}

} // verus!
