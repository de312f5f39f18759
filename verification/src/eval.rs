//! The integer-only parts of the evaluator: the test runner's deterministic
//! random source, the standard library's names, the literal check for
//! model replies, and the records the runner reports.
use vstd::prelude::*;
use crate::ast::{BinOp, Expr, ExprKind};
use crate::diag::{Diag, Span};
use crate::text::{owned, push_str, str_eq};

verus! {

/// A runtime halt: a diagnostic citing the rule that stopped evaluation.
pub struct RunErr {
    pub diag: Diag,
}

/// The result of one test.
pub struct TestOutcome {
    pub name: String,
    pub passed: bool,
    /// failure message or counterexample
    pub detail: Option<String>,
    pub cases: usize,
    pub span: Span,
    pub property: bool,
}

/// Why integer arithmetic at run time halts [W38].
#[derive(Debug, PartialEq, Eq, Structural)]
pub enum IntHalt {
    DivisionByZero,
    ModuloByZero,
    Overflow,
}

/// The operators of integer arithmetic.
pub open spec fn is_arith(op: BinOp) -> bool {
    op is Add || op is Sub || op is Mul || op is Div || op is Rem
}

/// Division rounding toward zero.
pub open spec fn quot_toward_zero(x: int, d: int) -> int {
    if x == 0 {
        0
    } else if x > 0 && d > 0 {
        x / d
    } else if x < 0 && d < 0 {
        (x * -1) / (d * -1)
    } else if x < 0 {
        ((x * -1) / d) * -1
    } else {
        (x / (d * -1)) * -1
    }
}

/// The remainder of division rounding toward zero: it has the sign of `x`.
pub open spec fn rem_toward_zero(x: int, d: int) -> int {
    if x == 0 {
        0
    } else if x > 0 && d > 0 {
        x % d
    } else if x < 0 && d < 0 {
        ((x * -1) % (d * -1)) * -1
    } else if x < 0 {
        ((x * -1) % d) * -1
    } else {
        x % (d * -1)
    }
}

/// A mathematical result as a 64-bit integer, or an overflow.
pub open spec fn fit_i64(v: int) -> Result<i64, IntHalt> {
    if i64::MIN <= v <= i64::MAX {
        Ok(v as i64)
    } else {
        Err(IntHalt::Overflow)
    }
}

/// Integer arithmetic at run time: the exact result when it fits in 64
/// bits, a halt on division or modulo by zero, and an overflow halt
/// otherwise (also for the remainder of the smallest integer by -1).
pub open spec fn int_arith_spec(op: BinOp, a: i64, b: i64) -> Result<i64, IntHalt> {
    match op {
        BinOp::Add => fit_i64(a + b),
        BinOp::Sub => fit_i64(a - b),
        BinOp::Mul => fit_i64(a * b),
        BinOp::Div => if b == 0 {
            Err(IntHalt::DivisionByZero)
        } else {
            fit_i64(quot_toward_zero(a as int, b as int))
        },
        _ => if b == 0 {
            Err(IntHalt::ModuloByZero)
        } else if a == i64::MIN && b == -1 {
            Err(IntHalt::Overflow)
        } else {
            fit_i64(rem_toward_zero(a as int, b as int))
        },
    }
}

fn some_or_overflow(r: Option<i64>) -> (out: Result<i64, IntHalt>)
    ensures
        out == match r {
            Some(v) => Ok(v),
            None => Err(IntHalt::Overflow),
        },
{
    match r {
        Some(v) => Ok(v),
        None => Err(IntHalt::Overflow),
    }
}

/// Apply an arithmetic operator to two integers.
pub fn int_arith(op: BinOp, a: i64, b: i64) -> (r: Result<i64, IntHalt>)
    requires
        is_arith(op),
    ensures
        r == int_arith_spec(op, a, b),
{
    match op {
        BinOp::Add => some_or_overflow(a.checked_add(b)),
        BinOp::Sub => some_or_overflow(a.checked_sub(b)),
        BinOp::Mul => some_or_overflow(a.checked_mul(b)),
        BinOp::Div => {
            if b == 0 {
                Err(IntHalt::DivisionByZero)
            } else {
                some_or_overflow(a.checked_div(b))
            }
        },
        _ => {
            if b == 0 {
                Err(IntHalt::ModuloByZero)
            } else {
                some_or_overflow(a.checked_rem(b))
            }
        },
    }
}

/// The integers from `lo` up to but not including `hi`.
pub fn int_range(lo: i64, hi: i64) -> (r: Vec<i64>)
    requires
        hi - lo < usize::MAX,
    ensures
        r@.len() == if lo < hi { hi - lo } else { 0 },
        forall|k: int| 0 <= k < r@.len() ==> #[trigger] r@[k] == lo + k,
{
    let mut out: Vec<i64> = Vec::new();
    let mut i = lo;
    while i < hi
        invariant
            lo <= i,
            lo < hi ==> i <= hi,
            hi <= lo ==> i == lo,
            out@.len() == i - lo,
            forall|k: int| 0 <= k < out@.len() ==> #[trigger] out@[k] == lo + k,
        decreases hi - i,
    {
        out.push(i);
        i += 1;
    }
    proof {
        if lo < hi {
            assert(i == hi);
        }
    }
    out
}

/// The position `i` names in a list of `len` items, if any.
pub fn list_position(len: usize, i: i64) -> (r: Option<usize>)
    ensures
        r == if 0 <= i < len {
            Some(i as usize)
        } else {
            None::<usize>
        },
{
    if i >= 0 && (i as u64) < (len as u64) {
        Some(i as usize)
    } else {
        None
    }
}

/// The splitmix64 increment.
pub open spec fn splitmix_step(s: u64) -> u64 {
    s.wrapping_add(0x9E37_79B9_7F4A_7C15u64)
}

/// The splitmix64 output function.
pub open spec fn splitmix_mix(z: u64) -> u64 {
    let a = (z ^ (z >> 30u64)).wrapping_mul(0xBF58_476D_1CE4_E5B9u64);
    let b = (a ^ (a >> 27u64)).wrapping_mul(0x94D0_49BB_1331_11EBu64);
    b ^ (b >> 31u64)
}

/// The runner's deterministic random source (splitmix64).
pub struct Prng {
    pub state: u64,
}

impl Prng {
    /// The generator every run starts from.
    pub fn new() -> (r: Prng)
        ensures
            r.state == 0x9E37_79B9_7F4A_7C15u64,
    {
        Prng { state: 0x9E37_79B9_7F4A_7C15u64 }
    }

    pub fn next_u64(&mut self) -> (r: u64)
        ensures
            final(self).state == splitmix_step(old(self).state),
            r == splitmix_mix(final(self).state),
    {
        self.state = self.state.wrapping_add(0x9E37_79B9_7F4A_7C15u64);
        let mut z = self.state;
        z = (z ^ (z >> 30u64)).wrapping_mul(0xBF58_476D_1CE4_E5B9u64);
        z = (z ^ (z >> 27u64)).wrapping_mul(0x94D0_49BB_1331_11EBu64);
        z ^ (z >> 31u64)
    }

    /// A number in `lo..=hi`: the next output reduced modulo the range's size.
    pub fn next_range(&mut self, lo: i64, hi: i64) -> (r: i64)
        requires
            lo <= hi,
            hi - lo < i64::MAX,
        ensures
            final(self).state == splitmix_step(old(self).state),
            r == lo + (splitmix_mix(final(self).state) % ((hi - lo + 1) as u64)),
            lo <= r <= hi,
    {
        let span = (hi - lo + 1) as u64;
        let x = self.next_u64();
        let m = x % span;
        assert(m < span);
        lo + (m as i64)
    }
}

/// The standard library's function names.
pub open spec fn builtin_names() -> Seq<Seq<char>> {
    seq![
        "text_len"@, "text_of_int"@, "text_of_float"@, "text_of_bool"@, "int_of_text"@, "split"@, "join"@,
        "contains"@, "chars"@, "to_upper"@, "to_lower"@, "trim"@, "len"@, "list_get"@, "append"@, "map"@,
        "filter"@, "fold"@, "range"@, "reverse"@, "sort_by"@, "zip"@, "find"@, "index_of"@, "unwrap_or"@,
        "ok_or"@, "abs"@, "min"@, "max"@, "int_to_float"@, "float_to_int"@, "print"@, "read_line"@, "fs"@,
        "fs_read"@, "fs_write"@, "rand"@, "rand_int"@, "clock"@, "now_ms"@, "model"@,
    ]
}

/// Whether `name` is a standard library function.
pub fn is_builtin(name: &str) -> (r: bool)
    ensures
        r == builtin_names().contains(name@),
{
    let names: [&str; 41] = [
        "text_len", "text_of_int", "text_of_float", "text_of_bool", "int_of_text", "split", "join",
        "contains", "chars", "to_upper", "to_lower", "trim", "len", "list_get", "append", "map",
        "filter", "fold", "range", "reverse", "sort_by", "zip", "find", "index_of", "unwrap_or",
        "ok_or", "abs", "min", "max", "int_to_float", "float_to_int", "print", "read_line", "fs",
        "fs_read", "fs_write", "rand", "rand_int", "clock", "now_ms", "model",
    ];
    let ghost bn = builtin_names();
    assert(names@.len() == 41);
    assert forall|k: int| 0 <= k < 41 implies (#[trigger] names@[k])@ == bn[k] by {}
    let mut i: usize = 0;
    while i < 41
        invariant
            i <= 41,
            names@.len() == 41,
            bn == builtin_names(),
            forall|k: int| 0 <= k < 41 ==> (#[trigger] names@[k])@ == bn[k],
            forall|k: int| 0 <= k < i ==> bn[k] != name@,
        decreases 41 - i,
    {
        if str_eq(names[i], name) {
            assert(bn[i as int] == name@);
            return true;
        }
        i += 1;
    }
    false
}

/// A model reply may only be a literal tree: no names, calls, or control flow.
pub open spec fn is_literal(e: Expr) -> bool
    decreases e, 1nat,
{
    match e.kind {
        ExprKind::Int(_) | ExprKind::Float(_) | ExprKind::Bool(_) | ExprKind::Text(_) | ExprKind::Unit => true,
        ExprKind::NegOp(i) => is_literal(*i),
        ExprKind::List(es) => all_literal(es@),
        ExprKind::Ctor(_, args) => all_literal(args@),
        ExprKind::Record { spread, fields } => spread is None && fields_literal(fields@),
        ExprKind::NamedRec { spread, fields, .. } => spread is None && fields_literal(fields@),
        _ => false,
    }
}

pub open spec fn all_literal(es: Seq<Expr>) -> bool
    decreases es, 0nat,
{
    if es.len() == 0 {
        true
    } else {
        is_literal(es[0]) && all_literal(es.subrange(1, es.len() as int))
    }
}

pub open spec fn fields_literal(fs: Seq<(String, Expr)>) -> bool
    decreases fs, 0nat,
{
    if fs.len() == 0 {
        true
    } else {
        is_literal(fs[0].1) && fields_literal(fs.subrange(1, fs.len() as int))
    }
}

pub fn literal_only(e: &Expr) -> (r: bool)
    ensures
        r == is_literal(*e),
    decreases *e, 1nat,
{
    match &e.kind {
        ExprKind::Int(_) | ExprKind::Float(_) | ExprKind::Bool(_) | ExprKind::Text(_) | ExprKind::Unit => true,
        ExprKind::NegOp(inner) => literal_only(inner),
        ExprKind::List(es) => all_literal_only(es),
        ExprKind::Ctor(_, args) => all_literal_only(args),
        ExprKind::Record { spread, fields } => spread.is_none() && fields_literal_only(fields),
        ExprKind::NamedRec { spread, fields, .. } => spread.is_none() && fields_literal_only(fields),
        _ => false,
    }
}

fn all_literal_only(es: &Vec<Expr>) -> (r: bool)
    ensures
        r == all_literal(es@),
    decreases es@, 0nat,
{
    let mut i: usize = 0;
    assert(es@.subrange(0, es@.len() as int) =~= es@);
    while i < es.len()
        invariant
            i <= es@.len(),
            all_literal(es@) == all_literal(es@.subrange(i as int, es@.len() as int)),
        decreases es.len() - i,
    {
        let ghost rest = es@.subrange(i as int, es@.len() as int);
        proof {
            assert(decreases_to!(es@ => es@[i as int]));
            assert(rest[0] == es@[i as int]);
            assert(rest.subrange(1, rest.len() as int) =~= es@.subrange(i + 1, es@.len() as int));
        }
        if !literal_only(&es[i]) {
            return false;
        }
        i += 1;
    }
    true
}

fn fields_literal_only(fs: &Vec<(String, Expr)>) -> (r: bool)
    ensures
        r == fields_literal(fs@),
    decreases fs@, 0nat,
{
    let mut i: usize = 0;
    assert(fs@.subrange(0, fs@.len() as int) =~= fs@);
    while i < fs.len()
        invariant
            i <= fs@.len(),
            fields_literal(fs@) == fields_literal(fs@.subrange(i as int, fs@.len() as int)),
        decreases fs.len() - i,
    {
        let ghost rest = fs@.subrange(i as int, fs@.len() as int);
        proof {
            assert(decreases_to!(fs@ => fs@[i as int]));
            assert(decreases_to!(fs@[i as int] => fs@[i as int].1));
            assert(rest[0] == fs@[i as int]);
            assert(rest.subrange(1, rest.len() as int) =~= fs@.subrange(i + 1, fs@.len() as int));
        }
        if !literal_only(&fs[i].1) {
            return false;
        }
        i += 1;
    }
    true
}

pub open spec fn opt_text(o: Option<String>) -> Seq<char> {
    match o {
        Some(s) => s@,
        None => seq![],
    }
}

/// The diagnostic a failed test is reported with: a property test cites
/// W35, a unit test W34.
pub fn test_failure_diag(o: &TestOutcome) -> (r: Diag)
    ensures
        r.rule@ == (if o.property { "W35"@ } else { "W34"@ }),
        r.message@ == "test \""@ + o.name@ + "\" failed: "@ + opt_text(o.detail),
        r.span == o.span,
        r.expected is None,
        r.actual is None,
        r.hint is None,
{
    let rule = if o.property { "W35" } else { "W34" };
    let mut msg = owned("test \"");
    push_str(&mut msg, o.name.as_str());
    push_str(&mut msg, "\" failed: ");
    match &o.detail {
        Some(d) => push_str(&mut msg, d.as_str()),
        None => {},
    }
    Diag::new(rule, msg, o.span)
}

} // verus!
