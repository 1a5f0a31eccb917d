//! Two-pass binary encoding of nested complex-data-type operations.
//!
//! Every operation is encoded by one dual-mode routine: with `write` off it
//! only counts the bytes the operation would occupy, with `write` on it
//! appends exactly those bytes. Both modes follow the same path, so the size
//! a caller pre-allocates from [`CdtOperation::estimate_size`] always equals
//! the bytes [`CdtOperation::write_to`] appends.
//!
//! Wire shape: an optional context header (one count byte, then one encoded
//! step per navigation step), the opcode byte, an argument-count byte, then
//! each argument in its fixed-width or length-prefixed form.

use vstd::prelude::*;
use crate::value::Value;

verus! {

/// Largest value a four-byte length prefix can carry.
pub const MAX_PREFIX: usize = 0xffff_ffff;

/// Largest count a one-byte count field can carry.
pub const MAX_COUNT: usize = 255;

/// Context-step marker: descend to a list index.
pub const CTX_LIST_INDEX: u8 = 0x10;

/// Context-step marker: descend to a map key.
pub const CTX_MAP_KEY: u8 = 0x22;

/// An operation's arguments cannot be represented in the wire format's
/// count and length fields.
#[derive(Clone, Copy, Debug, PartialEq, Eq)]
pub enum EncodeError {
    Unrepresentable,
}

/// The server-side storage type the encoded operation blob is tagged with.
#[derive(Clone, Copy, Debug, PartialEq, Eq)]
pub enum ParticleType {
    Blob,
}

/// One navigation step scoping an operation to a nested location.
#[derive(Clone, Debug, PartialEq, Eq)]
pub enum CdtContext {
    /// Descend into the element at this list index.
    ListIndex(i64),
    /// Descend into the value stored under this map key.
    MapKey(Value),
}

/// One typed argument of a nested-data-type operation.
#[derive(Clone, Debug, PartialEq, Eq)]
pub enum CdtArgument {
    Byte(u8),
    Int(i64),
    Bool(bool),
    Value(Value),
    List(Vec<Value>),
    Pairs(Vec<(Value, Value)>),
}

/// An appendable command buffer the write pass fills.
pub struct Buffer {
    pub bytes: Vec<u8>,
}

impl Buffer {
    /// An empty buffer.
    pub fn new() -> (r: Buffer)
        ensures
            r.bytes@ == Seq::<u8>::empty(),
    {
        let v: Vec<u8> = Vec::new();
        proof {
            assert(v@ =~= Seq::<u8>::empty());
        }
        Buffer { bytes: v }
    }

    /// Bytes appended so far.
    pub fn len(&self) -> (n: usize)
        ensures
            n == self.bytes@.len(),
    {
        self.bytes.len()
    }
}

/// Big-endian bytes of a 32-bit value.
pub open spec fn u32_bytes(v: u32) -> Seq<u8> {
    seq![(v >> 24) as u8, (v >> 16) as u8, (v >> 8) as u8, v as u8]
}

/// Big-endian bytes of a 64-bit value.
pub open spec fn u64_bytes(v: u64) -> Seq<u8> {
    seq![
        (v >> 56) as u8,
        (v >> 48) as u8,
        (v >> 40) as u8,
        (v >> 32) as u8,
        (v >> 24) as u8,
        (v >> 16) as u8,
        (v >> 8) as u8,
        v as u8,
    ]
}

/// Big-endian two's-complement bytes of a signed 64-bit value.
pub open spec fn i64_bytes(v: i64) -> Seq<u8> {
    u64_bytes(v as u64)
}

/// The tagged payload of a scalar value.
pub open spec fn val_payload(v: Value) -> Seq<u8> {
    match v {
        Value::Int(i) => seq![1u8] + i64_bytes(i),
        Value::Bool(b) => seq![2u8, if b { 1u8 } else { 0u8 }],
        Value::Bytes(bs) => seq![3u8] + bs@,
    }
}

/// The payload fits its four-byte length prefix, and the whole encoded value
/// fits an in-memory size.
pub open spec fn val_ok(v: Value) -> bool {
    &&& val_payload(v).len() <= MAX_PREFIX
    &&& 4 + val_payload(v).len() <= usize::MAX
}

/// A scalar value on the wire: length prefix, then payload.
pub open spec fn val_bytes(v: Value) -> Seq<u8> {
    u32_bytes(val_payload(v).len() as u32) + val_payload(v)
}

/// Concatenation of `f` over a sequence, left to right.
pub open spec fn concat_map<A>(s: Seq<A>, f: spec_fn(A) -> Seq<u8>) -> Seq<u8>
    decreases s.len(),
{
    if s.len() == 0 {
        Seq::empty()
    } else {
        concat_map(s.drop_last(), f) + f(s.last())
    }
}

/// A prefix of the inputs encodes to a prefix-length of the whole.
pub proof fn lemma_concat_map_prefix_le<A>(s: Seq<A>, f: spec_fn(A) -> Seq<u8>, j: int)
    requires
        0 <= j <= s.len(),
    ensures
        concat_map(s.take(j), f).len() <= concat_map(s, f).len(),
    decreases s.len() - j,
{
    if j == s.len() {
        assert(s.take(j) =~= s);
    } else {
        assert(s.take(j + 1).drop_last() =~= s.take(j));
        assert(concat_map(s.take(j + 1), f) == concat_map(s.take(j), f) + f(s[j]));
        lemma_concat_map_prefix_le(s, f, j + 1);
    }
}

/// The bytes of one value list, in order.
pub open spec fn vals_bytes(vs: Seq<Value>) -> Seq<u8> {
    concat_map(vs, |v: Value| val_bytes(v))
}

/// Every value of the list is representable.
pub open spec fn vals_ok(vs: Seq<Value>) -> bool {
    forall|i: int| 0 <= i < vs.len() ==> val_ok(#[trigger] vs[i])
}

/// The bytes of one key-value pair list, key then value, in order.
pub open spec fn pairs_bytes(ps: Seq<(Value, Value)>) -> Seq<u8> {
    concat_map(ps, |p: (Value, Value)| val_bytes(p.0) + val_bytes(p.1))
}

/// Every key and value of the pair list is representable.
pub open spec fn pairs_ok(ps: Seq<(Value, Value)>) -> bool {
    forall|i: int| 0 <= i < ps.len() ==> val_ok((#[trigger] ps[i]).0) && val_ok(ps[i].1)
}

/// The bytes of one argument.
pub open spec fn arg_bytes(a: CdtArgument) -> Seq<u8> {
    match a {
        CdtArgument::Byte(b) => seq![b],
        CdtArgument::Int(i) => i64_bytes(i),
        CdtArgument::Bool(b) => seq![if b { 1u8 } else { 0u8 }],
        CdtArgument::Value(v) => val_bytes(v),
        CdtArgument::List(vs) => u32_bytes(vs@.len() as u32) + vals_bytes(vs@),
        CdtArgument::Pairs(ps) => u32_bytes(ps@.len() as u32) + pairs_bytes(ps@),
    }
}

/// The argument's counts and lengths fit their wire fields.
pub open spec fn arg_ok(a: CdtArgument) -> bool {
    match a {
        CdtArgument::Byte(_) => true,
        CdtArgument::Int(_) => true,
        CdtArgument::Bool(_) => true,
        CdtArgument::Value(v) => val_ok(v),
        CdtArgument::List(vs) => vs@.len() <= MAX_PREFIX && vals_ok(vs@),
        CdtArgument::Pairs(ps) => ps@.len() <= MAX_PREFIX && pairs_ok(ps@),
    }
}

/// The bytes of an argument list, in order.
pub open spec fn args_bytes(s: Seq<CdtArgument>) -> Seq<u8> {
    concat_map(s, |a: CdtArgument| arg_bytes(a))
}

/// Every argument is representable.
pub open spec fn args_ok(s: Seq<CdtArgument>) -> bool {
    forall|i: int| 0 <= i < s.len() ==> arg_ok(#[trigger] s[i])
}

/// The bytes of one context step: its marker, then its coordinate.
pub open spec fn step_bytes(c: CdtContext) -> Seq<u8> {
    match c {
        CdtContext::ListIndex(i) => seq![CTX_LIST_INDEX] + i64_bytes(i),
        CdtContext::MapKey(v) => seq![CTX_MAP_KEY] + val_bytes(v),
    }
}

/// The step's coordinate is representable.
pub open spec fn step_ok(c: CdtContext) -> bool {
    match c {
        CdtContext::ListIndex(_) => true,
        CdtContext::MapKey(v) => val_ok(v),
    }
}

/// The bytes of all context steps, in path order.
pub open spec fn steps_bytes(ctx: Seq<CdtContext>) -> Seq<u8> {
    concat_map(ctx, |c: CdtContext| step_bytes(c))
}

/// The context header: nothing for the empty path, else one byte declaring
/// the number of steps, then the steps.
pub open spec fn ctx_bytes(ctx: Seq<CdtContext>) -> Seq<u8> {
    if ctx.len() == 0 {
        Seq::empty()
    } else {
        seq![ctx.len() as u8] + steps_bytes(ctx)
    }
}

/// The path fits the header's count byte and every step is representable.
pub open spec fn ctx_ok(ctx: Seq<CdtContext>) -> bool {
    &&& ctx.len() <= MAX_COUNT
    &&& forall|i: int| 0 <= i < ctx.len() ==> step_ok(#[trigger] ctx[i])
}

/// One nested complex-data-type operation: its opcode and its typed
/// arguments. Constructed per call, immutable, not retained after encoding.
pub struct CdtOperation {
    pub op: u8,
    pub args: Vec<CdtArgument>,
}

/// The operation's own bytes: opcode, argument count, then the arguments.
pub open spec fn op_bytes(op: CdtOperation) -> Seq<u8> {
    seq![op.op, op.args@.len() as u8] + args_bytes(op.args@)
}

/// The full wire image of an operation under a context path.
pub open spec fn cdt_bytes(op: CdtOperation, ctx: Seq<CdtContext>) -> Seq<u8> {
    ctx_bytes(ctx) + op_bytes(op)
}

/// The operation and path fit every wire field and the whole image fits an
/// in-memory size. Exactly these inputs encode successfully.
pub open spec fn encodable(op: CdtOperation, ctx: Seq<CdtContext>) -> bool {
    &&& ctx_ok(ctx)
    &&& op.args@.len() <= MAX_COUNT
    &&& args_ok(op.args@)
    &&& cdt_bytes(op, ctx).len() <= usize::MAX
}

/// Append one byte in write mode; count it in either mode.
fn emit_u8(buf: &mut Buffer, write: bool, v: u8) -> (n: usize)
    ensures
        n == 1,
        write ==> final(buf).bytes@ == old(buf).bytes@ + seq![v],
        !write ==> final(buf).bytes@ == old(buf).bytes@,
{
    if write {
        buf.bytes.push(v);
        proof {
            assert(final(buf).bytes@ =~= old(buf).bytes@ + seq![v]);
        }
    }
    1
}

/// Append a 32-bit value big-endian in write mode; count it in either mode.
fn emit_u32(buf: &mut Buffer, write: bool, v: u32) -> (n: usize)
    ensures
        n == 4,
        write ==> final(buf).bytes@ == old(buf).bytes@ + u32_bytes(v),
        !write ==> final(buf).bytes@ == old(buf).bytes@,
{
    if write {
        let b0: u8 = #[verifier::truncate] ((v >> 24) as u8);
        let b1: u8 = #[verifier::truncate] ((v >> 16) as u8);
        let b2: u8 = #[verifier::truncate] ((v >> 8) as u8);
        let b3: u8 = #[verifier::truncate] (v as u8);
        buf.bytes.push(b0);
        buf.bytes.push(b1);
        buf.bytes.push(b2);
        buf.bytes.push(b3);
        proof {
            assert(final(buf).bytes@ =~= old(buf).bytes@ + u32_bytes(v));
        }
    }
    4
}

/// Append a signed 64-bit value big-endian, two's complement, in write mode;
/// count it in either mode.
fn emit_i64(buf: &mut Buffer, write: bool, v: i64) -> (n: usize)
    ensures
        n == 8,
        write ==> final(buf).bytes@ == old(buf).bytes@ + i64_bytes(v),
        !write ==> final(buf).bytes@ == old(buf).bytes@,
{
    if write {
        let u: u64 = #[verifier::truncate] (v as u64);
        let b0: u8 = #[verifier::truncate] ((u >> 56) as u8);
        let b1: u8 = #[verifier::truncate] ((u >> 48) as u8);
        let b2: u8 = #[verifier::truncate] ((u >> 40) as u8);
        let b3: u8 = #[verifier::truncate] ((u >> 32) as u8);
        let b4: u8 = #[verifier::truncate] ((u >> 24) as u8);
        let b5: u8 = #[verifier::truncate] ((u >> 16) as u8);
        let b6: u8 = #[verifier::truncate] ((u >> 8) as u8);
        let b7: u8 = #[verifier::truncate] (u as u8);
        buf.bytes.push(b0);
        buf.bytes.push(b1);
        buf.bytes.push(b2);
        buf.bytes.push(b3);
        buf.bytes.push(b4);
        buf.bytes.push(b5);
        buf.bytes.push(b6);
        buf.bytes.push(b7);
        proof {
            assert(final(buf).bytes@ =~= old(buf).bytes@ + i64_bytes(v));
        }
    }
    8
}

/// Append one scalar value, length-prefixed; fails exactly when it does not
/// fit its prefix.
#[verifier::loop_isolation(false)]
fn emit_value(buf: &mut Buffer, write: bool, v: &Value) -> (r: Result<usize, EncodeError>)
    ensures
        !write ==> final(buf).bytes@ == old(buf).bytes@,
        (r is Ok) <==> val_ok(*v),
        r matches Ok(n) ==> n == val_bytes(*v).len(),
        (write && r is Ok) ==> final(buf).bytes@ == old(buf).bytes@ + val_bytes(*v),
{
    let payload_len: usize = match v {
        Value::Int(_) => 9,
        Value::Bool(_) => 2,
        Value::Bytes(bs) => {
            if bs.len() > MAX_PREFIX - 1 {
                return Err(EncodeError::Unrepresentable);
            }
            1 + bs.len()
        },
    };
    assert(payload_len == val_payload(*v).len());
    let total = match 4usize.checked_add(payload_len) {
        Option::Some(t) => t,
        Option::None => {
            return Err(EncodeError::Unrepresentable);
        },
    };
    let n0 = emit_u32(buf, write, payload_len as u32);
    match v {
        Value::Int(i) => {
            let n1 = emit_u8(buf, write, 1);
            let n2 = emit_i64(buf, write, *i);
            proof {
                if write {
                    assert(final(buf).bytes@ =~= old(buf).bytes@ + val_bytes(*v));
                }
            }
            Ok(total)
        },
        Value::Bool(b) => {
            let n1 = emit_u8(buf, write, 2);
            let n2 = emit_u8(buf, write, if *b { 1 } else { 0 });
            proof {
                if write {
                    assert(val_payload(*v) =~= seq![2u8] + seq![if *b { 1u8 } else { 0u8 }]);
                    assert(final(buf).bytes@ =~= old(buf).bytes@ + val_bytes(*v));
                }
            }
            Ok(total)
        },
        Value::Bytes(bs) => {
            let n1 = emit_u8(buf, write, 3);
            if write {
                let ghost before = buf.bytes@;
                let mut i: usize = 0;
                while i < bs.len()
                    invariant
                        write,
                        i <= bs@.len(),
                        buf.bytes@ == before + bs@.take(i as int),
                    decreases bs@.len() - i,
                {
                    let byte = bs[i];
                    buf.bytes.push(byte);
                    proof {
                        assert(before + bs@.take(i + 1) =~= (before + bs@.take(i as int)).push(
                            bs@[i as int],
                        ));
                    }
                    i = i + 1;
                }
                proof {
                    assert(bs@.take(bs@.len() as int) =~= bs@);
                    assert(final(buf).bytes@ =~= old(buf).bytes@ + val_bytes(*v));
                }
            }
            Ok(total)
        },
    }
}

/// Append each value of a list; fails exactly when some value does not fit
/// or the run of bytes outgrows an in-memory size.
#[verifier::loop_isolation(false)]
fn emit_vals(buf: &mut Buffer, write: bool, vs: &Vec<Value>) -> (r: Result<usize, EncodeError>)
    ensures
        !write ==> final(buf).bytes@ == old(buf).bytes@,
        (r is Ok) <==> (vals_ok(vs@) && vals_bytes(vs@).len() <= usize::MAX),
        r matches Ok(n) ==> n == vals_bytes(vs@).len(),
        (write && r is Ok) ==> final(buf).bytes@ == old(buf).bytes@ + vals_bytes(vs@),
{
    let ghost f = |v: Value| val_bytes(v);
    let mut total: usize = 0;
    let mut i: usize = 0;
    while i < vs.len()
        invariant
            i <= vs@.len(),
            total == concat_map(vs@.take(i as int), f).len(),
            vals_ok(vs@.take(i as int)),
            f == (|v: Value| val_bytes(v)),
            write ==> buf.bytes@ == old(buf).bytes@ + concat_map(vs@.take(i as int), f),
            !write ==> buf.bytes@ == old(buf).bytes@,
        decreases vs@.len() - i,
    {
        proof {
            assert(vs@.take(i + 1).drop_last() =~= vs@.take(i as int));
            assert(concat_map(vs@.take(i + 1), f) == concat_map(vs@.take(i as int), f) + f(
                vs@[i as int],
            ));
        }
        let n = match emit_value(buf, write, &vs[i]) {
            Ok(n) => n,
            Err(e) => {
                proof {
                    assert(!val_ok(vs@[i as int]));
                }
                return Err(e);
            },
        };
        total = match total.checked_add(n) {
            Option::Some(t) => t,
            Option::None => {
                proof {
                    lemma_concat_map_prefix_le(vs@, f, i + 1);
                }
                return Err(EncodeError::Unrepresentable);
            },
        };
        i = i + 1;
        proof {
            assert forall|j: int| 0 <= j < i implies val_ok(#[trigger] vs@.take(i as int)[j]) by {
                if j < i - 1 {
                    assert(vs@.take(i - 1)[j] == vs@.take(i as int)[j]);
                }
            }
        }
    }
    proof {
        assert(vs@.take(vs@.len() as int) =~= vs@);
    }
    Ok(total)
}

/// Append each pair of a map, key then value; fails exactly when some entry
/// does not fit or the run of bytes outgrows an in-memory size.
#[verifier::loop_isolation(false)]
fn emit_pairs(buf: &mut Buffer, write: bool, ps: &Vec<(Value, Value)>) -> (r: Result<
    usize,
    EncodeError,
>)
    ensures
        !write ==> final(buf).bytes@ == old(buf).bytes@,
        (r is Ok) <==> (pairs_ok(ps@) && pairs_bytes(ps@).len() <= usize::MAX),
        r matches Ok(n) ==> n == pairs_bytes(ps@).len(),
        (write && r is Ok) ==> final(buf).bytes@ == old(buf).bytes@ + pairs_bytes(ps@),
{
    let ghost f = |p: (Value, Value)| val_bytes(p.0) + val_bytes(p.1);
    let mut total: usize = 0;
    let mut i: usize = 0;
    while i < ps.len()
        invariant
            i <= ps@.len(),
            total == concat_map(ps@.take(i as int), f).len(),
            pairs_ok(ps@.take(i as int)),
            f == (|p: (Value, Value)| val_bytes(p.0) + val_bytes(p.1)),
            write ==> buf.bytes@ == old(buf).bytes@ + concat_map(ps@.take(i as int), f),
            !write ==> buf.bytes@ == old(buf).bytes@,
        decreases ps@.len() - i,
    {
        proof {
            assert(ps@.take(i + 1).drop_last() =~= ps@.take(i as int));
            assert(concat_map(ps@.take(i + 1), f) == concat_map(ps@.take(i as int), f) + f(
                ps@[i as int],
            ));
        }
        let nk = match emit_value(buf, write, &ps[i].0) {
            Ok(n) => n,
            Err(e) => {
                proof {
                    assert(!val_ok(ps@[i as int].0));
                }
                return Err(e);
            },
        };
        let nv = match emit_value(buf, write, &ps[i].1) {
            Ok(n) => n,
            Err(e) => {
                proof {
                    assert(!val_ok(ps@[i as int].1));
                }
                return Err(e);
            },
        };
        let pair_len = match nk.checked_add(nv) {
            Option::Some(t) => t,
            Option::None => {
                proof {
                    lemma_concat_map_prefix_le(ps@, f, i + 1);
                }
                return Err(EncodeError::Unrepresentable);
            },
        };
        total = match total.checked_add(pair_len) {
            Option::Some(t) => t,
            Option::None => {
                proof {
                    lemma_concat_map_prefix_le(ps@, f, i + 1);
                }
                return Err(EncodeError::Unrepresentable);
            },
        };
        i = i + 1;
        proof {
            assert forall|j: int|
                0 <= j < i implies val_ok((#[trigger] ps@.take(i as int)[j]).0) && val_ok(
                ps@.take(i as int)[j].1,
            ) by {
                if j < i - 1 {
                    assert(ps@.take(i - 1)[j] == ps@.take(i as int)[j]);
                }
            }
        }
    }
    proof {
        assert(ps@.take(ps@.len() as int) =~= ps@);
    }
    Ok(total)
}

/// Append one argument in its wire form; fails exactly when it does not fit
/// its fields or outgrows an in-memory size.
#[verifier::loop_isolation(false)]
fn emit_arg(buf: &mut Buffer, write: bool, a: &CdtArgument) -> (r: Result<usize, EncodeError>)
    ensures
        !write ==> final(buf).bytes@ == old(buf).bytes@,
        (r is Ok) <==> (arg_ok(*a) && arg_bytes(*a).len() <= usize::MAX),
        r matches Ok(n) ==> n == arg_bytes(*a).len(),
        (write && r is Ok) ==> final(buf).bytes@ == old(buf).bytes@ + arg_bytes(*a),
{
    match a {
        CdtArgument::Byte(b) => {
            let n = emit_u8(buf, write, *b);
            Ok(n)
        },
        CdtArgument::Int(i) => {
            let n = emit_i64(buf, write, *i);
            Ok(n)
        },
        CdtArgument::Bool(b) => {
            let n = emit_u8(buf, write, if *b { 1 } else { 0 });
            Ok(n)
        },
        CdtArgument::Value(v) => {
            let n = match emit_value(buf, write, v) {
                Ok(n) => n,
                Err(e) => {
                    return Err(e);
                },
            };
            Ok(n)
        },
        CdtArgument::List(vs) => {
            if vs.len() > MAX_PREFIX {
                return Err(EncodeError::Unrepresentable);
            }
            let n0 = emit_u32(buf, write, vs.len() as u32);
            let n = match emit_vals(buf, write, vs) {
                Ok(n) => n,
                Err(e) => {
                    return Err(e);
                },
            };
            let total = match n0.checked_add(n) {
                Option::Some(t) => t,
                Option::None => {
                    return Err(EncodeError::Unrepresentable);
                },
            };
            proof {
                if write {
                    assert(final(buf).bytes@ =~= old(buf).bytes@ + arg_bytes(*a));
                }
            }
            Ok(total)
        },
        CdtArgument::Pairs(ps) => {
            if ps.len() > MAX_PREFIX {
                return Err(EncodeError::Unrepresentable);
            }
            let n0 = emit_u32(buf, write, ps.len() as u32);
            let n = match emit_pairs(buf, write, ps) {
                Ok(n) => n,
                Err(e) => {
                    return Err(e);
                },
            };
            let total = match n0.checked_add(n) {
                Option::Some(t) => t,
                Option::None => {
                    return Err(EncodeError::Unrepresentable);
                },
            };
            proof {
                if write {
                    assert(final(buf).bytes@ =~= old(buf).bytes@ + arg_bytes(*a));
                }
            }
            Ok(total)
        },
    }
}

/// Append every argument in order; fails exactly when one does not fit or
/// the run of bytes outgrows an in-memory size.
#[verifier::loop_isolation(false)]
fn emit_args(buf: &mut Buffer, write: bool, args: &Vec<CdtArgument>) -> (r: Result<
    usize,
    EncodeError,
>)
    ensures
        !write ==> final(buf).bytes@ == old(buf).bytes@,
        (r is Ok) <==> (args_ok(args@) && args_bytes(args@).len() <= usize::MAX),
        r matches Ok(n) ==> n == args_bytes(args@).len(),
        (write && r is Ok) ==> final(buf).bytes@ == old(buf).bytes@ + args_bytes(args@),
{
    let ghost f = |a: CdtArgument| arg_bytes(a);
    let mut total: usize = 0;
    let mut i: usize = 0;
    while i < args.len()
        invariant
            i <= args@.len(),
            total == concat_map(args@.take(i as int), f).len(),
            args_ok(args@.take(i as int)),
            write ==> buf.bytes@ == old(buf).bytes@ + concat_map(args@.take(i as int), f),
            !write ==> buf.bytes@ == old(buf).bytes@,
        decreases args@.len() - i,
    {
        proof {
            assert(args@.take(i + 1).drop_last() =~= args@.take(i as int));
            assert(concat_map(args@.take(i + 1), f) == concat_map(args@.take(i as int), f) + f(
                args@[i as int],
            ));
        }
        let n = match emit_arg(buf, write, &args[i]) {
            Ok(n) => n,
            Err(e) => {
                proof {
                    assert(!(arg_ok(args@[i as int]) && arg_bytes(args@[i as int]).len()
                        <= usize::MAX));
                    if arg_bytes(args@[i as int]).len() > usize::MAX {
                        lemma_concat_map_prefix_le(args@, f, i + 1);
                    }
                }
                return Err(e);
            },
        };
        total = match total.checked_add(n) {
            Option::Some(t) => t,
            Option::None => {
                proof {
                    lemma_concat_map_prefix_le(args@, f, i + 1);
                }
                return Err(EncodeError::Unrepresentable);
            },
        };
        i = i + 1;
        proof {
            assert forall|j: int| 0 <= j < i implies arg_ok(#[trigger] args@.take(i as int)[j]) by {
                if j < i - 1 {
                    assert(args@.take(i - 1)[j] == args@.take(i as int)[j]);
                }
            }
        }
    }
    proof {
        assert(args@.take(args@.len() as int) =~= args@);
    }
    Ok(total)
}

/// Append one context step: its marker byte, then its coordinate.
fn emit_step(buf: &mut Buffer, write: bool, c: &CdtContext) -> (r: Result<usize, EncodeError>)
    ensures
        !write ==> final(buf).bytes@ == old(buf).bytes@,
        (r is Ok) <==> (step_ok(*c) && step_bytes(*c).len() <= usize::MAX),
        r matches Ok(n) ==> n == step_bytes(*c).len(),
        (write && r is Ok) ==> final(buf).bytes@ == old(buf).bytes@ + step_bytes(*c),
{
    match c {
        CdtContext::ListIndex(i) => {
            let n0 = emit_u8(buf, write, CTX_LIST_INDEX);
            let n1 = emit_i64(buf, write, *i);
            proof {
                if write {
                    assert(final(buf).bytes@ =~= old(buf).bytes@ + step_bytes(*c));
                }
            }
            Ok(9)
        },
        CdtContext::MapKey(v) => {
            let n0 = emit_u8(buf, write, CTX_MAP_KEY);
            let n1 = match emit_value(buf, write, v) {
                Ok(n) => n,
                Err(e) => {
                    return Err(e);
                },
            };
            let total = match 1usize.checked_add(n1) {
                Option::Some(t) => t,
                Option::None => {
                    return Err(EncodeError::Unrepresentable);
                },
            };
            proof {
                if write {
                    assert(final(buf).bytes@ =~= old(buf).bytes@ + step_bytes(*c));
                }
            }
            Ok(total)
        },
    }
}

/// Append the context header: nothing for an empty path, else the step count
/// and every step in path order.
#[verifier::loop_isolation(false)]
fn emit_ctx(buf: &mut Buffer, write: bool, ctx: &Vec<CdtContext>) -> (r: Result<
    usize,
    EncodeError,
>)
    ensures
        !write ==> final(buf).bytes@ == old(buf).bytes@,
        (r is Ok) <==> (ctx_ok(ctx@) && ctx_bytes(ctx@).len() <= usize::MAX),
        r matches Ok(n) ==> n == ctx_bytes(ctx@).len(),
        (write && r is Ok) ==> final(buf).bytes@ == old(buf).bytes@ + ctx_bytes(ctx@),
{
    if ctx.len() == 0 {
        return Ok(0);
    }
    if ctx.len() > MAX_COUNT {
        return Err(EncodeError::Unrepresentable);
    }
    let ghost f = |c: CdtContext| step_bytes(c);
    let n0 = emit_u8(buf, write, ctx.len() as u8);
    let mut total: usize = 1;
    let mut i: usize = 0;
    while i < ctx.len()
        invariant
            i <= ctx@.len(),
            total == 1 + concat_map(ctx@.take(i as int), f).len(),
            forall|j: int| 0 <= j < i ==> step_ok(#[trigger] ctx@.take(i as int)[j]),
            write ==> buf.bytes@ == old(buf).bytes@ + seq![ctx@.len() as u8] + concat_map(
                ctx@.take(i as int),
                f,
            ),
            !write ==> buf.bytes@ == old(buf).bytes@,
        decreases ctx@.len() - i,
    {
        proof {
            assert(ctx@.take(i + 1).drop_last() =~= ctx@.take(i as int));
            assert(concat_map(ctx@.take(i + 1), f) == concat_map(ctx@.take(i as int), f) + f(
                ctx@[i as int],
            ));
        }
        let n = match emit_step(buf, write, &ctx[i]) {
            Ok(n) => n,
            Err(e) => {
                proof {
                    assert(!(step_ok(ctx@[i as int]) && step_bytes(ctx@[i as int]).len()
                        <= usize::MAX));
                    if step_bytes(ctx@[i as int]).len() > usize::MAX {
                        lemma_concat_map_prefix_le(ctx@, f, i + 1);
                        assert(ctx_bytes(ctx@).len() > usize::MAX);
                    }
                }
                return Err(e);
            },
        };
        total = match total.checked_add(n) {
            Option::Some(t) => t,
            Option::None => {
                proof {
                    lemma_concat_map_prefix_le(ctx@, f, i + 1);
                    assert(ctx_bytes(ctx@).len() > usize::MAX);
                }
                return Err(EncodeError::Unrepresentable);
            },
        };
        i = i + 1;
        proof {
            assert forall|j: int| 0 <= j < i implies step_ok(#[trigger] ctx@.take(i as int)[j]) by {
                if j < i - 1 {
                    assert(ctx@.take(i - 1)[j] == ctx@.take(i as int)[j]);
                }
            }
        }
    }
    proof {
        assert(ctx@.take(ctx@.len() as int) =~= ctx@);
        if write {
            assert(buf.bytes@ =~= old(buf).bytes@ + ctx_bytes(ctx@));
        }
    }
    Ok(total)
}

impl CdtOperation {
    /// Encoded operation blobs are stored and shipped as raw bytes.
    pub fn particle_type(&self) -> (r: ParticleType)
        ensures
            r == ParticleType::Blob,
    {
        ParticleType::Blob
    }

    /// The one dual-mode encoder: with `write` off it only counts, with
    /// `write` on it appends exactly the operation's wire image. Succeeds on
    /// exactly the encodable inputs, in either mode.
    #[verifier::loop_isolation(false)]
    fn encode(&self, buf: &mut Buffer, write: bool, ctx: &Vec<CdtContext>) -> (r: Result<
        usize,
        EncodeError,
    >)
        ensures
            !write ==> final(buf).bytes@ == old(buf).bytes@,
            (r is Ok) <==> encodable(*self, ctx@),
            r matches Ok(n) ==> n == cdt_bytes(*self, ctx@).len(),
            (write && r is Ok) ==> final(buf).bytes@ == old(buf).bytes@ + cdt_bytes(*self, ctx@),
    {
        let n_ctx = match emit_ctx(buf, write, ctx) {
            Ok(n) => n,
            Err(e) => {
                return Err(e);
            },
        };
        if self.args.len() > MAX_COUNT {
            return Err(EncodeError::Unrepresentable);
        }
        let n_op = emit_u8(buf, write, self.op);
        let n_cnt = emit_u8(buf, write, self.args.len() as u8);
        let n_args = match emit_args(buf, write, &self.args) {
            Ok(n) => n,
            Err(e) => {
                return Err(e);
            },
        };
        let with_op = match n_ctx.checked_add(2) {
            Option::Some(t) => t,
            Option::None => {
                return Err(EncodeError::Unrepresentable);
            },
        };
        let total = match with_op.checked_add(n_args) {
            Option::Some(t) => t,
            Option::None => {
                return Err(EncodeError::Unrepresentable);
            },
        };
        proof {
            assert(cdt_bytes(*self, ctx@).len() == ctx_bytes(ctx@).len() + 2 + args_bytes(
                self.args@,
            ).len());
            if write {
                assert(final(buf).bytes@ =~= old(buf).bytes@ + cdt_bytes(*self, ctx@));
            }
        }
        Ok(total)
    }

    /// The byte size the operation would occupy under this context path,
    /// without touching any buffer.
    pub fn estimate_size(&self, ctx: &Vec<CdtContext>) -> (r: Result<usize, EncodeError>)
        ensures
            (r is Ok) <==> encodable(*self, ctx@),
            r matches Ok(n) ==> n == cdt_bytes(*self, ctx@).len(),
    {
        let mut scratch = Buffer::new();
        self.encode(&mut scratch, false, ctx)
    }

    /// Append the operation's wire image to the buffer and return the byte
    /// count — always exactly the count [`Self::estimate_size`] gives. On
    /// failure the buffer is untouched.
    pub fn write_to(&self, buffer: &mut Buffer, ctx: &Vec<CdtContext>) -> (r: Result<
        usize,
        EncodeError,
    >)
        ensures
            (r is Ok) <==> encodable(*self, ctx@),
            r matches Ok(n) ==> n == cdt_bytes(*self, ctx@).len() && final(buffer).bytes@ == old(
                buffer,
            ).bytes@ + cdt_bytes(*self, ctx@),
            r is Err ==> final(buffer).bytes@ == old(buffer).bytes@,
    {
        match self.encode(buffer, false, ctx) {
            Err(e) => Err(e),
            Ok(_) => self.encode(buffer, true, ctx),
        }
    }
}

} // verus!
