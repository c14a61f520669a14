use vstd::prelude::*;

use crate::errors::Error;
use crate::errors::ErrorView;
use crate::interpreter::Op;
use crate::interpreter::OpView;
use crate::symbol::Symbol;
use crate::symbol::bytes_eq;
use crate::symbol::clone_bytes;

verus! {

broadcast use vstd::seq::group_seq_axioms, vstd::std_specs::vec::group_vec_axioms;

/// A runtime datum.  A float is carried as the text of its literal; its
/// arithmetic is the host's business, not the engine's.
#[derive(Debug)]
pub enum Value {
    True,
    False,
    Int(i64),
    Flt(Vec<u8>),
    Str(Vec<u8>),
    Symbol(Symbol),
    Tuple(Vec<Value>),
    Block(Vec<Op>),
}

/// The mathematical shape of a `Value`.
#[verifier::ext_equal]
pub ghost enum ValueView {
    True,
    False,
    Int(i64),
    Flt(Seq<u8>),
    Str(Seq<u8>),
    Symbol(Seq<u8>),
    Tuple(Seq<ValueView>),
    Block(Seq<OpView>),
}

impl View for Value {
    type V = ValueView;

    open spec fn view(&self) -> ValueView
        decreases self,
    {
        match self {
            Value::True => ValueView::True,
            Value::False => ValueView::False,
            Value::Int(x) => ValueView::Int(*x),
            Value::Flt(t) => ValueView::Flt(t@),
            Value::Str(t) => ValueView::Str(t@),
            Value::Symbol(s) => ValueView::Symbol(s@),
            Value::Tuple(fields) => ValueView::Tuple(value_views(fields@)),
            Value::Block(ops) => ValueView::Block(op_views(ops@)),
        }
    }
}

/// The views of a list of values, elementwise.
pub open spec fn value_views(s: Seq<Value>) -> Seq<ValueView>
    decreases s,
{
    if s.len() == 0 {
        Seq::empty()
    } else {
        seq![s[0]@] + value_views(s.drop_first())
    }
}

/// The views of a list of instructions, elementwise.
pub open spec fn op_views(s: Seq<Op>) -> Seq<OpView>
    decreases s,
{
    if s.len() == 0 {
        Seq::empty()
    } else {
        seq![s[0]@] + op_views(s.drop_first())
    }
}

/// `value_views` maps the view over the list.
pub proof fn lemma_value_views(s: Seq<Value>)
    ensures
        value_views(s).len() == s.len(),
        forall|i: int| 0 <= i < s.len() ==> value_views(s)[i] == #[trigger] s[i]@,
    decreases s,
{
    if s.len() > 0 {
        lemma_value_views(s.drop_first());
        let head0 = seq![s[0]@];
        assert(value_views(s) == head0 + value_views(s.drop_first()));
        assert(value_views(s).len() == 1 + value_views(s.drop_first()).len());
        assert forall|i: int| 0 <= i < s.len() implies value_views(s)[i] == #[trigger] s[i]@ by {
            let head = seq![s[0]@];
            assert(value_views(s) == head + value_views(s.drop_first()));
            if i > 0 {
                assert((head + value_views(s.drop_first()))[i] == value_views(s.drop_first())[i
                    - 1]);
                assert(s.drop_first()[i - 1] == s[i]);
            } else {
                assert((head + value_views(s.drop_first()))[0] == head[0]);
            }
        }
    }
}

/// `op_views` maps the view over the list.
pub proof fn lemma_op_views(s: Seq<Op>)
    ensures
        op_views(s).len() == s.len(),
        forall|i: int| 0 <= i < s.len() ==> op_views(s)[i] == #[trigger] s[i]@,
    decreases s,
{
    if s.len() > 0 {
        lemma_op_views(s.drop_first());
        let head0 = seq![s[0]@];
        assert(op_views(s) == head0 + op_views(s.drop_first()));
        assert(op_views(s).len() == 1 + op_views(s.drop_first()).len());
        assert forall|i: int| 0 <= i < s.len() implies op_views(s)[i] == #[trigger] s[i]@ by {
            let head = seq![s[0]@];
            assert(op_views(s) == head + op_views(s.drop_first()));
            if i > 0 {
                assert((head + op_views(s.drop_first()))[i] == op_views(s.drop_first())[i - 1]);
                assert(s.drop_first()[i - 1] == s[i]);
            } else {
                assert((head + op_views(s.drop_first()))[0] == head[0]);
            }
        }
    }
}

/// The fixed tag names of the primitive kinds.
pub open spec fn tag_bln() -> Seq<u8> {
    seq!['B' as u8, 'l' as u8, 'n' as u8]
}

pub open spec fn tag_int() -> Seq<u8> {
    seq!['I' as u8, 'n' as u8, 't' as u8]
}

pub open spec fn tag_flt() -> Seq<u8> {
    seq!['F' as u8, 'l' as u8, 't' as u8]
}

pub open spec fn tag_str() -> Seq<u8> {
    seq!['S' as u8, 't' as u8, 'r' as u8]
}

pub open spec fn tag_sym() -> Seq<u8> {
    seq!['S' as u8, 'y' as u8, 'm' as u8]
}

pub open spec fn tag_ops() -> Seq<u8> {
    seq!['O' as u8, 'p' as u8, 's' as u8]
}

/// The tag name used when a tuple was required and something else was
/// found.  Tuples otherwise answer to the type name in their first field.
pub open spec fn tag_tup() -> Seq<u8> {
    seq!['T' as u8, 'u' as u8, 'p' as u8]
}

/// A well-formed tuple holds its type tag, a symbol, in field `0`; the
/// engine never builds any other kind.
pub open spec fn wf_value(v: ValueView) -> bool
    decreases v,
{
    match v {
        ValueView::Tuple(fields) => fields.len() >= 1 && fields[0] is Symbol && wf_values(fields),
        ValueView::Block(ops) => wf_ops(ops),
        _ => true,
    }
}

pub open spec fn wf_values(s: Seq<ValueView>) -> bool
    decreases s,
{
    s.len() == 0 || (wf_value(s[0]) && wf_values(s.drop_first()))
}

pub open spec fn wf_op(op: OpView) -> bool
    decreases op,
{
    match op {
        OpView::Literal(v) => wf_value(v),
        _ => true,
    }
}

pub open spec fn wf_ops(s: Seq<OpView>) -> bool
    decreases s,
{
    s.len() == 0 || (wf_op(s[0]) && wf_ops(s.drop_first()))
}

/// `wf_values` is elementwise well-formedness.
pub proof fn lemma_wf_values_index(s: Seq<ValueView>)
    ensures
        wf_values(s) <==> (forall|i: int| 0 <= i < s.len() ==> wf_value(#[trigger] s[i])),
    decreases s,
{
    if s.len() > 0 {
        lemma_wf_values_index(s.drop_first());
        if wf_value(s[0]) && wf_values(s.drop_first()) {
            assert forall|i: int| 0 <= i < s.len() implies wf_value(#[trigger] s[i]) by {
                if i > 0 {
                    assert(s[i] == s.drop_first()[i - 1]);
                }
            }
        }
        if forall|i: int| 0 <= i < s.len() ==> wf_value(#[trigger] s[i]) {
            assert forall|i: int| 0 <= i < s.drop_first().len() implies wf_value(
                #[trigger] s.drop_first()[i],
            ) by {
                assert(s.drop_first()[i] == s[i + 1]);
            }
        }
    }
}

/// `wf_ops` is elementwise well-formedness.
pub proof fn lemma_wf_ops_index(s: Seq<OpView>)
    ensures
        wf_ops(s) <==> (forall|i: int| 0 <= i < s.len() ==> wf_op(#[trigger] s[i])),
    decreases s,
{
    if s.len() > 0 {
        lemma_wf_ops_index(s.drop_first());
        if wf_op(s[0]) && wf_ops(s.drop_first()) {
            assert forall|i: int| 0 <= i < s.len() implies wf_op(#[trigger] s[i]) by {
                if i > 0 {
                    assert(s[i] == s.drop_first()[i - 1]);
                }
            }
        }
        if forall|i: int| 0 <= i < s.len() ==> wf_op(#[trigger] s[i]) {
            assert forall|i: int| 0 <= i < s.drop_first().len() implies wf_op(
                #[trigger] s.drop_first()[i],
            ) by {
                assert(s.drop_first()[i] == s[i + 1]);
            }
        }
    }
}

/// The runtime type tag of a value: a fixed name for each primitive kind,
/// and for a tuple the symbol in its first field.
pub open spec fn value_tag(v: ValueView) -> Seq<u8> {
    match v {
        ValueView::True => tag_bln(),
        ValueView::False => tag_bln(),
        ValueView::Int(_) => tag_int(),
        ValueView::Flt(_) => tag_flt(),
        ValueView::Str(_) => tag_str(),
        ValueView::Symbol(_) => tag_sym(),
        ValueView::Block(_) => tag_ops(),
        ValueView::Tuple(fields) => if fields.len() >= 1 && fields[0] is Symbol {
            fields[0]->Symbol_0
        } else {
            Seq::empty()
        },
    }
}

/// The symbol for each fixed tag name.
pub fn sym_bln() -> (r: Symbol)
    ensures
        r@ == tag_bln(),
{
    let r = Symbol(vec!['B' as u8, 'l' as u8, 'n' as u8]);
    proof {
        assert(r@ =~= tag_bln());
    }
    r
}

pub fn sym_int() -> (r: Symbol)
    ensures
        r@ == tag_int(),
{
    let r = Symbol(vec!['I' as u8, 'n' as u8, 't' as u8]);
    proof {
        assert(r@ =~= tag_int());
    }
    r
}

pub fn sym_flt() -> (r: Symbol)
    ensures
        r@ == tag_flt(),
{
    let r = Symbol(vec!['F' as u8, 'l' as u8, 't' as u8]);
    proof {
        assert(r@ =~= tag_flt());
    }
    r
}

pub fn sym_str() -> (r: Symbol)
    ensures
        r@ == tag_str(),
{
    let r = Symbol(vec!['S' as u8, 't' as u8, 'r' as u8]);
    proof {
        assert(r@ =~= tag_str());
    }
    r
}

pub fn sym_sym() -> (r: Symbol)
    ensures
        r@ == tag_sym(),
{
    let r = Symbol(vec!['S' as u8, 'y' as u8, 'm' as u8]);
    proof {
        assert(r@ =~= tag_sym());
    }
    r
}

pub fn sym_ops() -> (r: Symbol)
    ensures
        r@ == tag_ops(),
{
    let r = Symbol(vec!['O' as u8, 'p' as u8, 's' as u8]);
    proof {
        assert(r@ =~= tag_ops());
    }
    r
}

pub fn sym_tup() -> (r: Symbol)
    ensures
        r@ == tag_tup(),
{
    let r = Symbol(vec!['T' as u8, 'u' as u8, 'p' as u8]);
    proof {
        assert(r@ =~= tag_tup());
    }
    r
}

impl Value {
    /// The runtime type tag of this value.
    pub fn get_type(&self) -> (r: Symbol)
        requires
            wf_value(self@),
        ensures
            r@ == value_tag(self@),
    {
        match self {
            Value::True => sym_bln(),
            Value::False => sym_bln(),
            Value::Int(_) => sym_int(),
            Value::Flt(_) => sym_flt(),
            Value::Str(_) => sym_str(),
            Value::Symbol(_) => sym_sym(),
            Value::Block(_) => sym_ops(),
            Value::Tuple(fields) => {
                proof {
                    lemma_value_views(fields@);
                    assert(self@->Tuple_0[0] == fields@[0]@);
                }
                match &fields[0] {
                    Value::Symbol(tag) => tag.clone_sym(),
                    _ => {
                        proof {
                            assert(false);
                        }
                        Symbol(vec![])
                    },
                }
            },
        }
    }
}

} // verus!


verus! {

/// A fresh copy of a value, field for field.
pub fn clone_value(v: &Value) -> (r: Value)
    ensures
        r@ == v@,
    decreases v,
{
    match v {
        Value::True => Value::True,
        Value::False => Value::False,
        Value::Int(x) => Value::Int(*x),
        Value::Flt(t) => Value::Flt(clone_bytes(t)),
        Value::Str(t) => Value::Str(clone_bytes(t)),
        Value::Symbol(s) => Value::Symbol(s.clone_sym()),
        Value::Tuple(fields) => {
            proof {
                assert(decreases_to!(*v => *fields));
            }
            let n = fields.len();
            let mut out: Vec<Value> = Vec::new();
            let mut i: usize = 0;
            while i < n
                invariant
                    (decreases_to!(*v => *fields)),
                    i <= n,
                    n == fields@.len(),
                    out@.len() == i,
                    forall|k: int| 0 <= k < i ==> out@[k]@ == #[trigger] fields@[k]@,
                decreases n - i,
            {
                proof {
                    assert(decreases_to!(*fields => fields@));
                    assert(decreases_to!(fields@ => fields@[i as int]));
                }
                let c = clone_value(&fields[i]);
                out.push(c);
                i += 1;
            }
            let r = Value::Tuple(out);
            proof {
                lemma_value_views(r->Tuple_0@);
                lemma_value_views(fields@);
                assert forall|k: int| 0 <= k < fields@.len() implies value_views(r->Tuple_0@)[k]
                    == value_views(fields@)[k] by {
                    assert(value_views(r->Tuple_0@)[k] == r->Tuple_0@[k]@);
                    assert(value_views(fields@)[k] == fields@[k]@);
                }
                assert(value_views(r->Tuple_0@) =~= value_views(fields@));
            }
            r
        },
        Value::Block(ops) => {
            proof {
                assert(decreases_to!(*v => *ops));
            }
            let body = clone_ops_in_value(v, ops);
            let r = Value::Block(body);
            proof {
                lemma_op_views(r->Block_0@);
                lemma_op_views(ops@);
                assert forall|k: int| 0 <= k < ops@.len() implies op_views(r->Block_0@)[k]
                    == op_views(ops@)[k] by {
                    assert(op_views(r->Block_0@)[k] == r->Block_0@[k]@);
                    assert(op_views(ops@)[k] == ops@[k]@);
                }
                assert(op_views(r->Block_0@) =~= op_views(ops@));
            }
            r
        },
    }
}

/// A fresh copy of a block body; the owner only carries the termination
/// measure.
fn clone_ops_in_value(v: &Value, ops: &Vec<Op>) -> (r: Vec<Op>)
    requires
        decreases_to!(*v => *ops),
    ensures
        r@.len() == ops@.len(),
        forall|k: int| 0 <= k < ops@.len() ==> r@[k]@ == #[trigger] ops@[k]@,
    decreases v, 0int,
{
    let n = ops.len();
    let mut out: Vec<Op> = Vec::new();
    let mut i: usize = 0;
    while i < n
        invariant
            (decreases_to!(*v => *ops)),
            i <= n,
            n == ops@.len(),
            out@.len() == i,
            forall|k: int| 0 <= k < i ==> out@[k]@ == #[trigger] ops@[k]@,
        decreases n - i,
    {
        proof {
            assert(decreases_to!(*ops => ops@));
            assert(decreases_to!(ops@ => ops@[i as int]));
        }
        let c = clone_op(&ops[i]);
        out.push(c);
        i += 1;
    }
    out
}

/// A fresh copy of one instruction.
pub fn clone_op(op: &Op) -> (r: Op)
    ensures
        r@ == op@,
    decreases op,
{
    match op {
        Op::Literal(v) => {
            proof {
                assert(decreases_to!(*op => *v));
            }
            Op::Literal(clone_value(v))
        },
        Op::Symbol(s) => Op::Symbol(s.clone_sym()),
        Op::Tuple(n) => Op::Tuple(*n),
        Op::Select(i) => Op::Select(*i),
        Op::If => Op::If,
        Op::BeginDef => Op::BeginDef,
        Op::BeginTypeDef => Op::BeginTypeDef,
        Op::End => Op::End,
        Op::Effect(e) => {
            let eff = crate::interpreter::StackEffect {
                pre: crate::symbol::clone_symbols(&e.pre),
                post: crate::symbol::clone_symbols(&e.post),
            };
            proof {
                let pn = crate::symbol::sym_seq_names(eff.pre@);
                let pn0 = crate::symbol::sym_seq_names(e.pre@);
                assert(pn.len() == pn0.len());
                assert forall|k: int| 0 <= k < e.pre@.len() implies eff@.pre[k] == e@.pre[k] by {
                    assert(pn[k] == eff.pre@[k]@);
                    assert(pn0[k] == e.pre@[k]@);
                    assert(eff@.pre[k] == eff.pre@[k]@);
                    assert(e@.pre[k] == e.pre@[k]@);
                }
                assert(eff@.pre =~= e@.pre);
                let qn = crate::symbol::sym_seq_names(eff.post@);
                let qn0 = crate::symbol::sym_seq_names(e.post@);
                assert(qn.len() == qn0.len());
                assert forall|k: int| 0 <= k < e.post@.len() implies eff@.post[k] == e@.post[k] by {
                    assert(qn[k] == eff.post@[k]@);
                    assert(qn0[k] == e.post@[k]@);
                    assert(eff@.post[k] == eff.post@[k]@);
                    assert(e@.post[k] == e.post@[k]@);
                }
                assert(eff@.post =~= e@.post);
            }
            Op::Effect(eff)
        },
    }
}

/// A fresh copy of an instruction list.
pub fn clone_ops(ops: &Vec<Op>) -> (r: Vec<Op>)
    ensures
        r@.len() == ops@.len(),
        forall|k: int| 0 <= k < ops@.len() ==> r@[k]@ == #[trigger] ops@[k]@,
        op_views(r@) == op_views(ops@),
{
    let n = ops.len();
    let mut out: Vec<Op> = Vec::new();
    let mut i: usize = 0;
    while i < n
        invariant
            i <= n,
            n == ops@.len(),
            out@.len() == i,
            forall|k: int| 0 <= k < i ==> out@[k]@ == #[trigger] ops@[k]@,
        decreases n - i,
    {
        let c = clone_op(&ops[i]);
        out.push(c);
        i += 1;
    }
    proof {
        lemma_op_views(out@);
        lemma_op_views(ops@);
        assert forall|k: int| 0 <= k < ops@.len() implies op_views(out@)[k] == op_views(ops@)[k] by {
            assert(op_views(out@)[k] == out@[k]@);
            assert(op_views(ops@)[k] == ops@[k]@);
        }
        assert(op_views(out@) =~= op_views(ops@));
    }
    out
}

/// A fresh copy of a value list.
pub fn clone_values(vs: &Vec<Value>) -> (r: Vec<Value>)
    ensures
        r@.len() == vs@.len(),
        forall|k: int| 0 <= k < vs@.len() ==> r@[k]@ == #[trigger] vs@[k]@,
        value_views(r@) == value_views(vs@),
{
    let n = vs.len();
    let mut out: Vec<Value> = Vec::new();
    let mut i: usize = 0;
    while i < n
        invariant
            i <= n,
            n == vs@.len(),
            out@.len() == i,
            forall|k: int| 0 <= k < i ==> out@[k]@ == #[trigger] vs@[k]@,
        decreases n - i,
    {
        let c = clone_value(&vs[i]);
        out.push(c);
        i += 1;
    }
    proof {
        lemma_value_views(out@);
        lemma_value_views(vs@);
        assert forall|k: int| 0 <= k < vs@.len() implies value_views(out@)[k] == value_views(
            vs@,
        )[k] by {
            assert(value_views(out@)[k] == out@[k]@);
            assert(value_views(vs@)[k] == vs@[k]@);
        }
        assert(value_views(out@) =~= value_views(vs@));
    }
    out
}

/// Whether two values are equal, field for field.
pub fn value_eq(a: &Value, b: &Value) -> (r: bool)
    ensures
        r == (a@ == b@),
    decreases a,
{
    match (a, b) {
        (Value::True, Value::True) => true,
        (Value::False, Value::False) => true,
        (Value::Int(x), Value::Int(y)) => x == y,
        (Value::Flt(s), Value::Flt(t)) => bytes_eq(s, t),
        (Value::Str(s), Value::Str(t)) => bytes_eq(s, t),
        (Value::Symbol(s), Value::Symbol(t)) => s.sym_eq(t),
        (Value::Tuple(xs), Value::Tuple(ys)) => {
            proof {
                assert(decreases_to!(*a => *xs));
                lemma_value_views(xs@);
                lemma_value_views(ys@);
            }
            if xs.len() != ys.len() {
                proof {
                    assert(a@->Tuple_0.len() != b@->Tuple_0.len());
                }
                return false;
            }
            let n = xs.len();
            let mut i: usize = 0;
            while i < n
                invariant
                    (decreases_to!(*a => *xs)),
                    *a == Value::Tuple(*xs),
                    *b == Value::Tuple(*ys),
                    i <= n,
                    n == xs@.len() == ys@.len(),
                    forall|k: int| 0 <= k < i ==> xs@[k]@ == #[trigger] ys@[k]@,
                decreases n - i,
            {
                proof {
                    assert(decreases_to!(*xs => xs@));
                    assert(decreases_to!(xs@ => xs@[i as int]));
                }
                if !value_eq(&xs[i], &ys[i]) {
                    proof {
                        lemma_value_views(xs@);
                        lemma_value_views(ys@);
                        assert(value_views(xs@)[i as int] == xs@[i as int]@);
                        assert(value_views(ys@)[i as int] == ys@[i as int]@);
                        assert(a@->Tuple_0[i as int] != b@->Tuple_0[i as int]);
                    }
                    return false;
                }
                i += 1;
            }
            proof {
                lemma_value_views(xs@);
                lemma_value_views(ys@);
                assert forall|k: int| 0 <= k < xs@.len() implies value_views(xs@)[k]
                    == value_views(ys@)[k] by {
                    assert(value_views(xs@)[k] == xs@[k]@);
                    assert(value_views(ys@)[k] == ys@[k]@);
                }
                assert(value_views(xs@) =~= value_views(ys@));
            }
            true
        },
        (Value::Block(xs), Value::Block(ys)) => {
            proof {
                assert(decreases_to!(*a => *xs));
                lemma_op_views(xs@);
                lemma_op_views(ys@);
            }
            if xs.len() != ys.len() {
                proof {
                    assert(a@->Block_0.len() != b@->Block_0.len());
                }
                return false;
            }
            let n = xs.len();
            let mut i: usize = 0;
            while i < n
                invariant
                    (decreases_to!(*a => *xs)),
                    *a == Value::Block(*xs),
                    *b == Value::Block(*ys),
                    i <= n,
                    n == xs@.len() == ys@.len(),
                    forall|k: int| 0 <= k < i ==> xs@[k]@ == #[trigger] ys@[k]@,
                decreases n - i,
            {
                proof {
                    assert(decreases_to!(*xs => xs@));
                    assert(decreases_to!(xs@ => xs@[i as int]));
                }
                if !op_eq_in_value(a, &xs[i], &ys[i]) {
                    proof {
                        lemma_op_views(xs@);
                        lemma_op_views(ys@);
                        assert(op_views(xs@)[i as int] == xs@[i as int]@);
                        assert(op_views(ys@)[i as int] == ys@[i as int]@);
                        assert(a@->Block_0[i as int] != b@->Block_0[i as int]);
                    }
                    return false;
                }
                i += 1;
            }
            proof {
                lemma_op_views(xs@);
                lemma_op_views(ys@);
                assert forall|k: int| 0 <= k < xs@.len() implies op_views(xs@)[k] == op_views(
                    ys@,
                )[k] by {
                    assert(op_views(xs@)[k] == xs@[k]@);
                    assert(op_views(ys@)[k] == ys@[k]@);
                }
                assert(op_views(xs@) =~= op_views(ys@));
            }
            true
        },
        _ => {
            proof {
                assert(a@ != b@);
            }
            false
        },
    }
}

/// Instruction equality, carried under a value owner for termination.
fn op_eq_in_value(owner: &Value, x: &Op, y: &Op) -> (r: bool)
    requires
        decreases_to!(*owner => *x),
    ensures
        r == (x@ == y@),
    decreases owner, 0int,
{
    op_eq(x, y)
}

/// Whether two instructions are equal, field for field.
pub fn op_eq(x: &Op, y: &Op) -> (r: bool)
    ensures
        r == (x@ == y@),
    decreases x,
{
    match (x, y) {
        (Op::Literal(a), Op::Literal(b)) => {
            proof {
                assert(decreases_to!(*x => *a));
            }
            value_eq(a, b)
        },
        (Op::Symbol(s), Op::Symbol(t)) => s.sym_eq(t),
        (Op::Tuple(n), Op::Tuple(m)) => n == m,
        (Op::Select(n), Op::Select(m)) => n == m,
        (Op::If, Op::If) => true,
        (Op::BeginDef, Op::BeginDef) => true,
        (Op::BeginTypeDef, Op::BeginTypeDef) => true,
        (Op::End, Op::End) => true,
        (Op::Effect(e), Op::Effect(f)) => {
            proof {
                assert forall|k: int| 0 <= k < e.pre@.len() implies (e@.pre[k] == e.pre@.map(
                    |i: int, s: Symbol| s@,
                )[k] && e@.pre[k] == e.pre@[k]@) by {
                    assert(e@.pre[k] == e.pre@[k]@);
                    assert(e.pre@.map(|i: int, s: Symbol| s@)[k] == e.pre@[k]@);
                }
                assert(e@.pre =~= e.pre@.map(|i: int, s: Symbol| s@));
                assert forall|k: int| 0 <= k < f.pre@.len() implies f@.pre[k] == f.pre@.map(
                    |i: int, s: Symbol| s@,
                )[k] by {
                    assert(f@.pre[k] == f.pre@[k]@);
                    assert(f.pre@.map(|i: int, s: Symbol| s@)[k] == f.pre@[k]@);
                }
                assert(f@.pre =~= f.pre@.map(|i: int, s: Symbol| s@));
                assert forall|k: int| 0 <= k < e.post@.len() implies e@.post[k] == e.post@.map(
                    |i: int, s: Symbol| s@,
                )[k] by {
                    assert(e@.post[k] == e.post@[k]@);
                    assert(e.post@.map(|i: int, s: Symbol| s@)[k] == e.post@[k]@);
                }
                assert(e@.post =~= e.post@.map(|i: int, s: Symbol| s@));
                assert forall|k: int| 0 <= k < f.post@.len() implies f@.post[k] == f.post@.map(
                    |i: int, s: Symbol| s@,
                )[k] by {
                    assert(f@.post[k] == f.post@[k]@);
                    assert(f.post@.map(|i: int, s: Symbol| s@)[k] == f.post@[k]@);
                }
                assert(f@.post =~= f.post@.map(|i: int, s: Symbol| s@));
            }
            let r = symbols_eq(&e.pre, &f.pre) && symbols_eq(&e.post, &f.post);
            proof {
                if e.pre@.map(|i: int, s: Symbol| s@) == f.pre@.map(|i: int, s: Symbol| s@)
                    && e.post@.map(|i: int, s: Symbol| s@) == f.post@.map(
                    |i: int, s: Symbol| s@,
                ) {
                    assert(e@.pre =~= f@.pre);
                    assert(e@.post =~= f@.post);
                    assert(x@ == y@);
                } else {
                    assert(e@ != f@);
                }
            }
            r
        },
        _ => {
            proof {
                assert(x@ != y@);
            }
            false
        },
    }
}

/// Whether two name lists hold the same names in the same order.
pub fn symbols_eq(a: &Vec<Symbol>, b: &Vec<Symbol>) -> (r: bool)
    ensures
        r == (a@.map(|i: int, s: Symbol| s@) == b@.map(|i: int, s: Symbol| s@)),
{
    let ghost av = a@.map(|i: int, s: Symbol| s@);
    let ghost bv = b@.map(|i: int, s: Symbol| s@);
    if a.len() != b.len() {
        proof {
            assert(av.len() != bv.len());
        }
        return false;
    }
    let n = a.len();
    let mut i: usize = 0;
    while i < n
        invariant
            i <= n,
            n == a@.len() == b@.len(),
            av == a@.map(|j: int, s: Symbol| s@),
            bv == b@.map(|j: int, s: Symbol| s@),
            forall|k: int| 0 <= k < i ==> av[k] == #[trigger] bv[k],
        decreases n - i,
    {
        if !a[i].sym_eq(&b[i]) {
            proof {
                assert(av[i as int] == a@[i as int]@);
                assert(bv[i as int] == b@[i as int]@);
            }
            return false;
        }
        proof {
            assert(av[i as int] == a@[i as int]@);
            assert(bv[i as int] == b@[i as int]@);
        }
        i += 1;
    }
    proof {
        assert(av =~= bv);
    }
    true
}

} // verus!

verus! {

impl Value {
    /// This value as a boolean, or a type mismatch naming what it was.
    pub fn expect_bool(self) -> (r: Result<bool, Error>)
        ensures
            match (r, self@) {
                (Ok(b), ValueView::True) => b == true,
                (Ok(b), ValueView::False) => b == false,
                (Err(e), v) => !(v is True) && !(v is False) && e@ == (ErrorView::TypeMismatch {
                    expected: tag_bln(),
                    found: value_tag(v),
                }),
                _ => false,
            },
    {
        match self {
            Value::True => Ok(true),
            Value::False => Ok(false),
            _ => Err(
                Error::TypeMismatch {
                    expected: sym_bln(),
                    found: self.get_type_total(),
                },
            ),
        }
    }

    /// This value as an integer, or a type mismatch naming what it was.
    pub fn expect_int(self) -> (r: Result<i64, Error>)
        ensures
            match (r, self@) {
                (Ok(x), ValueView::Int(sx)) => x == sx,
                (Err(e), v) => !(v is Int) && e@ == (ErrorView::TypeMismatch {
                    expected: tag_int(),
                    found: value_tag(v),
                }),
                _ => false,
            },
    {
        match self {
            Value::Int(x) => Ok(x),
            _ => Err(
                Error::TypeMismatch {
                    expected: sym_int(),
                    found: self.get_type_total(),
                },
            ),
        }
    }

    /// This value as a float's literal text, or a type mismatch naming
    /// what it was.
    pub fn expect_float(self) -> (r: Result<Vec<u8>, Error>)
        ensures
            match (r, self@) {
                (Ok(t), ValueView::Flt(st)) => t@ == st,
                (Err(e), v) => !(v is Flt) && e@ == (ErrorView::TypeMismatch {
                    expected: tag_flt(),
                    found: value_tag(v),
                }),
                _ => false,
            },
    {
        match self {
            Value::Flt(t) => Ok(t),
            _ => Err(
                Error::TypeMismatch {
                    expected: sym_flt(),
                    found: self.get_type_total(),
                },
            ),
        }
    }

    /// This value as a string, or a type mismatch naming what it was.
    pub fn expect_string(self) -> (r: Result<Vec<u8>, Error>)
        ensures
            match (r, self@) {
                (Ok(t), ValueView::Str(st)) => t@ == st,
                (Err(e), v) => !(v is Str) && e@ == (ErrorView::TypeMismatch {
                    expected: tag_str(),
                    found: value_tag(v),
                }),
                _ => false,
            },
    {
        match self {
            Value::Str(t) => Ok(t),
            _ => Err(
                Error::TypeMismatch {
                    expected: sym_str(),
                    found: self.get_type_total(),
                },
            ),
        }
    }
}

} // verus!
