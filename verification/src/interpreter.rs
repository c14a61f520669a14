use vstd::prelude::*;

use crate::errors::Error;
use crate::errors::ErrorView;
use crate::symbol::Symbol;
use crate::value::Value;
use crate::value::ValueView;

verus! {

/// One instruction of the program representation.
#[derive(Debug)]
pub enum Op {
    /// Push this value.
    Literal(Value),
    /// Resolve this name and run what it is bound to.
    Symbol(Symbol),
    /// Pop this many values and build a tuple, tag first.
    Tuple(usize),
    /// Pop a tuple and push this field of it.
    Select(usize),
    /// Pop a boolean and run one of the two following block literals.
    If,
    /// Begin a word definition, read from the instruction cursor.
    BeginDef,
    /// Begin a type definition, read from the instruction cursor.
    BeginTypeDef,
    /// End a definition.
    End,
    /// A stack-effect declaration, significant only in a definition header.
    Effect(StackEffect),
}

/// The mathematical shape of an `Op`.
#[verifier::ext_equal]
pub ghost enum OpView {
    Literal(ValueView),
    Symbol(Seq<u8>),
    Tuple(usize),
    Select(usize),
    If,
    BeginDef,
    BeginTypeDef,
    End,
    Effect(EffectView),
}

impl View for Op {
    type V = OpView;

    open spec fn view(&self) -> OpView
        decreases self,
    {
        match self {
            Op::Literal(v) => OpView::Literal(v@),
            Op::Symbol(s) => OpView::Symbol(s@),
            Op::Tuple(n) => OpView::Tuple(*n),
            Op::Select(i) => OpView::Select(*i),
            Op::If => OpView::If,
            Op::BeginDef => OpView::BeginDef,
            Op::BeginTypeDef => OpView::BeginTypeDef,
            Op::End => OpView::End,
            Op::Effect(e) => OpView::Effect(e@),
        }
    }
}

/// A declared stack effect: the formals consumed and the formals produced.
/// Only `pre` is ever consulted at runtime, and only for dispatch.
#[derive(Debug)]
pub struct StackEffect {
    pub pre: Vec<Symbol>,
    pub post: Vec<Symbol>,
}

/// The mathematical shape of a `StackEffect`.
#[verifier::ext_equal]
pub ghost struct EffectView {
    pub pre: Seq<Seq<u8>>,
    pub post: Seq<Seq<u8>>,
}

impl View for StackEffect {
    type V = EffectView;

    open spec fn view(&self) -> EffectView {
        EffectView {
            pre: Seq::new(self.pre@.len(), |i: int| self.pre@[i]@),
            post: Seq::new(self.post@.len(), |i: int| self.post@[i]@),
        }
    }
}

/// One overload of a user-defined word.
pub struct Method {
    pub effect: StackEffect,
    pub doc: Vec<u8>,
    pub body: Vec<Op>,
}

/// The mathematical shape of a `Method`.
#[verifier::ext_equal]
pub ghost struct MethodView {
    pub effect: EffectView,
    pub doc: Seq<u8>,
    pub body: Seq<OpView>,
}

impl View for Method {
    type V = MethodView;

    open spec fn view(&self) -> MethodView {
        MethodView {
            effect: self.effect@,
            doc: self.doc@,
            body: crate::value::op_views(self.body@),
        }
    }
}

/// The identity of a built-in primitive.  Their bodies are either the
/// engine's own (stack moves, integer and boolean work, text work) or the
/// host's (float arithmetic).
#[derive(Clone, Copy, PartialEq, Eq, Structural)]
pub enum Prim {
    /// Pop a string and fail with it.
    Raise,
    /// Pop a block and run it.
    Apply,
    /// Print both stacks.
    Stacks,
    /// Print every bound word.
    Words,
    /// Move the top of the main stack to the secondary stack.
    ToSecond,
    /// Move the top of the secondary stack to the main stack.
    FromSecond,
    /// Pop an index and copy that slot of the secondary stack, top first.
    PickSecond,
    /// Pop and discard.
    Drop,
    /// Duplicate the top.
    Dup,
    /// Copy the value under the top over it.
    Over,
    /// Exchange the two top values.
    Swap,
    /// Rotate the third value to the top.
    Rot,
    /// Pop any value and print its debug shape.
    PrintAny,
    /// Pop two values and push whether they are equal.
    EqAny,
    /// Pop a boolean and print it.
    PrintBool,
    BoolEq,
    BoolAnd,
    BoolOr,
    /// Pop an integer and print it.
    PrintInt,
    IntEq,
    IntLt,
    IntAdd,
    IntSub,
    IntMul,
    IntDiv,
    /// Pop a float and print its literal text.
    PrintFlt,
    /// Pop an integer and push it as a float.
    IntToFlt,
    FltEq,
    FltLt,
    FltAdd,
    FltSub,
    FltMul,
    FltDiv,
    FltSqrt,
    FltLog,
    FltSin,
    FltCos,
    /// Pop a string and print it quoted.
    PrintStr,
    /// Pop a string and print it plain.
    PrintLn,
    StrEq,
    /// Pop a format string and splice popped values into it.
    Fmt,
    /// Pop a symbol and print it.
    PrintSym,
    SymEq,
}

/// What a name is bound to: a primitive fixed at startup, or the ordered
/// overloads of a user-defined word.
pub enum Binding {
    Primitive(Prim),
    Composite(Vec<Method>),
}

/// The mathematical shape of a `Binding`.
#[verifier::ext_equal]
pub ghost enum BindingView {
    Primitive(Prim),
    Composite(Seq<MethodView>),
}

impl View for Binding {
    type V = BindingView;

    open spec fn view(&self) -> BindingView {
        match self {
            Binding::Primitive(p) => BindingView::Primitive(*p),
            Binding::Composite(methods) => BindingView::Composite(
                methods@.map(|i: int, m: Method| m@),
            ),
        }
    }
}

/// One entry of the environment.
pub struct EnvEntry {
    pub name: Symbol,
    pub binding: Binding,
}

/// The mathematical shape of an `EnvEntry`.
#[verifier::ext_equal]
pub ghost struct EnvEntryView {
    pub name: Seq<u8>,
    pub binding: BindingView,
}

impl View for EnvEntry {
    type V = EnvEntryView;

    open spec fn view(&self) -> EnvEntryView {
        EnvEntryView { name: self.name@, binding: self.binding@ }
    }
}

/// An interpreter instance: the two operand stacks, the environment, and
/// the buffered output and definition-log lines that the caller drains.
pub struct Interpreter {
    pub enable_log: bool,
    pub main_stack: Vec<Value>,
    pub secondary_stack: Vec<Value>,
    pub env: Vec<EnvEntry>,
    pub out: Vec<Vec<u8>>,
    pub log_lines: Vec<Vec<u8>>,
}

/// The mathematical shape of an interpreter state.
#[verifier::ext_equal]
pub ghost struct StateView {
    pub main: Seq<ValueView>,
    pub sec: Seq<ValueView>,
    pub env: Seq<EnvEntryView>,
    pub out: Seq<Seq<u8>>,
    pub log: Seq<Seq<u8>>,
    pub log_on: bool,
}

impl View for Interpreter {
    type V = StateView;

    open spec fn view(&self) -> StateView {
        StateView {
            main: crate::value::value_views(self.main_stack@),
            sec: crate::value::value_views(self.secondary_stack@),
            env: self.env@.map(|i: int, e: EnvEntry| e@),
            out: self.out@.map(|i: int, l: Vec<u8>| l@),
            log: self.log_lines@.map(|i: int, l: Vec<u8>| l@),
            log_on: self.enable_log,
        }
    }
}

/// The hooks through which the engine reaches work it treats as opaque:
/// the float primitives' bodies.  A host is handed float literal texts and
/// answers with whatever its arithmetic makes of them; the engine promises
/// nothing about the answers.
pub trait FloatHost {
    /// Answer `a == b` over floats for `FltEq`, `a < b` for `FltLt`.
    fn float_cmp(&mut self, p: Prim, a: &Vec<u8>, b: &Vec<u8>) -> bool;

    /// Answer `a + b`, `a - b`, `a * b` or `a / b` over floats, as literal
    /// text, for `FltAdd`, `FltSub`, `FltMul`, `FltDiv`.
    fn float_arith(&mut self, p: Prim, a: &Vec<u8>, b: &Vec<u8>) -> Vec<u8>;

    /// Answer the square root, natural logarithm, sine or cosine, as
    /// literal text, for `FltSqrt`, `FltLog`, `FltSin`, `FltCos`.
    fn float_unary(&mut self, p: Prim, a: &Vec<u8>) -> Vec<u8>;

    /// Answer the float nearest the integer, as literal text, for
    /// `IntToFlt`.
    fn int_to_float(&mut self, x: i64) -> Vec<u8>;
}

} // verus!

verus! {

broadcast use vstd::seq::group_seq_axioms, vstd::std_specs::vec::group_vec_axioms;

use crate::errors::WhichStack;
use crate::sem::PopRes;
use crate::sem::env_lookup;
use crate::sem::find_method_idx;
use crate::sem::effect_accepts;
use crate::sem::pop_value_s;
use crate::sem::pop_bool_s;
use crate::sem::pop_int_s;
use crate::sem::pop_flt_s;
use crate::sem::pop_str_s;
use crate::sem::pop_sym_s;
use crate::sem::pop_block_s;
use crate::sem::pop_tuple_s;
use crate::sem::push_main;
use crate::sem::with_main;
use crate::sem::with_sec;
use crate::value::clone_value;
use crate::value::clone_ops;
use crate::value::lemma_value_views;
use crate::value::lemma_op_views;
use crate::value::op_views;
use crate::value::value_views;
use crate::value::value_tag;
use crate::value::wf_value;
use crate::value::wf_values;

/// Views behave pointwise under push and pop of the carrying vector.
pub proof fn lemma_value_views_push(s: Seq<Value>, v: Value)
    ensures
        value_views(s.push(v)) == value_views(s).push(v@),
{
    lemma_value_views(s.push(v));
    lemma_value_views(s);
    assert forall|k: int| 0 <= k < s.len() + 1 implies value_views(s.push(v))[k] == value_views(
        s,
    ).push(v@)[k] by {
        assert(value_views(s.push(v))[k] == s.push(v)[k]@);
        if k < s.len() {
            assert(s.push(v)[k] == s[k]);
            assert(value_views(s)[k] == s[k]@);
        } else {
            assert(s.push(v)[k] == v);
        }
    }
    assert(value_views(s.push(v)) =~= value_views(s).push(v@));
}

pub proof fn lemma_value_views_drop_last(s: Seq<Value>)
    requires
        s.len() > 0,
    ensures
        value_views(s.drop_last()) == value_views(s).drop_last(),
        value_views(s).last() == s.last()@,
{
    lemma_value_views(s);
    lemma_value_views(s.drop_last());
    assert forall|k: int| 0 <= k < s.len() - 1 implies value_views(s.drop_last())[k] == value_views(
        s,
    ).drop_last()[k] by {
        assert(value_views(s.drop_last())[k] == s.drop_last()[k]@);
        assert(s.drop_last()[k] == s[k]);
        assert(value_views(s)[k] == s[k]@);
    }
    assert(value_views(s.drop_last()) =~= value_views(s).drop_last());
}

impl Interpreter {
    /// A fresh instance: empty stacks, an empty environment, logging on.
    pub fn new() -> (r: Interpreter)
        ensures
            r@.main == Seq::<ValueView>::empty(),
            r@.sec == Seq::<ValueView>::empty(),
            r@.env == Seq::<EnvEntryView>::empty(),
            r@.out == Seq::<Seq<u8>>::empty(),
            r@.log == Seq::<Seq<u8>>::empty(),
            r@.log_on == true,
            crate::sem::wf_state(r@),
            crate::sem::prims_reserved(r@.env),
    {
        let r = Interpreter {
            enable_log: true,
            main_stack: Vec::new(),
            secondary_stack: Vec::new(),
            env: Vec::new(),
            out: Vec::new(),
            log_lines: Vec::new(),
        };
        proof {
            assert(r@.main =~= Seq::<ValueView>::empty());
            assert(r@.sec =~= Seq::<ValueView>::empty());
            assert(r@.env =~= Seq::<EnvEntryView>::empty());
            assert(r@.out =~= Seq::<Seq<u8>>::empty());
            assert(r@.log =~= Seq::<Seq<u8>>::empty());
        }
        r
    }

    /// Take a value off the main stack.
    pub fn pop(&mut self) -> (r: Result<Value, Error>)
        ensures
            match (r, pop_value_s(old(self)@)) {
                (Ok(v), PopRes::Got(sv, st1)) => v@ == sv && final(self)@ == st1,
                (Err(e), PopRes::Failed(st1, se)) => e@ == se && final(self)@ == st1,
                _ => false,
            },
    {
        let ghost old_stack = self.main_stack@;
        match self.main_stack.pop() {
            None => {
                proof {
                    lemma_value_views(old_stack);
                    assert(old_stack.len() == 0);
                    assert(old(self)@.main.len() == 0);
                    assert(pop_value_s(old(self)@) is Failed);
                    assert(self@ =~= old(self)@);
                }
                Err(Error::StackUnderflow(WhichStack::Main))
            },
            Some(v) => {
                proof {
                    assert(old_stack.len() > 0);
                    lemma_value_views(old_stack);
                    assert(old(self)@.main.len() > 0);
                    assert(pop_value_s(old(self)@) is Got);
                    lemma_value_views_drop_last(old_stack);
                    assert(self.main_stack@ =~= old_stack.drop_last());
                    assert(v@ == value_views(old_stack).last());
                    assert(self@.main == old(self)@.main.drop_last());
                    assert(self@ =~= with_main(old(self)@, old(self)@.main.drop_last()));
                }
                Ok(v)
            },
        }
    }

    /// Put a value on the main stack.
    pub fn push(&mut self, value: Value)
        ensures
            final(self)@ == push_main(old(self)@, value@),
    {
        let ghost old_stack = self.main_stack@;
        let ghost vv = value@;
        self.main_stack.push(value);
        proof {
            lemma_value_views_push(old_stack, self.main_stack@.last());
            assert(self@ =~= push_main(old(self)@, vv));
        }
    }

    pub fn pop_bool(&mut self) -> (r: Result<bool, Error>)
        ensures
            match (r, pop_bool_s(old(self)@)) {
                (Ok(v), PopRes::Got(sv, st1)) => v == sv && final(self)@ == st1,
                (Err(e), PopRes::Failed(st1, se)) => e@ == se && final(self)@ == st1,
                _ => false,
            },
    {
        match self.pop() {
            Err(e) => Err(e),
            Ok(v) => match v {
                Value::True => Ok(true),
                Value::False => Ok(false),
                _ => Err(
                    Error::TypeMismatch { expected: crate::value::sym_bln(), found: v.get_type_total() },
                ),
            },
        }
    }

    pub fn pop_int(&mut self) -> (r: Result<i64, Error>)
        ensures
            match (r, pop_int_s(old(self)@)) {
                (Ok(v), PopRes::Got(sv, st1)) => v == sv && final(self)@ == st1,
                (Err(e), PopRes::Failed(st1, se)) => e@ == se && final(self)@ == st1,
                _ => false,
            },
    {
        match self.pop() {
            Err(e) => Err(e),
            Ok(v) => match v {
                Value::Int(x) => Ok(x),
                _ => Err(
                    Error::TypeMismatch { expected: crate::value::sym_int(), found: v.get_type_total() },
                ),
            },
        }
    }

    pub fn pop_flt(&mut self) -> (r: Result<Vec<u8>, Error>)
        ensures
            match (r, pop_flt_s(old(self)@)) {
                (Ok(v), PopRes::Got(sv, st1)) => v@ == sv && final(self)@ == st1,
                (Err(e), PopRes::Failed(st1, se)) => e@ == se && final(self)@ == st1,
                _ => false,
            },
    {
        match self.pop() {
            Err(e) => Err(e),
            Ok(v) => match v {
                Value::Flt(t) => Ok(t),
                _ => Err(
                    Error::TypeMismatch { expected: crate::value::sym_flt(), found: v.get_type_total() },
                ),
            },
        }
    }

    pub fn pop_str(&mut self) -> (r: Result<Vec<u8>, Error>)
        ensures
            match (r, pop_str_s(old(self)@)) {
                (Ok(v), PopRes::Got(sv, st1)) => v@ == sv && final(self)@ == st1,
                (Err(e), PopRes::Failed(st1, se)) => e@ == se && final(self)@ == st1,
                _ => false,
            },
    {
        match self.pop() {
            Err(e) => Err(e),
            Ok(v) => match v {
                Value::Str(t) => Ok(t),
                _ => Err(
                    Error::TypeMismatch { expected: crate::value::sym_str(), found: v.get_type_total() },
                ),
            },
        }
    }

    pub fn pop_sym(&mut self) -> (r: Result<Symbol, Error>)
        ensures
            match (r, pop_sym_s(old(self)@)) {
                (Ok(v), PopRes::Got(sv, st1)) => v@ == sv && final(self)@ == st1,
                (Err(e), PopRes::Failed(st1, se)) => e@ == se && final(self)@ == st1,
                _ => false,
            },
    {
        match self.pop() {
            Err(e) => Err(e),
            Ok(v) => match v {
                Value::Symbol(s) => Ok(s),
                _ => Err(
                    Error::TypeMismatch { expected: crate::value::sym_sym(), found: v.get_type_total() },
                ),
            },
        }
    }

    pub fn pop_ops(&mut self) -> (r: Result<Vec<Op>, Error>)
        ensures
            match (r, pop_block_s(old(self)@)) {
                (Ok(v), PopRes::Got(sv, st1)) => op_views(v@) == sv && final(self)@ == st1,
                (Err(e), PopRes::Failed(st1, se)) => e@ == se && final(self)@ == st1,
                _ => false,
            },
    {
        match self.pop() {
            Err(e) => Err(e),
            Ok(v) => match v {
                Value::Block(ops) => Ok(ops),
                _ => Err(
                    Error::TypeMismatch { expected: crate::value::sym_ops(), found: v.get_type_total() },
                ),
            },
        }
    }

    pub fn pop_tuple(&mut self) -> (r: Result<Vec<Value>, Error>)
        ensures
            match (r, pop_tuple_s(old(self)@)) {
                (Ok(v), PopRes::Got(sv, st1)) => value_views(v@) == sv && final(self)@ == st1,
                (Err(e), PopRes::Failed(st1, se)) => e@ == se && final(self)@ == st1,
                _ => false,
            },
    {
        match self.pop() {
            Err(e) => Err(e),
            Ok(v) => match v {
                Value::Tuple(fields) => Ok(fields),
                _ => Err(
                    Error::TypeMismatch { expected: crate::value::sym_tup(), found: v.get_type_total() },
                ),
            },
        }
    }

    pub fn push_bool(&mut self, value: bool)
        ensures
            final(self)@ == push_main(old(self)@, crate::sem::bool_val(value)),
    {
        if value {
            self.push(Value::True);
        } else {
            self.push(Value::False);
        }
    }

    pub fn push_int(&mut self, value: i64)
        ensures
            final(self)@ == push_main(old(self)@, ValueView::Int(value)),
    {
        self.push(Value::Int(value));
    }

    pub fn push_flt(&mut self, value: Vec<u8>)
        ensures
            final(self)@ == push_main(old(self)@, ValueView::Flt(value@)),
    {
        self.push(Value::Flt(value));
    }

    pub fn push_str(&mut self, value: Vec<u8>)
        ensures
            final(self)@ == push_main(old(self)@, ValueView::Str(value@)),
    {
        self.push(Value::Str(value));
    }

    /// Resolve a name in the environment, handing back a copy of its
    /// binding.
    pub fn lookup(&self, name: &Symbol) -> (r: Option<Binding>)
        ensures
            match (r, env_lookup(self@.env, name@)) {
                (Some(b), Some(sb)) => b@ == sb,
                (None, None) => true,
                _ => false,
            },
    {
        let n = self.env.len();
        proof {
            assert(self@.env.len() == n);
            assert(self@.env.subrange(0, n as int) =~= self@.env);
        }
        let mut i: usize = 0;
        while i < n
            invariant
                i <= n,
                n == self.env@.len() == self@.env.len(),
                env_lookup(self@.env, name@) == env_lookup(
                    self@.env.subrange(i as int, n as int),
                    name@,
                ),
            decreases n - i,
        {
            proof {
                assert(self@.env[i as int] == self.env@[i as int]@);
                assert(self@.env.subrange(i as int, n as int)[0] == self@.env[i as int]);
            }
            if self.env[i].name.sym_eq(name) {
                proof {
                    assert(env_lookup(self@.env.subrange(i as int, n as int), name@) == Some(
                        self@.env[i as int].binding,
                    ));
                }
                return Some(clone_binding(&self.env[i].binding));
            }
            proof {
                assert(self@.env.subrange(i as int, n as int).drop_first() =~= self@.env.subrange(
                    i + 1,
                    n as int,
                ));
            }
            i += 1;
        }
        proof {
            assert(self@.env.subrange(n as int, n as int) =~= Seq::<EnvEntryView>::empty());
        }
        None
    }
}

impl Value {
    /// The runtime type tag, with an empty name for a tuple missing its
    /// tag; the engine never builds such a tuple.
    pub fn get_type_total(&self) -> (r: Symbol)
        ensures
            r@ == value_tag(self@),
    {
        match self {
            Value::True => crate::value::sym_bln(),
            Value::False => crate::value::sym_bln(),
            Value::Int(_) => crate::value::sym_int(),
            Value::Flt(_) => crate::value::sym_flt(),
            Value::Str(_) => crate::value::sym_str(),
            Value::Symbol(_) => crate::value::sym_sym(),
            Value::Block(_) => crate::value::sym_ops(),
            Value::Tuple(fields) => {
                proof {
                    lemma_value_views(fields@);
                    assert(self@->Tuple_0.len() == fields@.len());
                }
                if fields.len() >= 1 {
                    proof {
                        assert(self@->Tuple_0[0] == fields@[0]@);
                    }
                    match &fields[0] {
                        Value::Symbol(tag) => tag.clone_sym(),
                        _ => {
                            let r = Symbol(Vec::new());
                            proof {
                                assert(r@ =~= Seq::<u8>::empty());
                            }
                            r
                        },
                    }
                } else {
                    let r = Symbol(Vec::new());
                    proof {
                        assert(r@ =~= Seq::<u8>::empty());
                    }
                    r
                }
            },
        }
    }
}

/// A fresh copy of a method.
pub fn clone_method(m: &Method) -> (r: Method)
    ensures
        r@ == m@,
{
    let eff = StackEffect {
        pre: crate::symbol::clone_symbols(&m.effect.pre),
        post: crate::symbol::clone_symbols(&m.effect.post),
    };
    let r = Method { effect: eff, doc: crate::symbol::clone_bytes(&m.doc), body: clone_ops(&m.body) };
    proof {
        let pn = crate::symbol::sym_seq_names(r.effect.pre@);
        let pn0 = crate::symbol::sym_seq_names(m.effect.pre@);
        assert(pn.len() == r.effect.pre@.len());
        assert(pn0.len() == m.effect.pre@.len());
        assert(r.effect.pre@.len() == m.effect.pre@.len());
        assert forall|k: int| 0 <= k < m.effect.pre@.len() implies r.effect@.pre[k]
            == m.effect@.pre[k] by {
            assert(pn[k] == r.effect.pre@[k]@);
            assert(pn0[k] == m.effect.pre@[k]@);
            assert(r.effect@.pre[k] == r.effect.pre@[k]@);
            assert(m.effect@.pre[k] == m.effect.pre@[k]@);
        }
        assert(r.effect@.pre =~= m.effect@.pre);
        let qn = crate::symbol::sym_seq_names(r.effect.post@);
        let qn0 = crate::symbol::sym_seq_names(m.effect.post@);
        assert(qn.len() == r.effect.post@.len());
        assert(qn0.len() == m.effect.post@.len());
        assert(r.effect.post@.len() == m.effect.post@.len());
        assert forall|k: int| 0 <= k < m.effect.post@.len() implies r.effect@.post[k]
            == m.effect@.post[k] by {
            assert(qn[k] == r.effect.post@[k]@);
            assert(qn0[k] == m.effect.post@[k]@);
            assert(r.effect@.post[k] == r.effect.post@[k]@);
            assert(m.effect@.post[k] == m.effect.post@[k]@);
        }
        assert(r.effect@.post =~= m.effect@.post);
        assert(r@ =~= m@);
    }
    r
}

/// A fresh copy of an overload list.
pub fn clone_methods(ms: &Vec<Method>) -> (r: Vec<Method>)
    ensures
        r@.map(|i: int, m: Method| m@) == ms@.map(|i: int, m: Method| m@),
{
    let n = ms.len();
    let mut out: Vec<Method> = Vec::new();
    let mut i: usize = 0;
    while i < n
        invariant
            i <= n,
            n == ms@.len(),
            out@.len() == i,
            forall|k: int| 0 <= k < i ==> out@[k]@ == #[trigger] ms@[k]@,
        decreases n - i,
    {
        let c = clone_method(&ms[i]);
        out.push(c);
        i += 1;
    }
    proof {
        let a = out@.map(|i: int, m: Method| m@);
        let b = ms@.map(|i: int, m: Method| m@);
        assert forall|k: int| 0 <= k < n implies a[k] == b[k] by {
            assert(a[k] == out@[k]@);
            assert(b[k] == ms@[k]@);
        }
        assert(a =~= b);
    }
    out
}

/// A fresh copy of a binding.
pub fn clone_binding(b: &Binding) -> (r: Binding)
    ensures
        r@ == b@,
{
    match b {
        Binding::Primitive(p) => Binding::Primitive(*p),
        Binding::Composite(ms) => {
            let r = Binding::Composite(clone_methods(ms));
            proof {
                assert(r@ =~= b@);
            }
            r
        },
    }
}

/// The overload that dispatch selects for the current stack: the most
/// recent whose declared inputs accept it.
pub fn find_matching_method(methods: &Vec<Method>, stack: &Vec<Value>) -> (r: Option<Vec<Op>>)
    ensures
        match (r, find_method_idx(methods@.map(|i: int, m: Method| m@), value_views(stack@))) {
            (Some(body), Some(k)) => op_views(body@) == methods@.map(|i: int, m: Method| m@)[k].body,
            (None, None) => true,
            _ => false,
        },
{
    let ghost mviews = methods@.map(|i: int, m: Method| m@);
    let ghost sviews = value_views(stack@);
    let mut i = methods.len();
    proof {
        assert(mviews.subrange(0, i as int) =~= mviews);
    }
    while i > 0
        invariant
            i <= methods@.len(),
            mviews == methods@.map(|j: int, m: Method| m@),
            sviews == value_views(stack@),
            find_method_idx(mviews, sviews) == find_method_idx(
                mviews.subrange(0, i as int),
                sviews,
            ),
        decreases i,
    {
        i -= 1;
        proof {
            assert(mviews[i as int] == methods@[i as int]@);
            assert(mviews.subrange(0, i + 1).last() == mviews[i as int]);
            assert(mviews.subrange(0, i + 1).drop_last() =~= mviews.subrange(0, i as int));
        }
        if effect_matches_stack(&methods[i].effect, stack) {
            proof {
                assert(find_method_idx(mviews.subrange(0, i + 1), sviews) == Some(i as int));
            }
            return Some(clone_ops(&methods[i].body));
        }
    }
    proof {
        assert(mviews.subrange(0, 0) =~= Seq::<MethodView>::empty());
    }
    None
}

/// Whether a declared `pre` list accepts the stack.
pub fn effect_matches_stack(effect: &StackEffect, stack: &Vec<Value>) -> (r: bool)
    ensures
        r == effect_accepts(effect@.pre, value_views(stack@)),
{
    let ghost pre = effect@.pre;
    let ghost sviews = value_views(stack@);
    proof {
        lemma_value_views(stack@);
    }
    let plen = effect.pre.len();
    let slen = stack.len();
    if plen > slen {
        return false;
    }
    let mut j: usize = 0;
    while j < plen
        invariant
            j <= plen,
            plen == pre.len(),
            plen <= slen,
            slen == stack@.len() == sviews.len(),
            pre == effect@.pre,
            sviews == value_views(stack@),
            forall|k: int| 0 <= k < j ==> crate::sem::formal_matches(#[trigger] pre[k], sviews[slen - plen + k]),
        decreases plen - j,
    {
        proof {
            lemma_value_views(stack@);
            assert(pre[j as int] == effect.pre@[j as int]@);
            assert(sviews[slen - plen + j] == stack@[slen - plen + j]@);
        }
        let formal = &effect.pre[j];
        if formal.is_type() {
            let v = &stack[slen - plen + j];
            let tag = v.get_type_total();
            if !crate::symbol::bytes_eq(&tag.0, &formal.0) {
                proof {
                    assert(!crate::sem::formal_matches(pre[j as int], sviews[slen - plen + j]));
                }
                return false;
            }
        }
        j += 1;
    }
    true
}

} // verus!

verus! {

use crate::sem::StepOut;
use crate::sem::bool_val;
use crate::sem::spec_run_prim;
use crate::sem::spec_debug_value;
use crate::sem::spec_debug_values;
use crate::sem::spec_debug_stack;
use crate::sem::spec_fmt_walk;
use crate::sem::wf_state;
use crate::sem::prims_reserved;
use crate::sem::prims_preserved;
use crate::sem::out_line;
use crate::sem::out_lines;
use crate::sem::words_lines;
use crate::sem::words_entry_lines;
use crate::sem::words_method_lines;
use crate::sem::ok_st;
use crate::sem::fail;
use crate::sem::wrap_div_i64;
use crate::serialize::extend_bytes;
use crate::numtext::render_i64;

/// The debug shape of one value, as the printing primitives show it.
pub fn debug_value(v: &Value) -> (r: Vec<u8>)
    ensures
        r@ == spec_debug_value(v@),
    decreases v,
{
    match v {
        Value::True => {
            let r = vec![('T' as u8), ('r' as u8), ('u' as u8), ('e' as u8)];
            proof {
                assert(r@ =~= spec_debug_value(v@));
            }
            r
        },
        Value::False => {
            let r = vec![('F' as u8), ('a' as u8), ('l' as u8), ('s' as u8), ('e' as u8)];
            proof {
                assert(r@ =~= spec_debug_value(v@));
            }
            r
        },
        Value::Int(x) => {
            let mut r = vec![('I' as u8), ('n' as u8), ('t' as u8), ('(' as u8)];
            let digits = render_i64(*x);
            extend_bytes(&mut r, &digits);
            r.push(')' as u8);
            proof {
                assert(r@ =~= spec_debug_value(v@));
            }
            r
        },
        Value::Flt(t) => {
            let mut r = vec![('F' as u8), ('l' as u8), ('t' as u8), ('(' as u8)];
            extend_bytes(&mut r, t);
            r.push(')' as u8);
            proof {
                assert(r@ =~= spec_debug_value(v@));
            }
            r
        },
        Value::Str(t) => {
            let mut r = vec![('S' as u8), ('t' as u8), ('r' as u8), ('(' as u8), ('"' as u8)];
            extend_bytes(&mut r, t);
            r.push('"' as u8);
            r.push(')' as u8);
            proof {
                assert(r@ =~= spec_debug_value(v@));
            }
            r
        },
        Value::Symbol(sy) => {
            let mut r = vec![('S' as u8), ('y' as u8), ('m' as u8), ('(' as u8)];
            extend_bytes(&mut r, &sy.0);
            r.push(')' as u8);
            proof {
                assert(r@ =~= spec_debug_value(v@));
            }
            r
        },
        Value::Tuple(fields) => {
            proof {
                assert(decreases_to!(*v => *fields));
            }
            let mut r = vec![
                ('T' as u8),
                ('u' as u8),
                ('p' as u8),
                ('(' as u8),
                ('[' as u8),
            ];
            let inner = debug_fields(v, fields);
            extend_bytes(&mut r, &inner);
            r.push(']' as u8);
            r.push(')' as u8);
            proof {
                lemma_value_views(fields@);
                assert(r@ =~= spec_debug_value(v@));
            }
            r
        },
        Value::Block(_) => {
            let mut r = vec![('O' as u8), ('p' as u8), ('s' as u8), ('(' as u8)];
            let body = crate::serialize::render_value(v);
            extend_bytes(&mut r, &body);
            r.push(')' as u8);
            proof {
                assert(r@ =~= spec_debug_value(v@));
            }
            r
        },
    }
}

/// Tuple fields joined by a comma and a space.
fn debug_fields(owner: &Value, fields: &Vec<Value>) -> (r: Vec<u8>)
    requires
        decreases_to!(*owner => *fields),
    ensures
        r@ == spec_debug_values(value_views(fields@)),
    decreases owner, 0int,
{
    proof {
        lemma_value_views(fields@);
    }
    let ghost fviews = value_views(fields@);
    let mut r: Vec<u8> = Vec::new();
    let n = fields.len();
    let mut i: usize = 0;
    while i < n
        invariant
            (decreases_to!(*owner => *fields)),
            i <= n,
            n == fields@.len() == fviews.len(),
            fviews == value_views(fields@),
            r@ =~= spec_debug_values(fviews.subrange(0, i as int)),
        decreases n - i,
    {
        if i > 0 {
            r.push(',' as u8);
            r.push(' ' as u8);
        }
        proof {
            assert(decreases_to!(*fields => fields@));
            assert(decreases_to!(fields@ => fields@[i as int]));
        }
        let piece = debug_value(&fields[i]);
        extend_bytes(&mut r, &piece);
        proof {
            lemma_value_views(fields@);
            assert(fviews.subrange(0, i + 1).drop_last() =~= fviews.subrange(0, i as int));
            assert(fviews.subrange(0, i + 1).last() == fields@[i as int]@);
            assert(r@ =~= spec_debug_values(fviews.subrange(0, i + 1)));
        }
        i += 1;
    }
    proof {
        assert(fviews.subrange(0, n as int) =~= fviews);
    }
    r
}

/// A whole stack in debug shape.
pub fn debug_stack(vs: &Vec<Value>) -> (r: Vec<u8>)
    ensures
        r@ == spec_debug_stack(value_views(vs@)),
{
    proof {
        lemma_value_views(vs@);
    }
    let ghost fviews = value_views(vs@);
    let mut r: Vec<u8> = vec![('[' as u8)];
    let n = vs.len();
    let mut i: usize = 0;
    while i < n
        invariant
            i <= n,
            n == vs@.len() == fviews.len(),
            fviews == value_views(vs@),
            r@ =~= seq![('[' as u8)] + spec_debug_values(fviews.subrange(0, i as int)),
        decreases n - i,
    {
        if i > 0 {
            r.push(',' as u8);
            r.push(' ' as u8);
        }
        let piece = debug_value(&vs[i]);
        extend_bytes(&mut r, &piece);
        proof {
            lemma_value_views(vs@);
            assert(fviews.subrange(0, i + 1).drop_last() =~= fviews.subrange(0, i as int));
            assert(fviews.subrange(0, i + 1).last() == vs@[i as int]@);
            assert(r@ =~= seq![('[' as u8)] + spec_debug_values(fviews.subrange(0, i + 1)));
        }
        i += 1;
    }
    r.push(']' as u8);
    proof {
        assert(fviews.subrange(0, n as int) =~= fviews);
        assert(r@ =~= spec_debug_stack(fviews));
    }
    r
}

impl Interpreter {
    /// Append one output line.
    fn out_push(&mut self, line: Vec<u8>)
        ensures
            final(self)@ == out_line(old(self)@, line@),
    {
        let ghost lv = line@;
        self.out.push(line);
        proof {
            let f = |i: int, l: Vec<u8>| l@;
            assert forall|k: int| 0 <= k < self.out@.len() implies self.out@.map(f)[k]
                == old(self)@.out.push(lv)[k] by {
                assert(self.out@.map(f)[k] == self.out@[k]@);
                if k < self.out@.len() - 1 {
                    assert(self.out@[k] == old(self).out@[k]);
                    assert(old(self)@.out[k] == old(self).out@[k]@);
                }
            }
            assert(self.out@.map(f) =~= old(self)@.out.push(lv));
            assert(self@ =~= out_line(old(self)@, lv));
        }
    }

    /// The format primitive's walk over its directive string.
    fn run_fmt(&mut self, fmt: &Vec<u8>) -> (r: Result<(), Error>)
        ensures
            match spec_fmt_walk(fmt@, 0, old(self)@, Seq::empty()) {
                StepOut::Done(st, e) => final(self)@ == st && (match (r, e) {
                    (Ok(()), None) => true,
                    (Err(err), Some(se)) => err@ == se,
                    _ => false,
                }),
                StepOut::Host => false,
            },
    {
        proof {
            crate::sem::lemma_fmt_walk_no_host(fmt@, 0, old(self)@, Seq::empty());
        }
        let n = fmt.len();
        let mut acc: Vec<u8> = Vec::new();
        let mut i: usize = 0;
        while i < n
            invariant
                i <= n,
                n == fmt@.len(),
                spec_fmt_walk(fmt@, 0, old(self)@, Seq::empty()) == spec_fmt_walk(
                    fmt@,
                    i as int,
                    self@,
                    acc@,
                ),
            decreases n - i,
        {
            let b = fmt[i];
            if b != ('%' as u8) {
                acc.push(b);
                i += 1;
            } else if i + 1 >= n {
                self.push(Value::Str(acc));
                return Ok(());
            } else {
                let d = fmt[i + 1];
                if d == ('%' as u8) {
                    acc.push('%' as u8);
                    i += 2;
                } else if d == ('i' as u8) {
                    match self.pop_int() {
                        Err(e) => {
                            return Err(e);
                        },
                        Ok(x) => {
                            let digits = render_i64(x);
                            extend_bytes(&mut acc, &digits);
                            i += 2;
                        },
                    }
                } else if d == ('f' as u8) {
                    match self.pop_flt() {
                        Err(e) => {
                            return Err(e);
                        },
                        Ok(t) => {
                            extend_bytes(&mut acc, &t);
                            i += 2;
                        },
                    }
                } else if d == ('s' as u8) {
                    match self.pop_str() {
                        Err(e) => {
                            return Err(e);
                        },
                        Ok(t) => {
                            extend_bytes(&mut acc, &t);
                            i += 2;
                        },
                    }
                } else {
                    i += 2;
                }
            }
        }
        self.push(Value::Str(acc));
        Ok(())
    }

    /// The word directory, written to the output buffer.
    fn run_words(&mut self)
        ensures
            final(self)@ == out_lines(old(self)@, words_lines(old(self)@.env)),
    {
        let ghost env_views = self@.env;
        let mut lines: Vec<Vec<u8>> = Vec::new();
        let n = self.env.len();
        let mut i: usize = 0;
        while i < n
            invariant
                i <= n,
                n == self.env@.len(),
                env_views == self@.env,
                self@ == old(self)@,
                lines@.map(|k: int, l: Vec<u8>| l@) =~= words_lines(
                    env_views.subrange(0, i as int),
                ),
            decreases n - i,
        {
            proof {
                assert(env_views[i as int] == self.env@[i as int]@);
                assert(env_views.subrange(0, i + 1).drop_last() =~= env_views.subrange(
                    0,
                    i as int,
                ));
                assert(env_views.subrange(0, i + 1).last() == env_views[i as int]);
            }
            let ghost lines_before = lines@.map(|k: int, l: Vec<u8>| l@);
            let entry = &self.env[i];
            match &entry.binding {
                Binding::Primitive(_) => {
                    let mut line = crate::symbol::clone_bytes(&entry.name.0);
                    line.push(' ' as u8);
                    line.push('|' as u8);
                    let ghost lv = line@;
                    lines.push(line);
                    proof {
                        let f = |k: int, l: Vec<u8>| l@;
                        assert forall|k: int| 0 <= k < lines@.len() implies lines@.map(f)[k]
                            == lines_before.push(lv)[k] by {
                            assert(lines@.map(f)[k] == lines@[k]@);
                            if k < lines@.len() - 1 {
                                assert(lines_before[k] == lines@[k]@);
                            }
                        }
                        assert(lines@.map(f) =~= lines_before.push(lv));
                        assert(lv =~= env_views[i as int].name + seq![(' ' as u8), ('|' as u8)]);
                        assert(words_entry_lines(env_views[i as int]) =~= seq![lv]);
                        assert(lines@.map(f) =~= words_lines(env_views.subrange(0, i + 1)));
                    }
                },
                Binding::Composite(methods) => {
                    let ghost mname = entry.name@;
                    let ghost mviews = entry.binding@->Composite_0;
                    let mlen = methods.len();
                    let mut j: usize = 0;
                    proof {
                        assert(mviews.subrange(0, 0) =~= Seq::<MethodView>::empty());
                        assert(words_method_lines(mname, mviews.subrange(0, 0))
                            =~= Seq::<Seq<u8>>::empty());
                        assert(lines@.map(|k: int, l: Vec<u8>| l@) =~= lines_before
                            + words_method_lines(mname, mviews.subrange(0, 0)));
                    }
                    while j < mlen
                        invariant
                            j <= mlen,
                            mlen == methods@.len() == mviews.len(),
                            mviews == methods@.map(|k: int, m: Method| m@),
                            mname == self.env@[i as int].name@,
                            i < n,
                            n == self.env@.len(),
                            env_views == self@.env,
                            self@ == old(self)@,
                            env_views[i as int].binding == BindingView::Composite(mviews),
                            lines@.map(|k: int, l: Vec<u8>| l@) =~= lines_before
                                + words_method_lines(mname, mviews.subrange(0, j as int)),
                        decreases mlen - j,
                    {
                        proof {
                            assert(mviews[j as int] == methods@[j as int]@);
                            assert(mviews.subrange(0, j + 1).drop_last() =~= mviews.subrange(
                                0,
                                j as int,
                            ));
                            assert(mviews.subrange(0, j + 1).last() == mviews[j as int]);
                        }
                        let ghost lines_mid = lines@.map(|k: int, l: Vec<u8>| l@);
                        let mut line = crate::symbol::clone_bytes(&self.env[i].name.0);
                        line.push(' ' as u8);
                        line.push('|' as u8);
                        line.push(' ' as u8);
                        let efftext = crate::serialize::render_effect(&methods[j].effect);
                        extend_bytes(&mut line, &efftext);
                        line.push(' ' as u8);
                        line.push('|' as u8);
                        line.push(' ' as u8);
                        extend_bytes(&mut line, &methods[j].doc);
                        let ghost lv = line@;
                        lines.push(line);
                        proof {
                            let f = |k: int, l: Vec<u8>| l@;
                            assert forall|k: int| 0 <= k < lines@.len() implies lines@.map(f)[k]
                                == lines_mid.push(lv)[k] by {
                                assert(lines@.map(f)[k] == lines@[k]@);
                                if k < lines@.len() - 1 {
                                    assert(lines_mid[k] == lines@[k]@);
                                }
                            }
                            assert(lines@.map(f) =~= lines_mid.push(lv));
                            assert(lv =~= mname + seq![(' ' as u8), ('|' as u8), (' ' as u8)]
                                + crate::serialize::spec_render_effect(mviews[j as int].effect)
                                + seq![(' ' as u8), ('|' as u8), (' ' as u8)] + mviews[j as int].doc);
                            assert(lines@.map(f) =~= lines_mid + seq![lv]);
                            assert(words_method_lines(mname, mviews.subrange(0, j + 1))
                                =~= words_method_lines(mname, mviews.subrange(0, j as int)).push(
                                lv,
                            ));
                            assert(lines@.map(f) =~= lines_before + words_method_lines(
                                mname,
                                mviews.subrange(0, j + 1),
                            ));
                        }
                        j += 1;
                    }
                    proof {
                        assert(mviews.subrange(0, mlen as int) =~= mviews);
                        assert(words_entry_lines(env_views[i as int]) == words_method_lines(
                            mname,
                            mviews,
                        ));
                        assert(lines@.map(|k: int, l: Vec<u8>| l@) =~= words_lines(
                            env_views.subrange(0, i + 1),
                        ));
                    }
                },
            }
            i += 1;
        }
        proof {
            assert(env_views.subrange(0, n as int) =~= env_views);
        }
        // move the built lines onto the output buffer
        let ghost built = lines@.map(|k: int, l: Vec<u8>| l@);
        let ghost out_before = self@.out;
        let m = lines.len();
        let mut j: usize = 0;
        while j < m
            invariant
                j <= m,
                m == lines@.len(),
                built == lines@.map(|k: int, l: Vec<u8>| l@),
                built.len() == m,
                self@.main == old(self)@.main,
                self@.sec == old(self)@.sec,
                self@.env == old(self)@.env,
                self@.log == old(self)@.log,
                self@.log_on == old(self)@.log_on,
                self@.out =~= out_before + built.subrange(0, j as int),
                out_before == old(self)@.out,
            decreases m - j,
        {
            proof {
                assert(built[j as int] == lines@[j as int]@);
            }
            let line = crate::symbol::clone_bytes(&lines[j]);
            self.out_push(line);
            proof {
                assert(self@.out =~= out_before + built.subrange(0, j + 1));
            }
            j += 1;
        }
        proof {
            assert(built.subrange(0, m as int) =~= built);
            assert(self@ =~= out_lines(old(self)@, words_lines(old(self)@.env)));
        }
    }
}

} // verus!

verus! {

use crate::sem::lemma_run_prim_props;
use crate::sem::lemma_exec_props;
use crate::sem::props_ok;
use crate::sem::lemma_wf_values_push;
use crate::sem::lemma_wf_values_drop_last;
use crate::sem::host_cmp;
use crate::sem::host_unary;
use crate::value::value_eq;
use crate::value::lemma_wf_values_index;

impl Interpreter {
    /// Put a value on the secondary stack.
    fn push_secondary(&mut self, value: Value)
        ensures
            final(self)@ == with_sec(old(self)@, old(self)@.sec.push(value@)),
    {
        let ghost old_stack = self.secondary_stack@;
        let ghost vv = value@;
        self.secondary_stack.push(value);
        proof {
            lemma_value_views_push(old_stack, self.secondary_stack@.last());
            assert(self@ =~= with_sec(old(self)@, old(self)@.sec.push(vv)));
        }
    }

    /// Run one primitive.  The float ones hand their work to the host;
    /// of those nothing is promised beyond the invariants.
    #[verifier::rlimit(100)]
    fn run_prim<H: FloatHost>(&mut self, host: &mut H, p: Prim, fuel: u64) -> (r: Result<
        (),
        Error,
    >)
        requires
            wf_state(old(self)@),
        ensures
            wf_state(final(self)@),
            prims_reserved(old(self)@.env) ==> (prims_preserved(old(self)@.env, final(self)@.env)
                && prims_reserved(final(self)@.env)),
            match spec_run_prim(old(self)@, p, fuel as nat) {
                StepOut::Done(st, e) => final(self)@ == st && (match (r, e) {
                    (Ok(()), None) => true,
                    (Err(err), Some(se)) => err@ == se,
                    _ => false,
                }),
                StepOut::Host => true,
            },
        decreases fuel, 0int, 0int,
    {
        proof {
            lemma_run_prim_props(old(self)@, p, fuel as nat);
            crate::sem::lemma_prims_preserved_refl(old(self)@.env);
        }
        match p {
            Prim::Raise => match self.pop_str() {
                Err(e) => Err(e),
                Ok(m) => Err(Error::UserError(m)),
            },
            Prim::Apply => match self.pop_ops() {
                Err(e) => Err(e),
                Ok(body) => {
                    if fuel == 0 {
                        Err(Error::RecursionLimit)
                    } else {
                        proof {
                            match pop_block_s(old(self)@) {
                                PopRes::Got(bv, st1) => {
                                    assert(wf_state(st1)) by {
                                        crate::sem::lemma_pop_props(old(self)@);
                                    }
                                    assert(crate::value::wf_ops(op_views(body@))) by {
                                        crate::sem::lemma_pop_props(old(self)@);
                                        assert(wf_value(pop_value_s(old(self)@)->Got_0));
                                    }
                                },
                                PopRes::Failed(_, _) => {
                                    assert(false);
                                },
                            }
                        }
                        let res = self.exec_from(host, &body, 0, fuel - 1);
                        res
                    }
                },
            },
            Prim::Stacks => {
                let mut l1 = vec![
                    (' ' as u8),
                    (' ' as u8),
                    ('M' as u8),
                    ('a' as u8),
                    ('i' as u8),
                    ('n' as u8),
                    (' ' as u8),
                    ('S' as u8),
                    ('t' as u8),
                    ('a' as u8),
                    ('c' as u8),
                    ('k' as u8),
                    (':' as u8),
                    (' ' as u8),
                ];
                let d1 = debug_stack(&self.main_stack);
                extend_bytes(&mut l1, &d1);
                let mut l2 = vec![
                    ('S' as u8),
                    ('e' as u8),
                    ('c' as u8),
                    ('o' as u8),
                    ('n' as u8),
                    ('d' as u8),
                    (' ' as u8),
                    ('S' as u8),
                    ('t' as u8),
                    ('a' as u8),
                    ('c' as u8),
                    ('k' as u8),
                    (':' as u8),
                    (' ' as u8),
                ];
                let d2 = debug_stack(&self.secondary_stack);
                extend_bytes(&mut l2, &d2);
                proof {
                    assert(l1@ =~= crate::sem::lit_main_stack_prefix() + spec_debug_stack(
                        old(self)@.main,
                    ));
                    assert(l2@ =~= crate::sem::lit_second_stack_prefix() + spec_debug_stack(
                        old(self)@.sec,
                    ));
                }
                self.out_push(l1);
                self.out_push(l2);
                proof {
                    assert(self@ =~= crate::sem::out_lines(
                        old(self)@,
                        seq![
                            crate::sem::lit_main_stack_prefix() + spec_debug_stack(
                                old(self)@.main,
                            ),
                            crate::sem::lit_second_stack_prefix() + spec_debug_stack(
                                old(self)@.sec,
                            ),
                        ],
                    ));
                }
                Ok(())
            },
            Prim::Words => {
                self.run_words();
                Ok(())
            },
            Prim::ToSecond => match self.pop() {
                Err(e) => Err(e),
                Ok(v) => {
                    self.push_secondary(v);
                    Ok(())
                },
            },
            Prim::FromSecond => {
                let ghost old_sec = self.secondary_stack@;
                match self.secondary_stack.pop() {
                    None => {
                        proof {
                            lemma_value_views(old_sec);
                            assert(self@ =~= old(self)@);
                        }
                        Err(Error::StackUnderflow(WhichStack::Secondary))
                    },
                    Some(v) => {
                        proof {
                            assert(old_sec.len() > 0);
                            lemma_value_views(old_sec);
                            assert(old(self)@.sec.len() > 0);
                            lemma_value_views_drop_last_vec(old_sec);
                            assert(self.secondary_stack@ =~= old_sec.drop_last());
                            assert(self@ =~= with_sec(old(self)@, old(self)@.sec.drop_last()));
                            assert(v@ == old(self)@.sec.last());
                            crate::sem::lemma_wf_values_drop_last(old(self)@.sec);
                            lemma_wf_values_push(old(self)@.main, old(self)@.sec.last());
                        }
                        self.push(v);
                        Ok(())
                    },
                }
            },
            Prim::PickSecond => match self.pop_int() {
                Err(e) => Err(e),
                Ok(idx) => {
                    if idx < 0 || (idx as u64) >= (self.secondary_stack.len() as u64) {
                        proof {
                            lemma_value_views(self.secondary_stack@);
                        }
                        Err(Error::IndexOutOfRange)
                    } else {
                        proof {
                            lemma_value_views(self.secondary_stack@);
                        }
                        let slot = self.secondary_stack.len() - 1 - (idx as usize);
                        let v = clone_value(&self.secondary_stack[slot]);
                        self.push(v);
                        Ok(())
                    }
                },
            },
            Prim::Drop => match self.pop() {
                Err(e) => Err(e),
                Ok(_) => Ok(()),
            },
            Prim::Dup => match self.pop() {
                Err(e) => Err(e),
                Ok(v) => {
                    let c = clone_value(&v);
                    self.push(c);
                    self.push(v);
                    Ok(())
                },
            },
            Prim::Over => match self.pop() {
                Err(e) => Err(e),
                Ok(b) => match self.pop() {
                    Err(e) => Err(e),
                    Ok(a) => {
                        let c = clone_value(&a);
                        self.push(c);
                        self.push(b);
                        self.push(a);
                        Ok(())
                    },
                },
            },
            Prim::Swap => match self.pop() {
                Err(e) => Err(e),
                Ok(b) => match self.pop() {
                    Err(e) => Err(e),
                    Ok(a) => {
                        self.push(b);
                        self.push(a);
                        Ok(())
                    },
                },
            },
            Prim::Rot => match self.pop() {
                Err(e) => Err(e),
                Ok(c) => match self.pop() {
                    Err(e) => Err(e),
                    Ok(b) => match self.pop() {
                        Err(e) => Err(e),
                        Ok(a) => {
                            self.push(b);
                            self.push(c);
                            self.push(a);
                            Ok(())
                        },
                    },
                },
            },
            Prim::PrintAny => match self.pop() {
                Err(e) => Err(e),
                Ok(v) => {
                    let line = debug_value(&v);
                    self.out_push(line);
                    Ok(())
                },
            },
            Prim::EqAny => match self.pop() {
                Err(e) => Err(e),
                Ok(b) => match self.pop() {
                    Err(e) => Err(e),
                    Ok(a) => {
                        let eq = value_eq(&a, &b);
                        self.push_bool(eq);
                        Ok(())
                    },
                },
            },
            Prim::PrintBool => match self.pop_bool() {
                Err(e) => Err(e),
                Ok(x) => {
                    let line = if x {
                        vec![('t' as u8), ('r' as u8), ('u' as u8), ('e' as u8)]
                    } else {
                        vec![('f' as u8), ('a' as u8), ('l' as u8), ('s' as u8), ('e' as u8)]
                    };
                    proof {
                        if x {
                            assert(line@ =~= crate::serialize::lit_true_text());
                        } else {
                            assert(line@ =~= crate::serialize::lit_false_text());
                        }
                    }
                    self.out_push(line);
                    Ok(())
                },
            },
            Prim::BoolEq => match self.pop_bool() {
                Err(e) => Err(e),
                Ok(b) => match self.pop_bool() {
                    Err(e) => Err(e),
                    Ok(a) => {
                        self.push_bool(a == b);
                        Ok(())
                    },
                },
            },
            Prim::BoolAnd => match self.pop_bool() {
                Err(e) => Err(e),
                Ok(b) => match self.pop_bool() {
                    Err(e) => Err(e),
                    Ok(a) => {
                        self.push_bool(a && b);
                        Ok(())
                    },
                },
            },
            Prim::BoolOr => match self.pop_bool() {
                Err(e) => Err(e),
                Ok(b) => match self.pop_bool() {
                    Err(e) => Err(e),
                    Ok(a) => {
                        self.push_bool(a || b);
                        Ok(())
                    },
                },
            },
            Prim::PrintInt => match self.pop_int() {
                Err(e) => Err(e),
                Ok(x) => {
                    let line = render_i64(x);
                    self.out_push(line);
                    Ok(())
                },
            },
            Prim::IntEq => match self.pop_int() {
                Err(e) => Err(e),
                Ok(b) => match self.pop_int() {
                    Err(e) => Err(e),
                    Ok(a) => {
                        self.push_bool(a == b);
                        Ok(())
                    },
                },
            },
            Prim::IntLt => match self.pop_int() {
                Err(e) => Err(e),
                Ok(b) => match self.pop_int() {
                    Err(e) => Err(e),
                    Ok(a) => {
                        self.push_bool(a < b);
                        Ok(())
                    },
                },
            },
            Prim::IntAdd => match self.pop_int() {
                Err(e) => Err(e),
                Ok(b) => match self.pop_int() {
                    Err(e) => Err(e),
                    Ok(a) => {
                        self.push_int(a.wrapping_add(b));
                        Ok(())
                    },
                },
            },
            Prim::IntSub => match self.pop_int() {
                Err(e) => Err(e),
                Ok(b) => match self.pop_int() {
                    Err(e) => Err(e),
                    Ok(a) => {
                        self.push_int(a.wrapping_sub(b));
                        Ok(())
                    },
                },
            },
            Prim::IntMul => match self.pop_int() {
                Err(e) => Err(e),
                Ok(b) => match self.pop_int() {
                    Err(e) => Err(e),
                    Ok(a) => {
                        self.push_int(a.wrapping_mul(b));
                        Ok(())
                    },
                },
            },
            Prim::IntDiv => match self.pop_int() {
                Err(e) => Err(e),
                Ok(b) => match self.pop_int() {
                    Err(e) => Err(e),
                    Ok(a) => {
                        if b == 0 {
                            Err(Error::DivisionByZero)
                        } else {
                            self.push_int(div_trunc_wrap(a, b));
                            Ok(())
                        }
                    },
                },
            },
            Prim::PrintFlt => match self.pop_flt() {
                Err(e) => Err(e),
                Ok(t) => {
                    self.out_push(t);
                    Ok(())
                },
            },
            Prim::IntToFlt => match self.pop_int() {
                Err(e) => Err(e),
                Ok(x) => {
                    let t = host.int_to_float(x);
                    proof {
                        crate::sem::lemma_pop_props(old(self)@);
                        lemma_wf_values_push(self@.main, ValueView::Flt(t@));
                    }
                    self.push(Value::Flt(t));
                    Ok(())
                },
            },
            Prim::FltEq | Prim::FltLt => match self.pop_flt() {
                Err(e) => Err(e),
                Ok(b) => match self.pop_flt() {
                    Err(e) => Err(e),
                    Ok(a) => {
                        let c = host.float_cmp(p, &a, &b);
                        proof {
                            crate::sem::lemma_pop_props(old(self)@);
                            match pop_value_s(old(self)@) {
                                PopRes::Got(_, st1) => {
                                    crate::sem::lemma_pop_props(st1);
                                },
                                PopRes::Failed(_, _) => {},
                            }
                            lemma_wf_values_push(self@.main, crate::sem::bool_val(c));
                        }
                        self.push_bool(c);
                        Ok(())
                    },
                },
            },
            Prim::FltAdd | Prim::FltSub | Prim::FltMul | Prim::FltDiv => match self.pop_flt() {
                Err(e) => Err(e),
                Ok(b) => match self.pop_flt() {
                    Err(e) => Err(e),
                    Ok(a) => {
                        let t = host.float_arith(p, &a, &b);
                        proof {
                            crate::sem::lemma_pop_props(old(self)@);
                            match pop_value_s(old(self)@) {
                                PopRes::Got(_, st1) => {
                                    crate::sem::lemma_pop_props(st1);
                                },
                                PopRes::Failed(_, _) => {},
                            }
                            lemma_wf_values_push(self@.main, ValueView::Flt(t@));
                        }
                        self.push(Value::Flt(t));
                        Ok(())
                    },
                },
            },
            Prim::FltSqrt | Prim::FltLog | Prim::FltSin | Prim::FltCos => match self.pop_flt() {
                Err(e) => Err(e),
                Ok(a) => {
                    let t = host.float_unary(p, &a);
                    proof {
                        crate::sem::lemma_pop_props(old(self)@);
                        lemma_wf_values_push(self@.main, ValueView::Flt(t@));
                    }
                    self.push(Value::Flt(t));
                    Ok(())
                },
            },
            Prim::PrintStr => match self.pop_str() {
                Err(e) => Err(e),
                Ok(t) => {
                    let mut line = vec![('"' as u8)];
                    extend_bytes(&mut line, &t);
                    line.push('"' as u8);
                    proof {
                        assert(line@ =~= seq![('"' as u8)] + t@ + seq![('"' as u8)]);
                    }
                    self.out_push(line);
                    Ok(())
                },
            },
            Prim::PrintLn => match self.pop_str() {
                Err(e) => Err(e),
                Ok(t) => {
                    self.out_push(t);
                    Ok(())
                },
            },
            Prim::StrEq => match self.pop_str() {
                Err(e) => Err(e),
                Ok(b) => match self.pop_str() {
                    Err(e) => Err(e),
                    Ok(a) => {
                        let eq = crate::symbol::bytes_eq(&a, &b);
                        self.push_bool(eq);
                        Ok(())
                    },
                },
            },
            Prim::Fmt => match self.pop_str() {
                Err(e) => Err(e),
                Ok(f) => self.run_fmt(&f),
            },
            Prim::PrintSym => match self.pop_sym() {
                Err(e) => Err(e),
                Ok(sy) => {
                    self.out_push(sy.0);
                    Ok(())
                },
            },
            Prim::SymEq => match self.pop_sym() {
                Err(e) => Err(e),
                Ok(b) => match self.pop_sym() {
                    Err(e) => Err(e),
                    Ok(a) => {
                        let eq = a.sym_eq(&b);
                        self.push_bool(eq);
                        Ok(())
                    },
                },
            },
        }
    }
}

/// Division truncating toward zero, the one overflowing quotient wrapping
/// to the smallest value.
pub fn div_trunc_wrap(a: i64, b: i64) -> (r: i64)
    requires
        b != 0,
    ensures
        r == wrap_div_i64(a, b),
{
    let mag_a: u64 = if a < 0 {
        (-(a as i128)) as u64
    } else {
        a as u64
    };
    let mag_b: u64 = if b < 0 {
        (-(b as i128)) as u64
    } else {
        b as u64
    };
    let q = mag_a / mag_b;
    if (a < 0) == (b < 0) {
        if q >= 0x8000_0000_0000_0000u64 {
            i64::MIN
        } else {
            q as i64
        }
    } else {
        if q == 0x8000_0000_0000_0000u64 {
            i64::MIN
        } else {
            -(q as i64)
        }
    }
}

/// Popping off the secondary stack mirrors the view.
pub proof fn lemma_value_views_drop_last_vec(s: Seq<Value>)
    requires
        s.len() > 0,
    ensures
        value_views(s.drop_last()) == value_views(s).drop_last(),
        value_views(s).last() == s.last()@,
{
    lemma_value_views_drop_last(s);
}

} // verus!

verus! {

use crate::sem::spec_exec;
use crate::sem::spec_exec_next;
use crate::sem::spec_define_word;
use crate::sem::spec_define_type;
use crate::sem::scan_body;
use crate::sem::scan_join;
use crate::sem::scan_type_parts;
use crate::sem::scan_type_join;
use crate::sem::split_doc;
use crate::sem::env_set;
use crate::sem::log_line;
use crate::sem::lemma_define_word_props;
use crate::sem::lemma_define_type_props;
use crate::sem::lemma_env_lookup_at;
use crate::sem::lemma_env_lookup_none;
use crate::sem::lemma_env_lookup_wf;
use crate::sem::lemma_env_set_is_update;
use crate::sem::lemma_env_set_is_append;
use crate::sem::lemma_scan_body_step;
use crate::sem::lemma_scan_join_assoc;
use crate::sem::lemma_scan_type_join_assoc;
use crate::sem::lemma_scan_type_len;
use crate::sem::lemma_find_method_bounds;
use crate::sem::DefOut;
use crate::value::clone_op;
use crate::value::wf_ops as wf_ops_spec;
use crate::value::lemma_wf_ops_index;

/// A fresh copy of a stack effect.
pub fn clone_effect(e: &StackEffect) -> (r: StackEffect)
    ensures
        r@ == e@,
{
    let r = StackEffect {
        pre: crate::symbol::clone_symbols(&e.pre),
        post: crate::symbol::clone_symbols(&e.post),
    };
    proof {
        let pn = crate::symbol::sym_seq_names(r.pre@);
        let pn0 = crate::symbol::sym_seq_names(e.pre@);
        assert(pn.len() == r.pre@.len());
        assert(pn0.len() == e.pre@.len());
        assert forall|k: int| 0 <= k < e.pre@.len() implies r@.pre[k] == e@.pre[k] by {
            assert(pn[k] == r.pre@[k]@);
            assert(pn0[k] == e.pre@[k]@);
            assert(r@.pre[k] == r.pre@[k]@);
            assert(e@.pre[k] == e.pre@[k]@);
        }
        assert(r@.pre =~= e@.pre);
        let qn = crate::symbol::sym_seq_names(r.post@);
        let qn0 = crate::symbol::sym_seq_names(e.post@);
        assert(qn.len() == r.post@.len());
        assert(qn0.len() == e.post@.len());
        assert forall|k: int| 0 <= k < e.post@.len() implies r@.post[k] == e@.post[k] by {
            assert(qn[k] == r.post@[k]@);
            assert(qn0[k] == e.post@[k]@);
            assert(r@.post[k] == r.post@[k]@);
            assert(e@.post[k] == e.post@[k]@);
        }
        assert(r@.post =~= e@.post);
    }
    r
}

impl Interpreter {
    /// Append a definition-log line, if logging is enabled.
    pub fn log(&mut self, line: Vec<u8>)
        ensures
            final(self)@ == log_line(old(self)@, line@),
    {
        if self.enable_log {
            let ghost lv = line@;
            self.log_lines.push(line);
            proof {
                let f = |i: int, l: Vec<u8>| l@;
                assert forall|k: int| 0 <= k < self.log_lines@.len() implies self.log_lines@.map(
                    f,
                )[k] == old(self)@.log.push(lv)[k] by {
                    assert(self.log_lines@.map(f)[k] == self.log_lines@[k]@);
                    if k < self.log_lines@.len() - 1 {
                        assert(self.log_lines@[k] == old(self).log_lines@[k]);
                        assert(old(self)@.log[k] == old(self).log_lines@[k]@);
                    }
                }
                assert(self.log_lines@.map(f) =~= old(self)@.log.push(lv));
                assert(self@ =~= log_line(old(self)@, lv));
            }
        } else {
            proof {
                assert(self@ =~= log_line(old(self)@, line@));
            }
        }
    }

    /// The first environment slot carrying the name, if any.
    fn find_entry(&self, name: &Symbol) -> (r: Option<usize>)
        ensures
            match r {
                Some(idx) => idx < self@.env.len() && self@.env[idx as int].name == name@ && (
                forall|j: int| 0 <= j < idx ==> (#[trigger] self@.env[j]).name != name@),
                None => forall|j: int|
                    0 <= j < self@.env.len() ==> (#[trigger] self@.env[j]).name != name@,
            },
    {
        let n = self.env.len();
        let mut i: usize = 0;
        while i < n
            invariant
                i <= n,
                n == self.env@.len() == self@.env.len(),
                forall|j: int| 0 <= j < i ==> (#[trigger] self@.env[j]).name != name@,
            decreases n - i,
        {
            proof {
                assert(self@.env[i as int] == self.env@[i as int]@);
            }
            if self.env[i].name.sym_eq(name) {
                return Some(i);
            }
            i += 1;
        }
        None
    }

    /// Bind a name, replacing its first entry or appending a new one, as
    /// `env_set` describes.
    fn set_binding(&mut self, name: Symbol, b: Binding)
        ensures
            final(self)@ == crate::sem::with_env(
                old(self)@,
                env_set(old(self)@.env, name@, b@),
            ),
    {
        let ghost nv = name@;
        let ghost bv = b@;
        let found = self.find_entry(&name);
        match found {
            Some(idx) => {
                proof {
                    lemma_env_set_is_update(old(self)@.env, idx as int, nv, bv);
                }
                let mut entry = self.env.remove(idx);
                entry.binding = b;
                let ghost ev = entry@;
                self.env.insert(idx, entry);
                proof {
                    let f = |i: int, e: EnvEntry| e@;
                    assert(ev == (EnvEntryView { name: nv, binding: bv }));
                    assert forall|k: int| 0 <= k < self.env@.len() implies self.env@.map(f)[k]
                        == old(self)@.env.update(idx as int, ev)[k] by {
                        assert(self.env@.map(f)[k] == self.env@[k]@);
                        if k < idx {
                            assert(self.env@[k] == old(self).env@[k]);
                            assert(old(self)@.env[k] == old(self).env@[k]@);
                        } else if k > idx {
                            assert(self.env@[k] == old(self).env@[k]);
                            assert(old(self)@.env[k] == old(self).env@[k]@);
                        }
                    }
                    assert(self.env@.map(f) =~= old(self)@.env.update(idx as int, ev));
                    assert(self@ =~= crate::sem::with_env(
                        old(self)@,
                        env_set(old(self)@.env, nv, bv),
                    ));
                }
            },
            None => {
                proof {
                    lemma_env_set_is_append(old(self)@.env, nv, bv);
                }
                let entry = EnvEntry { name, binding: b };
                let ghost ev = entry@;
                self.env.push(entry);
                proof {
                    let f = |i: int, e: EnvEntry| e@;
                    assert forall|k: int| 0 <= k < self.env@.len() implies self.env@.map(f)[k]
                        == old(self)@.env.push(ev)[k] by {
                        assert(self.env@.map(f)[k] == self.env@[k]@);
                        if k < self.env@.len() - 1 {
                            assert(self.env@[k] == old(self).env@[k]);
                            assert(old(self)@.env[k] == old(self).env@[k]@);
                        }
                    }
                    assert(self.env@.map(f) =~= old(self)@.env.push(ev));
                    assert(self@ =~= crate::sem::with_env(
                        old(self)@,
                        env_set(old(self)@.env, nv, bv),
                    ));
                }
            },
        }
    }

    /// Read a word definition off the cursor: a name, its stack effect,
    /// and a body up to the end marker.  The new overload is appended to
    /// the name's set — never to a primitive — and logged.
    #[verifier::rlimit(100)]
    pub fn define_word(&mut self, ops: &Vec<Op>, pos: usize) -> (r: Result<usize, Error>)
        requires
            wf_state(old(self)@),
            wf_ops_spec(op_views(ops@)),
        ensures
            match (r, spec_define_word(old(self)@, op_views(ops@), pos as int)) {
                (Ok(after), DefOut::Done(st1, safter)) => final(self)@ == st1 && after == safter
                    && pos < after <= ops@.len(),
                (Err(e), DefOut::Fail(st1, se)) => final(self)@ == st1 && e@ == se,
                _ => false,
            },
    {
        let ghost ov = op_views(ops@);
        proof {
            lemma_op_views(ops@);
            lemma_define_word_props(old(self)@, ov, pos as int);
        }
        let n = ops.len();
        if pos >= n {
            return Err(Error::MalformedDefinition(crate::errors::DefReason::ExpectedName));
        }
        proof {
            assert(ov[pos as int] == ops@[pos as int]@);
        }
        let name: Symbol = match &ops[pos] {
            Op::Symbol(s) => s.clone_sym(),
            _ => {
                return Err(Error::MalformedDefinition(crate::errors::DefReason::ExpectedName));
            },
        };
        if name.0.len() > 0 && (name.0[0] == ('%' as u8) || name.0[0] == (':' as u8)) {
            return Err(Error::MalformedDefinition(crate::errors::DefReason::ReservedPrefix));
        }
        if pos + 1 >= n {
            return Err(Error::MalformedDefinition(crate::errors::DefReason::ExpectedEffect));
        }
        proof {
            assert(ov[pos + 1] == ops@[pos + 1]@);
        }
        let effect: StackEffect = match &ops[pos + 1] {
            Op::Effect(e) => clone_effect(e),
            _ => {
                return Err(
                    Error::MalformedDefinition(crate::errors::DefReason::ExpectedEffect),
                );
            },
        };
        proof {
            assert(ov[pos + 1] == ops@[pos + 1]@);
            assert(ov[pos + 1] is Effect);
            assert(effect@ == ov[pos + 1]->Effect_0);
        }
        // capture the body up to the end marker
        let (mut body, i) = match scan_body_exec(ops, pos + 2) {
            Err(e) => {
                return Err(e);
            },
            Ok(pair) => pair,
        };
        let ghost after = i as int;
        let ghost raw_body = op_views(body@);
        // a leading string literal is the documentation
        let mut doc: Vec<u8> = Vec::new();
        proof {
            lemma_op_views(body@);
            if body@.len() > 0 {
                assert(raw_body[0] == body@[0]@);
            }
        }
        let has_doc = body.len() > 0 && matches!(&body[0], Op::Literal(Value::Str(_)));
        if has_doc {
            let ghost body_before = body@;
            let first = body.remove(0);
            proof {
                assert(first == body_before[0]);
            }
            match first {
                Op::Literal(v0) => {
                    match v0 {
                        Value::Str(t) => {
                            doc = t;
                        },
                        _ => {
                            proof {
                                assert(false);
                            }
                        },
                    }
                },
                _ => {
                    proof {
                        assert(false);
                    }
                },
            }
            proof {
                lemma_op_views(body_before);
                assert(raw_body[0] == body_before[0]@);
                assert(raw_body[0] is Literal && raw_body[0]->Literal_0 is Str);
                assert(doc@ == raw_body[0]->Literal_0->Str_0);
                assert(body@ =~= body_before.drop_first());
                lemma_op_views(body@);
                assert(op_views(body@) =~= raw_body.drop_first()) by {
                    assert forall|k: int| 0 <= k < body@.len() implies op_views(body@)[k]
                        == raw_body.drop_first()[k] by {
                        assert(op_views(body@)[k] == body@[k]@);
                        assert(body@[k] == body_before[k + 1]);
                        assert(raw_body[k + 1] == body_before[k + 1]@);
                        assert(raw_body.drop_first()[k] == raw_body[k + 1]);
                    }
                }
                assert(split_doc(raw_body) == (doc@, op_views(body@)));
            }
        } else {
            proof {
                if raw_body.len() > 0 {
                    assert(raw_body[0] == body@[0]@);
                }
                assert(split_doc(raw_body) == (Seq::<u8>::empty(), raw_body));
                assert(doc@ =~= Seq::<u8>::empty());
            }
        }
        // the log line renders the method as source text
        let mut line = vec![(':' as u8), (' ' as u8)];
        extend_bytes(&mut line, &name.0);
        line.push(' ' as u8);
        let efftext = crate::serialize::render_effect(&effect);
        extend_bytes(&mut line, &efftext);
        line.push(' ' as u8);
        let bodytext = crate::serialize::render_body(&body);
        extend_bytes(&mut line, &bodytext);
        line.push(' ' as u8);
        line.push(';' as u8);
        proof {
            assert(line@ =~= crate::serialize::spec_word_def_line(
                name@,
                effect@,
                op_views(body@),
            ));
        }
        let method = Method { effect, doc, body };
        let ghost mview = method@;
        // the binding: never a primitive, else append
        let found = self.find_entry(&name);
        match found {
            Some(idx) => {
                proof {
                    lemma_env_lookup_at(self@.env, idx as int);
                }
                let is_prim = matches!(&self.env[idx].binding, Binding::Primitive(_));
                if is_prim {
                    proof {
                        assert(self@.env[idx as int] == self.env@[idx as int]@);
                    }
                    return Err(
                        Error::MalformedDefinition(crate::errors::DefReason::RedefinePrimitive),
                    );
                }
                proof {
                    assert(self@.env[idx as int] == self.env@[idx as int]@);
                }
                let mut methods = match &self.env[idx].binding {
                    Binding::Composite(ms) => clone_methods(ms),
                    _ => {
                        proof {
                            assert(false);
                        }
                        Vec::new()
                    },
                };
                let ghost ms_views = methods@.map(|k: int, m: Method| m@);
                methods.push(method);
                proof {
                    let f = |k: int, m: Method| m@;
                    assert forall|k: int| 0 <= k < methods@.len() implies methods@.map(f)[k]
                        == ms_views.push(mview)[k] by {
                        assert(methods@.map(f)[k] == methods@[k]@);
                        if k < methods@.len() - 1 {
                            assert(ms_views[k] == methods@[k]@);
                        }
                    }
                    assert(methods@.map(f) =~= ms_views.push(mview));
                }
                let newb = Binding::Composite(methods);
                proof {
                    assert(newb@ == BindingView::Composite(ms_views.push(mview)));
                }
                self.set_binding(name, newb);
                self.log(line);
                Ok(i)
            },
            None => {
                proof {
                    lemma_env_lookup_none(self@.env, name@);
                }
                let methods = vec![method];
                proof {
                    let f = |k: int, m: Method| m@;
                    assert(methods@.map(f) =~= seq![mview]);
                }
                let newb = Binding::Composite(methods);
                self.set_binding(name, newb);
                self.log(line);
                Ok(i)
            },
        }
    }
}

} // verus!

verus! {

impl Interpreter {
    /// Read a type definition off the cursor: an upper-case name, its
    /// component type names, an optional documentation string.  The
    /// constructor method replaces any previous binding and is logged.
    #[verifier::rlimit(100)]
    pub fn define_type(&mut self, ops: &Vec<Op>, pos: usize) -> (r: Result<usize, Error>)
        requires
            wf_state(old(self)@),
            wf_ops_spec(op_views(ops@)),
        ensures
            match (r, spec_define_type(old(self)@, op_views(ops@), pos as int)) {
                (Ok(after), DefOut::Done(st1, safter)) => final(self)@ == st1 && after == safter
                    && pos < after <= ops@.len(),
                (Err(e), DefOut::Fail(st1, se)) => final(self)@ == st1 && e@ == se,
                _ => false,
            },
    {
        let ghost ov = op_views(ops@);
        proof {
            lemma_op_views(ops@);
            lemma_define_type_props(old(self)@, ov, pos as int);
            lemma_scan_type_len(ov, pos + 1);
        }
        let n = ops.len();
        if pos >= n {
            return Err(
                Error::MalformedDefinition(crate::errors::DefReason::ExpectedTypeName),
            );
        }
        proof {
            assert(ov[pos as int] == ops@[pos as int]@);
        }
        let name: Symbol = match &ops[pos] {
            Op::Symbol(s) => s.clone_sym(),
            _ => {
                return Err(
                    Error::MalformedDefinition(crate::errors::DefReason::ExpectedTypeName),
                );
            },
        };
        if name.0.len() > 0 && (name.0[0] == ('%' as u8) || name.0[0] == (':' as u8)) {
            return Err(Error::MalformedDefinition(crate::errors::DefReason::ReservedPrefix));
        }
        if !name.is_type() {
            return Err(
                Error::MalformedDefinition(crate::errors::DefReason::TypeNameNotUpper),
            );
        }
        // collect component names and the documentation string
        let (types, doc_opt, i) = match scan_type_exec(ops, pos + 1) {
            Err(e) => {
                return Err(e);
            },
            Ok(triple) => triple,
        };
        let have_doc = matches!(&doc_opt, Some(_));
        let doc: Vec<u8> = match doc_opt {
            Some(d) => d,
            None => Vec::new(),
        };
        let ghost after = i as int;
        let ghost types_v = types@.map(|k: int, s: Symbol| s@);
        let ghost doc_v: Seq<u8> = doc@;
        proof {
            if !have_doc {
                assert(doc_v =~= Seq::<u8>::empty());
            }
        }
        // the log line
        let mut line = vec![(':' as u8), ('t' as u8), (' ' as u8)];
        extend_bytes(&mut line, &name.0);
        line.push(' ' as u8);
        line.push('"' as u8);
        extend_bytes(&mut line, &doc);
        line.push('"' as u8);
        let mut j: usize = 0;
        let tn = types.len();
        while j < tn
            invariant
                j <= tn,
                tn == types@.len(),
                types_v == types@.map(|k: int, s: Symbol| s@),
                line@ =~= seq![(':' as u8), ('t' as u8), (' ' as u8)] + name@ + seq![
                    (' ' as u8),
                    ('"' as u8),
                ] + doc_v + seq![('"' as u8)] + crate::serialize::spec_render_names_spaced(
                    types_v.subrange(0, j as int),
                ),
            decreases tn - j,
        {
            line.push(' ' as u8);
            extend_bytes(&mut line, &types[j].0);
            proof {
                assert(types_v[j as int] == types@[j as int]@);
                assert(types_v.subrange(0, j + 1).drop_last() =~= types_v.subrange(0, j as int));
                assert(types_v.subrange(0, j + 1).last() == types_v[j as int]);
            }
            j += 1;
        }
        line.push(' ' as u8);
        line.push(';' as u8);
        proof {
            assert(types_v.subrange(0, tn as int) =~= types_v);
            assert(line@ =~= crate::serialize::spec_type_def_line(name@, doc_v, types_v));
        }
        // the constructor method
        let tag = name.clone_sym();
        if types.len() >= usize::MAX {
            proof {
                assert(types_v.len() <= ov.len());
                assert(false);
            }
            return Err(Error::IndexOutOfRange);
        }
        let body: Vec<Op> = vec![Op::Literal(Value::Symbol(tag)), Op::Tuple(types.len() + 1)];
        let effect = StackEffect { pre: types, post: vec![name.clone_sym()] };
        proof {
            lemma_op_views(body@);
            assert(op_views(body@) =~= seq![
                OpView::Literal(ValueView::Symbol(name@)),
                OpView::Tuple((types_v.len() + 1) as usize),
            ]) by {
                assert(body@[0]@ == OpView::Literal(ValueView::Symbol(name@)));
                assert(body@[1]@ == OpView::Tuple((types_v.len() + 1) as usize));
                assert(op_views(body@)[0] == body@[0]@);
                assert(op_views(body@)[1] == body@[1]@);
            }
            assert(effect@.pre =~= types_v) by {
                assert forall|k: int| 0 <= k < types_v.len() implies effect@.pre[k]
                    == types_v[k] by {
                    assert(effect@.pre[k] == effect.pre@[k]@);
                    assert(types_v[k] == effect.pre@[k]@);
                }
            }
            assert(effect@.post =~= seq![name@]) by {
                assert(effect@.post[0] == effect.post@[0]@);
            }
        }
        let method = Method { effect, doc, body };
        let ghost mview = method@;
        let methods = vec![method];
        proof {
            let f = |k: int, m: Method| m@;
            assert(methods@.map(f) =~= seq![mview]);
        }
        self.set_binding(name, Binding::Composite(methods));
        self.log(line);
        Ok(i)
    }

    /// Run the instructions from `pos` on: the heart of the engine.
    #[verifier::rlimit(100)]
    fn exec_from<H: FloatHost>(
        &mut self,
        host: &mut H,
        ops: &Vec<Op>,
        pos: usize,
        fuel: u64,
    ) -> (r: Result<(), Error>)
        requires
            wf_state(old(self)@),
            wf_ops_spec(op_views(ops@)),
            pos <= ops@.len(),
        ensures
            wf_state(final(self)@),
            prims_reserved(old(self)@.env) ==> (prims_preserved(old(self)@.env, final(self)@.env)
                && prims_reserved(final(self)@.env)),
            match spec_exec(old(self)@, op_views(ops@), pos as int, fuel as nat) {
                StepOut::Done(st, e) => final(self)@ == st && (match (r, e) {
                    (Ok(()), None) => true,
                    (Err(err), Some(se)) => err@ == se,
                    _ => false,
                }),
                StepOut::Host => true,
            },
        decreases fuel, ops@.len() - pos, 1int,
    {
        let ghost ov = op_views(ops@);
        proof {
            lemma_op_views(ops@);
            lemma_exec_props(old(self)@, ov, pos as int, fuel as nat);
            crate::sem::lemma_prims_preserved_refl(old(self)@.env);
            lemma_wf_ops_index(ov);
        }
        let n = ops.len();
        if pos >= n {
            return Ok(());
        }
        match &ops[pos] {
            Op::Literal(v) => {
                proof {
                    assert(ov[pos as int] == ops@[pos as int]@);
                    assert(crate::value::wf_op(ov[pos as int]));
                }
                let c = clone_value(v);
                self.push(c);
                proof {
                    lemma_wf_values_push(old(self)@.main, v@);
                    assert(spec_exec(old(self)@, ov, pos as int, fuel as nat) == spec_exec_next(
                        self@,
                        ov,
                        pos as int,
                        fuel as nat,
                    ));
                    assert(spec_exec_next(self@, ov, pos as int, fuel as nat) == spec_exec(
                        self@,
                        ov,
                        pos + 1,
                        fuel as nat,
                    ));
                }
                self.exec_from(host, ops, pos + 1, fuel)
            },
            Op::Symbol(name) => {
                proof {
                    assert(ov[pos as int] == ops@[pos as int]@);
                }
                let binding = self.lookup(name);
                match binding {
                    None => Err(Error::UnknownWord(name.clone_sym())),
                    Some(Binding::Primitive(pm)) => {
                        let res = self.run_prim(host, pm, fuel);
                        match res {
                            Err(e) => Err(e),
                            Ok(()) => {
                                proof {
                                    match spec_run_prim(old(self)@, pm, fuel as nat) {
                                        StepOut::Done(st1, e) => {
                                            assert(e is None);
                                            assert(self@ == st1);
                                            assert(spec_exec(
                                                old(self)@,
                                                ov,
                                                pos as int,
                                                fuel as nat,
                                            ) == spec_exec_next(
                                                self@,
                                                ov,
                                                pos as int,
                                                fuel as nat,
                                            ));
                                            assert(spec_exec_next(
                                                self@,
                                                ov,
                                                pos as int,
                                                fuel as nat,
                                            ) == spec_exec(self@, ov, pos + 1, fuel as nat));
                                        },
                                        StepOut::Host => {},
                                    }
                                }
                                let ghost mid_env = self@.env;
                                let r2 = self.exec_from(host, ops, pos + 1, fuel);
                                proof {
                                    if prims_reserved(old(self)@.env) {
                                        crate::sem::lemma_prims_preserved_trans(
                                            old(self)@.env,
                                            mid_env,
                                            self@.env,
                                        );
                                    }
                                }
                                r2
                            },
                        }
                    },
                    Some(Binding::Composite(methods)) => {
                        let found = find_matching_method(&methods, &self.main_stack);
                        match found {
                            None => Err(Error::UnknownMethod(name.clone_sym())),
                            Some(body) => {
                                if fuel == 0 {
                                    Err(Error::RecursionLimit)
                                } else {
                                    proof {
                                        lemma_env_lookup_wf(old(self)@.env, name@);
                                        let mviews = methods@.map(|k: int, m: Method| m@);
                                        lemma_find_method_bounds(mviews, old(self)@.main);
                                        let k = crate::sem::find_method_idx(
                                            mviews,
                                            old(self)@.main,
                                        )->Some_0;
                                        assert(crate::sem::wf_binding_v(
                                            BindingView::Composite(mviews),
                                        ));
                                        assert(crate::sem::wf_method_v(mviews[k]));
                                    }
                                    let r1 = self.exec_from(host, &body, 0, fuel - 1);
                                    match r1 {
                                        Err(e) => Err(e),
                                        Ok(()) => {
                                            proof {
                                                let k0 = crate::sem::find_method_idx(
                                                    methods@.map(|k: int, m: Method| m@),
                                                    old(self)@.main,
                                                )->Some_0;
                                                match spec_exec(
                                                    old(self)@,
                                                    methods@.map(|k: int, m: Method| m@)[k0].body,
                                                    0,
                                                    (fuel - 1) as nat,
                                                ) {
                                                    StepOut::Done(st1, e) => {
                                                        assert(spec_exec(
                                                            old(self)@,
                                                            ov,
                                                            pos as int,
                                                            fuel as nat,
                                                        ) == spec_exec_next(
                                                            self@,
                                                            ov,
                                                            pos as int,
                                                            fuel as nat,
                                                        ));
                                                        assert(spec_exec_next(
                                                            self@,
                                                            ov,
                                                            pos as int,
                                                            fuel as nat,
                                                        ) == spec_exec(
                                                            self@,
                                                            ov,
                                                            pos + 1,
                                                            fuel as nat,
                                                        ));
                                                    },
                                                    StepOut::Host => {},
                                                }
                                            }
                                            let ghost mid_env = self@.env;
                                            let r2 = self.exec_from(host, ops, pos + 1, fuel);
                                            proof {
                                                if prims_reserved(old(self)@.env) {
                                                    crate::sem::lemma_prims_preserved_trans(
                                                        old(self)@.env,
                                                        mid_env,
                                                        self@.env,
                                                    );
                                                }
                                            }
                                            r2
                                        },
                                    }
                                }
                            },
                        }
                    },
                }
            },
            Op::Tuple(nn) => {
                proof {
                    assert(ov[pos as int] == ops@[pos as int]@);
                }
                let nn = *nn;
                match self.tuple_step(nn) {
                    Err(e) => Err(e),
                    Ok(()) => {
                        proof {
                            assert(spec_exec(old(self)@, ov, pos as int, fuel as nat)
                                == spec_exec_next(self@, ov, pos as int, fuel as nat));
                            assert(spec_exec_next(self@, ov, pos as int, fuel as nat)
                                == spec_exec(self@, ov, pos + 1, fuel as nat));
                        }
                        self.exec_from(host, ops, pos + 1, fuel)
                    },
                }
            },
            Op::Select(idx) => {
                proof {
                    assert(ov[pos as int] == ops@[pos as int]@);
                }
                let idx = *idx;
                match self.pop_tuple() {
                    Err(e) => Err(e),
                    Ok(fields) => {
                        if idx >= fields.len() {
                            proof {
                                lemma_value_views(fields@);
                            }
                            Err(Error::IndexOutOfRange)
                        } else {
                            proof {
                                lemma_value_views(fields@);
                            }
                            proof {
                                crate::sem::lemma_pop_props(old(self)@);
                                assert(wf_value(pop_value_s(old(self)@)->Got_0));
                                assert(pop_value_s(old(self)@)->Got_0 == ValueView::Tuple(
                                    value_views(fields@),
                                ));
                                crate::value::lemma_wf_values_index(value_views(fields@));
                            }
                            let v = clone_value(&fields[idx]);
                            proof {
                                lemma_value_views(fields@);
                            }
                            self.push(v);
                            proof {
                                lemma_wf_values_push(old(self)@.main.drop_last(), v@);
                                assert(spec_exec(old(self)@, ov, pos as int, fuel as nat)
                                    == spec_exec_next(self@, ov, pos as int, fuel as nat));
                                assert(spec_exec_next(self@, ov, pos as int, fuel as nat)
                                    == spec_exec(self@, ov, pos + 1, fuel as nat));
                            }
                            self.exec_from(host, ops, pos + 1, fuel)
                        }
                    },
                }
            },
            Op::If => {
                proof {
                    assert(ov[pos as int] == ops@[pos as int]@);
                    if pos + 1 < ov.len() {
                        assert(ov[pos + 1] == ops@[pos + 1]@);
                    }
                    if pos + 2 < ov.len() {
                        assert(ov[pos + 2] == ops@[pos + 2]@);
                    }
                }
                match self.pop_bool() {
                    Err(e) => Err(e),
                    Ok(c) => {
                        if pos + 1 >= n {
                            return Err(
                                Error::MalformedDefinition(
                                    crate::errors::DefReason::MissingBranch,
                                ),
                            );
                        }
                        let b1_ok = matches!(&ops[pos + 1], Op::Literal(Value::Block(_)));
                        if !b1_ok {
                            return Err(
                                Error::MalformedDefinition(
                                    crate::errors::DefReason::ExpectedBlock,
                                ),
                            );
                        }
                        if pos + 2 >= n {
                            return Err(
                                Error::MalformedDefinition(
                                    crate::errors::DefReason::MissingBranch,
                                ),
                            );
                        }
                        let b2_ok = matches!(&ops[pos + 2], Op::Literal(Value::Block(_)));
                        if !b2_ok {
                            return Err(
                                Error::MalformedDefinition(
                                    crate::errors::DefReason::ExpectedBlock,
                                ),
                            );
                        }
                        if fuel == 0 {
                            return Err(Error::RecursionLimit);
                        }
                        let sel: usize = if c {
                            pos + 1
                        } else {
                            pos + 2
                        };
                        let r1 = match &ops[sel] {
                            Op::Literal(v) => match v {
                                Value::Block(bb) => {
                                    proof {
                                        assert(ov[sel as int] == ops@[sel as int]@);
                                        assert(crate::value::wf_op(ov[sel as int]));
                                        crate::sem::lemma_pop_props(old(self)@);
                                    }
                                    self.exec_from(host, bb, 0, fuel - 1)
                                },
                                _ => {
                                    proof {
                                        assert(false);
                                    }
                                    Ok(())
                                },
                            },
                            _ => {
                                proof {
                                    assert(false);
                                }
                                Ok(())
                            },
                        };
                        match r1 {
                            Err(e) => Err(e),
                            Ok(()) => {
                                let ghost mid_env = self@.env;
                                let r2 = self.exec_from(host, ops, pos + 3, fuel);
                                proof {
                                    if prims_reserved(old(self)@.env) {
                                        crate::sem::lemma_prims_preserved_trans(
                                            old(self)@.env,
                                            mid_env,
                                            self@.env,
                                        );
                                    }
                                }
                                r2
                            },
                        }
                    },
                }
            },
            Op::End => {
                proof {
                    assert(ov[pos as int] == ops@[pos as int]@);
                }
                Err(Error::MalformedDefinition(crate::errors::DefReason::UnexpectedEnd))
            },
            Op::BeginDef => {
                proof {
                    assert(ov[pos as int] == ops@[pos as int]@);
                    lemma_define_word_props(old(self)@, ov, pos + 1);
                }
                match self.define_word(ops, pos + 1) {
                    Err(e) => Err(e),
                    Ok(after) => {
                        let ghost mid_env = self@.env;
                        let r2 = self.exec_from(host, ops, after, fuel);
                        proof {
                            if prims_reserved(old(self)@.env) {
                                crate::sem::lemma_prims_preserved_trans(
                                    old(self)@.env,
                                    mid_env,
                                    self@.env,
                                );
                            }
                        }
                        r2
                    },
                }
            },
            Op::BeginTypeDef => {
                proof {
                    assert(ov[pos as int] == ops@[pos as int]@);
                    lemma_define_type_props(old(self)@, ov, pos + 1);
                }
                match self.define_type(ops, pos + 1) {
                    Err(e) => Err(e),
                    Ok(after) => {
                        let ghost mid_env = self@.env;
                        let r2 = self.exec_from(host, ops, after, fuel);
                        proof {
                            if prims_reserved(old(self)@.env) {
                                crate::sem::lemma_prims_preserved_trans(
                                    old(self)@.env,
                                    mid_env,
                                    self@.env,
                                );
                            }
                        }
                        r2
                    },
                }
            },
            Op::Effect(_) => {
                proof {
                    assert(ov[pos as int] == ops@[pos as int]@);
                }
                Err(Error::MalformedDefinition(crate::errors::DefReason::StrayEffect))
            },
        }
    }

    /// Run a program: evaluate the instructions left to right against
    /// this state.  Everything the engine does is what `spec_exec` says,
    /// up to the answers the host gives for float work.
    pub fn exec<H: FloatHost>(&mut self, host: &mut H, ops: &Vec<Op>, fuel: u64) -> (r: Result<
        (),
        Error,
    >)
        requires
            wf_state(old(self)@),
            wf_ops_spec(op_views(ops@)),
        ensures
            wf_state(final(self)@),
            prims_reserved(old(self)@.env) ==> (prims_preserved(old(self)@.env, final(self)@.env)
                && prims_reserved(final(self)@.env)),
            match spec_exec(old(self)@, op_views(ops@), 0, fuel as nat) {
                StepOut::Done(st, e) => final(self)@ == st && (match (r, e) {
                    (Ok(()), None) => true,
                    (Err(err), Some(se)) => err@ == se,
                    _ => false,
                }),
                StepOut::Host => true,
            },
    {
        self.exec_from(host, ops, 0, fuel)
    }
}

} // verus!

verus! {

/// The instructions up to the next end marker, copied out, with the
/// position after it.
fn scan_body_exec(ops: &Vec<Op>, start: usize) -> (r: Result<(Vec<Op>, usize), Error>)
    requires
        start <= ops@.len(),
    ensures
        match (r, scan_body(op_views(ops@), start as int)) {
            (Ok((body, after)), Some((sbody, safter))) => op_views(body@) == sbody && after
                == safter && start < after <= ops@.len(),
            (Err(e), None) => e@ == ErrorView::MalformedDefinition(
                crate::errors::DefReason::Undelimited,
            ),
            _ => false,
        },
    decreases ops@.len() - start,
{
    let ghost ov = op_views(ops@);
    proof {
        lemma_op_views(ops@);
    }
    if start >= ops.len() {
        return Err(Error::MalformedDefinition(crate::errors::DefReason::Undelimited));
    }
    proof {
        assert(ov[start as int] == ops@[start as int]@);
    }
    let is_end = matches!(&ops[start], Op::End);
    if is_end {
        let body: Vec<Op> = Vec::new();
        proof {
            assert(op_views(body@) =~= Seq::<OpView>::empty());
        }
        Ok((body, start + 1))
    } else {
        match scan_body_exec(ops, start + 1) {
            Err(e) => Err(e),
            Ok((rest, after)) => {
                let ghost rest_view = rest@;
                let c = clone_op(&ops[start]);
                let ghost c_g = c;
                let mut body = rest;
                body.insert(0, c);
                proof {
                    assert(body@ =~= seq![c_g] + rest_view);
                    lemma_op_views(body@);
                    lemma_op_views(rest_view);
                    assert forall|k: int| 0 <= k < body@.len() implies op_views(body@)[k] == (
                    seq![ov[start as int]] + op_views(rest_view))[k] by {
                        assert(op_views(body@)[k] == body@[k]@);
                        if k > 0 {
                            assert(body@[k] == rest_view[k - 1]);
                            assert(op_views(rest_view)[k - 1] == rest_view[k - 1]@);
                        } else {
                            assert(body@[0] == c_g);
                        }
                    }
                    assert(op_views(body@) =~= seq![ov[start as int]] + op_views(rest_view));
                }
                Ok((body, after))
            },
        }
    }
}

/// The component names of a type definition, up to the end marker, with
/// the last documentation string found among them.
fn scan_type_exec(ops: &Vec<Op>, start: usize) -> (r: Result<
    (Vec<Symbol>, Option<Vec<u8>>, usize),
    Error,
>)
    requires
        start <= ops@.len(),
    ensures
        match (r, scan_type_parts(op_views(ops@), start as int)) {
            (Ok((types, doc, after)), Ok((stypes, sdoc, safter))) => types@.map(
                |k: int, s: Symbol| s@,
            ) == stypes && after == safter && start < after <= ops@.len() && (match (doc, sdoc) {
                (Some(d), Some(sd)) => d@ == sd,
                (None, None) => true,
                _ => false,
            }),
            (Err(e), Err(se)) => e@ == se,
            _ => false,
        },
    decreases ops@.len() - start,
{
    let ghost ov = op_views(ops@);
    proof {
        lemma_op_views(ops@);
    }
    if start >= ops.len() {
        return Err(Error::MalformedDefinition(crate::errors::DefReason::Undelimited));
    }
    proof {
        assert(ov[start as int] == ops@[start as int]@);
    }
    match &ops[start] {
        Op::End => {
            let types: Vec<Symbol> = Vec::new();
            proof {
                assert(types@.map(|k: int, s: Symbol| s@) =~= Seq::<Seq<u8>>::empty());
            }
            Ok((types, None, start + 1))
        },
        Op::Symbol(ty) => {
            match scan_type_exec(ops, start + 1) {
                Err(e) => Err(e),
                Ok((rest, doc, after)) => {
                    let ghost rest_view = rest@.map(|k: int, s: Symbol| s@);
                    let c = ty.clone_sym();
                    let ghost c_v = c@;
                    let mut types = rest;
                    types.insert(0, c);
                    proof {
                        let f = |k: int, sx: Symbol| sx@;
                        assert forall|k: int| 0 <= k < types@.len() implies types@.map(f)[k] == (
                        seq![ov[start as int]->Symbol_0] + rest_view)[k] by {
                            assert(types@.map(f)[k] == types@[k]@);
                            if k > 0 {
                                assert(types@[k] == rest@[k - 1]);
                                assert(rest_view[k - 1] == rest@[k - 1]@);
                            }
                        }
                        assert(types@.map(f) =~= seq![ov[start as int]->Symbol_0] + rest_view);
                    }
                    Ok((types, doc, after))
                },
            }
        },
        Op::Literal(v) => {
            match v {
                Value::Str(d) => {
                    match scan_type_exec(ops, start + 1) {
                        Err(e) => Err(e),
                        Ok((types, doc, after)) => {
                            match doc {
                                Some(d2) => Ok((types, Some(d2), after)),
                                None => {
                                    let mine = crate::symbol::clone_bytes(d);
                                    Ok((types, Some(mine), after))
                                },
                            }
                        },
                    }
                },
                _ => Err(
                    Error::MalformedDefinition(crate::errors::DefReason::InvalidTypeComponent),
                ),
            }
        },
        _ => Err(
            Error::MalformedDefinition(crate::errors::DefReason::InvalidTypeComponent),
        ),
    }
}

} // verus!

verus! {

impl Interpreter {
    /// Pop an arity's worth of values and push the tuple they make, the
    /// popped top as the tag in field `0`.
    #[verifier::rlimit(100)]
    fn tuple_step(&mut self, nn: usize) -> (r: Result<(), Error>)
        requires
            wf_state(old(self)@),
        ensures
            wf_state(final(self)@),
            final(self)@.env == old(self)@.env,
            final(self)@.sec == old(self)@.sec,
            final(self)@.out == old(self)@.out,
            final(self)@.log == old(self)@.log,
            final(self)@.log_on == old(self)@.log_on,
            match (r, crate::sem::spec_tuple_build(old(self)@, nn)) {
                (Ok(()), Ok(st1)) => final(self)@ == st1,
                (Err(e), Err((st1, se))) => final(self)@ == st1 && e@ == se,
                _ => false,
            },
    {
        proof {
            lemma_value_views(self.main_stack@);
        }
        if nn == 0 {
            return Err(Error::IndexOutOfRange);
        }
        if self.main_stack.len() < nn {
            self.main_stack.clear();
            proof {
                assert(value_views(self.main_stack@) =~= Seq::<ValueView>::empty());
                assert(self@ =~= with_main(old(self)@, Seq::empty()));
            }
            return Err(Error::StackUnderflow(WhichStack::Main));
        }
        let k = self.main_stack.len();
        proof {
            lemma_value_views(self.main_stack@);
        }
        let top_is_sym = matches!(&self.main_stack[k - 1], Value::Symbol(_));
        if !top_is_sym {
            let found = self.main_stack[k - 1].get_type_total();
            proof {
                assert(old(self)@.main.last() == self.main_stack@[k - 1]@);
            }
            return Err(Error::TypeMismatch { expected: crate::value::sym_sym(), found });
        }
        let mut taken = self.main_stack.split_off(k - nn);
        let tagv = match taken.pop() {
            Some(t) => t,
            None => {
                proof {
                    assert(false);
                }
                Value::True
            },
        };
        let mut fields: Vec<Value> = vec![tagv];
        fields.append(&mut taken);
        let ghost tuple_spec = seq![old(self)@.main.last()] + old(self)@.main.subrange(
            k - nn as int,
            k - 1,
        );
        proof {
            lemma_value_views(fields@);
            assert(value_views(fields@) =~= tuple_spec) by {
                assert forall|j: int| 0 <= j < fields@.len() implies value_views(fields@)[j]
                    == tuple_spec[j] by {
                    assert(value_views(fields@)[j] == fields@[j]@);
                    if j > 0 {
                        assert(fields@[j] == old(self).main_stack@[k - nn + j - 1]);
                        assert(old(self)@.main[k - nn + j - 1] == old(self).main_stack@[k - nn + j
                            - 1]@);
                        assert(old(self)@.main.subrange(k - nn as int, k - 1)[j - 1]
                            == old(self)@.main[k - nn + j - 1]);
                    } else {
                        assert(fields@[0] == old(self).main_stack@[k - 1]);
                    }
                }
            }
        }
        let tup = Value::Tuple(fields);
        proof {
            assert(tup@ == ValueView::Tuple(tuple_spec));
            lemma_value_views(self.main_stack@);
            assert(value_views(self.main_stack@) =~= old(self)@.main.subrange(
                0,
                k - nn as int,
            )) by {
                assert forall|j: int| 0 <= j < k - nn implies value_views(self.main_stack@)[j]
                    == old(self)@.main.subrange(0, k - nn as int)[j] by {
                    assert(value_views(self.main_stack@)[j] == self.main_stack@[j]@);
                    assert(self.main_stack@[j] == old(self).main_stack@[j]);
                    assert(old(self)@.main[j] == old(self).main_stack@[j]@);
                }
            }
            // the new tuple is well-formed: its tag is the popped symbol
            crate::value::lemma_wf_values_index(old(self)@.main);
            assert(old(self)@.main.last() == old(self).main_stack@[k - 1]@);
            assert(old(self)@.main.last() is Symbol);
            assert(wf_value(tup@)) by {
                crate::value::lemma_wf_values_index(tuple_spec);
                assert(tuple_spec[0] == old(self)@.main.last());
                assert forall|j: int| 0 <= j < tuple_spec.len() implies wf_value(
                    #[trigger] tuple_spec[j],
                ) by {
                    if j > 0 {
                        assert(tuple_spec[j] == old(self)@.main.subrange(k - nn as int, k - 1)[j
                            - 1]);
                        assert(old(self)@.main.subrange(k - nn as int, k - 1)[j - 1]
                            == old(self)@.main[k - nn + j - 1]);
                    } else {
                        assert(tuple_spec[0] == old(self)@.main[k - 1]);
                    }
                }
            }
            assert(crate::value::wf_values(old(self)@.main.subrange(0, k - nn as int))) by {
                crate::value::lemma_wf_values_index(old(self)@.main.subrange(0, k - nn as int));
                assert(forall|j: int|
                    0 <= j < k - nn ==> #[trigger] old(self)@.main.subrange(0, k - nn as int)[j]
                        == old(self)@.main[j]);
            }
        }
        self.push(tup);
        proof {
            lemma_wf_values_push(old(self)@.main.subrange(0, k - nn as int), ValueView::Tuple(tuple_spec));
        }
        Ok(())
    }
}

} // verus!

verus! {

impl Interpreter {
    /// Rebuild this session from the text of its definition log: parse
    /// it and run it with logging off, so replay writes no duplicate
    /// lines, then enable logging for live input.
    pub fn restore<H: FloatHost>(&mut self, host: &mut H, src: &Vec<u8>, fuel: u64) -> (r: Result<
        (),
        Error,
    >)
        requires
            wf_state(old(self)@),
        ensures
            wf_state(final(self)@),
            final(self)@.log_on == true,
            prims_reserved(old(self)@.env) ==> (prims_preserved(old(self)@.env, final(self)@.env)
                && prims_reserved(final(self)@.env)),
            match crate::parser::spec_parse(src@) {
                Err(se) => (match r {
                    Err(e) => e@ == se,
                    Ok(()) => false,
                }) && final(self)@ == (StateView {
                    log_on: true,
                    ..crate::sem::with_main(old(self)@, old(self)@.main)
                }),
                Ok(sops) => match spec_exec(
                    (StateView { log_on: false, ..crate::sem::with_main(old(self)@, old(self)@.main) }),
                    sops,
                    0,
                    fuel as nat,
                ) {
                    StepOut::Done(st, e) => final(self)@ == (StateView { log_on: true, ..st })
                        && (match (r, e) {
                        (Ok(()), None) => true,
                        (Err(err), Some(se)) => err@ == se,
                        _ => false,
                    }),
                    StepOut::Host => true,
                },
            },
    {
        self.enable_log = false;
        proof {
            assert(self@ =~= (StateView {
                log_on: false,
                ..crate::sem::with_main(old(self)@, old(self)@.main)
            }));
            assert(crate::sem::with_main(old(self)@, old(self)@.main) =~= old(self)@);
        }
        let parsed = crate::parser::parse(src);
        match parsed {
            Err(e) => {
                self.enable_log = true;
                proof {
                    assert(self@ =~= (StateView {
                        log_on: true,
                        ..crate::sem::with_main(old(self)@, old(self)@.main)
                    }));
                }
                Err(e)
            },
            Ok(ops) => {
                proof {
                    crate::parser::lemma_parse_wf(src@);
                }
                let res = self.exec(host, &ops, fuel);
                self.enable_log = true;
                proof {
                    assert(self@.main == value_views(self.main_stack@));
                }
                res
            },
        }
    }
}

} // verus!
