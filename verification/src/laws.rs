use vstd::prelude::*;

use crate::errors::DefReason;
use crate::errors::ErrorView;
use crate::errors::WhichStack;
use crate::interpreter::BindingView;
use crate::interpreter::MethodView;
use crate::interpreter::OpView;
use crate::interpreter::Prim;
use crate::interpreter::StateView;
use crate::sem::DefOut;
use crate::sem::StepOut;
use crate::sem::effect_accepts;
use crate::sem::env_lookup;
use crate::sem::find_method_idx;
use crate::sem::spec_define_word;
use crate::sem::spec_exec;
use crate::sem::spec_run_prim;
use crate::sem::wrap_add_i64;
use crate::sem::wrap_sub_i64;
use crate::value::ValueView;

verus! {

broadcast use vstd::seq::group_seq_axioms;

/// Dispatch recency: when two overloads of one word both accept the
/// stack, the more recently defined one is selected, whatever the older
/// one declared.
pub proof fn law_dispatch_recency(
    methods: Seq<MethodView>,
    stack: Seq<ValueView>,
    i: int,
    j: int,
)
    requires
        0 <= i < j < methods.len(),
        effect_accepts(methods[i].effect.pre, stack),
        effect_accepts(methods[j].effect.pre, stack),
    ensures
        find_method_idx(methods, stack) is Some,
        find_method_idx(methods, stack)->Some_0 >= j,
    decreases methods,
{
    if j == methods.len() - 1 {
    } else {
        assert(methods.drop_last()[i] == methods[i]);
        assert(methods.drop_last()[j] == methods[j]);
        if !effect_accepts(methods.last().effect.pre, stack) {
            law_dispatch_recency(methods.drop_last(), stack, i, j);
        }
    }
}

/// Primitive immutability: a word definition whose name is bound to a
/// primitive fails with a redefinition error and changes nothing — not
/// the environment, not the stacks, not the log.
pub proof fn law_primitive_immutable(st: StateView, ops: Seq<OpView>, pos: int, p: Prim)
    requires
        0 <= pos < ops.len(),
        ops[pos] is Symbol,
        !crate::sem::reserved_name(ops[pos]->Symbol_0),
        pos + 1 < ops.len(),
        ops[pos + 1] is Effect,
        crate::sem::scan_body(ops, pos + 2) is Some,
        env_lookup(st.env, ops[pos]->Symbol_0) == Some(BindingView::Primitive(p)),
    ensures
        spec_define_word(st, ops, pos) == DefOut::Fail(
            st,
            ErrorView::MalformedDefinition(DefReason::RedefinePrimitive),
        ),
{
}

/// Underflow: popping against an empty main stack fails with a stack
/// underflow and leaves the state as it stood.
pub proof fn law_underflow(st: StateView, fuel: nat)
    requires
        st.main.len() == 0,
    ensures
        spec_run_prim(st, Prim::Drop, fuel) == crate::sem::fail(
            st,
            ErrorView::StackUnderflow(WhichStack::Main),
        ),
{
}

/// Unknown word: a reference to a name with no binding fails with an
/// unknown-word error naming it, and the state stands untouched.
pub proof fn law_unknown_word(st: StateView, ops: Seq<OpView>, pos: int, fuel: nat)
    requires
        0 <= pos < ops.len(),
        ops[pos] is Symbol,
        env_lookup(st.env, ops[pos]->Symbol_0) is None,
    ensures
        spec_exec(st, ops, pos, fuel) == crate::sem::fail(
            st,
            ErrorView::UnknownWord(ops[pos]->Symbol_0),
        ),
{
}

/// Arithmetic order: subtraction takes the value pushed first minus the
/// value pushed second; addition pairs them the same way.
pub proof fn law_arithmetic_order(st: StateView, a: i64, b: i64, fuel: nat)
    ensures
        ({
            let st2 = crate::sem::push_main(
                crate::sem::push_main(st, ValueView::Int(a)),
                ValueView::Int(b),
            );
            spec_run_prim(st2, Prim::IntSub, fuel) == crate::sem::ok_st(
                crate::sem::push_main(st, ValueView::Int(wrap_sub_i64(a, b))),
            ) && spec_run_prim(st2, Prim::IntAdd, fuel) == crate::sem::ok_st(
                crate::sem::push_main(st, ValueView::Int(wrap_add_i64(a, b))),
            )
        }),
{
    let st2 = crate::sem::push_main(
        crate::sem::push_main(st, ValueView::Int(a)),
        ValueView::Int(b),
    );
    assert(st2.main.last() == ValueView::Int(b));
    assert(st2.main.drop_last() =~= st.main.push(ValueView::Int(a)));
    assert(st2.main.drop_last().drop_last() =~= st.main);
    assert(crate::sem::with_main(st2, st.main) =~= crate::sem::with_main(st, st.main));
    assert(crate::sem::with_main(st, st.main) =~= st);
}

/// Conditional shape: a conditional whose first branch position holds
/// anything but a block literal fails with a shape error, the popped
/// boolean already gone.
pub proof fn law_branch_shape(st: StateView, ops: Seq<OpView>, pos: int, fuel: nat)
    requires
        0 <= pos < ops.len(),
        ops[pos] is If,
        st.main.len() > 0,
        st.main.last() == ValueView::True || st.main.last() == ValueView::False,
        pos + 1 < ops.len(),
        !(ops[pos + 1] is Literal && ops[pos + 1]->Literal_0 is Block),
    ensures
        spec_exec(st, ops, pos, fuel) == crate::sem::fail(
            crate::sem::with_main(st, st.main.drop_last()),
            ErrorView::MalformedDefinition(DefReason::ExpectedBlock),
        ),
{
}

} // verus!

verus! {

/// The default table reaches the integer arithmetic: in the environment
/// `default_env` builds, the addition and subtraction names resolve to
/// their primitives, so the arithmetic-order law speaks of what a fresh
/// session runs.
pub proof fn law_default_env_arith()
    ensures
        env_lookup(
            crate::default_env::spec_default_env(),
            seq![('%' as u8), ('i' as u8), ('i' as u8), ('+' as u8)],
        ) == Some(BindingView::Primitive(Prim::IntAdd)),
        env_lookup(
            crate::default_env::spec_default_env(),
            seq![('%' as u8), ('i' as u8), ('i' as u8), ('-' as u8)],
        ) == Some(BindingView::Primitive(Prim::IntSub)),
{
    let env = crate::default_env::spec_default_env();
    let add_name = seq![('%' as u8), ('i' as u8), ('i' as u8), ('+' as u8)];
    let sub_name = seq![('%' as u8), ('i' as u8), ('i' as u8), ('-' as u8)];
    assert(env[21].name =~= add_name);
    assert forall|j: int| 0 <= j < 21 implies (#[trigger] env[j]).name != add_name by {
        assert(env[j].name != add_name);
    }
    crate::sem::lemma_env_lookup_at(env, 21);
    assert(env[22].name =~= sub_name);
    assert forall|j: int| 0 <= j < 22 implies (#[trigger] env[j]).name != sub_name by {
        assert(env[j].name != sub_name);
    }
    crate::sem::lemma_env_lookup_at(env, 22);
}

} // verus!

verus! {

use crate::sem::env_set;
use crate::sem::scan_body;

/// Scanning runs to the first end marker and captures everything before
/// it.
proof fn lemma_scan_body_through(ops: Seq<OpView>, i: int, end: int)
    requires
        0 <= i <= end < ops.len(),
        forall|k: int| i <= k < end ==> !((#[trigger] ops[k]) is End),
        ops[end] is End,
    ensures
        scan_body(ops, i) == Some((ops.subrange(i, end), end + 1)),
    decreases end - i,
{
    if i == end {
        assert(ops.subrange(i, end) =~= Seq::<OpView>::empty());
    } else {
        lemma_scan_body_through(ops, i + 1, end);
        assert(seq![ops[i]] + ops.subrange(i + 1, end) =~= ops.subrange(i, end));
    }
}

/// Persistence, the engine half: a word definition read back off the
/// cursor — begin marker, name, effect, body, end marker — appends
/// exactly the method it describes and logs exactly its log line.  What
/// this law does not state is the textual leg: that the logged line
/// parses back to exactly these instructions.
pub proof fn law_definition_replay(
    st: StateView,
    name: Seq<u8>,
    effect: crate::interpreter::EffectView,
    body: Seq<OpView>,
)
    requires
        !crate::sem::reserved_name(name),
        forall|k: int| 0 <= k < body.len() ==> !((#[trigger] body[k]) is End),
        body.len() > 0 ==> !(body[0] is Literal && body[0]->Literal_0 is Str),
        !(env_lookup(st.env, name) matches Some(BindingView::Primitive(_))),
    ensures
        ({
            let ops = seq![OpView::BeginDef, OpView::Symbol(name), OpView::Effect(effect)] + body
                + seq![OpView::End];
            let m = MethodView { effect, doc: Seq::empty(), body };
            let grown = match env_lookup(st.env, name) {
                Some(BindingView::Composite(ms)) => BindingView::Composite(ms.push(m)),
                _ => BindingView::Composite(seq![m]),
            };
            crate::sem::spec_define_word(st, ops, 1) == crate::sem::DefOut::Done(
                crate::sem::log_line(
                    crate::sem::with_env(st, env_set(st.env, name, grown)),
                    crate::serialize::spec_word_def_line(name, effect, body),
                ),
                ops.len() as int,
            )
        }),
{
    let ops = seq![OpView::BeginDef, OpView::Symbol(name), OpView::Effect(effect)] + body + seq![
        OpView::End,
    ];
    let endpos = 3 + body.len() as int;
    assert(ops.len() == body.len() + 4);
    assert(ops[1] == OpView::Symbol(name));
    assert(ops[2] == OpView::Effect(effect));
    assert(ops[endpos] == OpView::End);
    assert forall|k: int| 3 <= k < endpos implies !((#[trigger] ops[k]) is End) by {
        assert(ops[k] == body[k - 3]);
    }
    lemma_scan_body_through(ops, 3, endpos);
    assert(ops.subrange(3, endpos) =~= body) by {
        assert(forall|k: int| 0 <= k < body.len() ==> #[trigger] ops.subrange(3, endpos)[k] == ops[k + 3]);
        assert(forall|k: int| 0 <= k < body.len() ==> #[trigger] ops[k + 3] == body[k]);
    }
    assert(crate::sem::split_doc(body) == (Seq::<u8>::empty(), body));
}

} // verus!

verus! {

use crate::sem::scan_type_parts;
use crate::value::ValueView as VV;

/// A run of component names before the end marker is collected in order.
proof fn lemma_scan_types_through(ops: Seq<OpView>, i: int, end: int)
    requires
        0 <= i <= end < ops.len(),
        forall|k: int| i <= k < end ==> (#[trigger] ops[k]) is Symbol,
        ops[end] is End,
    ensures
        scan_type_parts(ops, i) == Result::<
            (Seq<Seq<u8>>, Option<Seq<u8>>, int),
            ErrorView,
        >::Ok((ops.subrange(i, end).map(|k: int, op: OpView| op->Symbol_0), None, end + 1)),
    decreases end - i,
{
    if i == end {
        assert(ops.subrange(i, end).map(|k: int, op: OpView| op->Symbol_0) =~= Seq::<
            Seq<u8>,
        >::empty());
    } else {
        lemma_scan_types_through(ops, i + 1, end);
        let f = |k: int, op: OpView| op->Symbol_0;
        assert(seq![ops[i]->Symbol_0] + ops.subrange(i + 1, end).map(f) =~= ops.subrange(
            i,
            end,
        ).map(f)) by {
            assert(forall|k: int|
                0 <= k < end - i ==> #[trigger] ops.subrange(i, end)[k] == ops[i + k]);
            assert(forall|k: int|
                0 <= k < end - i - 1 ==> #[trigger] ops.subrange(i + 1, end)[k] == ops[i + 1
                    + k]);
        }
    }
}

/// Persistence, the engine half, for type definitions: a type definition
/// read back off the cursor — begin marker, name, documentation string,
/// component names, end marker — installs exactly the constructor method
/// it describes, replacing any previous binding, and logs exactly its
/// log line.  The textual leg — that the logged line parses back to
/// these instructions — is not stated here.
pub proof fn law_type_definition_replay(
    st: StateView,
    name: Seq<u8>,
    doc: Seq<u8>,
    types: Seq<OpView>,
)
    requires
        !crate::sem::reserved_name(name),
        crate::symbol::spec_is_type(name),
        forall|k: int| 0 <= k < types.len() ==> (#[trigger] types[k]) is Symbol,
    ensures
        ({
            let ops = seq![
                OpView::BeginTypeDef,
                OpView::Symbol(name),
                OpView::Literal(VV::Str(doc)),
            ] + types + seq![OpView::End];
            let tnames = types.map(|k: int, op: OpView| op->Symbol_0);
            let m = MethodView {
                effect: crate::interpreter::EffectView { pre: tnames, post: seq![name] },
                doc,
                body: seq![
                    OpView::Literal(VV::Symbol(name)),
                    OpView::Tuple((tnames.len() + 1) as usize),
                ],
            };
            crate::sem::spec_define_type(st, ops, 1) == crate::sem::DefOut::Done(
                crate::sem::log_line(
                    crate::sem::with_env(
                        st,
                        crate::sem::env_set(st.env, name, BindingView::Composite(seq![m])),
                    ),
                    crate::serialize::spec_type_def_line(name, doc, tnames),
                ),
                ops.len() as int,
            )
        }),
{
    let ops = seq![
        OpView::BeginTypeDef,
        OpView::Symbol(name),
        OpView::Literal(VV::Str(doc)),
    ] + types + seq![OpView::End];
    let endpos = 3 + types.len() as int;
    assert(ops.len() == types.len() + 4);
    assert(ops[1] == OpView::Symbol(name));
    assert(ops[2] == OpView::Literal(VV::Str(doc)));
    assert(ops[endpos] == OpView::End);
    assert forall|k: int| 3 <= k < endpos implies (#[trigger] ops[k]) is Symbol by {
        assert(ops[k] == types[k - 3]);
    }
    lemma_scan_types_through(ops, 3, endpos);
    let f = |k: int, op: OpView| op->Symbol_0;
    assert(ops.subrange(3, endpos).map(f) =~= types.map(f)) by {
        assert(forall|k: int|
            0 <= k < types.len() ==> #[trigger] ops.subrange(3, endpos)[k] == ops[k + 3]);
        assert(forall|k: int| 0 <= k < types.len() ==> #[trigger] ops[k + 3] == types[k]);
    }
    assert(scan_type_parts(ops, 2) == Result::<
        (Seq<Seq<u8>>, Option<Seq<u8>>, int),
        ErrorView,
    >::Ok((types.map(f), Some(doc), endpos + 1)));
}

} // verus!
