use vstd::prelude::*;

use crate::errors::DefReason;
use crate::errors::ErrorView;
use crate::errors::WhichStack;
use crate::interpreter::BindingView;
use crate::interpreter::EffectView;
use crate::interpreter::EnvEntryView;
use crate::interpreter::MethodView;
use crate::interpreter::OpView;
use crate::interpreter::Prim;
use crate::interpreter::StateView;
use crate::numtext::spec_render_int;
use crate::serialize::spec_type_def_line;
use crate::serialize::spec_word_def_line;
use crate::symbol::spec_is_type;
use crate::value::ValueView;
use crate::value::tag_bln;
use crate::value::tag_flt;
use crate::value::tag_int;
use crate::value::tag_ops;
use crate::value::tag_str;
use crate::value::tag_sym;
use crate::value::tag_tup;
use crate::value::value_tag;

verus! {

broadcast use vstd::seq::group_seq_axioms;

// ---------------------------------------------------------------------
// the environment

/// The binding of a name: the first entry that carries it.
pub open spec fn env_lookup(env: Seq<EnvEntryView>, name: Seq<u8>) -> Option<BindingView>
    decreases env,
{
    if env.len() == 0 {
        None
    } else if env[0].name == name {
        Some(env[0].binding)
    } else {
        env_lookup(env.drop_first(), name)
    }
}

/// The environment with `name` bound to `b`: the first entry carrying
/// `name` is replaced, or a new entry appended at the end.
pub open spec fn env_set(env: Seq<EnvEntryView>, name: Seq<u8>, b: BindingView) -> Seq<
    EnvEntryView,
>
    decreases env,
{
    if env.len() == 0 {
        seq![EnvEntryView { name, binding: b }]
    } else if env[0].name == name {
        seq![EnvEntryView { name, binding: b }] + env.drop_first()
    } else {
        seq![env[0]] + env_set(env.drop_first(), name, b)
    }
}

/// Whether a name is reserved for built-ins: it opens with `%` or `:`.
pub open spec fn reserved_name(name: Seq<u8>) -> bool {
    name.len() > 0 && (name[0] == ('%' as u8) || name[0] == (':' as u8))
}

/// Every primitive binding hangs on a reserved name.  The default
/// environment is built this way, and definitions keep it so.
pub open spec fn prims_reserved(env: Seq<EnvEntryView>) -> bool {
    forall|i: int|
        0 <= i < env.len() && (#[trigger] env[i].binding) is Primitive ==> reserved_name(
            env[i].name,
        )
}

// ---------------------------------------------------------------------
// dispatch

/// Whether one declared formal accepts a value: a type name demands the
/// value's tag, anything else is a wildcard.
pub open spec fn formal_matches(formal: Seq<u8>, v: ValueView) -> bool {
    !spec_is_type(formal) || value_tag(v) == formal
}

/// Whether a declared `pre` list accepts the stack, matched right-aligned
/// against the top.
pub open spec fn effect_accepts(pre: Seq<Seq<u8>>, stack: Seq<ValueView>) -> bool {
    pre.len() <= stack.len() && (forall|j: int|
        0 <= j < pre.len() ==> formal_matches(#[trigger] pre[j], stack[stack.len() - pre.len()
            + j]))
}

/// The overload that dispatch selects: the *last* method whose `pre`
/// accepts the stack — recency wins, never specificity.
pub open spec fn find_method_idx(methods: Seq<MethodView>, stack: Seq<ValueView>) -> Option<int>
    decreases methods,
{
    if methods.len() == 0 {
        None
    } else if effect_accepts(methods.last().effect.pre, stack) {
        Some(methods.len() - 1)
    } else {
        find_method_idx(methods.drop_last(), stack)
    }
}

// ---------------------------------------------------------------------
// small state helpers

pub open spec fn with_main(st: StateView, m: Seq<ValueView>) -> StateView {
    StateView { main: m, sec: st.sec, env: st.env, out: st.out, log: st.log, log_on: st.log_on }
}

pub open spec fn with_sec(st: StateView, s: Seq<ValueView>) -> StateView {
    StateView { main: st.main, sec: s, env: st.env, out: st.out, log: st.log, log_on: st.log_on }
}

pub open spec fn with_env(st: StateView, e: Seq<EnvEntryView>) -> StateView {
    StateView { main: st.main, sec: st.sec, env: e, out: st.out, log: st.log, log_on: st.log_on }
}

pub open spec fn push_main(st: StateView, v: ValueView) -> StateView {
    with_main(st, st.main.push(v))
}

pub open spec fn out_line(st: StateView, line: Seq<u8>) -> StateView {
    StateView {
        main: st.main,
        sec: st.sec,
        env: st.env,
        out: st.out.push(line),
        log: st.log,
        log_on: st.log_on,
    }
}

/// A definition-log line, appended only while logging is enabled.
pub open spec fn log_line(st: StateView, line: Seq<u8>) -> StateView {
    if st.log_on {
        StateView {
            main: st.main,
            sec: st.sec,
            env: st.env,
            out: st.out,
            log: st.log.push(line),
            log_on: st.log_on,
        }
    } else {
        st
    }
}

/// How one engine step ends: a known state with a possible error, or a
/// state the host's answer shaped, about which nothing further is said.
pub ghost enum StepOut {
    Done(StateView, Option<ErrorView>),
    Host,
}

pub open spec fn ok_st(st: StateView) -> StepOut {
    StepOut::Done(st, None)
}

pub open spec fn fail(st: StateView, e: ErrorView) -> StepOut {
    StepOut::Done(st, Some(e))
}

/// What popping gave: the value and the state after it, or the failure.
pub ghost enum PopRes<T> {
    Got(T, StateView),
    Failed(StateView, ErrorView),
}

pub open spec fn pop_value_s(st: StateView) -> PopRes<ValueView> {
    if st.main.len() == 0 {
        PopRes::Failed(st, ErrorView::StackUnderflow(WhichStack::Main))
    } else {
        PopRes::Got(st.main.last(), with_main(st, st.main.drop_last()))
    }
}

pub open spec fn mismatch(expected: Seq<u8>, v: ValueView) -> ErrorView {
    ErrorView::TypeMismatch { expected, found: value_tag(v) }
}

pub open spec fn pop_bool_s(st: StateView) -> PopRes<bool> {
    match pop_value_s(st) {
        PopRes::Failed(st1, e) => PopRes::Failed(st1, e),
        PopRes::Got(v, st1) => match v {
            ValueView::True => PopRes::Got(true, st1),
            ValueView::False => PopRes::Got(false, st1),
            _ => PopRes::Failed(st1, mismatch(tag_bln(), v)),
        },
    }
}

pub open spec fn pop_int_s(st: StateView) -> PopRes<i64> {
    match pop_value_s(st) {
        PopRes::Failed(st1, e) => PopRes::Failed(st1, e),
        PopRes::Got(v, st1) => match v {
            ValueView::Int(x) => PopRes::Got(x, st1),
            _ => PopRes::Failed(st1, mismatch(tag_int(), v)),
        },
    }
}

pub open spec fn pop_flt_s(st: StateView) -> PopRes<Seq<u8>> {
    match pop_value_s(st) {
        PopRes::Failed(st1, e) => PopRes::Failed(st1, e),
        PopRes::Got(v, st1) => match v {
            ValueView::Flt(t) => PopRes::Got(t, st1),
            _ => PopRes::Failed(st1, mismatch(tag_flt(), v)),
        },
    }
}

pub open spec fn pop_str_s(st: StateView) -> PopRes<Seq<u8>> {
    match pop_value_s(st) {
        PopRes::Failed(st1, e) => PopRes::Failed(st1, e),
        PopRes::Got(v, st1) => match v {
            ValueView::Str(t) => PopRes::Got(t, st1),
            _ => PopRes::Failed(st1, mismatch(tag_str(), v)),
        },
    }
}

pub open spec fn pop_sym_s(st: StateView) -> PopRes<Seq<u8>> {
    match pop_value_s(st) {
        PopRes::Failed(st1, e) => PopRes::Failed(st1, e),
        PopRes::Got(v, st1) => match v {
            ValueView::Symbol(s) => PopRes::Got(s, st1),
            _ => PopRes::Failed(st1, mismatch(tag_sym(), v)),
        },
    }
}

pub open spec fn pop_block_s(st: StateView) -> PopRes<Seq<OpView>> {
    match pop_value_s(st) {
        PopRes::Failed(st1, e) => PopRes::Failed(st1, e),
        PopRes::Got(v, st1) => match v {
            ValueView::Block(ops) => PopRes::Got(ops, st1),
            _ => PopRes::Failed(st1, mismatch(tag_ops(), v)),
        },
    }
}

pub open spec fn pop_tuple_s(st: StateView) -> PopRes<Seq<ValueView>> {
    match pop_value_s(st) {
        PopRes::Failed(st1, e) => PopRes::Failed(st1, e),
        PopRes::Got(v, st1) => match v {
            ValueView::Tuple(fields) => PopRes::Got(fields, st1),
            _ => PopRes::Failed(st1, mismatch(tag_tup(), v)),
        },
    }
}

// ---------------------------------------------------------------------
// integer arithmetic, wrapping as two's complement does

pub open spec fn wrap_add_i64(a: i64, b: i64) -> i64 {
    vstd::wrapping::i64_specs::wrapping_add(a, b)
}

pub open spec fn wrap_sub_i64(a: i64, b: i64) -> i64 {
    vstd::wrapping::i64_specs::wrapping_sub(a, b)
}

pub open spec fn wrap_mul_i64(a: i64, b: i64) -> i64 {
    vstd::wrapping::i64_specs::wrapping_mul(a, b)
}

/// Division truncating toward zero, with the one overflowing quotient
/// wrapping back to the smallest value.
pub open spec fn wrap_div_i64(a: i64, b: i64) -> i64 {
    let mag_a = if a < 0 {
        -(a as int)
    } else {
        a as int
    };
    let mag_b = if b < 0 {
        -(b as int)
    } else {
        b as int
    };
    let q = mag_a / mag_b;
    if (a < 0) == (b < 0) {
        if q > i64::MAX {
            i64::MIN
        } else {
            q as i64
        }
    } else {
        (-q) as i64
    }
}

// ---------------------------------------------------------------------
// debug rendering, as the printing primitives show values

pub open spec fn spec_debug_value(v: ValueView) -> Seq<u8>
    decreases v,
{
    match v {
        ValueView::True => seq![('T' as u8), ('r' as u8), ('u' as u8), ('e' as u8)],
        ValueView::False => seq![
            ('F' as u8),
            ('a' as u8),
            ('l' as u8),
            ('s' as u8),
            ('e' as u8),
        ],
        ValueView::Int(x) => seq![('I' as u8), ('n' as u8), ('t' as u8), ('(' as u8)]
            + spec_render_int(x as int) + seq![(')' as u8)],
        ValueView::Flt(t) => seq![('F' as u8), ('l' as u8), ('t' as u8), ('(' as u8)] + t + seq![
            (')' as u8),
        ],
        ValueView::Str(t) => seq![
            ('S' as u8),
            ('t' as u8),
            ('r' as u8),
            ('(' as u8),
            ('"' as u8),
        ] + t + seq![('"' as u8), (')' as u8)],
        ValueView::Symbol(s) => seq![
            ('S' as u8),
            ('y' as u8),
            ('m' as u8),
            ('(' as u8),
        ] + s + seq![(')' as u8)],
        ValueView::Tuple(fields) => seq![
            ('T' as u8),
            ('u' as u8),
            ('p' as u8),
            ('(' as u8),
            ('[' as u8),
        ] + spec_debug_values(fields) + seq![(']' as u8), (')' as u8)],
        ValueView::Block(ops) => seq![
            ('O' as u8),
            ('p' as u8),
            ('s' as u8),
            ('(' as u8),
        ] + crate::serialize::spec_render_value(ValueView::Block(ops)) + seq![(')' as u8)],
    }
}

/// Values joined by a comma and a space.
pub open spec fn spec_debug_values(vs: Seq<ValueView>) -> Seq<u8>
    decreases vs,
{
    if vs.len() == 0 {
        Seq::empty()
    } else if vs.len() == 1 {
        spec_debug_value(vs[0])
    } else {
        spec_debug_values(vs.drop_last()) + seq![(',' as u8), (' ' as u8)] + spec_debug_value(
            vs.last(),
        )
    }
}

/// A whole stack in debug shape.
pub open spec fn spec_debug_stack(vs: Seq<ValueView>) -> Seq<u8> {
    seq![('[' as u8)] + spec_debug_values(vs) + seq![(']' as u8)]
}

pub open spec fn lit_main_stack_prefix() -> Seq<u8> {
    seq![
        (' ' as u8),
        (' ' as u8),
        ('M' as u8),
        ('a' as u8),
        ('i' as u8),
        ('n' as u8),
        (' ' as u8),
        ('S' as u8),
        ('t' as u8),
        ('a' as u8),
        ('c' as u8),
        ('k' as u8),
        (':' as u8),
        (' ' as u8),
    ]
}

pub open spec fn lit_second_stack_prefix() -> Seq<u8> {
    seq![
        ('S' as u8),
        ('e' as u8),
        ('c' as u8),
        ('o' as u8),
        ('n' as u8),
        ('d' as u8),
        (' ' as u8),
        ('S' as u8),
        ('t' as u8),
        ('a' as u8),
        ('c' as u8),
        ('k' as u8),
        (':' as u8),
        (' ' as u8),
    ]
}

/// The listing of one binding for the word directory: the name, then a
/// bar, then for an overload set each method's effect and documentation.
pub open spec fn words_entry_lines(e: EnvEntryView) -> Seq<Seq<u8>> {
    match e.binding {
        BindingView::Primitive(_) => seq![e.name + seq![(' ' as u8), ('|' as u8)]],
        BindingView::Composite(methods) => words_method_lines(e.name, methods),
    }
}

pub open spec fn words_method_lines(name: Seq<u8>, methods: Seq<MethodView>) -> Seq<Seq<u8>>
    decreases methods,
{
    if methods.len() == 0 {
        Seq::empty()
    } else {
        words_method_lines(name, methods.drop_last()).push(
            name + seq![(' ' as u8), ('|' as u8), (' ' as u8)]
                + crate::serialize::spec_render_effect(methods.last().effect) + seq![
                (' ' as u8),
                ('|' as u8),
                (' ' as u8),
            ] + methods.last().doc,
        )
    }
}

pub open spec fn words_lines(env: Seq<EnvEntryView>) -> Seq<Seq<u8>>
    decreases env,
{
    if env.len() == 0 {
        Seq::empty()
    } else {
        words_lines(env.drop_last()) + words_entry_lines(env.last())
    }
}

pub open spec fn out_lines(st: StateView, lines: Seq<Seq<u8>>) -> StateView {
    StateView {
        main: st.main,
        sec: st.sec,
        env: st.env,
        out: st.out + lines,
        log: st.log,
        log_on: st.log_on,
    }
}

// ---------------------------------------------------------------------
// the format primitive

/// One walk of a format string: plain bytes pass through; `%i`, `%f` and
/// `%s` pop and splice a value; `%%` gives a percent sign; any other
/// directive is consumed and ignored.
pub open spec fn spec_fmt_walk(fmt: Seq<u8>, i: int, st: StateView, acc: Seq<u8>) -> StepOut
    decreases fmt.len() - i,
{
    if i < 0 || i >= fmt.len() {
        ok_st(push_main(st, ValueView::Str(acc)))
    } else if fmt[i] != ('%' as u8) {
        spec_fmt_walk(fmt, i + 1, st, acc.push(fmt[i]))
    } else if i + 1 >= fmt.len() {
        ok_st(push_main(st, ValueView::Str(acc)))
    } else {
        let d = fmt[i + 1];
        if d == ('%' as u8) {
            spec_fmt_walk(fmt, i + 2, st, acc.push('%' as u8))
        } else if d == ('i' as u8) {
            match pop_int_s(st) {
                PopRes::Failed(st1, e) => fail(st1, e),
                PopRes::Got(x, st1) => spec_fmt_walk(fmt, i + 2, st1, acc + spec_render_int(
                    x as int,
                )),
            }
        } else if d == ('f' as u8) {
            match pop_flt_s(st) {
                PopRes::Failed(st1, e) => fail(st1, e),
                PopRes::Got(t, st1) => spec_fmt_walk(fmt, i + 2, st1, acc + t),
            }
        } else if d == ('s' as u8) {
            match pop_str_s(st) {
                PopRes::Failed(st1, e) => fail(st1, e),
                PopRes::Got(t, st1) => spec_fmt_walk(fmt, i + 2, st1, acc + t),
            }
        } else {
            spec_fmt_walk(fmt, i + 2, st, acc)
        }
    }
}

// ---------------------------------------------------------------------
// the engine

/// Whether running a primitive reaches the host: the float work whose
/// body is not the engine's.
pub open spec fn prim_is_host(p: Prim) -> bool {
    match p {
        Prim::IntToFlt => true,
        Prim::FltEq => true,
        Prim::FltLt => true,
        Prim::FltAdd => true,
        Prim::FltSub => true,
        Prim::FltMul => true,
        Prim::FltDiv => true,
        Prim::FltSqrt => true,
        Prim::FltLog => true,
        Prim::FltSin => true,
        Prim::FltCos => true,
        _ => false,
    }
}

/// What one primitive does to the state.
pub open spec fn spec_run_prim(st: StateView, p: Prim, fuel: nat) -> StepOut
    decreases fuel, 0int, 0int,
{
    match p {
        Prim::Raise => match pop_str_s(st) {
            PopRes::Failed(st1, e) => fail(st1, e),
            PopRes::Got(m, st1) => fail(st1, ErrorView::UserError(m)),
        },
        Prim::Apply => match pop_block_s(st) {
            PopRes::Failed(st1, e) => fail(st1, e),
            PopRes::Got(body, st1) => if fuel == 0 {
                fail(st1, ErrorView::RecursionLimit)
            } else {
                spec_exec(st1, body, 0, (fuel - 1) as nat)
            },
        },
        Prim::Stacks => ok_st(
            out_lines(
                st,
                seq![
                    lit_main_stack_prefix() + spec_debug_stack(st.main),
                    lit_second_stack_prefix() + spec_debug_stack(st.sec),
                ],
            ),
        ),
        Prim::Words => ok_st(out_lines(st, words_lines(st.env))),
        Prim::ToSecond => match pop_value_s(st) {
            PopRes::Failed(st1, e) => fail(st1, e),
            PopRes::Got(v, st1) => ok_st(with_sec(st1, st1.sec.push(v))),
        },
        Prim::FromSecond => if st.sec.len() == 0 {
            fail(st, ErrorView::StackUnderflow(WhichStack::Secondary))
        } else {
            ok_st(push_main(with_sec(st, st.sec.drop_last()), st.sec.last()))
        },
        Prim::PickSecond => match pop_int_s(st) {
            PopRes::Failed(st1, e) => fail(st1, e),
            PopRes::Got(idx, st1) => if idx < 0 || idx >= st1.sec.len() {
                fail(st1, ErrorView::IndexOutOfRange)
            } else {
                ok_st(push_main(st1, st1.sec[st1.sec.len() - 1 - idx]))
            },
        },
        Prim::Drop => match pop_value_s(st) {
            PopRes::Failed(st1, e) => fail(st1, e),
            PopRes::Got(_, st1) => ok_st(st1),
        },
        Prim::Dup => match pop_value_s(st) {
            PopRes::Failed(st1, e) => fail(st1, e),
            PopRes::Got(v, st1) => ok_st(push_main(push_main(st1, v), v)),
        },
        Prim::Over => match pop_value_s(st) {
            PopRes::Failed(st1, e) => fail(st1, e),
            PopRes::Got(b, st1) => match pop_value_s(st1) {
                PopRes::Failed(st2, e) => fail(st2, e),
                PopRes::Got(a, st2) => ok_st(push_main(push_main(push_main(st2, a), b), a)),
            },
        },
        Prim::Swap => match pop_value_s(st) {
            PopRes::Failed(st1, e) => fail(st1, e),
            PopRes::Got(b, st1) => match pop_value_s(st1) {
                PopRes::Failed(st2, e) => fail(st2, e),
                PopRes::Got(a, st2) => ok_st(push_main(push_main(st2, b), a)),
            },
        },
        Prim::Rot => match pop_value_s(st) {
            PopRes::Failed(st1, e) => fail(st1, e),
            PopRes::Got(c, st1) => match pop_value_s(st1) {
                PopRes::Failed(st2, e) => fail(st2, e),
                PopRes::Got(b, st2) => match pop_value_s(st2) {
                    PopRes::Failed(st3, e) => fail(st3, e),
                    PopRes::Got(a, st3) => ok_st(
                        push_main(push_main(push_main(st3, b), c), a),
                    ),
                },
            },
        },
        Prim::PrintAny => match pop_value_s(st) {
            PopRes::Failed(st1, e) => fail(st1, e),
            PopRes::Got(v, st1) => ok_st(out_line(st1, spec_debug_value(v))),
        },
        Prim::EqAny => match pop_value_s(st) {
            PopRes::Failed(st1, e) => fail(st1, e),
            PopRes::Got(b, st1) => match pop_value_s(st1) {
                PopRes::Failed(st2, e) => fail(st2, e),
                PopRes::Got(a, st2) => ok_st(
                    push_main(
                        st2,
                        if a == b {
                            ValueView::True
                        } else {
                            ValueView::False
                        },
                    ),
                ),
            },
        },
        Prim::PrintBool => match pop_bool_s(st) {
            PopRes::Failed(st1, e) => fail(st1, e),
            PopRes::Got(x, st1) => ok_st(
                out_line(
                    st1,
                    if x {
                        crate::serialize::lit_true_text()
                    } else {
                        crate::serialize::lit_false_text()
                    },
                ),
            ),
        },
        Prim::BoolEq => match pop_bool_s(st) {
            PopRes::Failed(st1, e) => fail(st1, e),
            PopRes::Got(b, st1) => match pop_bool_s(st1) {
                PopRes::Failed(st2, e) => fail(st2, e),
                PopRes::Got(a, st2) => ok_st(push_main(st2, bool_val(a == b))),
            },
        },
        Prim::BoolAnd => match pop_bool_s(st) {
            PopRes::Failed(st1, e) => fail(st1, e),
            PopRes::Got(b, st1) => match pop_bool_s(st1) {
                PopRes::Failed(st2, e) => fail(st2, e),
                PopRes::Got(a, st2) => ok_st(push_main(st2, bool_val(a && b))),
            },
        },
        Prim::BoolOr => match pop_bool_s(st) {
            PopRes::Failed(st1, e) => fail(st1, e),
            PopRes::Got(b, st1) => match pop_bool_s(st1) {
                PopRes::Failed(st2, e) => fail(st2, e),
                PopRes::Got(a, st2) => ok_st(push_main(st2, bool_val(a || b))),
            },
        },
        Prim::PrintInt => match pop_int_s(st) {
            PopRes::Failed(st1, e) => fail(st1, e),
            PopRes::Got(x, st1) => ok_st(out_line(st1, spec_render_int(x as int))),
        },
        Prim::IntEq => match pop_int_s(st) {
            PopRes::Failed(st1, e) => fail(st1, e),
            PopRes::Got(b, st1) => match pop_int_s(st1) {
                PopRes::Failed(st2, e) => fail(st2, e),
                PopRes::Got(a, st2) => ok_st(push_main(st2, bool_val(a == b))),
            },
        },
        Prim::IntLt => match pop_int_s(st) {
            PopRes::Failed(st1, e) => fail(st1, e),
            PopRes::Got(b, st1) => match pop_int_s(st1) {
                PopRes::Failed(st2, e) => fail(st2, e),
                PopRes::Got(a, st2) => ok_st(push_main(st2, bool_val(a < b))),
            },
        },
        Prim::IntAdd => match pop_int_s(st) {
            PopRes::Failed(st1, e) => fail(st1, e),
            PopRes::Got(b, st1) => match pop_int_s(st1) {
                PopRes::Failed(st2, e) => fail(st2, e),
                PopRes::Got(a, st2) => ok_st(
                    push_main(st2, ValueView::Int(wrap_add_i64(a, b))),
                ),
            },
        },
        Prim::IntSub => match pop_int_s(st) {
            PopRes::Failed(st1, e) => fail(st1, e),
            PopRes::Got(b, st1) => match pop_int_s(st1) {
                PopRes::Failed(st2, e) => fail(st2, e),
                PopRes::Got(a, st2) => ok_st(
                    push_main(st2, ValueView::Int(wrap_sub_i64(a, b))),
                ),
            },
        },
        Prim::IntMul => match pop_int_s(st) {
            PopRes::Failed(st1, e) => fail(st1, e),
            PopRes::Got(b, st1) => match pop_int_s(st1) {
                PopRes::Failed(st2, e) => fail(st2, e),
                PopRes::Got(a, st2) => ok_st(
                    push_main(st2, ValueView::Int(wrap_mul_i64(a, b))),
                ),
            },
        },
        Prim::IntDiv => match pop_int_s(st) {
            PopRes::Failed(st1, e) => fail(st1, e),
            PopRes::Got(b, st1) => match pop_int_s(st1) {
                PopRes::Failed(st2, e) => fail(st2, e),
                PopRes::Got(a, st2) => if b == 0 {
                    fail(st2, ErrorView::DivisionByZero)
                } else {
                    ok_st(push_main(st2, ValueView::Int(wrap_div_i64(a, b))))
                },
            },
        },
        Prim::PrintFlt => match pop_flt_s(st) {
            PopRes::Failed(st1, e) => fail(st1, e),
            PopRes::Got(t, st1) => ok_st(out_line(st1, t)),
        },
        Prim::IntToFlt => match pop_int_s(st) {
            PopRes::Failed(st1, e) => fail(st1, e),
            PopRes::Got(_, _) => StepOut::Host,
        },
        Prim::FltEq => host_cmp(st),
        Prim::FltLt => host_cmp(st),
        Prim::FltAdd => host_arith(st),
        Prim::FltSub => host_arith(st),
        Prim::FltMul => host_arith(st),
        Prim::FltDiv => host_arith(st),
        Prim::FltSqrt => host_unary(st),
        Prim::FltLog => host_unary(st),
        Prim::FltSin => host_unary(st),
        Prim::FltCos => host_unary(st),
        Prim::PrintStr => match pop_str_s(st) {
            PopRes::Failed(st1, e) => fail(st1, e),
            PopRes::Got(t, st1) => ok_st(
                out_line(st1, seq![('"' as u8)] + t + seq![('"' as u8)]),
            ),
        },
        Prim::PrintLn => match pop_str_s(st) {
            PopRes::Failed(st1, e) => fail(st1, e),
            PopRes::Got(t, st1) => ok_st(out_line(st1, t)),
        },
        Prim::StrEq => match pop_str_s(st) {
            PopRes::Failed(st1, e) => fail(st1, e),
            PopRes::Got(b, st1) => match pop_str_s(st1) {
                PopRes::Failed(st2, e) => fail(st2, e),
                PopRes::Got(a, st2) => ok_st(push_main(st2, bool_val(a == b))),
            },
        },
        Prim::Fmt => match pop_str_s(st) {
            PopRes::Failed(st1, e) => fail(st1, e),
            PopRes::Got(f, st1) => spec_fmt_walk(f, 0, st1, Seq::empty()),
        },
        Prim::PrintSym => match pop_sym_s(st) {
            PopRes::Failed(st1, e) => fail(st1, e),
            PopRes::Got(s, st1) => ok_st(out_line(st1, s)),
        },
        Prim::SymEq => match pop_sym_s(st) {
            PopRes::Failed(st1, e) => fail(st1, e),
            PopRes::Got(b, st1) => match pop_sym_s(st1) {
                PopRes::Failed(st2, e) => fail(st2, e),
                PopRes::Got(a, st2) => ok_st(push_main(st2, bool_val(a == b))),
            },
        },
    }
}

pub open spec fn bool_val(b: bool) -> ValueView {
    if b {
        ValueView::True
    } else {
        ValueView::False
    }
}

/// A float comparison: both operands must be floats; the answer is the
/// host's.
pub open spec fn host_cmp(st: StateView) -> StepOut {
    match pop_flt_s(st) {
        PopRes::Failed(st1, e) => fail(st1, e),
        PopRes::Got(_, st1) => match pop_flt_s(st1) {
            PopRes::Failed(st2, e) => fail(st2, e),
            PopRes::Got(_, _) => StepOut::Host,
        },
    }
}

pub open spec fn host_arith(st: StateView) -> StepOut {
    host_cmp(st)
}

/// A one-operand float operation.
pub open spec fn host_unary(st: StateView) -> StepOut {
    match pop_flt_s(st) {
        PopRes::Failed(st1, e) => fail(st1, e),
        PopRes::Got(_, _) => StepOut::Host,
    }
}

// ---------------------------------------------------------------------
// definitions read from the instruction cursor

/// The outcome of consuming a definition: the new state and the cursor
/// position after the end marker, or the state and error.
pub ghost enum DefOut {
    Done(StateView, int),
    Fail(StateView, ErrorView),
}

/// The instructions up to the next end marker, and the position after it.
pub open spec fn scan_body(ops: Seq<OpView>, i: int) -> Option<(Seq<OpView>, int)>
    decreases ops.len() - i,
{
    if i < 0 || i >= ops.len() {
        None
    } else if ops[i] is End {
        Some((Seq::empty(), i + 1))
    } else {
        match scan_body(ops, i + 1) {
            None => None,
            Some((body, p)) => Some((seq![ops[i]] + body, p)),
        }
    }
}

/// The documentation of a freshly captured body: a leading string literal
/// is lifted out of the body.
pub open spec fn split_doc(body: Seq<OpView>) -> (Seq<u8>, Seq<OpView>) {
    if body.len() > 0 && body[0] is Literal && body[0]->Literal_0 is Str {
        (body[0]->Literal_0->Str_0, body.drop_first())
    } else {
        (Seq::empty(), body)
    }
}

/// A word definition: a name, a mandatory stack effect, a body up to the
/// end marker.  The method is appended to the name's overloads — never to
/// a primitive — and the definition is logged.
pub open spec fn spec_define_word(st: StateView, ops: Seq<OpView>, pos: int) -> DefOut {
    if !(0 <= pos < ops.len()) {
        DefOut::Fail(st, ErrorView::MalformedDefinition(DefReason::ExpectedName))
    } else {
        match ops[pos] {
            OpView::Symbol(name) => if reserved_name(name) {
                DefOut::Fail(st, ErrorView::MalformedDefinition(DefReason::ReservedPrefix))
            } else if !(pos + 1 < ops.len() && ops[pos + 1] is Effect) {
                DefOut::Fail(st, ErrorView::MalformedDefinition(DefReason::ExpectedEffect))
            } else {
                let effect = ops[pos + 1]->Effect_0;
                match scan_body(ops, pos + 2) {
                    None => DefOut::Fail(
                        st,
                        ErrorView::MalformedDefinition(DefReason::Undelimited),
                    ),
                    Some((raw_body, after)) => {
                        let (doc, body) = split_doc(raw_body);
                        let m = MethodView { effect, doc, body };
                        match env_lookup(st.env, name) {
                            Some(BindingView::Primitive(_)) => DefOut::Fail(
                                st,
                                ErrorView::MalformedDefinition(DefReason::RedefinePrimitive),
                            ),
                            Some(BindingView::Composite(ms)) => DefOut::Done(
                                log_line(
                                    with_env(
                                        st,
                                        env_set(
                                            st.env,
                                            name,
                                            BindingView::Composite(ms.push(m)),
                                        ),
                                    ),
                                    spec_word_def_line(name, effect, body),
                                ),
                                after,
                            ),
                            None => DefOut::Done(
                                log_line(
                                    with_env(
                                        st,
                                        env_set(st.env, name, BindingView::Composite(seq![m])),
                                    ),
                                    spec_word_def_line(name, effect, body),
                                ),
                                after,
                            ),
                        }
                    },
                }
            },
            _ => DefOut::Fail(st, ErrorView::MalformedDefinition(DefReason::ExpectedName)),
        }
    }
}

/// The component names of a type definition, up to the end marker, with
/// an optional documentation string anywhere among them (the last one
/// wins).
pub open spec fn scan_type_parts(ops: Seq<OpView>, i: int) -> Result<
    (Seq<Seq<u8>>, Option<Seq<u8>>, int),
    ErrorView,
>
    decreases ops.len() - i,
{
    if i < 0 || i >= ops.len() {
        Err(ErrorView::MalformedDefinition(DefReason::Undelimited))
    } else if ops[i] is End {
        Ok((Seq::empty(), None, i + 1))
    } else if ops[i] is Symbol {
        match scan_type_parts(ops, i + 1) {
            Err(e) => Err(e),
            Ok((types, doc, p)) => Ok((seq![ops[i]->Symbol_0] + types, doc, p)),
        }
    } else if ops[i] is Literal && ops[i]->Literal_0 is Str {
        match scan_type_parts(ops, i + 1) {
            Err(e) => Err(e),
            Ok((types, doc, p)) => match doc {
                Some(d) => Ok((types, Some(d), p)),
                None => Ok((types, Some(ops[i]->Literal_0->Str_0), p)),
            },
        }
    } else {
        Err(ErrorView::MalformedDefinition(DefReason::InvalidTypeComponent))
    }
}

/// A type definition: an upper-case, unreserved name, component type
/// names, an optional documentation string.  It installs a constructor
/// method — push the tag, build the tuple — *replacing* any previous
/// binding of the name, and is logged.
pub open spec fn spec_define_type(st: StateView, ops: Seq<OpView>, pos: int) -> DefOut {
    if !(0 <= pos < ops.len()) {
        DefOut::Fail(st, ErrorView::MalformedDefinition(DefReason::ExpectedTypeName))
    } else {
        match ops[pos] {
            OpView::Symbol(name) => if reserved_name(name) {
                DefOut::Fail(st, ErrorView::MalformedDefinition(DefReason::ReservedPrefix))
            } else if !spec_is_type(name) {
                DefOut::Fail(st, ErrorView::MalformedDefinition(DefReason::TypeNameNotUpper))
            } else {
                match scan_type_parts(ops, pos + 1) {
                    Err(e) => DefOut::Fail(st, e),
                    Ok((types, doc_opt, after)) => {
                        let doc = match doc_opt {
                            Some(d) => d,
                            None => Seq::empty(),
                        };
                        let m = MethodView {
                            effect: EffectView { pre: types, post: seq![name] },
                            doc,
                            body: seq![
                                OpView::Literal(ValueView::Symbol(name)),
                                OpView::Tuple((types.len() + 1) as usize),
                            ],
                        };
                        DefOut::Done(
                            log_line(
                                with_env(
                                    st,
                                    env_set(st.env, name, BindingView::Composite(seq![m])),
                                ),
                                spec_type_def_line(name, doc, types),
                            ),
                            after,
                        )
                    },
                }
            },
            _ => DefOut::Fail(st, ErrorView::MalformedDefinition(DefReason::ExpectedTypeName)),
        }
    }
}

// ---------------------------------------------------------------------
// evaluation

/// Run the instructions from `pos` on.  The instruction under the cursor
/// decides; definitions and conditionals read on past it.  Nested
/// evaluation — an overload's body, a conditional branch, an applied
/// block — spends one unit of fuel; exhausted fuel is a defined error.
pub open spec fn spec_exec(st: StateView, ops: Seq<OpView>, pos: int, fuel: nat) -> StepOut
    decreases fuel, ops.len() - pos, 1int,
{
    if !(0 <= pos < ops.len()) {
        ok_st(st)
    } else {
        match ops[pos] {
            OpView::Literal(v) => spec_exec_next(push_main(st, v), ops, pos, fuel),
            OpView::Symbol(name) => match env_lookup(st.env, name) {
                None => fail(st, ErrorView::UnknownWord(name)),
                Some(BindingView::Primitive(p)) => match spec_run_prim(st, p, fuel) {
                    StepOut::Host => StepOut::Host,
                    StepOut::Done(st1, Some(e)) => fail(st1, e),
                    StepOut::Done(st1, None) => spec_exec_next(st1, ops, pos, fuel),
                },
                Some(BindingView::Composite(methods)) => match find_method_idx(
                    methods,
                    st.main,
                ) {
                    None => fail(st, ErrorView::UnknownMethod(name)),
                    Some(k) => if fuel == 0 {
                        fail(st, ErrorView::RecursionLimit)
                    } else {
                        match spec_exec(st, methods[k].body, 0, (fuel - 1) as nat) {
                            StepOut::Host => StepOut::Host,
                            StepOut::Done(st1, Some(e)) => fail(st1, e),
                            StepOut::Done(st1, None) => spec_exec_next(st1, ops, pos, fuel),
                        }
                    },
                },
            },
            OpView::Tuple(n) => match spec_tuple_build(st, n) {
                Err((st1, e)) => fail(st1, e),
                Ok(st1) => spec_exec_next(st1, ops, pos, fuel),
            },
            OpView::Select(i) => match pop_tuple_s(st) {
                PopRes::Failed(st1, e) => fail(st1, e),
                PopRes::Got(fields, st1) => if i >= fields.len() {
                    fail(st1, ErrorView::IndexOutOfRange)
                } else {
                    spec_exec_next(push_main(st1, fields[i as int]), ops, pos, fuel)
                },
            },
            OpView::If => match pop_bool_s(st) {
                PopRes::Failed(st1, e) => fail(st1, e),
                PopRes::Got(c, st1) => if !(pos + 1 < ops.len()) {
                    fail(st1, ErrorView::MalformedDefinition(DefReason::MissingBranch))
                } else if !(ops[pos + 1] is Literal && ops[pos + 1]->Literal_0 is Block) {
                    fail(st1, ErrorView::MalformedDefinition(DefReason::ExpectedBlock))
                } else if !(pos + 2 < ops.len()) {
                    fail(st1, ErrorView::MalformedDefinition(DefReason::MissingBranch))
                } else if !(ops[pos + 2] is Literal && ops[pos + 2]->Literal_0 is Block) {
                    fail(st1, ErrorView::MalformedDefinition(DefReason::ExpectedBlock))
                } else {
                    let branch = if c {
                        ops[pos + 1]->Literal_0->Block_0
                    } else {
                        ops[pos + 2]->Literal_0->Block_0
                    };
                    if fuel == 0 {
                        fail(st1, ErrorView::RecursionLimit)
                    } else {
                        match spec_exec(st1, branch, 0, (fuel - 1) as nat) {
                            StepOut::Host => StepOut::Host,
                            StepOut::Done(st2, Some(e)) => fail(st2, e),
                            StepOut::Done(st2, None) => spec_exec(st2, ops, pos + 3, fuel),
                        }
                    }
                },
            },
            OpView::End => fail(st, ErrorView::MalformedDefinition(DefReason::UnexpectedEnd)),
            OpView::BeginDef => match spec_define_word(st, ops, pos + 1) {
                DefOut::Fail(st1, e) => fail(st1, e),
                DefOut::Done(st1, after) => if pos < after <= ops.len() {
                    spec_exec(st1, ops, after, fuel)
                } else {
                    // consumption always moves the cursor forward and never
                    // past the end; this branch carries the termination
                    // argument and is never taken
                    ok_st(st1)
                },
            },
            OpView::BeginTypeDef => match spec_define_type(st, ops, pos + 1) {
                DefOut::Fail(st1, e) => fail(st1, e),
                DefOut::Done(st1, after) => if pos < after <= ops.len() {
                    spec_exec(st1, ops, after, fuel)
                } else {
                    // consumption always moves the cursor forward and never
                    // past the end; this branch carries the termination
                    // argument and is never taken
                    ok_st(st1)
                },
            },
            OpView::Effect(_) => fail(
                st,
                ErrorView::MalformedDefinition(DefReason::StrayEffect),
            ),
        }
    }
}

/// Build a tuple of the given arity off the stack: the popped top is the
/// tag and must be a symbol; the remaining fields keep their pushed
/// order.
pub open spec fn spec_tuple_build(st: StateView, n: usize) -> Result<
    StateView,
    (StateView, ErrorView),
> {
    if n == 0 {
        Err((st, ErrorView::IndexOutOfRange))
    } else if st.main.len() < n {
        Err((with_main(st, Seq::empty()), ErrorView::StackUnderflow(WhichStack::Main)))
    } else if !(st.main.last() is Symbol) {
        // the tag field must hold a symbol, or the tuple would not answer
        // for its type; the stack is left untouched
        Err((st, mismatch(tag_sym(), st.main.last())))
    } else {
        let k = st.main.len() as int;
        let tuple = seq![st.main.last()] + st.main.subrange(k - n, k - 1);
        Ok(with_main(st, st.main.subrange(0, k - n).push(ValueView::Tuple(tuple))))
    }
}

/// Continue at the next instruction.
pub open spec fn spec_exec_next(st: StateView, ops: Seq<OpView>, pos: int, fuel: nat) -> StepOut
    decreases fuel, ops.len() - pos, 0int,
{
    if 0 <= pos < ops.len() {
        spec_exec(st, ops, pos + 1, fuel)
    } else {
        ok_st(st)
    }
}

} // verus!

verus! {

// ---------------------------------------------------------------------
// well-formedness and preservation

pub open spec fn wf_method_v(m: MethodView) -> bool {
    crate::value::wf_ops(m.body)
}

pub open spec fn wf_binding_v(b: BindingView) -> bool {
    match b {
        BindingView::Primitive(_) => true,
        BindingView::Composite(ms) => forall|i: int|
            0 <= i < ms.len() ==> wf_method_v(#[trigger] ms[i]),
    }
}

pub open spec fn wf_env_v(env: Seq<EnvEntryView>) -> bool {
    forall|i: int| 0 <= i < env.len() ==> wf_binding_v(#[trigger] env[i].binding)
}

/// Every value the engine holds is well-formed: tuples tagged, block
/// bodies well-formed, and so every overload body in the environment.
pub open spec fn wf_state(st: StateView) -> bool {
    crate::value::wf_values(st.main) && crate::value::wf_values(st.sec) && wf_env_v(st.env)
}

/// Every primitive binding of the first environment stands unchanged in
/// the second.
pub open spec fn prims_preserved(e1: Seq<EnvEntryView>, e2: Seq<EnvEntryView>) -> bool {
    forall|n: Seq<u8>|
        #![trigger env_lookup(e1, n), env_lookup(e2, n)]
        {
            let b = env_lookup(e1, n);
            (b is Some && b->0 is Primitive) ==> env_lookup(e2, n) == b
        }
}

pub proof fn lemma_prims_preserved_refl(e: Seq<EnvEntryView>)
    ensures
        prims_preserved(e, e),
{
}

pub proof fn lemma_prims_preserved_trans(
    e1: Seq<EnvEntryView>,
    e2: Seq<EnvEntryView>,
    e3: Seq<EnvEntryView>,
)
    requires
        prims_preserved(e1, e2),
        prims_preserved(e2, e3),
    ensures
        prims_preserved(e1, e3),
{
    assert forall|n: Seq<u8>|
        {
            let b = env_lookup(e1, n);
            (b is Some && b->0 is Primitive)
        } implies #[trigger] env_lookup(e3, n) == #[trigger] env_lookup(e1, n) by {
        assert(env_lookup(e2, n) == env_lookup(e1, n));
        assert(env_lookup(e3, n) == env_lookup(e2, n));
    }
}

/// What `env_set` does to every lookup: the set name answers with the
/// new binding, every other name as before.
pub proof fn lemma_env_set_lookup(env: Seq<EnvEntryView>, name: Seq<u8>, b: BindingView, n: Seq<u8>)
    ensures
        env_lookup(env_set(env, name, b), n) == if n == name {
            Some(b)
        } else {
            env_lookup(env, n)
        },
    decreases env,
{
    let out = env_set(env, name, b);
    if env.len() == 0 {
        assert(out[0] == (EnvEntryView { name, binding: b }));
        if n != name {
            assert(out.drop_first() =~= Seq::<EnvEntryView>::empty());
        }
    } else if env[0].name == name {
        assert(out[0] == (EnvEntryView { name, binding: b }));
        if n != name {
            assert(out.drop_first() =~= env.drop_first());
        }
    } else {
        assert(out[0] == env[0]);
        assert(out.drop_first() =~= env_set(env.drop_first(), name, b));
        lemma_env_set_lookup(env.drop_first(), name, b, n);
    }
}

/// Re-binding an unreserved name to an overload set never touches a
/// primitive and keeps every primitive on a reserved name.
pub proof fn lemma_env_set_keeps_prims(env: Seq<EnvEntryView>, name: Seq<u8>, b: BindingView)
    requires
        prims_reserved(env),
        !reserved_name(name),
        !(b is Primitive),
    ensures
        prims_reserved(env_set(env, name, b)),
        prims_preserved(env, env_set(env, name, b)),
    decreases env,
{
    let out = env_set(env, name, b);
    if env.len() == 0 {
        assert forall|i: int| 0 <= i < out.len() && (#[trigger] out[i].binding) is Primitive
            implies reserved_name(out[i].name) by {}
    } else if env[0].name == name {
        assert(out.drop_first() =~= env.drop_first());
        assert forall|i: int| 0 <= i < out.len() && (#[trigger] out[i].binding) is Primitive
            implies reserved_name(out[i].name) by {
            if i > 0 {
                assert(out[i] == env[i]);
            }
        }
    } else {
        assert(prims_reserved(env.drop_first())) by {
            assert(forall|i: int|
                0 <= i < env.drop_first().len() ==> #[trigger] env.drop_first()[i] == env[i + 1]);
        }
        lemma_env_set_keeps_prims(env.drop_first(), name, b);
        assert(out[0] == env[0]);
        assert(out.drop_first() =~= env_set(env.drop_first(), name, b));
        assert forall|i: int| 0 <= i < out.len() && (#[trigger] out[i].binding) is Primitive
            implies reserved_name(out[i].name) by {
            if i > 0 {
                assert(out[i] == env_set(env.drop_first(), name, b)[i - 1]);
            }
        }
    }
    assert forall|n: Seq<u8>|
        {
            let bb = env_lookup(env, n);
            (bb is Some && bb->0 is Primitive)
        } implies #[trigger] env_lookup(out, n) == #[trigger] env_lookup(env, n) by {
        lemma_env_lookup_reserved(env, n);
        lemma_env_set_lookup(env, name, b, n);
    }
}

/// A name that answers with a primitive is reserved.
pub proof fn lemma_env_lookup_reserved(env: Seq<EnvEntryView>, n: Seq<u8>)
    requires
        prims_reserved(env),
        env_lookup(env, n) is Some,
        env_lookup(env, n)->0 is Primitive,
    ensures
        reserved_name(n),
    decreases env,
{
    if env.len() > 0 {
        if env[0].name == n {
        } else {
            assert(prims_reserved(env.drop_first())) by {
                assert(forall|i: int|
                    0 <= i < env.drop_first().len() ==> #[trigger] env.drop_first()[i] == env[i
                        + 1]);
            }
            lemma_env_lookup_reserved(env.drop_first(), n);
        }
    }
}

/// Looking a name up in a well-formed environment answers with a
/// well-formed binding.
pub proof fn lemma_env_lookup_wf(env: Seq<EnvEntryView>, n: Seq<u8>)
    requires
        wf_env_v(env),
        env_lookup(env, n) is Some,
    ensures
        wf_binding_v(env_lookup(env, n)->0),
    decreases env,
{
    if env.len() > 0 {
        if env[0].name == n {
        } else {
            assert(wf_env_v(env.drop_first())) by {
                assert(forall|i: int|
                    0 <= i < env.drop_first().len() ==> #[trigger] env.drop_first()[i] == env[i
                        + 1]);
            }
            lemma_env_lookup_wf(env.drop_first(), n);
        }
    }
}

} // verus!

verus! {

/// The format walk always ends in a known state: no directive reaches
/// the host.
pub proof fn lemma_fmt_walk_no_host(fmt: Seq<u8>, i: int, st: StateView, acc: Seq<u8>)
    ensures
        spec_fmt_walk(fmt, i, st, acc) is Done,
    decreases fmt.len() - i,
{
    if i < 0 || i >= fmt.len() {
    } else if fmt[i] != ('%' as u8) {
        lemma_fmt_walk_no_host(fmt, i + 1, st, acc.push(fmt[i]));
    } else if i + 1 >= fmt.len() {
    } else {
        let d = fmt[i + 1];
        if d == ('%' as u8) {
            lemma_fmt_walk_no_host(fmt, i + 2, st, acc.push('%' as u8));
        } else if d == ('i' as u8) {
            match pop_int_s(st) {
                PopRes::Failed(_, _) => {},
                PopRes::Got(x, st1) => {
                    lemma_fmt_walk_no_host(fmt, i + 2, st1, acc + spec_render_int(x as int));
                },
            }
        } else if d == ('f' as u8) {
            match pop_flt_s(st) {
                PopRes::Failed(_, _) => {},
                PopRes::Got(t, st1) => {
                    lemma_fmt_walk_no_host(fmt, i + 2, st1, acc + t);
                },
            }
        } else if d == ('s' as u8) {
            match pop_str_s(st) {
                PopRes::Failed(_, _) => {},
                PopRes::Got(t, st1) => {
                    lemma_fmt_walk_no_host(fmt, i + 2, st1, acc + t);
                },
            }
        } else {
            lemma_fmt_walk_no_host(fmt, i + 2, st, acc);
        }
    }
}

} // verus!

verus! {

use crate::value::lemma_wf_values_index;
use crate::value::lemma_wf_ops_index;
use crate::value::wf_values;
use crate::value::wf_ops;
use crate::value::wf_value;
use crate::value::wf_op;

/// What every finished step guarantees: the state stays well-formed, and
/// primitive bindings stay as they were.
pub open spec fn props_ok(e1: Seq<EnvEntryView>, o: StepOut) -> bool {
    match o {
        StepOut::Done(st2, _) => wf_state(st2) && (prims_reserved(e1) ==> (prims_preserved(
            e1,
            st2.env,
        ) && prims_reserved(st2.env))),
        StepOut::Host => true,
    }
}

pub proof fn lemma_wf_values_push(s: Seq<ValueView>, v: ValueView)
    requires
        wf_values(s),
        wf_value(v),
    ensures
        wf_values(s.push(v)),
{
    lemma_wf_values_index(s);
    lemma_wf_values_index(s.push(v));
    assert forall|i: int| 0 <= i < s.push(v).len() implies wf_value(#[trigger] s.push(v)[i]) by {
        if i < s.len() {
            assert(s.push(v)[i] == s[i]);
        }
    }
}

pub proof fn lemma_wf_values_drop_last(s: Seq<ValueView>)
    requires
        wf_values(s),
        s.len() > 0,
    ensures
        wf_values(s.drop_last()),
        wf_value(s.last()),
{
    lemma_wf_values_index(s);
    lemma_wf_values_index(s.drop_last());
    assert forall|i: int| 0 <= i < s.drop_last().len() implies wf_value(
        #[trigger] s.drop_last()[i],
    ) by {
        assert(s.drop_last()[i] == s[i]);
    }
}

/// Popping keeps the state well-formed and the environment untouched,
/// and hands out only well-formed values.
pub proof fn lemma_pop_props(st: StateView)
    requires
        wf_state(st),
    ensures
        match pop_value_s(st) {
            PopRes::Got(v, st1) => wf_state(st1) && wf_value(v) && st1.env == st.env && st1.log
                == st.log && st1.log_on == st.log_on,
            PopRes::Failed(st1, _) => wf_state(st1) && st1.env == st.env && st1.log == st.log
                && st1.log_on == st.log_on,
        },
{
    if st.main.len() > 0 {
        lemma_wf_values_drop_last(st.main);
    }
}

pub proof fn lemma_scan_body_wf(ops: Seq<OpView>, i: int)
    requires
        wf_ops(ops),
    ensures
        match scan_body(ops, i) {
            Some((body, p)) => wf_ops(body) && i < p <= ops.len(),
            None => true,
        },
    decreases ops.len() - i,
{
    lemma_wf_ops_index(ops);
    if 0 <= i < ops.len() {
        if ops[i] is End {
            assert(wf_ops(Seq::<OpView>::empty()));
        } else {
            lemma_scan_body_wf(ops, i + 1);
            match scan_body(ops, i + 1) {
                None => {},
                Some((body, p)) => {
                    lemma_wf_ops_index(body);
                    lemma_wf_ops_index(seq![ops[i]] + body);
                    assert forall|k: int| 0 <= k < (seq![ops[i]] + body).len() implies wf_op(
                        #[trigger] (seq![ops[i]] + body)[k],
                    ) by {
                        if k == 0 {
                            assert((seq![ops[i]] + body)[0] == ops[i]);
                        } else {
                            assert((seq![ops[i]] + body)[k] == body[k - 1]);
                        }
                    }
                },
            }
        }
    }
}

pub proof fn lemma_env_set_wf(env: Seq<EnvEntryView>, name: Seq<u8>, b: BindingView)
    requires
        wf_env_v(env),
        wf_binding_v(b),
    ensures
        wf_env_v(env_set(env, name, b)),
    decreases env,
{
    let out = env_set(env, name, b);
    if env.len() == 0 {
        assert(out[0].binding == b);
    } else if env[0].name == name {
        assert(out[0].binding == b);
        assert forall|i: int| 0 <= i < out.len() implies wf_binding_v(
            #[trigger] out[i].binding,
        ) by {
            if i > 0 {
                assert(out[i] == env[i]);
            }
        }
    } else {
        assert(wf_env_v(env.drop_first())) by {
            assert(forall|i: int|
                0 <= i < env.drop_first().len() ==> #[trigger] env.drop_first()[i] == env[i + 1]);
        }
        lemma_env_set_wf(env.drop_first(), name, b);
        assert forall|i: int| 0 <= i < out.len() implies wf_binding_v(
            #[trigger] out[i].binding,
        ) by {
            if i > 0 {
                assert(out[i] == env_set(env.drop_first(), name, b)[i - 1]);
            }
        }
    }
}

/// A word definition keeps the invariants.
pub proof fn lemma_define_word_props(st: StateView, ops: Seq<OpView>, pos: int)
    requires
        wf_state(st),
        wf_ops(ops),
    ensures
        match spec_define_word(st, ops, pos) {
            DefOut::Done(st1, after) => wf_state(st1) && pos < after <= ops.len() && st1.main
                == st.main && st1.sec == st.sec && st1.log_on == st.log_on && (prims_reserved(
                st.env,
            ) ==> (prims_preserved(st.env, st1.env) && prims_reserved(st1.env))),
            DefOut::Fail(st1, _) => st1 == st,
        },
{
    if 0 <= pos < ops.len() {
        match ops[pos] {
            OpView::Symbol(name) => {
                if !reserved_name(name) && pos + 1 < ops.len() && ops[pos + 1] is Effect {
                    lemma_scan_body_wf(ops, pos + 2);
                    match scan_body(ops, pos + 2) {
                        None => {},
                        Some((raw_body, after)) => {
                            let (doc, body) = split_doc(raw_body);
                            assert(wf_ops(body)) by {
                                lemma_wf_ops_index(raw_body);
                                lemma_wf_ops_index(body);
                                if raw_body.len() > 0 && raw_body[0] is Literal
                                    && raw_body[0]->Literal_0 is Str {
                                    assert(forall|k: int|
                                        0 <= k < body.len() ==> #[trigger] body[k] == raw_body[k
                                            + 1]);
                                }
                            }
                            let m = MethodView { effect: ops[pos + 1]->Effect_0, doc, body };
                            assert(wf_method_v(m));
                            match env_lookup(st.env, name) {
                                Some(BindingView::Primitive(_)) => {},
                                Some(BindingView::Composite(ms)) => {
                                    lemma_env_lookup_wf(st.env, name);
                                    assert(wf_binding_v(BindingView::Composite(ms.push(m)))) by {
                                        assert(forall|i: int|
                                            0 <= i < ms.len() ==> #[trigger] ms.push(m)[i]
                                                == ms[i]);
                                        assert(ms.push(m)[ms.len() as int] == m);
                                    }
                                    lemma_env_set_wf(
                                        st.env,
                                        name,
                                        BindingView::Composite(ms.push(m)),
                                    );
                                    if prims_reserved(st.env) {
                                        lemma_env_set_keeps_prims(
                                            st.env,
                                            name,
                                            BindingView::Composite(ms.push(m)),
                                        );
                                    }
                                },
                                None => {
                                    assert(wf_binding_v(BindingView::Composite(seq![m]))) by {
                                        assert(seq![m][0] == m);
                                    }
                                    lemma_env_set_wf(st.env, name, BindingView::Composite(seq![m]));
                                    if prims_reserved(st.env) {
                                        lemma_env_set_keeps_prims(
                                            st.env,
                                            name,
                                            BindingView::Composite(seq![m]),
                                        );
                                    }
                                },
                            }
                        },
                    }
                }
            },
            _ => {},
        }
    }
}

/// A type definition keeps the invariants.
pub proof fn lemma_define_type_props(st: StateView, ops: Seq<OpView>, pos: int)
    requires
        wf_state(st),
        wf_ops(ops),
    ensures
        match spec_define_type(st, ops, pos) {
            DefOut::Done(st1, after) => wf_state(st1) && pos < after <= ops.len() && st1.main
                == st.main && st1.sec == st.sec && st1.log_on == st.log_on && (prims_reserved(
                st.env,
            ) ==> (prims_preserved(st.env, st1.env) && prims_reserved(st1.env))),
            DefOut::Fail(st1, _) => st1 == st,
        },
{
    if 0 <= pos < ops.len() {
        match ops[pos] {
            OpView::Symbol(name) => {
                if !reserved_name(name) && crate::symbol::spec_is_type(name) {
                    lemma_scan_type_bounds(ops, pos + 1);
                    match scan_type_parts(ops, pos + 1) {
                        Err(_) => {},
                        Ok((types, doc_opt, after)) => {
                            let doc = match doc_opt {
                                Some(d) => d,
                                None => Seq::empty(),
                            };
                            let body = seq![
                                OpView::Literal(ValueView::Symbol(name)),
                                OpView::Tuple((types.len() + 1) as usize),
                            ];
                            assert(wf_ops(body)) by {
                                lemma_wf_ops_index(body);
                                assert(body[0] == OpView::Literal(ValueView::Symbol(name)));
                                assert(body[1] == OpView::Tuple((types.len() + 1) as usize));
                            }
                            let m = MethodView {
                                effect: EffectView { pre: types, post: seq![name] },
                                doc,
                                body,
                            };
                            assert(wf_binding_v(BindingView::Composite(seq![m]))) by {
                                assert(seq![m][0] == m);
                            }
                            lemma_env_set_wf(st.env, name, BindingView::Composite(seq![m]));
                            if prims_reserved(st.env) {
                                lemma_env_set_keeps_prims(
                                    st.env,
                                    name,
                                    BindingView::Composite(seq![m]),
                                );
                            }
                        },
                    }
                }
            },
            _ => {},
        }
    }
}

pub proof fn lemma_scan_type_bounds(ops: Seq<OpView>, i: int)
    requires
        0 <= i,
    ensures
        match scan_type_parts(ops, i) {
            Ok((_, _, p)) => i < p <= ops.len(),
            Err(_) => true,
        },
    decreases ops.len() - i,
{
    if 0 <= i < ops.len() {
        if ops[i] is End {
        } else if ops[i] is Symbol || (ops[i] is Literal && ops[i]->Literal_0 is Str) {
            lemma_scan_type_bounds(ops, i + 1);
        }
    }
}

/// The format walk keeps the invariants and never touches the
/// environment.
pub proof fn lemma_fmt_props(fmt: Seq<u8>, i: int, st: StateView, acc: Seq<u8>)
    requires
        wf_state(st),
    ensures
        match spec_fmt_walk(fmt, i, st, acc) {
            StepOut::Done(st2, _) => wf_state(st2) && st2.env == st.env,
            StepOut::Host => true,
        },
    decreases fmt.len() - i,
{
    if i < 0 || i >= fmt.len() {
        lemma_wf_values_push(st.main, ValueView::Str(acc));
    } else if fmt[i] != ('%' as u8) {
        lemma_fmt_props(fmt, i + 1, st, acc.push(fmt[i]));
    } else if i + 1 >= fmt.len() {
        lemma_wf_values_push(st.main, ValueView::Str(acc));
    } else {
        let d = fmt[i + 1];
        lemma_pop_props(st);
        if d == ('%' as u8) {
            lemma_fmt_props(fmt, i + 2, st, acc.push('%' as u8));
        } else if d == ('i' as u8) {
            match pop_int_s(st) {
                PopRes::Failed(_, _) => {},
                PopRes::Got(x, st1) => {
                    lemma_fmt_props(fmt, i + 2, st1, acc + spec_render_int(x as int));
                },
            }
        } else if d == ('f' as u8) {
            match pop_flt_s(st) {
                PopRes::Failed(_, _) => {},
                PopRes::Got(t, st1) => {
                    lemma_fmt_props(fmt, i + 2, st1, acc + t);
                },
            }
        } else if d == ('s' as u8) {
            match pop_str_s(st) {
                PopRes::Failed(_, _) => {},
                PopRes::Got(t, st1) => {
                    lemma_fmt_props(fmt, i + 2, st1, acc + t);
                },
            }
        } else {
            lemma_fmt_props(fmt, i + 2, st, acc);
        }
    }
}

/// Every primitive keeps the invariants.
pub proof fn lemma_run_prim_props(st: StateView, p: Prim, fuel: nat)
    requires
        wf_state(st),
    ensures
        props_ok(st.env, spec_run_prim(st, p, fuel)),
    decreases fuel, 0int, 0int,
{
    lemma_pop_props(st);
    match pop_value_s(st) {
        PopRes::Failed(_, _) => {},
        PopRes::Got(v, st1) => {
            lemma_pop_props(st1);
            match pop_value_s(st1) {
                PopRes::Failed(_, _) => {},
                PopRes::Got(v2, st2) => {
                    lemma_pop_props(st2);
                    lemma_wf_values_push(st2.main, v2);
                    lemma_wf_values_push(st2.main.push(v2), v);
                    lemma_wf_values_push(st2.main.push(v2).push(v), v2);
                    lemma_wf_values_push(st2.main, v);
                    lemma_wf_values_push(st2.main.push(v), v2);
                    lemma_wf_values_push(st2.main, ValueView::True);
                    lemma_wf_values_push(st2.main, ValueView::False);
                    match pop_value_s(st2) {
                        PopRes::Failed(_, _) => {},
                        PopRes::Got(v3, st3) => {
                            lemma_wf_values_push(st3.main, v2);
                            lemma_wf_values_push(st3.main.push(v2), v);
                            lemma_wf_values_push(st3.main.push(v2).push(v), v3);
                        },
                    }
                },
            }
            lemma_wf_values_push(st1.main, v);
            lemma_wf_values_push(st1.main.push(v), v);
            lemma_wf_values_push(st1.sec, v);
        },
    }
    match p {
        Prim::Apply => {
            match pop_block_s(st) {
                PopRes::Failed(_, _) => {},
                PopRes::Got(body, st1) => {
                    if fuel > 0 {
                        lemma_exec_props(st1, body, 0, (fuel - 1) as nat);
                    }
                },
            }
        },
        Prim::FromSecond => {
            if st.sec.len() > 0 {
                lemma_wf_values_drop_last(st.sec);
                lemma_wf_values_push(st.main, st.sec.last());
            }
        },
        Prim::PickSecond => {
            match pop_int_s(st) {
                PopRes::Failed(_, _) => {},
                PopRes::Got(idx, st1) => {
                    if 0 <= idx < st1.sec.len() {
                        lemma_wf_values_index(st1.sec);
                        lemma_wf_values_push(st1.main, st1.sec[st1.sec.len() - 1 - idx]);
                    }
                },
            }
        },
        Prim::IntAdd | Prim::IntSub | Prim::IntMul | Prim::IntDiv | Prim::IntEq | Prim::IntLt
            | Prim::BoolEq | Prim::BoolAnd | Prim::BoolOr | Prim::StrEq | Prim::SymEq => {
            match pop_value_s(st) {
                PopRes::Failed(_, _) => {},
                PopRes::Got(_, st1) => {
                    match pop_value_s(st1) {
                        PopRes::Failed(_, _) => {},
                        PopRes::Got(_, st2) => {
                            lemma_wf_values_index(st2.main);
                            assert forall|v: ValueView| v is Int || v is True || v is False
                                implies wf_value(v) by {}
                            lemma_wf_values_push(st2.main, ValueView::Int(arbitrary()));
                        },
                    }
                },
            }
            assert(props_ok(st.env, spec_run_prim(st, p, fuel))) by {
                lemma_run_prim_binop_wf(st, p, fuel);
            }
        },
        Prim::Fmt => {
            match pop_str_s(st) {
                PopRes::Failed(_, _) => {},
                PopRes::Got(f, st1) => {
                    lemma_fmt_props(f, 0, st1, Seq::empty());
                },
            }
        },
        _ => {},
    }
}

/// The two-operand primitives push one plain value; that keeps the
/// invariants.
proof fn lemma_run_prim_binop_wf(st: StateView, p: Prim, fuel: nat)
    requires
        wf_state(st),
        p is IntAdd || p is IntSub || p is IntMul || p is IntDiv || p is IntEq || p is IntLt
            || p is BoolEq || p is BoolAnd || p is BoolOr || p is StrEq || p is SymEq,
    ensures
        props_ok(st.env, spec_run_prim(st, p, fuel)),
{
    lemma_pop_props(st);
    match pop_value_s(st) {
        PopRes::Failed(_, _) => {},
        PopRes::Got(_, st1) => {
            lemma_pop_props(st1);
            match pop_value_s(st1) {
                PopRes::Failed(_, _) => {},
                PopRes::Got(_, st2) => {
                    assert forall|v: ValueView|
                        v is Int || v is True || v is False implies wf_value(v) by {}
                    assert forall|v: ValueView| v is Int || v is True || v is False implies
                        wf_values(st2.main.push(v)) by {
                        lemma_wf_values_push(st2.main, v);
                    }
                },
            }
        },
    }
}

/// The engine keeps the invariants, whatever it runs.
pub proof fn lemma_exec_props(st: StateView, ops: Seq<OpView>, pos: int, fuel: nat)
    requires
        wf_state(st),
        wf_ops(ops),
    ensures
        props_ok(st.env, spec_exec(st, ops, pos, fuel)),
    decreases fuel, ops.len() - pos, 1int,
{
    lemma_wf_ops_index(ops);
    if !(0 <= pos < ops.len()) {
    } else {
        match ops[pos] {
            OpView::Literal(v) => {
                lemma_wf_values_push(st.main, v);
                lemma_exec_next_props(push_main(st, v), ops, pos, fuel);
            },
            OpView::Symbol(name) => {
                match env_lookup(st.env, name) {
                    None => {},
                    Some(BindingView::Primitive(pm)) => {
                        lemma_run_prim_props(st, pm, fuel);
                        match spec_run_prim(st, pm, fuel) {
                            StepOut::Host => {},
                            StepOut::Done(st1, Some(_)) => {},
                            StepOut::Done(st1, None) => {
                                lemma_exec_next_props_chain(st.env, st1, ops, pos, fuel);
                            },
                        }
                    },
                    Some(BindingView::Composite(methods)) => {
                        match find_method_idx(methods, st.main) {
                            None => {},
                            Some(k) => {
                                if fuel > 0 {
                                    lemma_env_lookup_wf(st.env, name);
                                    lemma_find_method_bounds(methods, st.main);
                                    assert(wf_method_v(methods[k]));
                                    lemma_exec_props(st, methods[k].body, 0, (fuel - 1) as nat);
                                    match spec_exec(st, methods[k].body, 0, (fuel - 1) as nat) {
                                        StepOut::Host => {},
                                        StepOut::Done(st1, Some(_)) => {},
                                        StepOut::Done(st1, None) => {
                                            lemma_exec_next_props_chain(
                                                st.env,
                                                st1,
                                                ops,
                                                pos,
                                                fuel,
                                            );
                                        },
                                    }
                                }
                            },
                        }
                    },
                }
            },
            OpView::Tuple(n) => {
                if n == 0 {
                } else if st.main.len() < n {
                    assert(wf_values(Seq::<ValueView>::empty()));
                } else if !(st.main.last() is Symbol) {
                } else {
                    let k = st.main.len() as int;
                    let tuple = seq![st.main.last()] + st.main.subrange(k - n, k - 1);
                    lemma_wf_values_index(st.main);
                    assert(wf_value(ValueView::Tuple(tuple))) by {
                        lemma_wf_values_index(tuple);
                        assert(tuple[0] == st.main.last());
                        assert forall|j: int| 0 <= j < tuple.len() implies wf_value(
                            #[trigger] tuple[j],
                        ) by {
                            if j > 0 {
                                assert(tuple[j] == st.main.subrange(k - n, k - 1)[j - 1]);
                                assert(st.main.subrange(k - n, k - 1)[j - 1] == st.main[k - n + j
                                    - 1]);
                            }
                        }
                    }
                    assert(wf_values(st.main.subrange(0, k - n))) by {
                        lemma_wf_values_index(st.main.subrange(0, k - n));
                        assert(forall|j: int|
                            0 <= j < k - n ==> #[trigger] st.main.subrange(0, k - n)[j]
                                == st.main[j]);
                    }
                    lemma_wf_values_push(st.main.subrange(0, k - n), ValueView::Tuple(tuple));
                    lemma_exec_next_props(
                        with_main(st, st.main.subrange(0, k - n).push(ValueView::Tuple(tuple))),
                        ops,
                        pos,
                        fuel,
                    );
                }
            },
            OpView::Select(i) => {
                lemma_pop_props(st);
                match pop_tuple_s(st) {
                    PopRes::Failed(_, _) => {},
                    PopRes::Got(fields, st1) => {
                        if i < fields.len() {
                            assert(wf_value(pop_value_s(st) ->Got_0));
                            assert(wf_values(fields)) by {
                                assert(pop_value_s(st)->Got_0 == ValueView::Tuple(fields));
                            }
                            lemma_wf_values_index(fields);
                            lemma_wf_values_push(st1.main, fields[i as int]);
                            lemma_exec_next_props(push_main(st1, fields[i as int]), ops, pos, fuel);
                        }
                    },
                }
            },
            OpView::If => {
                lemma_pop_props(st);
                match pop_bool_s(st) {
                    PopRes::Failed(_, _) => {},
                    PopRes::Got(c, st1) => {
                        if pos + 1 < ops.len() && ops[pos + 1] is Literal && ops[pos
                            + 1]->Literal_0 is Block && pos + 2 < ops.len() && ops[pos
                            + 2] is Literal && ops[pos + 2]->Literal_0 is Block && fuel > 0 {
                            let branch = if c {
                                ops[pos + 1]->Literal_0->Block_0
                            } else {
                                ops[pos + 2]->Literal_0->Block_0
                            };
                            assert(wf_ops(branch)) by {
                                if c {
                                    assert(wf_op(ops[pos + 1]));
                                } else {
                                    assert(wf_op(ops[pos + 2]));
                                }
                            }
                            lemma_exec_props(st1, branch, 0, (fuel - 1) as nat);
                            match spec_exec(st1, branch, 0, (fuel - 1) as nat) {
                                StepOut::Host => {},
                                StepOut::Done(st2, Some(_)) => {},
                                StepOut::Done(st2, None) => {
                                    lemma_exec_at_props_chain(st.env, st2, ops, pos + 3, fuel);
                                },
                            }
                        }
                    },
                }
            },
            OpView::End => {},
            OpView::BeginDef => {
                lemma_define_word_props(st, ops, pos + 1);
                match spec_define_word(st, ops, pos + 1) {
                    DefOut::Fail(_, _) => {},
                    DefOut::Done(st1, after) => {
                        if pos < after <= ops.len() {
                            lemma_exec_at_props_chain(st.env, st1, ops, after, fuel);
                        }
                    },
                }
            },
            OpView::BeginTypeDef => {
                lemma_define_type_props(st, ops, pos + 1);
                match spec_define_type(st, ops, pos + 1) {
                    DefOut::Fail(_, _) => {},
                    DefOut::Done(st1, after) => {
                        if pos < after <= ops.len() {
                            lemma_exec_at_props_chain(st.env, st1, ops, after, fuel);
                        }
                    },
                }
            },
            OpView::Effect(_) => {},
        }
    }
}

/// Continuation at the next instruction, with the same environment.
proof fn lemma_exec_next_props(st1: StateView, ops: Seq<OpView>, pos: int, fuel: nat)
    requires
        wf_state(st1),
        wf_ops(ops),
        0 <= pos < ops.len(),
    ensures
        props_ok(st1.env, spec_exec_next(st1, ops, pos, fuel)),
    decreases fuel, ops.len() - pos, 0int,
{
    lemma_exec_props(st1, ops, pos + 1, fuel);
}

/// Continuation after a step that kept the environment.
proof fn lemma_exec_next_props_chain(
    e0: Seq<EnvEntryView>,
    st1: StateView,
    ops: Seq<OpView>,
    pos: int,
    fuel: nat,
)
    requires
        wf_state(st1),
        wf_ops(ops),
        0 <= pos < ops.len(),
        prims_reserved(e0) ==> (prims_preserved(e0, st1.env) && prims_reserved(st1.env)),
    ensures
        props_ok(e0, spec_exec_next(st1, ops, pos, fuel)),
    decreases fuel, ops.len() - pos, 0int,
{
    lemma_exec_props(st1, ops, pos + 1, fuel);
    match spec_exec(st1, ops, pos + 1, fuel) {
        StepOut::Host => {},
        StepOut::Done(st2, _) => {
            if prims_reserved(e0) {
                lemma_prims_preserved_trans(e0, st1.env, st2.env);
            }
        },
    }
}

/// Continuation at a chosen cursor position after a step that kept the
/// environment.
proof fn lemma_exec_at_props_chain(
    e0: Seq<EnvEntryView>,
    st1: StateView,
    ops: Seq<OpView>,
    pos2: int,
    fuel: nat,
)
    requires
        wf_state(st1),
        wf_ops(ops),
        0 <= pos2,
        prims_reserved(e0) ==> (prims_preserved(e0, st1.env) && prims_reserved(st1.env)),
    ensures
        props_ok(e0, spec_exec(st1, ops, pos2, fuel)),
    decreases fuel, ops.len() - pos2, 2int,
{
    if pos2 < ops.len() {
        lemma_exec_props(st1, ops, pos2, fuel);
    }
    match spec_exec(st1, ops, pos2, fuel) {
        StepOut::Host => {},
        StepOut::Done(st2, _) => {
            if prims_reserved(e0) {
                if pos2 < ops.len() {
                    lemma_prims_preserved_trans(e0, st1.env, st2.env);
                }
            }
        },
    }
}

/// Dispatch selects an index inside the overload list.
pub proof fn lemma_find_method_bounds(methods: Seq<MethodView>, stack: Seq<ValueView>)
    ensures
        match find_method_idx(methods, stack) {
            Some(k) => 0 <= k < methods.len() && effect_accepts(methods[k].effect.pre, stack),
            None => true,
        },
    decreases methods,
{
    if methods.len() > 0 {
        if !effect_accepts(methods.last().effect.pre, stack) {
            lemma_find_method_bounds(methods.drop_last(), stack);
            match find_method_idx(methods.drop_last(), stack) {
                Some(k) => {
                    assert(methods.drop_last()[k] == methods[k]);
                },
                None => {},
            }
        }
    }
}

} // verus!

verus! {

/// Prepending captured instructions onto the rest of a body scan.
pub open spec fn scan_join(pre: Seq<OpView>, o: Option<(Seq<OpView>, int)>) -> Option<
    (Seq<OpView>, int),
> {
    match o {
        Some((rest, p)) => Some((pre + rest, p)),
        None => None,
    }
}

/// `scan_body` consumes one instruction at a time.
pub proof fn lemma_scan_body_step(ops: Seq<OpView>, i: int)
    requires
        0 <= i < ops.len(),
        !(ops[i] is End),
    ensures
        scan_body(ops, i) == scan_join(seq![ops[i]], scan_body(ops, i + 1)),
{
}

/// Joins compose.
pub proof fn lemma_scan_join_assoc(a: Seq<OpView>, b: Seq<OpView>, o: Option<(Seq<OpView>, int)>)
    ensures
        scan_join(a, scan_join(b, o)) == scan_join(a + b, o),
{
    match o {
        Some((rest, p)) => {
            assert(a + (b + rest) =~= (a + b) + rest);
        },
        None => {},
    }
}

/// Prepending collected parts onto the rest of a type-definition scan.
pub open spec fn scan_type_join(
    pre_types: Seq<Seq<u8>>,
    pre_doc: Option<Seq<u8>>,
    o: Result<(Seq<Seq<u8>>, Option<Seq<u8>>, int), ErrorView>,
) -> Result<(Seq<Seq<u8>>, Option<Seq<u8>>, int), ErrorView> {
    match o {
        Ok((ts, doc, p)) => Ok(
            (
                pre_types + ts,
                match doc {
                    Some(d) => Some(d),
                    None => pre_doc,
                },
                p,
            ),
        ),
        Err(e) => Err(e),
    }
}

pub proof fn lemma_scan_type_join_assoc(
    ts1: Seq<Seq<u8>>,
    d1: Option<Seq<u8>>,
    ts2: Seq<Seq<u8>>,
    d2: Option<Seq<u8>>,
    o: Result<(Seq<Seq<u8>>, Option<Seq<u8>>, int), ErrorView>,
)
    ensures
        scan_type_join(ts1, d1, scan_type_join(ts2, d2, o)) == scan_type_join(
            ts1 + ts2,
            match d2 {
                Some(d) => Some(d),
                None => d1,
            },
            o,
        ),
{
    match o {
        Ok((ts, doc, p)) => {
            assert(ts1 + (ts2 + ts) =~= (ts1 + ts2) + ts);
        },
        Err(_) => {},
    }
}

/// Replacing the first entry that carries a name is `env_set`.
pub proof fn lemma_env_set_is_update(
    env: Seq<EnvEntryView>,
    idx: int,
    name: Seq<u8>,
    b: BindingView,
)
    requires
        0 <= idx < env.len(),
        env[idx].name == name,
        forall|j: int| 0 <= j < idx ==> (#[trigger] env[j]).name != name,
    ensures
        env_set(env, name, b) == env.update(idx, EnvEntryView { name, binding: b }),
    decreases env,
{
    if idx == 0 {
        assert(env_set(env, name, b) =~= env.update(0, EnvEntryView { name, binding: b }));
    } else {
        assert(forall|j: int|
            0 <= j < idx - 1 ==> (#[trigger] env.drop_first()[j]) == env[j + 1]);
        assert(env.drop_first()[idx - 1] == env[idx]);
        lemma_env_set_is_update(env.drop_first(), idx - 1, name, b);
        assert(env_set(env, name, b) =~= env.update(idx, EnvEntryView { name, binding: b })) by {
            assert(env_set(env, name, b) == seq![env[0]] + env_set(env.drop_first(), name, b));
            assert(env_set(env.drop_first(), name, b) == env.drop_first().update(
                idx - 1,
                EnvEntryView { name, binding: b },
            ));
        }
    }
}

/// Appending a fresh name is `env_set`.
pub proof fn lemma_env_set_is_append(env: Seq<EnvEntryView>, name: Seq<u8>, b: BindingView)
    requires
        forall|j: int| 0 <= j < env.len() ==> (#[trigger] env[j]).name != name,
    ensures
        env_set(env, name, b) == env.push(EnvEntryView { name, binding: b }),
    decreases env,
{
    if env.len() == 0 {
        assert(env_set(env, name, b) =~= env.push(EnvEntryView { name, binding: b }));
    } else {
        assert(forall|j: int|
            0 <= j < env.drop_first().len() ==> (#[trigger] env.drop_first()[j]) == env[j + 1]);
        lemma_env_set_is_append(env.drop_first(), name, b);
        assert(env_set(env, name, b) =~= env.push(EnvEntryView { name, binding: b }));
    }
}

/// Looking up relates to the first matching index.
pub proof fn lemma_env_lookup_at(env: Seq<EnvEntryView>, idx: int)
    requires
        0 <= idx < env.len(),
        forall|j: int| 0 <= j < idx ==> (#[trigger] env[j]).name != env[idx].name,
    ensures
        env_lookup(env, env[idx].name) == Some(env[idx].binding),
    decreases env,
{
    if idx > 0 {
        assert(forall|j: int|
            0 <= j < idx - 1 ==> (#[trigger] env.drop_first()[j]) == env[j + 1]);
        assert(env.drop_first()[idx - 1] == env[idx]);
        lemma_env_lookup_at(env.drop_first(), idx - 1);
    }
}

/// A name no entry carries resolves to nothing.
pub proof fn lemma_env_lookup_none(env: Seq<EnvEntryView>, name: Seq<u8>)
    requires
        forall|j: int| 0 <= j < env.len() ==> (#[trigger] env[j]).name != name,
    ensures
        env_lookup(env, name) is None,
    decreases env,
{
    if env.len() > 0 {
        assert(forall|j: int|
            0 <= j < env.drop_first().len() ==> (#[trigger] env.drop_first()[j]) == env[j + 1]);
        lemma_env_lookup_none(env.drop_first(), name);
    }
}

/// The collected type components never outnumber the instructions.
pub proof fn lemma_scan_type_len(ops: Seq<OpView>, i: int)
    requires
        0 <= i,
    ensures
        match scan_type_parts(ops, i) {
            Ok((ts, _, p)) => ts.len() <= ops.len() - i,
            Err(_) => true,
        },
    decreases ops.len() - i,
{
    if 0 <= i < ops.len() {
        if ops[i] is End {
        } else if ops[i] is Symbol || (ops[i] is Literal && ops[i]->Literal_0 is Str) {
            lemma_scan_type_len(ops, i + 1);
        }
    }
}

} // verus!
