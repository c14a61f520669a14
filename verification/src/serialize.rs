use vstd::prelude::*;

use crate::interpreter::EffectView;
use crate::interpreter::Op;
use crate::interpreter::OpView;
use crate::interpreter::StackEffect;
use crate::numtext::render_i64;
use crate::numtext::render_usize;
use crate::numtext::spec_render_int;
use crate::numtext::spec_render_nat;
use crate::symbol::Symbol;
use crate::value::Value;
use crate::value::ValueView;
use crate::value::op_views;
use crate::value::value_views;
use crate::value::lemma_op_views;
use crate::value::lemma_value_views;

verus! {

broadcast use vstd::seq::group_seq_axioms, vstd::std_specs::vec::group_vec_axioms;

pub open spec fn sp() -> Seq<u8> {
    seq![(' ' as u8)]
}

pub open spec fn lit_true_text() -> Seq<u8> {
    seq![('t' as u8), ('r' as u8), ('u' as u8), ('e' as u8)]
}

pub open spec fn lit_false_text() -> Seq<u8> {
    seq![('f' as u8), ('a' as u8), ('l' as u8), ('s' as u8), ('e' as u8)]
}

/// The textual form of a value in the source grammar.  A tuple has no
/// such form; it renders as a reserved placeholder word, which no body
/// built by the reader ever holds.
pub open spec fn spec_render_value(v: ValueView) -> Seq<u8>
    decreases v,
{
    match v {
        ValueView::True => lit_true_text(),
        ValueView::False => lit_false_text(),
        ValueView::Int(x) => spec_render_int(x as int),
        ValueView::Flt(t) => t,
        ValueView::Str(t) => seq![('"' as u8)] + t + seq![('"' as u8)],
        ValueView::Symbol(s) => s,
        ValueView::Tuple(_) => seq![('%' as u8), ('t' as u8), ('u' as u8), ('p' as u8)],
        ValueView::Block(ops) => seq![('[' as u8)] + spec_render_ops_spaced(ops) + sp() + seq![
            (']' as u8),
        ],
    }
}

/// Each instruction of a block, a space before every one.
pub open spec fn spec_render_ops_spaced(ops: Seq<OpView>) -> Seq<u8>
    decreases ops,
{
    if ops.len() == 0 {
        Seq::empty()
    } else {
        spec_render_ops_spaced(ops.drop_last()) + sp() + spec_render_op(ops.last())
    }
}

/// The textual form of one instruction.
pub open spec fn spec_render_op(op: OpView) -> Seq<u8>
    decreases op,
{
    match op {
        OpView::Literal(v) => spec_render_value(v),
        OpView::Symbol(s) => s,
        OpView::Tuple(n) => seq![('%' as u8), ('t' as u8), ('u' as u8), ('p' as u8)],
        OpView::Select(i) => seq![('#' as u8)] + spec_render_nat(i as int),
        OpView::If => seq![('i' as u8), ('f' as u8)],
        OpView::BeginDef => seq![(':' as u8)],
        OpView::BeginTypeDef => seq![(':' as u8), ('t' as u8)],
        OpView::End => seq![(';' as u8)],
        OpView::Effect(e) => spec_render_effect(e),
    }
}

/// Formal names, a space before every one.
pub open spec fn spec_render_names_spaced(names: Seq<Seq<u8>>) -> Seq<u8>
    decreases names,
{
    if names.len() == 0 {
        Seq::empty()
    } else {
        spec_render_names_spaced(names.drop_last()) + sp() + names.last()
    }
}

/// The textual form of a stack effect.
pub open spec fn spec_render_effect(e: EffectView) -> Seq<u8> {
    seq![('(' as u8)] + spec_render_names_spaced(e.pre) + sp() + seq![('-' as u8), ('-' as u8)]
        + spec_render_names_spaced(e.post) + sp() + seq![(')' as u8)]
}

/// A block body as it stands in a definition log line: its instructions
/// separated by single spaces.
pub open spec fn spec_render_body(ops: Seq<OpView>) -> Seq<u8> {
    if ops.len() == 0 {
        Seq::empty()
    } else {
        spec_render_op(ops[0]) + spec_render_ops_spaced(ops.drop_first())
    }
}

/// The log line of a word definition.
pub open spec fn spec_word_def_line(name: Seq<u8>, effect: EffectView, body: Seq<OpView>) -> Seq<
    u8,
> {
    seq![(':' as u8)] + sp() + name + sp() + spec_render_effect(effect) + sp() + spec_render_body(
        body,
    ) + sp() + seq![(';' as u8)]
}

/// The log line of a type definition.
pub open spec fn spec_type_def_line(name: Seq<u8>, doc: Seq<u8>, types: Seq<Seq<u8>>) -> Seq<u8> {
    seq![(':' as u8), ('t' as u8)] + sp() + name + sp() + seq![('"' as u8)] + doc + seq![
        ('"' as u8),
    ] + spec_render_names_spaced(types) + sp() + seq![(';' as u8)]
}

/// Append `src` to `dst`.
pub fn extend_bytes(dst: &mut Vec<u8>, src: &Vec<u8>)
    ensures
        final(dst)@ == old(dst)@ + src@,
{
    let n = src.len();
    let mut i: usize = 0;
    while i < n
        invariant
            i <= n,
            n == src@.len(),
            dst@ =~= old(dst)@ + src@.subrange(0, i as int),
        decreases n - i,
    {
        dst.push(src[i]);
        i += 1;
    }
    proof {
        assert(dst@ =~= old(dst)@ + src@);
    }
}

/// The textual form of a value.
pub fn render_value(v: &Value) -> (r: Vec<u8>)
    ensures
        r@ == spec_render_value(v@),
    decreases v,
{
    match v {
        Value::True => {
            let r = vec![('t' as u8), ('r' as u8), ('u' as u8), ('e' as u8)];
            proof {
                assert(r@ =~= lit_true_text());
            }
            r
        },
        Value::False => {
            let r = vec![('f' as u8), ('a' as u8), ('l' as u8), ('s' as u8), ('e' as u8)];
            proof {
                assert(r@ =~= lit_false_text());
            }
            r
        },
        Value::Int(x) => render_i64(*x),
        Value::Flt(t) => crate::symbol::clone_bytes(t),
        Value::Str(t) => {
            let mut r = vec![('"' as u8)];
            extend_bytes(&mut r, t);
            r.push('"' as u8);
            proof {
                assert(r@ =~= seq![('"' as u8)] + t@ + seq![('"' as u8)]);
            }
            r
        },
        Value::Symbol(s) => crate::symbol::clone_bytes(&s.0),
        Value::Tuple(_) => {
            let r = vec![('%' as u8), ('t' as u8), ('u' as u8), ('p' as u8)];
            proof {
                assert(r@ =~= seq![('%' as u8), ('t' as u8), ('u' as u8), ('p' as u8)]);
            }
            r
        },
        Value::Block(ops) => {
            proof {
                assert(decreases_to!(*v => *ops));
            }
            let mut r = vec![('[' as u8)];
            let n = ops.len();
            let mut i: usize = 0;
            proof {
                lemma_op_views(ops@);
            }
            while i < n
                invariant
                    (decreases_to!(*v => *ops)),
                    i <= n,
                    n == ops@.len(),
                    op_views(ops@).len() == n,
                    forall|k: int| 0 <= k < n ==> op_views(ops@)[k] == #[trigger] ops@[k]@,
                    r@ =~= seq![('[' as u8)] + spec_render_ops_spaced(
                        op_views(ops@).subrange(0, i as int),
                    ),
                decreases n - i,
            {
                r.push(' ' as u8);
                proof {
                    assert(decreases_to!(*ops => ops@));
                    assert(decreases_to!(ops@ => ops@[i as int]));
                }
                let piece = render_op(&ops[i]);
                extend_bytes(&mut r, &piece);
                proof {
                    let views = op_views(ops@);
                    assert(views.subrange(0, i + 1).drop_last() =~= views.subrange(0, i as int));
                    assert(views.subrange(0, i + 1).last() == ops@[i as int]@);
                    assert(r@ =~= seq![('[' as u8)] + spec_render_ops_spaced(
                        views.subrange(0, i + 1),
                    ));
                }
                i += 1;
            }
            r.push(' ' as u8);
            r.push(']' as u8);
            proof {
                assert(op_views(ops@).subrange(0, n as int) =~= op_views(ops@));
                assert(r@ =~= seq![('[' as u8)] + spec_render_ops_spaced(op_views(ops@)) + sp()
                    + seq![(']' as u8)]);
            }
            r
        },
    }
}

/// The textual form of one instruction.
pub fn render_op(op: &Op) -> (r: Vec<u8>)
    ensures
        r@ == spec_render_op(op@),
    decreases op,
{
    match op {
        Op::Literal(v) => render_value(v),
        Op::Symbol(s) => crate::symbol::clone_bytes(&s.0),
        Op::Tuple(_) => {
            let r = vec![('%' as u8), ('t' as u8), ('u' as u8), ('p' as u8)];
            proof {
                assert(r@ =~= seq![('%' as u8), ('t' as u8), ('u' as u8), ('p' as u8)]);
            }
            r
        },
        Op::Select(i) => {
            let mut r = vec![('#' as u8)];
            let digits = render_usize(*i);
            extend_bytes(&mut r, &digits);
            proof {
                assert(r@ =~= seq![('#' as u8)] + spec_render_nat(*i as int));
            }
            r
        },
        Op::If => {
            let r = vec![('i' as u8), ('f' as u8)];
            proof {
                assert(r@ =~= seq![('i' as u8), ('f' as u8)]);
            }
            r
        },
        Op::BeginDef => {
            let r = vec![(':' as u8)];
            proof {
                assert(r@ =~= seq![(':' as u8)]);
            }
            r
        },
        Op::BeginTypeDef => {
            let r = vec![(':' as u8), ('t' as u8)];
            proof {
                assert(r@ =~= seq![(':' as u8), ('t' as u8)]);
            }
            r
        },
        Op::End => {
            let r = vec![(';' as u8)];
            proof {
                assert(r@ =~= seq![(';' as u8)]);
            }
            r
        },
        Op::Effect(e) => render_effect(e),
    }
}

/// Formal names, a space before every one, appended to `dst`.
fn append_names_spaced(dst: &mut Vec<u8>, names: &Vec<Symbol>)
    ensures
        final(dst)@ == old(dst)@ + spec_render_names_spaced(
            names@.map(|i: int, x: Symbol| x@),
        ),
{
    let ghost name_views = names@.map(|i: int, x: Symbol| x@);
    let n = names.len();
    let mut i: usize = 0;
    while i < n
        invariant
            i <= n,
            n == names@.len(),
            name_views == names@.map(|j: int, x: Symbol| x@),
            dst@ =~= old(dst)@ + spec_render_names_spaced(name_views.subrange(0, i as int)),
        decreases n - i,
    {
        dst.push(' ' as u8);
        extend_bytes(dst, &names[i].0);
        proof {
            assert(name_views.subrange(0, i + 1).drop_last() =~= name_views.subrange(0, i as int));
            assert(name_views.subrange(0, i + 1).last() == names@[i as int]@);
            assert(dst@ =~= old(dst)@ + spec_render_names_spaced(name_views.subrange(0, i + 1)));
        }
        i += 1;
    }
    proof {
        assert(name_views.subrange(0, n as int) =~= name_views);
    }
}

/// The textual form of a stack effect.
pub fn render_effect(e: &StackEffect) -> (r: Vec<u8>)
    ensures
        r@ == spec_render_effect(e@),
{
    let mut r = vec![('(' as u8)];
    append_names_spaced(&mut r, &e.pre);
    r.push(' ' as u8);
    r.push('-' as u8);
    r.push('-' as u8);
    append_names_spaced(&mut r, &e.post);
    r.push(' ' as u8);
    r.push(')' as u8);
    proof {
        assert(e@.pre =~= e.pre@.map(|i: int, x: Symbol| x@));
        assert(e@.post =~= e.post@.map(|i: int, x: Symbol| x@));
        assert(r@ =~= spec_render_effect(e@));
    }
    r
}

/// A block body as it stands in a definition log line.
pub fn render_body(ops: &Vec<Op>) -> (r: Vec<u8>)
    ensures
        r@ == spec_render_body(op_views(ops@)),
{
    proof {
        lemma_op_views(ops@);
    }
    if ops.len() == 0 {
        let r: Vec<u8> = Vec::new();
        proof {
            assert(r@ =~= spec_render_body(op_views(ops@)));
        }
        return r;
    }
    let mut r = render_op(&ops[0]);
    let n = ops.len();
    let mut i: usize = 1;
    while i < n
        invariant
            1 <= i <= n,
            n == ops@.len(),
            op_views(ops@).len() == n,
            forall|k: int| 0 <= k < n ==> op_views(ops@)[k] == #[trigger] ops@[k]@,
            r@ =~= spec_render_op(op_views(ops@)[0]) + spec_render_ops_spaced(
                op_views(ops@).subrange(1, i as int),
            ),
        decreases n - i,
    {
        r.push(' ' as u8);
        let piece = render_op(&ops[i]);
        extend_bytes(&mut r, &piece);
        proof {
            let views = op_views(ops@);
            assert(views.subrange(1, i + 1).drop_last() =~= views.subrange(1, i as int));
            assert(views.subrange(1, i + 1).last() == ops@[i as int]@);
        }
        i += 1;
    }
    proof {
        let views = op_views(ops@);
        assert(views.subrange(1, n as int) =~= views.drop_first());
        assert(r@ =~= spec_render_body(views));
    }
    r
}

/// A shared slice of instructions, rendered as the log grammar.  This is
/// the display form a log line embeds for a definition's body.
pub struct DisplayBlock<'a>(pub &'a Vec<Op>);

impl<'a> DisplayBlock<'a> {
    /// The text of the block, instructions separated by single spaces.
    pub fn text(&self) -> (r: Vec<u8>)
        ensures
            r@ == spec_render_body(op_views(self.0@)),
    {
        render_body(self.0)
    }
}

} // verus!
