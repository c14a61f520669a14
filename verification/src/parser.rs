use vstd::prelude::*;

use crate::errors::Error;
use crate::errors::ErrorView;
use crate::errors::ParseReason;
use crate::interpreter::EffectView;
use crate::interpreter::Op;
use crate::interpreter::OpView;
use crate::interpreter::StackEffect;
use crate::numtext::is_float_token;
use crate::numtext::is_float_literal;
use crate::numtext::parse_i64;
use crate::numtext::parse_u64;
use crate::numtext::spec_parse_i64;
use crate::numtext::spec_parse_u64;
use crate::symbol::Symbol;
use crate::symbol::bytes_eq;
use crate::value::Value;
use crate::value::ValueView;

verus! {

broadcast use vstd::seq::group_seq_axioms, vstd::std_specs::vec::group_vec_axioms;

pub open spec fn is_ws(b: u8) -> bool {
    b == (' ' as u8) || b == ('\t' as u8) || b == ('\n' as u8) || b == ('\r' as u8)
}

pub open spec fn quote() -> u8 {
    '"' as u8
}

/// The first index at or past `i` that holds no whitespace.
pub open spec fn skip_ws(s: Seq<u8>, i: int) -> int
    decreases s.len() - i,
{
    if 0 <= i < s.len() && is_ws(s[i]) {
        skip_ws(s, i + 1)
    } else {
        i
    }
}

/// The first index at or past `i` that holds a quote, if any.
pub open spec fn find_quote(s: Seq<u8>, i: int) -> Option<int>
    decreases s.len() - i,
{
    if 0 <= i < s.len() {
        if s[i] == quote() {
            Some(i)
        } else {
            find_quote(s, i + 1)
        }
    } else {
        None
    }
}

/// The end of the plain token that starts at `i`: the next whitespace, or
/// the end of the input.
pub open spec fn token_end(s: Seq<u8>, i: int) -> int
    decreases s.len() - i,
{
    if 0 <= i < s.len() && !is_ws(s[i]) {
        token_end(s, i + 1)
    } else {
        i
    }
}

/// The next token at or past `i`, with the position after it.  A token
/// that opens with a quote runs to the closing quote, both kept; input
/// that ends inside such a token is treated as exhausted, as is input
/// holding only whitespace.
pub open spec fn spec_next_token(s: Seq<u8>, i: int) -> Option<(Seq<u8>, int)> {
    let j = skip_ws(s, i);
    if !(0 <= j < s.len()) {
        None
    } else if s[j] == quote() {
        match find_quote(s, j + 1) {
            None => None,
            Some(q) => Some((s.subrange(j, q + 1), q + 1)),
        }
    } else {
        Some((s.subrange(j, token_end(s, j)), token_end(s, j)))
    }
}

pub proof fn lemma_skip_ws_bounds(s: Seq<u8>, i: int)
    requires
        0 <= i <= s.len(),
    ensures
        i <= skip_ws(s, i) <= s.len(),
        skip_ws(s, i) < s.len() ==> !is_ws(s[skip_ws(s, i)]),
    decreases s.len() - i,
{
    if i < s.len() && is_ws(s[i]) {
        lemma_skip_ws_bounds(s, i + 1);
    }
}

pub proof fn lemma_find_quote_bounds(s: Seq<u8>, i: int)
    requires
        0 <= i <= s.len(),
    ensures
        match find_quote(s, i) {
            Some(q) => i <= q < s.len() && s[q] == quote(),
            None => true,
        },
    decreases s.len() - i,
{
    if i < s.len() && s[i] != quote() {
        lemma_find_quote_bounds(s, i + 1);
    }
}

pub proof fn lemma_token_end_bounds(s: Seq<u8>, i: int)
    requires
        0 <= i <= s.len(),
    ensures
        i <= token_end(s, i) <= s.len(),
        i < s.len() && !is_ws(s[i]) ==> token_end(s, i) > i,
    decreases s.len() - i,
{
    if i < s.len() && !is_ws(s[i]) {
        lemma_token_end_bounds(s, i + 1);
    }
}

/// A token is never empty and always moves the position forward.
pub proof fn lemma_next_token_progress(s: Seq<u8>, i: int)
    requires
        0 <= i <= s.len(),
    ensures
        match spec_next_token(s, i) {
            Some((t, p)) => i < p <= s.len() && t.len() > 0,
            None => true,
        },
{
    lemma_skip_ws_bounds(s, i);
    let j = skip_ws(s, i);
    if 0 <= j < s.len() {
        if s[j] == quote() {
            lemma_find_quote_bounds(s, j + 1);
        } else {
            lemma_token_end_bounds(s, j);
        }
    }
}

/// Read the next token, returning its bytes and the position after it.
pub fn next_token(src: &Vec<u8>, pos: usize) -> (r: Option<(Vec<u8>, usize)>)
    requires
        pos <= src@.len(),
    ensures
        match (r, spec_next_token(src@, pos as int)) {
            (Some((t, p)), Some((st, sp))) => t@ == st && p == sp,
            (None, None) => true,
            _ => false,
        },
{
    proof {
        lemma_next_token_progress(src@, pos as int);
    }
    let n = src.len();
    let mut j = pos;
    while j < n && (src[j] == (' ' as u8) || src[j] == ('\t' as u8) || src[j] == ('\n' as u8)
        || src[j] == ('\r' as u8))
        invariant
            pos <= j <= n,
            n == src@.len(),
            skip_ws(src@, pos as int) == skip_ws(src@, j as int),
        decreases n - j,
    {
        j += 1;
    }
    proof {
        assert(skip_ws(src@, j as int) == j);
    }
    if j == n {
        return None;
    }
    if src[j] == ('"' as u8) {
        let mut q = j + 1;
        while q < n && src[q] != ('"' as u8)
            invariant
                j + 1 <= q <= n,
                n == src@.len(),
                find_quote(src@, j + 1) == find_quote(src@, q as int),
            decreases n - q,
        {
            q += 1;
        }
        if q == n {
            proof {
                assert(find_quote(src@, q as int) is None);
            }
            return None;
        }
        proof {
            assert(find_quote(src@, q as int) == Some(q as int));
        }
        let mut t: Vec<u8> = Vec::new();
        let mut k = j;
        while k < q + 1
            invariant
                j <= k <= q + 1 <= n,
                n == src@.len(),
                t@ =~= src@.subrange(j as int, k as int),
            decreases q + 1 - k,
        {
            t.push(src[k]);
            k += 1;
        }
        proof {
            assert(t@ =~= src@.subrange(j as int, q + 1));
        }
        Some((t, q + 1))
    } else {
        let mut e = j;
        while e < n && !(src[e] == (' ' as u8) || src[e] == ('\t' as u8) || src[e] == ('\n' as u8)
            || src[e] == ('\r' as u8))
            invariant
                j <= e <= n,
                n == src@.len(),
                token_end(src@, j as int) == token_end(src@, e as int),
            decreases n - e,
        {
            e += 1;
        }
        proof {
            assert(token_end(src@, e as int) == e);
        }
        let mut t: Vec<u8> = Vec::new();
        let mut k = j;
        while k < e
            invariant
                j <= k <= e <= n,
                n == src@.len(),
                t@ =~= src@.subrange(j as int, k as int),
            decreases e - k,
        {
            t.push(src[k]);
            k += 1;
        }
        Some((t, e))
    }
}

// ---------------------------------------------------------------------
// token classification

pub open spec fn lit_end_tok() -> Seq<u8> {
    seq![(';' as u8)]
}

pub open spec fn lit_begin_tok() -> Seq<u8> {
    seq![(':' as u8)]
}

pub open spec fn lit_begin_type_tok() -> Seq<u8> {
    seq![(':' as u8), ('t' as u8)]
}

pub open spec fn lit_true_tok() -> Seq<u8> {
    seq![('t' as u8), ('r' as u8), ('u' as u8), ('e' as u8)]
}

pub open spec fn lit_false_tok() -> Seq<u8> {
    seq![('f' as u8), ('a' as u8), ('l' as u8), ('s' as u8), ('e' as u8)]
}

pub open spec fn lit_if_tok() -> Seq<u8> {
    seq![('i' as u8), ('f' as u8)]
}

pub open spec fn lit_effect_open() -> Seq<u8> {
    seq![('(' as u8)]
}

pub open spec fn lit_effect_sep() -> Seq<u8> {
    seq![('-' as u8), ('-' as u8)]
}

pub open spec fn lit_effect_close() -> Seq<u8> {
    seq![(')' as u8)]
}

pub open spec fn lit_block_open() -> Seq<u8> {
    seq![('[' as u8)]
}

pub open spec fn lit_block_close() -> Seq<u8> {
    seq![(']' as u8)]
}

/// The token with every leading and trailing byte equal to `b` removed.
pub open spec fn trim_matching(t: Seq<u8>, b: u8) -> Seq<u8> {
    let lead = trim_start(t, b, 0);
    let trail = trim_end(t, b, t.len() as int);
    if lead < trail {
        t.subrange(lead, trail)
    } else {
        Seq::empty()
    }
}

pub open spec fn trim_start(t: Seq<u8>, b: u8, i: int) -> int
    decreases t.len() - i,
{
    if 0 <= i < t.len() && t[i] == b {
        trim_start(t, b, i + 1)
    } else {
        i
    }
}

pub open spec fn trim_end(t: Seq<u8>, b: u8, i: int) -> int
    decreases i,
{
    if 0 < i <= t.len() && t[i - 1] == b {
        trim_end(t, b, i - 1)
    } else {
        i
    }
}

/// What a single token means, before integer, float and word fall-through.
/// A string token keeps the text between its outermost quotes; a selector
/// token must trim to a field number no larger than a machine word.
pub open spec fn spec_parse_op(t: Seq<u8>) -> Result<OpView, ErrorView> {
    if t == lit_end_tok() {
        Ok(OpView::End)
    } else if t == lit_begin_tok() {
        Ok(OpView::BeginDef)
    } else if t == lit_begin_type_tok() {
        Ok(OpView::BeginTypeDef)
    } else if t == lit_true_tok() {
        Ok(OpView::Literal(ValueView::True))
    } else if t == lit_false_tok() {
        Ok(OpView::Literal(ValueView::False))
    } else if t == lit_if_tok() {
        Ok(OpView::If)
    } else if t.len() > 0 && t[0] == quote() {
        Ok(OpView::Literal(ValueView::Str(trim_matching(t, quote()))))
    } else if t.len() > 0 && t[0] == ('#' as u8) {
        match spec_parse_u64(trim_matching(t, '#' as u8)) {
            Some(v) => if v <= usize::MAX as u64 {
                Ok(OpView::Select(v as usize))
            } else {
                Err(ErrorView::Parse(ParseReason::MalformedSelector))
            },
            None => Err(ErrorView::Parse(ParseReason::MalformedSelector)),
        }
    } else {
        match spec_parse_i64(t) {
            Some(x) => Ok(OpView::Literal(ValueView::Int(x))),
            None => if is_float_token(t) {
                Ok(OpView::Literal(ValueView::Flt(t)))
            } else {
                Ok(OpView::Symbol(t))
            },
        }
    }
}

/// The token with every leading and trailing byte equal to `b` removed.
fn trim_matching_exec(t: &Vec<u8>, b: u8) -> (r: Vec<u8>)
    ensures
        r@ == trim_matching(t@, b),
{
    let n = t.len();
    let mut lead: usize = 0;
    while lead < n && t[lead] == b
        invariant
            lead <= n,
            n == t@.len(),
            trim_start(t@, b, 0) == trim_start(t@, b, lead as int),
        decreases n - lead,
    {
        lead += 1;
    }
    proof {
        assert(trim_start(t@, b, lead as int) == lead);
    }
    let mut trail: usize = n;
    while trail > 0 && t[trail - 1] == b
        invariant
            trail <= n,
            n == t@.len(),
            trim_end(t@, b, n as int) == trim_end(t@, b, trail as int),
        decreases trail,
    {
        trail -= 1;
    }
    proof {
        assert(trim_end(t@, b, trail as int) == trail);
    }
    let mut r: Vec<u8> = Vec::new();
    if lead < trail {
        let mut k = lead;
        while k < trail
            invariant
                lead <= k <= trail <= n,
                n == t@.len(),
                r@ =~= t@.subrange(lead as int, k as int),
            decreases trail - k,
        {
            r.push(t[k]);
            k += 1;
        }
    }
    proof {
        if trim_start(t@, b, 0) < trim_end(t@, b, t@.len() as int) {
            assert(r@ =~= trim_matching(t@, b));
        } else {
            assert(r@ =~= Seq::<u8>::empty());
        }
    }
    r
}

/// What a single token means.
pub fn parse_op(t: Vec<u8>) -> (r: Result<Op, Error>)
    ensures
        match (r, spec_parse_op(t@)) {
            (Ok(op), Ok(sop)) => op@ == sop,
            (Err(e), Err(se)) => e@ == se,
            _ => false,
        },
{
    let k_end = vec![(';' as u8)];
    let k_begin = vec![(':' as u8)];
    let k_begin_type = vec![(':' as u8), ('t' as u8)];
    let k_true = vec![('t' as u8), ('r' as u8), ('u' as u8), ('e' as u8)];
    let k_false = vec![('f' as u8), ('a' as u8), ('l' as u8), ('s' as u8), ('e' as u8)];
    let k_if = vec![('i' as u8), ('f' as u8)];
    proof {
        assert(k_end@ =~= lit_end_tok());
        assert(k_begin@ =~= lit_begin_tok());
        assert(k_begin_type@ =~= lit_begin_type_tok());
        assert(k_true@ =~= lit_true_tok());
        assert(k_false@ =~= lit_false_tok());
        assert(k_if@ =~= lit_if_tok());
    }
    if bytes_eq(&t, &k_end) {
        Ok(Op::End)
    } else if bytes_eq(&t, &k_begin) {
        Ok(Op::BeginDef)
    } else if bytes_eq(&t, &k_begin_type) {
        Ok(Op::BeginTypeDef)
    } else if bytes_eq(&t, &k_true) {
        Ok(Op::Literal(Value::True))
    } else if bytes_eq(&t, &k_false) {
        Ok(Op::Literal(Value::False))
    } else if bytes_eq(&t, &k_if) {
        Ok(Op::If)
    } else if t.len() > 0 && t[0] == ('"' as u8) {
        Ok(Op::Literal(Value::Str(trim_matching_exec(&t, '"' as u8))))
    } else if t.len() > 0 && t[0] == ('#' as u8) {
        let core = trim_matching_exec(&t, '#' as u8);
        match parse_u64(&core) {
            Some(v) => {
                if v <= (usize::MAX as u64) {
                    Ok(Op::Select(v as usize))
                } else {
                    Err(Error::Parse(ParseReason::MalformedSelector))
                }
            },
            None => Err(Error::Parse(ParseReason::MalformedSelector)),
        }
    } else {
        match parse_i64(&t) {
            Some(x) => Ok(Op::Literal(Value::Int(x))),
            None => {
                if is_float_literal(&t) {
                    Ok(Op::Literal(Value::Flt(t)))
                } else {
                    Ok(Op::Symbol(Symbol(t)))
                }
            },
        }
    }
}

// ---------------------------------------------------------------------
// the reader

/// The outcome of reading a run of instructions: the instructions and the
/// position after them, or the error.
pub ghost enum ReadOut {
    Done(Seq<OpView>, int),
    Fail(ErrorView),
}

/// The outcome of reading a stack-effect declaration.
pub ghost enum EffectOut {
    Done(Seq<Seq<u8>>, int),
    Fail(ErrorView),
}

/// Read name tokens up to the given closing token.  Every token before it
/// becomes a formal name, whatever else it could mean.
pub open spec fn spec_parse_names(s: Seq<u8>, i: int, close: Seq<u8>) -> EffectOut
    decreases s.len() - i,
{
    match spec_next_token(s, i) {
        None => EffectOut::Fail(ErrorView::Parse(ParseReason::UnexpectedEndOfInput)),
        Some((t, p)) => if t == close {
            EffectOut::Done(Seq::empty(), p)
        } else if i < p <= s.len() {
            match spec_parse_names(s, p, close) {
                EffectOut::Done(names, p2) => EffectOut::Done(seq![t] + names, p2),
                EffectOut::Fail(e) => EffectOut::Fail(e),
            }
        } else {
            // a token never ends where it began; this branch carries the
            // termination argument and is never taken
            EffectOut::Fail(ErrorView::Parse(ParseReason::UnexpectedEndOfInput))
        },
    }
}

/// Read a stack-effect declaration after its opening token: names up to
/// the separator, names up to the closing bracket.
pub open spec fn spec_parse_effect(s: Seq<u8>, i: int) -> Result<(EffectView, int), ErrorView> {
    match spec_parse_names(s, i, lit_effect_sep()) {
        EffectOut::Fail(e) => Err(e),
        EffectOut::Done(pre, p) => match spec_parse_names(s, p, lit_effect_close()) {
            EffectOut::Fail(e) => Err(e),
            EffectOut::Done(post, p2) => Ok(((EffectView { pre, post }), p2)),
        },
    }
}

/// Read instructions from `i` on.  At the top level the input may simply
/// end; inside a block literal only the closing bracket ends the run.
pub open spec fn spec_parse_ops(s: Seq<u8>, i: int, in_block: bool) -> ReadOut
    decreases s.len() - i, 0int,
{
    match spec_next_token(s, i) {
        None => if in_block {
            ReadOut::Fail(ErrorView::Parse(ParseReason::UnexpectedEndOfInput))
        } else {
            ReadOut::Done(Seq::empty(), s.len() as int)
        },
        Some((t, p)) => if !(i < p <= s.len()) {
            // a token never ends where it began; this branch carries the
            // termination argument and is never taken
            ReadOut::Fail(ErrorView::Parse(ParseReason::UnexpectedEndOfInput))
        } else if in_block && t == lit_block_close() {
            ReadOut::Done(Seq::empty(), p)
        } else if t == lit_effect_open() {
            match spec_parse_effect(s, p) {
                Err(e) => ReadOut::Fail(e),
                Ok((eff, p2)) => if p < p2 <= s.len() {
                    spec_parse_ops_cons(s, p2, in_block, OpView::Effect(eff))
                } else {
                    ReadOut::Fail(ErrorView::Parse(ParseReason::UnexpectedEndOfInput))
                },
            }
        } else if t == lit_block_open() {
            match spec_parse_ops(s, p, true) {
                ReadOut::Fail(e) => ReadOut::Fail(e),
                ReadOut::Done(body, p2) => if p < p2 <= s.len() {
                    spec_parse_ops_cons(s, p2, in_block, OpView::Literal(ValueView::Block(body)))
                } else {
                    ReadOut::Fail(ErrorView::Parse(ParseReason::UnexpectedEndOfInput))
                },
            }
        } else {
            match spec_parse_op(t) {
                Err(e) => ReadOut::Fail(e),
                Ok(op) => spec_parse_ops_cons(s, p, in_block, op),
            }
        },
    }
}

/// One instruction, then the rest of the run.
pub open spec fn spec_parse_ops_cons(s: Seq<u8>, p: int, in_block: bool, op: OpView) -> ReadOut
    decreases s.len() - p, 1int,
{
    if p <= s.len() {
        match spec_parse_ops(s, p, in_block) {
            ReadOut::Fail(e) => ReadOut::Fail(e),
            ReadOut::Done(rest, p2) => ReadOut::Done(seq![op] + rest, p2),
        }
    } else {
        ReadOut::Fail(ErrorView::Parse(ParseReason::UnexpectedEndOfInput))
    }
}

/// The whole program of a source text.
pub open spec fn spec_parse(s: Seq<u8>) -> Result<Seq<OpView>, ErrorView> {
    match spec_parse_ops(s, 0, false) {
        ReadOut::Done(ops, p) => Ok(ops),
        ReadOut::Fail(e) => Err(e),
    }
}

/// A successful read always moves forward and never past the end.
pub proof fn lemma_parse_names_pos(s: Seq<u8>, i: int, close: Seq<u8>)
    requires
        0 <= i <= s.len(),
    ensures
        match spec_parse_names(s, i, close) {
            EffectOut::Done(_, p) => i < p <= s.len(),
            EffectOut::Fail(_) => true,
        },
    decreases s.len() - i,
{
    lemma_next_token_progress(s, i);
    match spec_next_token(s, i) {
        None => {},
        Some((t, p)) => {
            if t != close && i < p <= s.len() {
                lemma_parse_names_pos(s, p, close);
            }
        },
    }
}

/// A successful read always moves to a position no further than the end,
/// and strictly forward while inside a block.
pub proof fn lemma_parse_ops_pos(s: Seq<u8>, i: int, in_block: bool)
    requires
        0 <= i <= s.len(),
    ensures
        match spec_parse_ops(s, i, in_block) {
            ReadOut::Done(_, p) => i <= p <= s.len() && (in_block ==> i < p),
            ReadOut::Fail(_) => true,
        },
    decreases s.len() - i, 0int,
{
    lemma_next_token_progress(s, i);
    match spec_next_token(s, i) {
        None => {},
        Some((t, p)) => {
            if i < p <= s.len() {
                if in_block && t == lit_block_close() {
                } else if t == lit_effect_open() {
                    match spec_parse_effect(s, p) {
                        Err(_) => {},
                        Ok((eff, p2)) => {
                            lemma_parse_names_pos(s, p, lit_effect_sep());
                            match spec_parse_names(s, p, lit_effect_sep()) {
                                EffectOut::Done(_, pmid) => {
                                    lemma_parse_names_pos(s, pmid, lit_effect_close());
                                },
                                EffectOut::Fail(_) => {},
                            }
                            if p < p2 <= s.len() {
                                lemma_parse_ops_cons_pos(s, p2, in_block, OpView::Effect(eff));
                            }
                        },
                    }
                } else if t == lit_block_open() {
                    lemma_parse_ops_pos(s, p, true);
                    match spec_parse_ops(s, p, true) {
                        ReadOut::Fail(_) => {},
                        ReadOut::Done(body, p2) => {
                            if p < p2 <= s.len() {
                                lemma_parse_ops_cons_pos(
                                    s,
                                    p2,
                                    in_block,
                                    OpView::Literal(ValueView::Block(body)),
                                );
                            }
                        },
                    }
                } else {
                    match spec_parse_op(t) {
                        Err(_) => {},
                        Ok(op) => {
                            lemma_parse_ops_cons_pos(s, p, in_block, op);
                        },
                    }
                }
            }
        },
    }
}

pub proof fn lemma_parse_ops_cons_pos(s: Seq<u8>, p: int, in_block: bool, op: OpView)
    requires
        0 <= p <= s.len(),
    ensures
        match spec_parse_ops_cons(s, p, in_block, op) {
            ReadOut::Done(_, p2) => p <= p2 <= s.len(),
            ReadOut::Fail(_) => true,
        },
    decreases s.len() - p, 1int,
{
    lemma_parse_ops_pos(s, p, in_block);
}

/// Read instructions from `pos` on, returning them and the position after
/// them.
fn parse_ops_from(src: &Vec<u8>, pos: usize, in_block: bool) -> (r: Result<(Vec<Op>, usize), Error>)
    requires
        pos <= src@.len(),
    ensures
        match (r, spec_parse_ops(src@, pos as int, in_block)) {
            (Ok((ops, p)), ReadOut::Done(sops, sp)) => crate::value::op_views(ops@) == sops && p == sp
                && pos <= p <= src@.len(),
            (Err(e), ReadOut::Fail(se)) => e@ == se,
            _ => false,
        },
    decreases src@.len() - pos, 0int,
{
    proof {
        lemma_next_token_progress(src@, pos as int);
        lemma_parse_ops_pos(src@, pos as int, in_block);
    }
    let nt = next_token(src, pos);
    match nt {
        None => {
            if in_block {
                Err(Error::Parse(ParseReason::UnexpectedEndOfInput))
            } else {
                let ops: Vec<Op> = Vec::new();
                proof {
                    assert(crate::value::op_views(ops@) =~= Seq::<OpView>::empty());
                }
                Ok((ops, src.len()))
            }
        },
        Some((t, p)) => {
            let k_close = vec![(']' as u8)];
            let k_open_eff = vec![('(' as u8)];
            let k_open_blk = vec![('[' as u8)];
            proof {
                assert(k_close@ =~= lit_block_close());
                assert(k_open_eff@ =~= lit_effect_open());
                assert(k_open_blk@ =~= lit_block_open());
            }
            proof {
                assert(spec_next_token(src@, pos as int) == Some((t@, p as int)));
                assert(pos < p <= src@.len());
            }
            if in_block && bytes_eq(&t, &k_close) {
                let ops: Vec<Op> = Vec::new();
                proof {
                    assert(crate::value::op_views(ops@) =~= Seq::<OpView>::empty());
                    assert(spec_parse_ops(src@, pos as int, in_block) == ReadOut::Done(
                        Seq::<OpView>::empty(),
                        p as int,
                    ));
                }
                Ok((ops, p))
            } else if bytes_eq(&t, &k_open_eff) {
                match parse_effect(src, p) {
                    Err(e) => {
                        proof {
                            assert(spec_parse_ops(src@, pos as int, in_block) == ReadOut::Fail(e@));
                        }
                        Err(e)
                    },
                    Ok((eff, p2)) => {
                        proof {
                            lemma_parse_names_pos(src@, p as int, lit_effect_sep());
                            match spec_parse_names(src@, p as int, lit_effect_sep()) {
                                EffectOut::Done(_, pmid) => {
                                    lemma_parse_names_pos(src@, pmid, lit_effect_close());
                                },
                                EffectOut::Fail(_) => {},
                            }
                        }
                        let op = Op::Effect(eff);
                        proof {
                            assert(spec_parse_ops(src@, pos as int, in_block)
                                == spec_parse_ops_cons(src@, p2 as int, in_block, op@));
                        }
                        parse_ops_cons(src, p2, in_block, op)
                    },
                }
            } else if bytes_eq(&t, &k_open_blk) {
                match parse_ops_from(src, p, true) {
                    Err(e) => {
                        proof {
                            assert(spec_parse_ops(src@, pos as int, in_block) == ReadOut::Fail(e@));
                        }
                        Err(e)
                    },
                    Ok((body, p2)) => {
                        proof {
                            lemma_parse_ops_pos(src@, p as int, true);
                        }
                        let ghost body_view = crate::value::op_views(body@);
                        let v = Value::Block(body);
                        let ghost v_g = v;
                        proof {
                            assert(v_g@ == ValueView::Block(body_view));
                        }
                        let op = Op::Literal(v);
                        proof {
                            assert(op@ == OpView::Literal(v_g@));
                            assert(op@ == OpView::Literal(ValueView::Block(body_view)));
                            assert(spec_parse_ops(src@, pos as int, in_block)
                                == spec_parse_ops_cons(src@, p2 as int, in_block, op@));
                        }
                        parse_ops_cons(src, p2, in_block, op)
                    },
                }
            } else {
                let ghost t_v = t@;
                match parse_op(t) {
                    Err(e) => {
                        proof {
                            assert(spec_parse_op(t_v) == Result::<OpView, ErrorView>::Err(e@));
                            assert(spec_parse_ops(src@, pos as int, in_block) == ReadOut::Fail(e@));
                        }
                        Err(e)
                    },
                    Ok(op) => {
                        proof {
                            assert(spec_parse_op(t_v) == Result::<OpView, ErrorView>::Ok(op@));
                            assert(spec_parse_ops(src@, pos as int, in_block)
                                == spec_parse_ops_cons(src@, p as int, in_block, op@));
                        }
                        parse_ops_cons(src, p, in_block, op)
                    },
                }
            }
        },
    }
}

/// One instruction, then the rest of the run.
fn parse_ops_cons(src: &Vec<u8>, p: usize, in_block: bool, op: Op) -> (r: Result<
    (Vec<Op>, usize),
    Error,
>)
    requires
        p <= src@.len(),
    ensures
        match (r, spec_parse_ops_cons(src@, p as int, in_block, op@)) {
            (Ok((ops, p2)), ReadOut::Done(sops, sp)) => crate::value::op_views(ops@) == sops && p2
                == sp && p <= p2 <= src@.len(),
            (Err(e), ReadOut::Fail(se)) => e@ == se,
            _ => false,
        },
    decreases src@.len() - p, 1int,
{
    match parse_ops_from(src, p, in_block) {
        Err(e) => Err(e),
        Ok((rest, p2)) => {
            let ghost rest_view = rest@;
            let ghost op_g = op;
            let ghost op_view = op@;
            let mut ops = rest;
            ops.insert(0, op);
            proof {
                assert(ops@ =~= seq![op_g] + rest_view);
                crate::value::lemma_op_views(ops@);
                crate::value::lemma_op_views(rest_view);
                assert forall|k: int| 0 <= k < ops@.len() implies crate::value::op_views(ops@)[k]
                    == (seq![op_view] + crate::value::op_views(rest_view))[k] by {
                    assert(crate::value::op_views(ops@)[k] == ops@[k]@);
                    if k > 0 {
                        assert(ops@[k] == rest_view[k - 1]);
                        assert(crate::value::op_views(rest_view)[k - 1] == rest_view[k - 1]@);
                    } else {
                        assert(ops@[0] == op_g);
                    }
                }
                assert(crate::value::op_views(ops@) =~= seq![op_view] + crate::value::op_views(
                    rest_view,
                ));
            }
            Ok((ops, p2))
        },
    }
}

/// Read name tokens up to the given closing token.
fn parse_names(src: &Vec<u8>, pos: usize, close: &Vec<u8>) -> (r: Result<(Vec<Symbol>, usize), Error>)
    requires
        pos <= src@.len(),
    ensures
        match (r, spec_parse_names(src@, pos as int, close@)) {
            (Ok((names, p)), EffectOut::Done(snames, sp)) => names@.map(|i: int, x: Symbol| x@)
                == snames && p == sp && pos < p <= src@.len(),
            (Err(e), EffectOut::Fail(se)) => e@ == se,
            _ => false,
        },
    decreases src@.len() - pos,
{
    proof {
        lemma_next_token_progress(src@, pos as int);
        lemma_parse_names_pos(src@, pos as int, close@);
    }
    match next_token(src, pos) {
        None => Err(Error::Parse(ParseReason::UnexpectedEndOfInput)),
        Some((t, p)) => {
            if bytes_eq(&t, close) {
                let names: Vec<Symbol> = Vec::new();
                proof {
                    assert(names@.map(|i: int, x: Symbol| x@) =~= Seq::<Seq<u8>>::empty());
                }
                Ok((names, p))
            } else {
                match parse_names(src, p, close) {
                    Err(e) => Err(e),
                    Ok((rest, p2)) => {
                        let ghost t_view = t@;
                        let ghost rest_view = rest@;
                        let sym = Symbol(t);
                        let ghost sym_g = sym;
                        let mut names = rest;
                        names.insert(0, sym);
                        proof {
                            assert(names@ =~= seq![sym_g] + rest_view);
                            match spec_parse_names(src@, p as int, close@) {
                                EffectOut::Done(snames, _) => {
                                    assert forall|k: int| 0 <= k < names@.len() implies names@.map(
                                        |i: int, x: Symbol| x@,
                                    )[k] == (seq![t_view] + snames)[k] by {
                                        if k > 0 {
                                            assert(names@[k] == rest_view[k - 1]);
                                            assert(rest_view.map(|i: int, x: Symbol| x@)[k - 1]
                                                == rest_view[k - 1]@);
                                        }
                                    }
                                    assert(names@.map(|i: int, x: Symbol| x@) =~= seq![t_view]
                                        + snames);
                                },
                                EffectOut::Fail(_) => {},
                            }
                        }
                        Ok((names, p2))
                    },
                }
            }
        },
    }
}

/// Read a stack-effect declaration after its opening token.
fn parse_effect(src: &Vec<u8>, pos: usize) -> (r: Result<(StackEffect, usize), Error>)
    requires
        pos <= src@.len(),
    ensures
        match (r, spec_parse_effect(src@, pos as int)) {
            (Ok((eff, p)), Ok((seff, sp))) => eff@ == seff && p == sp && pos < p <= src@.len(),
            (Err(e), Err(se)) => e@ == se,
            _ => false,
        },
{
    let k_sep = vec![('-' as u8), ('-' as u8)];
    let k_close = vec![(')' as u8)];
    proof {
        assert(k_sep@ =~= lit_effect_sep());
        assert(k_close@ =~= lit_effect_close());
        lemma_parse_names_pos(src@, pos as int, lit_effect_sep());
    }
    match parse_names(src, pos, &k_sep) {
        Err(e) => Err(e),
        Ok((pre, p)) => {
            proof {
                lemma_parse_names_pos(src@, p as int, lit_effect_close());
            }
            match parse_names(src, p, &k_close) {
                Err(e) => Err(e),
                Ok((post, p2)) => {
                    let eff = StackEffect { pre, post };
                    proof {
                        match spec_parse_effect(src@, pos as int) {
                            Ok((seff, _)) => {
                                assert(eff@.pre =~= seff.pre);
                                assert(eff@.post =~= seff.post);
                            },
                            Err(_) => {},
                        }
                    }
                    Ok((eff, p2))
                },
            }
        },
    }
}

/// Read a whole source text as a program.
pub fn parse(src: &Vec<u8>) -> (r: Result<Vec<Op>, Error>)
    ensures
        match (r, spec_parse(src@)) {
            (Ok(ops), Ok(sops)) => crate::value::op_views(ops@) == sops,
            (Err(e), Err(se)) => e@ == se,
            _ => false,
        },
{
    match parse_ops_from(src, 0, false) {
        Err(e) => Err(e),
        Ok((ops, _)) => Ok(ops),
    }
}

} // verus!

verus! {

/// Everything the reader produces is well-formed: the only literals it
/// makes are plain values and blocks of its own making.
pub proof fn lemma_parse_ops_wf(s: Seq<u8>, i: int, in_block: bool)
    requires
        0 <= i <= s.len(),
    ensures
        match spec_parse_ops(s, i, in_block) {
            ReadOut::Done(ops, _) => crate::value::wf_ops(ops),
            ReadOut::Fail(_) => true,
        },
    decreases s.len() - i, 0int,
{
    crate::value::lemma_wf_ops_index(Seq::<OpView>::empty());
    lemma_next_token_progress(s, i);
    match spec_next_token(s, i) {
        None => {},
        Some((t, p)) => {
            if i < p <= s.len() {
                if in_block && t == lit_block_close() {
                } else if t == lit_effect_open() {
                    match spec_parse_effect(s, p) {
                        Err(_) => {},
                        Ok((eff, p2)) => {
                            lemma_parse_names_pos(s, p, lit_effect_sep());
                            match spec_parse_names(s, p, lit_effect_sep()) {
                                EffectOut::Done(_, pmid) => {
                                    lemma_parse_names_pos(s, pmid, lit_effect_close());
                                },
                                EffectOut::Fail(_) => {},
                            }
                            if p < p2 <= s.len() {
                                lemma_parse_ops_cons_wf(s, p2, in_block, OpView::Effect(eff));
                            }
                        },
                    }
                } else if t == lit_block_open() {
                    lemma_parse_ops_pos(s, p, true);
                    lemma_parse_ops_wf(s, p, true);
                    match spec_parse_ops(s, p, true) {
                        ReadOut::Fail(_) => {},
                        ReadOut::Done(body, p2) => {
                            if p < p2 <= s.len() {
                                lemma_parse_ops_cons_wf(
                                    s,
                                    p2,
                                    in_block,
                                    OpView::Literal(ValueView::Block(body)),
                                );
                            }
                        },
                    }
                } else {
                    match spec_parse_op(t) {
                        Err(_) => {},
                        Ok(op) => {
                            assert(crate::value::wf_op(op));
                            lemma_parse_ops_cons_wf(s, p, in_block, op);
                        },
                    }
                }
            }
        },
    }
}

proof fn lemma_parse_ops_cons_wf(s: Seq<u8>, p: int, in_block: bool, op: OpView)
    requires
        0 <= p <= s.len(),
        crate::value::wf_op(op),
    ensures
        match spec_parse_ops_cons(s, p, in_block, op) {
            ReadOut::Done(ops, _) => crate::value::wf_ops(ops),
            ReadOut::Fail(_) => true,
        },
    decreases s.len() - p, 1int,
{
    lemma_parse_ops_wf(s, p, in_block);
    match spec_parse_ops(s, p, in_block) {
        ReadOut::Fail(_) => {},
        ReadOut::Done(rest, _) => {
            crate::value::lemma_wf_ops_index(rest);
            crate::value::lemma_wf_ops_index(seq![op] + rest);
            assert forall|k: int| 0 <= k < (seq![op] + rest).len() implies crate::value::wf_op(
                #[trigger] (seq![op] + rest)[k],
            ) by {
                if k == 0 {
                    assert((seq![op] + rest)[0] == op);
                } else {
                    assert((seq![op] + rest)[k] == rest[k - 1]);
                }
            }
        },
    }
}

/// The whole program of a source text is well-formed.
pub proof fn lemma_parse_wf(s: Seq<u8>)
    ensures
        match spec_parse(s) {
            Ok(ops) => crate::value::wf_ops(ops),
            Err(_) => true,
        },
{
    lemma_parse_ops_wf(s, 0, false);
}

} // verus!
