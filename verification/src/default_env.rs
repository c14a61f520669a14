use vstd::prelude::*;

use crate::interpreter::Binding;
use crate::interpreter::BindingView;
use crate::interpreter::EnvEntry;
use crate::interpreter::EnvEntryView;
use crate::interpreter::Prim;
use crate::sem::prims_reserved;
use crate::sem::wf_env_v;
use crate::symbol::Symbol;

verus! {

broadcast use vstd::seq::group_seq_axioms, vstd::std_specs::vec::group_vec_axioms;

/// One slot of the built-in table.
pub open spec fn prim_entry(name: Seq<u8>, p: Prim) -> EnvEntryView {
    EnvEntryView { name, binding: BindingView::Primitive(p) }
}

/// The full table of built-ins: exactly these 43 names, in this order,
/// every one bound to a primitive.  Every name opens with `%` or `:`, so
/// no user definition — those prefixes are refused — can ever collide
/// with a primitive.
pub open spec fn spec_default_env() -> Seq<EnvEntryView> {
    seq![
        prim_entry(seq![('%' as u8), ('e' as u8), ('r' as u8), ('r' as u8), ('o' as u8), ('r' as u8)], Prim::Raise),
        prim_entry(seq![('%' as u8), ('a' as u8), ('p' as u8), ('p' as u8), ('l' as u8), ('y' as u8)], Prim::Apply),
        prim_entry(seq![(':' as u8), ('s' as u8), ('t' as u8), ('a' as u8), ('c' as u8), ('k' as u8), ('s' as u8)], Prim::Stacks),
        prim_entry(seq![(':' as u8), ('w' as u8), ('o' as u8), ('r' as u8), ('d' as u8), ('s' as u8)], Prim::Words),
        prim_entry(seq![('%' as u8), ('>' as u8), ('>' as u8)], Prim::ToSecond),
        prim_entry(seq![('%' as u8), ('<' as u8), ('<' as u8)], Prim::FromSecond),
        prim_entry(seq![('%' as u8), ('@' as u8)], Prim::PickSecond),
        prim_entry(seq![('%' as u8), ('d' as u8), ('r' as u8), ('o' as u8), ('p' as u8)], Prim::Drop),
        prim_entry(seq![('%' as u8), ('d' as u8), ('u' as u8), ('p' as u8)], Prim::Dup),
        prim_entry(seq![('%' as u8), ('o' as u8), ('v' as u8), ('e' as u8), ('r' as u8)], Prim::Over),
        prim_entry(seq![('%' as u8), ('s' as u8), ('w' as u8), ('a' as u8), ('p' as u8)], Prim::Swap),
        prim_entry(seq![('%' as u8), ('r' as u8), ('o' as u8), ('t' as u8)], Prim::Rot),
        prim_entry(seq![('%' as u8), ('.' as u8)], Prim::PrintAny),
        prim_entry(seq![('%' as u8), ('.' as u8), ('=' as u8)], Prim::EqAny),
        prim_entry(seq![('%' as u8), ('b' as u8), ('.' as u8)], Prim::PrintBool),
        prim_entry(seq![('%' as u8), ('b' as u8), ('b' as u8), ('=' as u8)], Prim::BoolEq),
        prim_entry(seq![('%' as u8), ('b' as u8), ('b' as u8), ('&' as u8)], Prim::BoolAnd),
        prim_entry(seq![('%' as u8), ('b' as u8), ('b' as u8), ('|' as u8)], Prim::BoolOr),
        prim_entry(seq![('%' as u8), ('i' as u8), ('.' as u8)], Prim::PrintInt),
        prim_entry(seq![('%' as u8), ('i' as u8), ('i' as u8), ('=' as u8)], Prim::IntEq),
        prim_entry(seq![('%' as u8), ('i' as u8), ('i' as u8), ('<' as u8)], Prim::IntLt),
        prim_entry(seq![('%' as u8), ('i' as u8), ('i' as u8), ('+' as u8)], Prim::IntAdd),
        prim_entry(seq![('%' as u8), ('i' as u8), ('i' as u8), ('-' as u8)], Prim::IntSub),
        prim_entry(seq![('%' as u8), ('i' as u8), ('i' as u8), ('*' as u8)], Prim::IntMul),
        prim_entry(seq![('%' as u8), ('i' as u8), ('i' as u8), ('/' as u8)], Prim::IntDiv),
        prim_entry(seq![('%' as u8), ('f' as u8), ('.' as u8)], Prim::PrintFlt),
        prim_entry(seq![('%' as u8), ('i' as u8), ('-' as u8), ('>' as u8), ('f' as u8)], Prim::IntToFlt),
        prim_entry(seq![('%' as u8), ('f' as u8), ('f' as u8), ('=' as u8)], Prim::FltEq),
        prim_entry(seq![('%' as u8), ('f' as u8), ('f' as u8), ('<' as u8)], Prim::FltLt),
        prim_entry(seq![('%' as u8), ('f' as u8), ('f' as u8), ('+' as u8)], Prim::FltAdd),
        prim_entry(seq![('%' as u8), ('f' as u8), ('f' as u8), ('-' as u8)], Prim::FltSub),
        prim_entry(seq![('%' as u8), ('f' as u8), ('f' as u8), ('*' as u8)], Prim::FltMul),
        prim_entry(seq![('%' as u8), ('f' as u8), ('f' as u8), ('/' as u8)], Prim::FltDiv),
        prim_entry(seq![('%' as u8), ('f' as u8), ('s' as u8), ('q' as u8), ('r' as u8), ('t' as u8)], Prim::FltSqrt),
        prim_entry(seq![('%' as u8), ('f' as u8), ('l' as u8), ('o' as u8), ('g' as u8)], Prim::FltLog),
        prim_entry(seq![('%' as u8), ('f' as u8), ('s' as u8), ('i' as u8), ('n' as u8)], Prim::FltSin),
        prim_entry(seq![('%' as u8), ('f' as u8), ('c' as u8), ('o' as u8), ('s' as u8)], Prim::FltCos),
        prim_entry(seq![('%' as u8), ('s' as u8), ('.' as u8)], Prim::PrintStr),
        prim_entry(seq![('%' as u8), ('p' as u8), ('r' as u8), ('i' as u8), ('n' as u8), ('t' as u8), ('l' as u8), ('n' as u8)], Prim::PrintLn),
        prim_entry(seq![('%' as u8), ('s' as u8), ('s' as u8), ('=' as u8)], Prim::StrEq),
        prim_entry(seq![('%' as u8), ('f' as u8), ('m' as u8), ('t' as u8)], Prim::Fmt),
        prim_entry(seq![('%' as u8), ('\'' as u8), ('.' as u8)], Prim::PrintSym),
        prim_entry(seq![('%' as u8), ('\'' as u8), ('\'' as u8), ('=' as u8)], Prim::SymEq),
    ]
}

/// Register one primitive under its reserved name.
fn add_prim(env: &mut Vec<EnvEntry>, name: Vec<u8>, p: Prim)
    requires
        name@.len() > 0,
        name@[0] == ('%' as u8) || name@[0] == (':' as u8),
        wf_env_v(old(env)@.map(|i: int, e: EnvEntry| e@)),
        prims_reserved(old(env)@.map(|i: int, e: EnvEntry| e@)),
    ensures
        wf_env_v(final(env)@.map(|i: int, e: EnvEntry| e@)),
        prims_reserved(final(env)@.map(|i: int, e: EnvEntry| e@)),
        final(env)@.map(|i: int, e: EnvEntry| e@) == old(env)@.map(|i: int, e: EnvEntry| e@).push(
            prim_entry(name@, p),
        ),
{
    let ghost old_views = env@.map(|i: int, e: EnvEntry| e@);
    let entry = EnvEntry { name: Symbol(name), binding: Binding::Primitive(p) };
    let ghost ev = entry@;
    env.push(entry);
    proof {
        let f = |i: int, e: EnvEntry| e@;
        assert forall|k: int| 0 <= k < env@.len() implies env@.map(f)[k] == old_views.push(
            ev,
        )[k] by {
            assert(env@.map(f)[k] == env@[k]@);
            if k < env@.len() - 1 {
                assert(env@[k] == old(env)@[k]);
                assert(old_views[k] == old(env)@[k]@);
            }
        }
        assert(env@.map(f) =~= old_views.push(ev));
        assert(ev =~= prim_entry(name@, p));
        assert(env@.map(f) =~= old_views.push(prim_entry(name@, p)));
        assert forall|i: int|
            0 <= i < env@.map(f).len() && (#[trigger] env@.map(f)[i].binding)
                is Primitive implies crate::sem::reserved_name(env@.map(f)[i].name) by {
            if i < old_views.len() {
                assert(env@.map(f)[i] == old_views[i]);
            }
        }
        assert forall|i: int| 0 <= i < env@.map(f).len() implies crate::sem::wf_binding_v(
            #[trigger] env@.map(f)[i].binding,
        ) by {
            if i < old_views.len() {
                assert(env@.map(f)[i] == old_views[i]);
            }
        }
    }
}

/// The environment every fresh session starts from: exactly the built-in
/// table, as `spec_default_env` writes it out.
#[verifier::rlimit(100)]
pub fn default_env() -> (r: Vec<EnvEntry>)
    ensures
        r@.map(|i: int, e: EnvEntry| e@) == spec_default_env(),
        wf_env_v(r@.map(|i: int, e: EnvEntry| e@)),
        prims_reserved(r@.map(|i: int, e: EnvEntry| e@)),
{
    let ghost efn = |i: int, e: EnvEntry| e@;
    let mut env: Vec<EnvEntry> = Vec::new();
    proof {
        assert(env@.map(efn) =~= Seq::<EnvEntryView>::empty());
        assert(env@.map(efn) =~= spec_default_env().subrange(0, 0));
    }
    add_prim(&mut env, vec![('%' as u8), ('e' as u8), ('r' as u8), ('r' as u8), ('o' as u8), ('r' as u8)], Prim::Raise);
    proof {
        assert(env@.map(efn)[0].name =~= spec_default_env()[0].name);
        assert(env@.map(efn)[0] =~= spec_default_env()[0]);
        assert(env@.map(efn) =~= spec_default_env().subrange(0, 1));
    }
    add_prim(&mut env, vec![('%' as u8), ('a' as u8), ('p' as u8), ('p' as u8), ('l' as u8), ('y' as u8)], Prim::Apply);
    proof {
        assert(env@.map(efn)[1].name =~= spec_default_env()[1].name);
        assert(env@.map(efn)[1] =~= spec_default_env()[1]);
        assert(env@.map(efn) =~= spec_default_env().subrange(0, 2));
    }
    add_prim(&mut env, vec![(':' as u8), ('s' as u8), ('t' as u8), ('a' as u8), ('c' as u8), ('k' as u8), ('s' as u8)], Prim::Stacks);
    proof {
        assert(env@.map(efn)[2].name =~= spec_default_env()[2].name);
        assert(env@.map(efn)[2] =~= spec_default_env()[2]);
        assert(env@.map(efn) =~= spec_default_env().subrange(0, 3));
    }
    add_prim(&mut env, vec![(':' as u8), ('w' as u8), ('o' as u8), ('r' as u8), ('d' as u8), ('s' as u8)], Prim::Words);
    proof {
        assert(env@.map(efn)[3].name =~= spec_default_env()[3].name);
        assert(env@.map(efn)[3] =~= spec_default_env()[3]);
        assert(env@.map(efn) =~= spec_default_env().subrange(0, 4));
    }
    add_prim(&mut env, vec![('%' as u8), ('>' as u8), ('>' as u8)], Prim::ToSecond);
    proof {
        assert(env@.map(efn)[4].name =~= spec_default_env()[4].name);
        assert(env@.map(efn)[4] =~= spec_default_env()[4]);
        assert(env@.map(efn) =~= spec_default_env().subrange(0, 5));
    }
    add_prim(&mut env, vec![('%' as u8), ('<' as u8), ('<' as u8)], Prim::FromSecond);
    proof {
        assert(env@.map(efn)[5].name =~= spec_default_env()[5].name);
        assert(env@.map(efn)[5] =~= spec_default_env()[5]);
        assert(env@.map(efn) =~= spec_default_env().subrange(0, 6));
    }
    add_prim(&mut env, vec![('%' as u8), ('@' as u8)], Prim::PickSecond);
    proof {
        assert(env@.map(efn)[6].name =~= spec_default_env()[6].name);
        assert(env@.map(efn)[6] =~= spec_default_env()[6]);
        assert(env@.map(efn) =~= spec_default_env().subrange(0, 7));
    }
    add_prim(&mut env, vec![('%' as u8), ('d' as u8), ('r' as u8), ('o' as u8), ('p' as u8)], Prim::Drop);
    proof {
        assert(env@.map(efn)[7].name =~= spec_default_env()[7].name);
        assert(env@.map(efn)[7] =~= spec_default_env()[7]);
        assert(env@.map(efn) =~= spec_default_env().subrange(0, 8));
    }
    add_prim(&mut env, vec![('%' as u8), ('d' as u8), ('u' as u8), ('p' as u8)], Prim::Dup);
    proof {
        assert(env@.map(efn)[8].name =~= spec_default_env()[8].name);
        assert(env@.map(efn)[8] =~= spec_default_env()[8]);
        assert(env@.map(efn) =~= spec_default_env().subrange(0, 9));
    }
    add_prim(&mut env, vec![('%' as u8), ('o' as u8), ('v' as u8), ('e' as u8), ('r' as u8)], Prim::Over);
    proof {
        assert(env@.map(efn)[9].name =~= spec_default_env()[9].name);
        assert(env@.map(efn)[9] =~= spec_default_env()[9]);
        assert(env@.map(efn) =~= spec_default_env().subrange(0, 10));
    }
    add_prim(&mut env, vec![('%' as u8), ('s' as u8), ('w' as u8), ('a' as u8), ('p' as u8)], Prim::Swap);
    proof {
        assert(env@.map(efn)[10].name =~= spec_default_env()[10].name);
        assert(env@.map(efn)[10] =~= spec_default_env()[10]);
        assert(env@.map(efn) =~= spec_default_env().subrange(0, 11));
    }
    add_prim(&mut env, vec![('%' as u8), ('r' as u8), ('o' as u8), ('t' as u8)], Prim::Rot);
    proof {
        assert(env@.map(efn)[11].name =~= spec_default_env()[11].name);
        assert(env@.map(efn)[11] =~= spec_default_env()[11]);
        assert(env@.map(efn) =~= spec_default_env().subrange(0, 12));
    }
    add_prim(&mut env, vec![('%' as u8), ('.' as u8)], Prim::PrintAny);
    proof {
        assert(env@.map(efn)[12].name =~= spec_default_env()[12].name);
        assert(env@.map(efn)[12] =~= spec_default_env()[12]);
        assert(env@.map(efn) =~= spec_default_env().subrange(0, 13));
    }
    add_prim(&mut env, vec![('%' as u8), ('.' as u8), ('=' as u8)], Prim::EqAny);
    proof {
        assert(env@.map(efn)[13].name =~= spec_default_env()[13].name);
        assert(env@.map(efn)[13] =~= spec_default_env()[13]);
        assert(env@.map(efn) =~= spec_default_env().subrange(0, 14));
    }
    add_prim(&mut env, vec![('%' as u8), ('b' as u8), ('.' as u8)], Prim::PrintBool);
    proof {
        assert(env@.map(efn)[14].name =~= spec_default_env()[14].name);
        assert(env@.map(efn)[14] =~= spec_default_env()[14]);
        assert(env@.map(efn) =~= spec_default_env().subrange(0, 15));
    }
    add_prim(&mut env, vec![('%' as u8), ('b' as u8), ('b' as u8), ('=' as u8)], Prim::BoolEq);
    proof {
        assert(env@.map(efn)[15].name =~= spec_default_env()[15].name);
        assert(env@.map(efn)[15] =~= spec_default_env()[15]);
        assert(env@.map(efn) =~= spec_default_env().subrange(0, 16));
    }
    add_prim(&mut env, vec![('%' as u8), ('b' as u8), ('b' as u8), ('&' as u8)], Prim::BoolAnd);
    proof {
        assert(env@.map(efn)[16].name =~= spec_default_env()[16].name);
        assert(env@.map(efn)[16] =~= spec_default_env()[16]);
        assert(env@.map(efn) =~= spec_default_env().subrange(0, 17));
    }
    add_prim(&mut env, vec![('%' as u8), ('b' as u8), ('b' as u8), ('|' as u8)], Prim::BoolOr);
    proof {
        assert(env@.map(efn)[17].name =~= spec_default_env()[17].name);
        assert(env@.map(efn)[17] =~= spec_default_env()[17]);
        assert(env@.map(efn) =~= spec_default_env().subrange(0, 18));
    }
    add_prim(&mut env, vec![('%' as u8), ('i' as u8), ('.' as u8)], Prim::PrintInt);
    proof {
        assert(env@.map(efn)[18].name =~= spec_default_env()[18].name);
        assert(env@.map(efn)[18] =~= spec_default_env()[18]);
        assert(env@.map(efn) =~= spec_default_env().subrange(0, 19));
    }
    add_prim(&mut env, vec![('%' as u8), ('i' as u8), ('i' as u8), ('=' as u8)], Prim::IntEq);
    proof {
        assert(env@.map(efn)[19].name =~= spec_default_env()[19].name);
        assert(env@.map(efn)[19] =~= spec_default_env()[19]);
        assert(env@.map(efn) =~= spec_default_env().subrange(0, 20));
    }
    add_prim(&mut env, vec![('%' as u8), ('i' as u8), ('i' as u8), ('<' as u8)], Prim::IntLt);
    proof {
        assert(env@.map(efn)[20].name =~= spec_default_env()[20].name);
        assert(env@.map(efn)[20] =~= spec_default_env()[20]);
        assert(env@.map(efn) =~= spec_default_env().subrange(0, 21));
    }
    add_prim(&mut env, vec![('%' as u8), ('i' as u8), ('i' as u8), ('+' as u8)], Prim::IntAdd);
    proof {
        assert(env@.map(efn)[21].name =~= spec_default_env()[21].name);
        assert(env@.map(efn)[21] =~= spec_default_env()[21]);
        assert(env@.map(efn) =~= spec_default_env().subrange(0, 22));
    }
    add_prim(&mut env, vec![('%' as u8), ('i' as u8), ('i' as u8), ('-' as u8)], Prim::IntSub);
    proof {
        assert(env@.map(efn)[22].name =~= spec_default_env()[22].name);
        assert(env@.map(efn)[22] =~= spec_default_env()[22]);
        assert(env@.map(efn) =~= spec_default_env().subrange(0, 23));
    }
    add_prim(&mut env, vec![('%' as u8), ('i' as u8), ('i' as u8), ('*' as u8)], Prim::IntMul);
    proof {
        assert(env@.map(efn)[23].name =~= spec_default_env()[23].name);
        assert(env@.map(efn)[23] =~= spec_default_env()[23]);
        assert(env@.map(efn) =~= spec_default_env().subrange(0, 24));
    }
    add_prim(&mut env, vec![('%' as u8), ('i' as u8), ('i' as u8), ('/' as u8)], Prim::IntDiv);
    proof {
        assert(env@.map(efn)[24].name =~= spec_default_env()[24].name);
        assert(env@.map(efn)[24] =~= spec_default_env()[24]);
        assert(env@.map(efn) =~= spec_default_env().subrange(0, 25));
    }
    add_prim(&mut env, vec![('%' as u8), ('f' as u8), ('.' as u8)], Prim::PrintFlt);
    proof {
        assert(env@.map(efn)[25].name =~= spec_default_env()[25].name);
        assert(env@.map(efn)[25] =~= spec_default_env()[25]);
        assert(env@.map(efn) =~= spec_default_env().subrange(0, 26));
    }
    add_prim(&mut env, vec![('%' as u8), ('i' as u8), ('-' as u8), ('>' as u8), ('f' as u8)], Prim::IntToFlt);
    proof {
        assert(env@.map(efn)[26].name =~= spec_default_env()[26].name);
        assert(env@.map(efn)[26] =~= spec_default_env()[26]);
        assert(env@.map(efn) =~= spec_default_env().subrange(0, 27));
    }
    add_prim(&mut env, vec![('%' as u8), ('f' as u8), ('f' as u8), ('=' as u8)], Prim::FltEq);
    proof {
        assert(env@.map(efn)[27].name =~= spec_default_env()[27].name);
        assert(env@.map(efn)[27] =~= spec_default_env()[27]);
        assert(env@.map(efn) =~= spec_default_env().subrange(0, 28));
    }
    add_prim(&mut env, vec![('%' as u8), ('f' as u8), ('f' as u8), ('<' as u8)], Prim::FltLt);
    proof {
        assert(env@.map(efn)[28].name =~= spec_default_env()[28].name);
        assert(env@.map(efn)[28] =~= spec_default_env()[28]);
        assert(env@.map(efn) =~= spec_default_env().subrange(0, 29));
    }
    add_prim(&mut env, vec![('%' as u8), ('f' as u8), ('f' as u8), ('+' as u8)], Prim::FltAdd);
    proof {
        assert(env@.map(efn)[29].name =~= spec_default_env()[29].name);
        assert(env@.map(efn)[29] =~= spec_default_env()[29]);
        assert(env@.map(efn) =~= spec_default_env().subrange(0, 30));
    }
    add_prim(&mut env, vec![('%' as u8), ('f' as u8), ('f' as u8), ('-' as u8)], Prim::FltSub);
    proof {
        assert(env@.map(efn)[30].name =~= spec_default_env()[30].name);
        assert(env@.map(efn)[30] =~= spec_default_env()[30]);
        assert(env@.map(efn) =~= spec_default_env().subrange(0, 31));
    }
    add_prim(&mut env, vec![('%' as u8), ('f' as u8), ('f' as u8), ('*' as u8)], Prim::FltMul);
    proof {
        assert(env@.map(efn)[31].name =~= spec_default_env()[31].name);
        assert(env@.map(efn)[31] =~= spec_default_env()[31]);
        assert(env@.map(efn) =~= spec_default_env().subrange(0, 32));
    }
    add_prim(&mut env, vec![('%' as u8), ('f' as u8), ('f' as u8), ('/' as u8)], Prim::FltDiv);
    proof {
        assert(env@.map(efn)[32].name =~= spec_default_env()[32].name);
        assert(env@.map(efn)[32] =~= spec_default_env()[32]);
        assert(env@.map(efn) =~= spec_default_env().subrange(0, 33));
    }
    add_prim(&mut env, vec![('%' as u8), ('f' as u8), ('s' as u8), ('q' as u8), ('r' as u8), ('t' as u8)], Prim::FltSqrt);
    proof {
        assert(env@.map(efn)[33].name =~= spec_default_env()[33].name);
        assert(env@.map(efn)[33] =~= spec_default_env()[33]);
        assert(env@.map(efn) =~= spec_default_env().subrange(0, 34));
    }
    add_prim(&mut env, vec![('%' as u8), ('f' as u8), ('l' as u8), ('o' as u8), ('g' as u8)], Prim::FltLog);
    proof {
        assert(env@.map(efn)[34].name =~= spec_default_env()[34].name);
        assert(env@.map(efn)[34] =~= spec_default_env()[34]);
        assert(env@.map(efn) =~= spec_default_env().subrange(0, 35));
    }
    add_prim(&mut env, vec![('%' as u8), ('f' as u8), ('s' as u8), ('i' as u8), ('n' as u8)], Prim::FltSin);
    proof {
        assert(env@.map(efn)[35].name =~= spec_default_env()[35].name);
        assert(env@.map(efn)[35] =~= spec_default_env()[35]);
        assert(env@.map(efn) =~= spec_default_env().subrange(0, 36));
    }
    add_prim(&mut env, vec![('%' as u8), ('f' as u8), ('c' as u8), ('o' as u8), ('s' as u8)], Prim::FltCos);
    proof {
        assert(env@.map(efn)[36].name =~= spec_default_env()[36].name);
        assert(env@.map(efn)[36] =~= spec_default_env()[36]);
        assert(env@.map(efn) =~= spec_default_env().subrange(0, 37));
    }
    add_prim(&mut env, vec![('%' as u8), ('s' as u8), ('.' as u8)], Prim::PrintStr);
    proof {
        assert(env@.map(efn)[37].name =~= spec_default_env()[37].name);
        assert(env@.map(efn)[37] =~= spec_default_env()[37]);
        assert(env@.map(efn) =~= spec_default_env().subrange(0, 38));
    }
    add_prim(&mut env, vec![('%' as u8), ('p' as u8), ('r' as u8), ('i' as u8), ('n' as u8), ('t' as u8), ('l' as u8), ('n' as u8)], Prim::PrintLn);
    proof {
        assert(env@.map(efn)[38].name =~= spec_default_env()[38].name);
        assert(env@.map(efn)[38] =~= spec_default_env()[38]);
        assert(env@.map(efn) =~= spec_default_env().subrange(0, 39));
    }
    add_prim(&mut env, vec![('%' as u8), ('s' as u8), ('s' as u8), ('=' as u8)], Prim::StrEq);
    proof {
        assert(env@.map(efn)[39].name =~= spec_default_env()[39].name);
        assert(env@.map(efn)[39] =~= spec_default_env()[39]);
        assert(env@.map(efn) =~= spec_default_env().subrange(0, 40));
    }
    add_prim(&mut env, vec![('%' as u8), ('f' as u8), ('m' as u8), ('t' as u8)], Prim::Fmt);
    proof {
        assert(env@.map(efn)[40].name =~= spec_default_env()[40].name);
        assert(env@.map(efn)[40] =~= spec_default_env()[40]);
        assert(env@.map(efn) =~= spec_default_env().subrange(0, 41));
    }
    add_prim(&mut env, vec![('%' as u8), ('\'' as u8), ('.' as u8)], Prim::PrintSym);
    proof {
        assert(env@.map(efn)[41].name =~= spec_default_env()[41].name);
        assert(env@.map(efn)[41] =~= spec_default_env()[41]);
        assert(env@.map(efn) =~= spec_default_env().subrange(0, 42));
    }
    add_prim(&mut env, vec![('%' as u8), ('\'' as u8), ('\'' as u8), ('=' as u8)], Prim::SymEq);
    proof {
        assert(env@.map(efn)[42].name =~= spec_default_env()[42].name);
        assert(env@.map(efn)[42] =~= spec_default_env()[42]);
        assert(env@.map(efn) =~= spec_default_env().subrange(0, 43));
    }
    proof {
        assert(spec_default_env().subrange(0, 43) =~= spec_default_env());
        assert(env@.map(|i: int, e: EnvEntry| e@) == env@.map(efn));
    }
    env
}

} // verus!
