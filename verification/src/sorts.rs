//! The declarations of the schema's sorts and functions, sent to the
//! reasoning engine once, before any assertion.

use vstd::prelude::*;
use vstd::string::StringExecFns;

verus! {

/// The definition of one sort of the schema, as the engine reads it.
pub struct TySort(pub &'static str);

/// The declaration of one function of the schema.
pub struct FuncSort(pub &'static str);

/// The declaration of one relation of the schema.
pub struct RelationSort(pub &'static str);

/// The definitions of the sorts, one after the other.
pub open spec fn ty_defs_text(sorts: Seq<TySort>) -> Seq<char>
    decreases sorts.len(),
{
    if sorts.len() == 0 {
        Seq::empty()
    } else {
        ty_defs_text(sorts.drop_last()) + sorts.last().0@
    }
}

/// The declarations of the functions, one after the other.
pub open spec fn func_defs_text(funcs: Seq<FuncSort>) -> Seq<char>
    decreases funcs.len(),
{
    if funcs.len() == 0 {
        Seq::empty()
    } else {
        func_defs_text(funcs.drop_last()) + funcs.last().0@
    }
}

/// The text that declares a schema: `(datatype* <sorts> ) <functions>`.
pub open spec fn type_defs_text(sorts: Seq<TySort>, funcs: Seq<FuncSort>) -> Seq<char> {
    "(datatype* "@ + ty_defs_text(sorts) + " ) "@ + func_defs_text(funcs)
}

/// Writes the text that declares the sorts and functions of a schema.
pub fn collect_string_type_defs(sorts: &Vec<TySort>, funcs: &Vec<FuncSort>) -> (s: String)
    ensures
        s@ == type_defs_text(sorts@, funcs@),
{
    let mut s = String::from_str("(datatype* ");
    let mut i: usize = 0;
    while i < sorts.len()
        invariant
            i <= sorts.len(),
            s@ == "(datatype* "@ + ty_defs_text(sorts@.take(i as int)),
        decreases sorts.len() - i,
    {
        s.append(sorts[i].0);
        i += 1;
        proof {
            let now = sorts@.take(i as int);
            assert(now.drop_last() =~= sorts@.take(i - 1));
            assert(now.last() == sorts@[i - 1]);
            assert(s@ =~= "(datatype* "@ + ty_defs_text(now));
        }
    }
    assert(sorts@.take(sorts.len() as int) =~= sorts@);
    s.append(" ) ");
    let ghost head = s@;
    let mut i: usize = 0;
    while i < funcs.len()
        invariant
            i <= funcs.len(),
            s@ == head + func_defs_text(funcs@.take(i as int)),
        decreases funcs.len() - i,
    {
        s.append(funcs[i].0);
        i += 1;
        proof {
            let now = funcs@.take(i as int);
            assert(now.drop_last() =~= funcs@.take(i - 1));
            assert(now.last() == funcs@[i - 1]);
            assert(s@ =~= head + func_defs_text(now));
        }
    }
    assert(funcs@.take(funcs.len() as int) =~= funcs@);
    s
}

} // verus!
