//! The type-term and constraint model: a type is either a constructor applied
//! to argument types or a numbered type variable.  Terms are modelled in
//! specifications by `TypeV`, whose constructor names are character sequences
//! and whose variable identifiers are unbounded naturals.

use vstd::prelude::*;

verus! {

/// A type term.
#[derive(Debug, PartialEq)]
pub enum Type {
    /// A type constructor applied to zero or more argument types.  A nullary
    /// constructor such as `Int` is a concrete type; `Fun` with two arguments
    /// is the type of a one-parameter function.
    Con { name: String, args: Vec<Type> },
    /// An unconstrained type variable, identified by a dense index into the
    /// substitution store.
    Var(usize),
}

/// The mathematical model of a type term.
#[verifier::ext_equal]
pub enum TypeV {
    Con { name: Seq<char>, args: Seq<TypeV> },
    Var(nat),
}

/// Model of a single type term.
pub open spec fn ty_view(t: Type) -> TypeV
    decreases t,
{
    match t {
        Type::Var(x) => TypeV::Var(x as nat),
        Type::Con { name, args } => TypeV::Con { name: name@, args: tys_view(args@) },
    }
}

/// Model of a sequence of type terms, element-wise.
pub open spec fn tys_view(ts: Seq<Type>) -> Seq<TypeV>
    decreases ts,
{
    if ts.len() == 0 {
        Seq::empty()
    } else {
        seq![ty_view(ts[0])] + tys_view(ts.subrange(1, ts.len() as int))
    }
}

impl View for Type {
    type V = TypeV;

    open spec fn view(&self) -> TypeV {
        ty_view(*self)
    }
}

pub proof fn lemma_tys_view_index(ts: Seq<Type>)
    ensures
        tys_view(ts).len() == ts.len(),
        forall|i: int| 0 <= i < ts.len() ==> tys_view(ts)[i] == ty_view(#[trigger] ts[i]),
    decreases ts,
{
    if ts.len() > 0 {
        let tail = ts.subrange(1, ts.len() as int);
        lemma_tys_view_index(tail);
        assert forall|i: int| 0 <= i < ts.len() implies tys_view(ts)[i] == ty_view(
            #[trigger] ts[i],
        ) by {
            if i > 0 {
                assert(tail[i - 1] == ts[i]);
                assert(tys_view(ts)[i] == tys_view(tail)[i - 1]);
            }
        }
    }
}

/// Number of nodes in a term; the structural part of termination measures.
pub open spec fn size(t: TypeV) -> nat
    decreases t,
{
    match t {
        TypeV::Var(_) => 1,
        TypeV::Con { name: _, args } => 1 + size_seq(args),
    }
}

pub open spec fn size_seq(ts: Seq<TypeV>) -> nat
    decreases ts,
{
    if ts.len() == 0 {
        0
    } else {
        1 + size(ts[0]) + size_seq(ts.subrange(1, ts.len() as int))
    }
}

pub proof fn lemma_size_seq_ge(ts: Seq<TypeV>, i: int)
    requires
        0 <= i < ts.len(),
    ensures
        size_seq(ts) > size(ts[i]),
    decreases ts,
{
    if i > 0 {
        lemma_size_seq_ge(ts.subrange(1, ts.len() as int), i - 1);
    }
}

/// Whether variable `j` occurs syntactically in `t` (without following any
/// substitution-store bindings).
pub open spec fn synoccurs(j: nat, t: TypeV) -> bool
    decreases t,
{
    match t {
        TypeV::Var(x) => x == j,
        TypeV::Con { name: _, args } => synoccurs_seq(j, args),
    }
}

pub open spec fn synoccurs_seq(j: nat, ts: Seq<TypeV>) -> bool
    decreases ts,
{
    ts.len() > 0 && (synoccurs(j, ts[0]) || synoccurs_seq(j, ts.subrange(1, ts.len() as int)))
}

/// A variable occurring in an element occurs in the sequence.
pub proof fn lemma_synoccurs_elem(ts: Seq<TypeV>, i: int)
    requires
        0 <= i < ts.len(),
    ensures
        forall|j: nat| synoccurs(j, ts[i]) ==> synoccurs_seq(j, ts),
    decreases ts,
{
    if i > 0 {
        let tail = ts.subrange(1, ts.len() as int);
        lemma_synoccurs_elem(tail, i - 1);
        assert(tail[i - 1] == ts[i]);
        assert forall|j: nat| synoccurs(j, ts[i]) implies synoccurs_seq(j, ts) by {
            assert(synoccurs_seq(j, tail));
        }
    }
}

/// All variables occurring in `t` have identifiers below `n`, the size of the
/// substitution store.
pub open spec fn term_wf(n: nat, t: TypeV) -> bool {
    forall|j: nat| synoccurs(j, t) ==> j < n
}

pub proof fn lemma_tys_view_push(ts: Seq<Type>, t: Type)
    ensures
        tys_view(ts.push(t)) == tys_view(ts).push(ty_view(t)),
{
    lemma_tys_view_index(ts.push(t));
    lemma_tys_view_index(ts);
    assert forall|i: int| 0 <= i < ts.len() + 1 implies tys_view(ts.push(t))[i] == tys_view(
        ts,
    ).push(ty_view(t))[i] by {
        if i < ts.len() {
            assert(ts.push(t)[i] == ts[i]);
        } else {
            assert(ts.push(t)[i] == t);
        }
    }
    assert(tys_view(ts.push(t)) =~= tys_view(ts).push(ty_view(t)));
}

/// A binary constructor term is well formed when its two arguments are.
pub proof fn lemma_term_wf_con2(n: nat, name: Seq<char>, a: TypeV, b: TypeV)
    requires
        term_wf(n, a),
        term_wf(n, b),
    ensures
        term_wf(n, TypeV::Con { name, args: seq![a, b] }),
{
    let args = seq![a, b];
    assert forall|j: nat| synoccurs(j, TypeV::Con { name, args }) implies j < n by {
        assert(synoccurs_seq(j, args));
        let tail = args.subrange(1, 2);
        assert(tail =~= seq![b]);
        if synoccurs(j, args[0]) {
            assert(synoccurs(j, a));
        } else {
            assert(synoccurs_seq(j, tail));
            assert(synoccurs(j, b) || synoccurs_seq(j, tail.subrange(1, 1)));
            assert(tail.subrange(1, 1).len() == 0);
        }
    }
}

/// A required equality between two type terms, to be resolved by unification.
#[derive(Debug, PartialEq)]
pub enum Constraint {
    Eq(Type, Type),
}

impl View for Constraint {
    type V = (TypeV, TypeV);

    open spec fn view(&self) -> (TypeV, TypeV) {
        match self {
            Constraint::Eq(a, b) => (a@, b@),
        }
    }
}

/// The failure values of inference and unification.
#[derive(Debug, PartialEq)]
pub enum TypeError {
    /// A variable expression referenced a name absent from every scope.
    UnboundVariable(String),
    /// Two constructor terms disagreed on constructor name or argument count.
    TypeMismatch { left: Type, right: Type },
    /// Binding the given variable would have created a self-referential type.
    InfiniteType(usize),
}

/// The mathematical model of a failure value.
pub enum TypeErrorV {
    UnboundVariable(Seq<char>),
    TypeMismatch(TypeV, TypeV),
    InfiniteType(nat),
}

impl View for TypeError {
    type V = TypeErrorV;

    open spec fn view(&self) -> TypeErrorV {
        match self {
            TypeError::UnboundVariable(name) => TypeErrorV::UnboundVariable(name@),
            TypeError::TypeMismatch { left, right } => TypeErrorV::TypeMismatch(left@, right@),
            TypeError::InfiniteType(x) => TypeErrorV::InfiniteType(*x as nat),
        }
    }
}

/// A deep copy of a type term, preserving its model.
#[verifier::loop_isolation(false)]
pub fn clone_ty(t: &Type) -> (r: Type)
    ensures
        r@ == t@,
    decreases t,
{
    match t {
        Type::Var(x) => Type::Var(*x),
        Type::Con { name, args } => {
            let mut new_args: Vec<Type> = Vec::new();
            let mut i: usize = 0;
            while i < args.len()
                invariant
                    i <= args.len(),
                    new_args@.len() == i,
                    forall|k: int| 0 <= k < i ==> new_args@[k]@ == args@[k]@,
                decreases args.len() - i,
            {
                proof {
                    assert(decreases_to!(*t => *args));
                    assert(decreases_to!(*args => args@[i as int]));
                }
                let a = clone_ty(&args[i]);
                new_args.push(a);
                i += 1;
            }
            proof {
                lemma_tys_view_index(new_args@);
                lemma_tys_view_index(args@);
                assert forall|k: int| 0 <= k < args@.len() implies tys_view(new_args@)[k]
                    == tys_view(args@)[k] by {
                    assert(new_args@[k]@ == args@[k]@);
                }
                assert(tys_view(new_args@) =~= tys_view(args@));
            }
            Type::Con { name: name.clone(), args: new_args }
        },
    }
}

} // verus!
