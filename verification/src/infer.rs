//! The type inference engine: a substitution store with fresh-variable
//! allocation, a stack of lexical scopes, constraint generation over an
//! expression tree, and the unifier that solves the collected constraints.

use vstd::prelude::*;

verus! {

use crate::expr::Expr;
use crate::types::Constraint;
use crate::types::Type;
use crate::types::TypeError;
use crate::types::TypeErrorV;
use crate::types::TypeV;
use crate::types::clone_ty;
use crate::types::term_wf;
use crate::types::synoccurs;
use crate::types::ty_view;
use crate::types::tys_view;
use crate::types::lemma_term_wf_con2;
use crate::types::lemma_tys_view_index;
use crate::types::lemma_tys_view_push;
use crate::subst::hc;
use crate::subst::occ;
use crate::subst::rank_of;
use crate::subst::resolved;
use crate::subst::resolved_seq;
use crate::subst::slot_is_bound;
use crate::subst::store_extends;
use crate::subst::store_ok;
use crate::subst::unbound_count;
use crate::subst::lemma_bind_ok;
use crate::subst::lemma_bind_unbound_count;
use crate::subst::lemma_chase_rank;
use crate::subst::lemma_push_ok;
use crate::subst::lemma_rank_seq_ge;
use crate::subst::lemma_resolved_extends;
use crate::subst::lemma_resolved_seq_index;
use crate::types::lemma_size_seq_ge;
use crate::types::size;
use crate::types::size_seq;
use crate::subst::lemma_rsize_seq_unfold;

/// The model of one scope: name/type pairs in insertion order.
pub open spec fn scope_view(sc: Seq<(String, Type)>) -> Seq<(Seq<char>, TypeV)> {
    Seq::new(sc.len(), |i: int| (sc[i].0@, sc[i].1@))
}

/// The model of the engine's state.
#[verifier::ext_equal]
pub struct EngineV {
    /// Slot `i` holds the binding of type variable `i`.
    pub subst: Seq<TypeV>,
    /// Collected equality constraints, in generation order.
    pub constraints: Seq<(TypeV, TypeV)>,
    /// The scope stack; the last scope is the innermost.
    pub env: Seq<Seq<(Seq<char>, TypeV)>>,
}

/// The type inference engine.
pub struct Engine {
    /// The substitution: slot `i` maps type variable `i` to a type term;
    /// a slot holding its own variable is unbound.
    subst: Vec<Type>,
    /// The set of collected relationships between type terms.
    constraints: Vec<Constraint>,
    /// A stack of scopes.
    env: Vec<Vec<(String, Type)>>,
}

impl View for Engine {
    type V = EngineV;

    closed spec fn view(&self) -> EngineV {
        EngineV {
            subst: tys_view(self.subst@),
            constraints: Seq::new(self.constraints@.len(), |i: int| self.constraints@[i]@),
            env: Seq::new(self.env@.len(), |i: int| scope_view(self.env@[i]@)),
        }
    }
}

/// Innermost-last lookup within one scope: the latest insertion wins.
pub open spec fn lookup_scope(sc: Seq<(Seq<char>, TypeV)>, name: Seq<char>) -> Option<TypeV>
    decreases sc.len(),
{
    if sc.len() == 0 {
        Option::None
    } else if sc.last().0 == name {
        Option::Some(sc.last().1)
    } else {
        lookup_scope(sc.drop_last(), name)
    }
}

/// Innermost-first lookup across the scope stack: the first match wins.
pub open spec fn lookup_env(env: Seq<Seq<(Seq<char>, TypeV)>>, name: Seq<char>) -> Option<TypeV>
    decreases env.len(),
{
    if env.len() == 0 {
        Option::None
    } else {
        match lookup_scope(env.last(), name) {
            Option::Some(t) => Option::Some(t),
            Option::None => lookup_env(env.drop_last(), name),
        }
    }
}

/// The model of an optional type term.
pub open spec fn opt_model(r: Option<Type>) -> Option<TypeV> {
    match r {
        Option::Some(t) => Option::Some(t@),
        Option::None => Option::None,
    }
}

/// The model of an inference result.
pub open spec fn res_model(r: Result<Type, TypeError>) -> Result<TypeV, TypeErrorV> {
    match r {
        Result::Ok(t) => Result::Ok(t@),
        Result::Err(e) => Result::Err(e@),
    }
}

/// The model of a unification result.
pub open spec fn res_unit_model(r: Result<(), TypeError>) -> Result<(), TypeErrorV> {
    match r {
        Result::Ok(u) => Result::Ok(u),
        Result::Err(e) => Result::Err(e@),
    }
}

/// Size of the fully resolved forms of a sequence of terms.
pub open spec fn rsize_seq(s: Seq<TypeV>, ts: Seq<TypeV>) -> nat {
    size_seq(resolved_seq(s, ts))
}

/// One unification step over the store model, exactly as `unify` performs
/// it: equal variables are a no-op; a variable against another term binds
/// after an occurs check or chases its existing binding; two constructors
/// must agree on name and arity and have their arguments unified pairwise.
///
/// `fuel` bounds how often the store may change along an argument fold; it
/// exists only to bound the recursion, and any fuel of at least
/// `unbound_count(s)` — every store change binds a slot — yields the
/// algorithm's outcome, which `unify_step` takes.
pub open spec fn unify_fuel(fuel: nat, s: Seq<TypeV>, t1: TypeV, t2: TypeV) -> (Seq<
    TypeV,
>, Result<(), TypeErrorV>)
    decreases fuel, rsize(s, t1) + rsize(s, t2), hc(s, t1) + hc(s, t2), 1nat,
    when store_ok(s)
{
    match (t1, t2) {
        (TypeV::Var(x), TypeV::Var(y)) => {
            if x == y {
                (s, Result::Ok(()))
            } else {
                unify_var_fuel(fuel, s, x, t2)
            }
        },
        (TypeV::Var(x), _) => unify_var_fuel(fuel, s, x, t2),
        (_, TypeV::Var(x)) => unify_var_fuel(fuel, s, x, t1),
        (TypeV::Con { name: n1, args: a1 }, TypeV::Con { name: n2, args: a2 }) => {
            if n1 != n2 || a1.len() != a2.len() {
                (s, Result::Err(TypeErrorV::TypeMismatch(t1, t2)))
            } else {
                proof {
                    if store_ok(s) {
                        assert(rsize(s, t1) == 1 + rsize_seq(s, a1));
                        assert(rsize(s, t2) == 1 + rsize_seq(s, a2));
                    }
                }
                unify_args_fuel(fuel, s, a1, a2)
            }
        },
    }
}

/// Unify the variable `x` with `other` (never `Var(x)` itself): an unbound
/// `x` is occurs-checked and then bound; a bound `x` has its binding
/// unified with `other` instead.
pub open spec fn unify_var_fuel(fuel: nat, s: Seq<TypeV>, x: nat, other: TypeV) -> (Seq<
    TypeV,
>, Result<(), TypeErrorV>)
    decreases
        fuel,
        rsize(s, TypeV::Var(x)) + rsize(s, other),
        hc(s, TypeV::Var(x)) + hc(s, other),
        0nat,
    when store_ok(s) && x < s.len()
{
    if s[x as int] == TypeV::Var(x) {
        if occ(s, x, other) {
            (s, Result::Err(TypeErrorV::InfiniteType(x)))
        } else {
            (s.update(x as int, other), Result::Ok(()))
        }
    } else {
        proof {
            if store_ok(s) && x < s.len() {
                lemma_chase_rank(s, x);
            }
        }
        unify_fuel(fuel, s, s[x as int], other)
    }
}

/// Unify two equally long argument sequences pairwise, left to right,
/// short-circuiting on the first failure; the store evolving under earlier
/// pairs is the one later pairs are unified against.
pub open spec fn unify_args_fuel(fuel: nat, s: Seq<TypeV>, a1: Seq<TypeV>, a2: Seq<TypeV>) -> (Seq<
    TypeV,
>, Result<(), TypeErrorV>)
    decreases fuel, rsize_seq(s, a1) + rsize_seq(s, a2), 0nat, 2nat,
    when store_ok(s) && a1.len() == a2.len()
{
    if a1.len() == 0 {
        (s, Result::Ok(()))
    } else {
        proof {
            if store_ok(s) && a1.len() == a2.len() {
                lemma_rsize_seq_unfold(s, a1);
                lemma_rsize_seq_unfold(s, a2);
            }
        }
        let step = unify_fuel(fuel, s, a1[0], a2[0]);
        if step.1 is Err {
            step
        } else if step.0 == s {
            unify_args_fuel(
                fuel,
                s,
                a1.subrange(1, a1.len() as int),
                a2.subrange(1, a2.len() as int),
            )
        } else if fuel > 0 {
            unify_args_fuel(
                (fuel - 1) as nat,
                step.0,
                a1.subrange(1, a1.len() as int),
                a2.subrange(1, a2.len() as int),
            )
        } else {
            // Out of fuel; never reached when fuel started at
            // `unbound_count(s)`, since a changed store has bound a slot.
            step
        }
    }
}

/// The outcome of one unification against the store: the resulting store
/// and the result `unify` returns.
pub open spec fn unify_step(s: Seq<TypeV>, t1: TypeV, t2: TypeV) -> (Seq<TypeV>, Result<
    (),
    TypeErrorV,
>) {
    unify_fuel(unbound_count(s), s, t1, t2)
}

/// Solving a constraint list against the store, exactly as
/// `solve_constraints` performs it: each constraint is unified in original
/// insertion order against the store as the earlier ones left it, stopping
/// at the first failure.
pub open spec fn solve_step(s: Seq<TypeV>, cs: Seq<(TypeV, TypeV)>) -> (Seq<TypeV>, Result<
    (),
    TypeErrorV,
>)
    decreases cs.len(),
{
    if cs.len() == 0 {
        (s, Result::Ok(()))
    } else {
        let step = unify_step(s, cs[0].0, cs[0].1);
        if step.1 is Err {
            step
        } else {
            solve_step(step.0, cs.subrange(1, cs.len() as int))
        }
    }
}

impl Engine {
    /// The engine invariant: the substitution store is cycle-free and every
    /// term held anywhere mentions only variables the store covers, and the
    /// base scope is always present.
    pub open spec fn wf(self) -> bool {
        let m = self@;
        &&& store_ok(m.subst)
        &&& m.env.len() >= 1
        &&& forall|i: int|
            0 <= i < m.constraints.len() ==> term_wf(
                m.subst.len(),
                (#[trigger] m.constraints[i]).0,
            ) && term_wf(m.subst.len(), m.constraints[i].1)
        &&& forall|i: int, k: int|
            0 <= i < m.env.len() && 0 <= k < m.env[i].len() ==> term_wf(
                m.subst.len(),
                (#[trigger] m.env[i][k]).1,
            )
    }

    /// Create an engine whose base scope holds the given bindings, in order.
    /// The base types must be ground: no type variable exists yet.
    pub fn new(env: Vec<(String, Type)>) -> (r: Engine)
        requires
            forall|k: int| 0 <= k < env@.len() ==> term_wf(0, (#[trigger] env@[k]).1@),
        ensures
            r.wf(),
            r@.subst == Seq::<TypeV>::empty(),
            r@.constraints == Seq::<(TypeV, TypeV)>::empty(),
            r@.env == seq![scope_view(env@)],
    {
        let mut scopes: Vec<Vec<(String, Type)>> = Vec::new();
        scopes.push(env);
        let r = Engine { subst: Vec::new(), constraints: Vec::new(), env: scopes };
        proof {
            assert(tys_view(r.subst@) =~= Seq::<TypeV>::empty());
            assert(r@.constraints =~= Seq::<(TypeV, TypeV)>::empty());
            assert(r@.env =~= seq![scope_view(r.env@[0]@)]);
            assert(crate::subst::is_ranking(r@.subst, Seq::<nat>::empty()));
        }
        r
    }

    /// Allocate a fresh, unbound type variable: the store grows by one
    /// self-mapped slot and the new variable is returned.  Never fails.
    pub fn new_tyvar(&mut self) -> (r: Type)
        requires
            old(self).wf(),
        ensures
            final(self).wf(),
            final(self)@.subst == old(self)@.subst.push(TypeV::Var(old(self)@.subst.len())),
            final(self)@.constraints == old(self)@.constraints,
            final(self)@.env == old(self)@.env,
            r@ == TypeV::Var(old(self)@.subst.len()),
    {
        let tyvar_id = self.subst.len();
        let tyvar = Type::Var(tyvar_id);
        self.subst.push(Type::Var(tyvar_id));
        proof {
            lemma_tys_view_index(old(self).subst@);
            lemma_tys_view_push(old(self).subst@, Type::Var(tyvar_id));
            lemma_push_ok(old(self)@.subst);
            assert(final(self)@.constraints =~= old(self)@.constraints);
            assert(final(self)@.env =~= old(self)@.env);
        }
        tyvar
    }

    /// Enter a new, empty innermost scope.
    fn new_scope(&mut self)
        requires
            old(self).wf(),
        ensures
            final(self).wf(),
            final(self)@.subst == old(self)@.subst,
            final(self)@.constraints == old(self)@.constraints,
            final(self)@.env == old(self)@.env.push(Seq::<(Seq<char>, TypeV)>::empty()),
    {
        self.env.push(Vec::new());
        proof {
            assert(final(self)@.constraints =~= old(self)@.constraints);
            assert(scope_view(Seq::<(String, Type)>::empty()) =~= Seq::<(Seq<char>, TypeV)>::empty());
            assert(final(self)@.env =~= old(self)@.env.push(Seq::<(Seq<char>, TypeV)>::empty()));
        }
    }

    /// Leave the innermost scope.  The base scope is never popped.
    fn exit_scope(&mut self)
        requires
            old(self).wf(),
            old(self)@.env.len() >= 2,
        ensures
            final(self).wf(),
            final(self)@.subst == old(self)@.subst,
            final(self)@.constraints == old(self)@.constraints,
            final(self)@.env == old(self)@.env.drop_last(),
    {
        self.env.pop();
        proof {
            assert(final(self)@.constraints =~= old(self)@.constraints);
            assert(final(self)@.env =~= old(self)@.env.drop_last());
        }
    }

    /// Insert `(name, ty)` into the innermost scope, shadowing any earlier
    /// binding of the same name for the rest of that scope's lifetime.
    fn extend(&mut self, name: &str, ty: &Type)
        requires
            old(self).wf(),
            term_wf(old(self)@.subst.len(), ty@),
        ensures
            final(self).wf(),
            final(self)@.subst == old(self)@.subst,
            final(self)@.constraints == old(self)@.constraints,
            final(self)@.env == old(self)@.env.update(
                old(self)@.env.len() - 1,
                old(self)@.env.last().push((name@, ty@)),
            ),
    {
        let mut scope = self.env.pop().unwrap();
        scope.push((name.to_owned(), clone_ty(ty)));
        self.env.push(scope);
        proof {
            assert(final(self)@.constraints =~= old(self)@.constraints);
            assert(scope_view(scope@) =~= scope_view(old(self).env@.last()@).push((name@, ty@)));
            assert(final(self)@.env =~= old(self)@.env.update(
                old(self)@.env.len() - 1,
                old(self)@.env.last().push((name@, ty@)),
            ));
        }
    }

    /// Look a name up, scanning scopes from the innermost outward; the first
    /// match wins (lexical shadowing).
    #[verifier::loop_isolation(false)]
    fn get_var(&self, name: &str) -> (r: Option<Type>)
        requires
            self.wf(),
        ensures
            opt_model(r) == lookup_env(self@.env, name@),
            r matches Option::Some(t) ==> term_wf(self@.subst.len(), t@),
    {
        let name_key: String = name.to_owned();
        let ghost menv = self@.env;
        proof {
            assert(menv.subrange(0, menv.len() as int) =~= menv);
        }
        let mut i: usize = self.env.len();
        while i > 0
            invariant
                i <= self.env.len(),
                lookup_env(menv, name@) == lookup_env(menv.subrange(0, i as int), name@),
            decreases i,
        {
            let scope = &self.env[i - 1];
            let ghost msc = scope_view(scope@);
            proof {
                assert(msc == menv[i - 1]);
                assert(msc.subrange(0, msc.len() as int) =~= msc);
            }
            let mut k: usize = scope.len();
            while k > 0
                invariant
                    k <= scope.len(),
                    lookup_scope(msc, name@) == lookup_scope(msc.subrange(0, k as int), name@),
                decreases k,
            {
                if scope[k - 1].0 == name_key {
                    let found = clone_ty(&scope[k - 1].1);
                    proof {
                        assert(msc.subrange(0, k as int).last() == msc[k - 1]);
                        assert(msc[k - 1].0 == name@);
                        assert(lookup_scope(msc, name@) == Option::Some(msc[k - 1].1));
                        assert(menv.subrange(0, i as int).last() == menv[i - 1]);
                        assert(menv.subrange(0, i as int).drop_last() =~= menv.subrange(
                            0,
                            i - 1,
                        ));
                        assert(lookup_env(menv, name@) == Option::Some(msc[k - 1].1));
                        assert(found@ == msc[k - 1].1);
                    }
                    return Option::Some(found);
                }
                proof {
                    let pre = msc.subrange(0, k as int);
                    assert(pre.last() == msc[k - 1]);
                    assert(msc[k - 1].0 != name@);
                    assert(pre.drop_last() =~= msc.subrange(0, k - 1));
                }
                k -= 1;
            }
            proof {
                assert(msc.subrange(0, 0) =~= Seq::<(Seq<char>, TypeV)>::empty());
                assert(lookup_scope(msc, name@) is None);
                let pre = menv.subrange(0, i as int);
                assert(pre.last() == menv[i - 1]);
                assert(menv[i - 1] == msc);
                assert(pre.drop_last() =~= menv.subrange(0, i - 1));
            }
            i -= 1;
        }
        proof {
            assert(menv.subrange(0, 0) =~= Seq::<Seq<(Seq<char>, TypeV)>>::empty());
        }
        Option::None
    }

    /// The current slot value for `id`: still `Var(id)` itself while the
    /// variable is unbound, and otherwise the term it was bound to, which
    /// may itself contain further variables to chase.
    pub fn resolve_binding(&self, id: usize) -> (r: Type)
        requires
            self.wf(),
            id < self@.subst.len(),
        ensures
            r@ == self@.subst[id as int],
    {
        proof {
            lemma_tys_view_index(self.subst@);
        }
        clone_ty(&self.subst[id])
    }

    /// Read-only access to the current constraint list, for inspection.
    pub fn current_constraints(&self) -> (r: &Vec<Constraint>)
        ensures
            r@.len() == self@.constraints.len(),
            forall|i: int| 0 <= i < r@.len() ==> (#[trigger] r@[i])@ == self@.constraints[i],
    {
        &self.constraints
    }

    /// Read-only access to the current substitution table, for inspection.
    pub fn current_subst(&self) -> (r: &Vec<Type>)
        ensures
            tys_view(r@) == self@.subst,
    {
        &self.subst
    }
}

/// Whether `t` is exactly the variable `x`, the self-mapped (unbound) form.
fn is_self_var(t: &Type, x: usize) -> (b: bool)
    ensures
        b == (t@ == TypeV::Var(x as nat)),
{
    match t {
        Type::Var(y) => *y == x,
        Type::Con { name: _, args: _ } => false,
    }
}

impl Engine {
    /// Whether the type variable `index` is reachable from `ty` by chasing
    /// the current bindings: the occurs check.  A variable's binding is
    /// followed unless it is the variable itself.
    #[verifier::loop_isolation(false)]
    fn occurs_in(&self, index: usize, ty: &Type) -> (b: bool)
        requires
            self.wf(),
            term_wf(self@.subst.len(), ty@),
        ensures
            b == occ(self@.subst, index as nat, ty@),
        decreases rank_of(self@.subst, ty@), size(ty@),
    {
        let ghost s = self@.subst;
        match ty {
            Type::Con { name: _, args } => {
                let ghost argsv = tys_view(args@);
                proof {
                    lemma_tys_view_index(args@);
                    crate::subst::lemma_occ_seq_iff(s, index as nat, argsv);
                }
                let mut i: usize = 0;
                while i < args.len()
                    invariant
                        i <= args.len(),
                        forall|k: int| 0 <= k < i ==> !occ(s, index as nat, #[trigger] argsv[k]),
                    decreases args.len() - i,
                {
                    proof {
                        crate::types::lemma_synoccurs_elem(argsv, i as int);
                        assert forall|j: nat| synoccurs(j, argsv[i as int]) implies j
                            < s.len() by {
                            assert(crate::types::synoccurs_seq(j, argsv));
                            assert(synoccurs(j, ty@));
                        }
                        lemma_rank_seq_ge(s, argsv, i as int);
                        lemma_size_seq_ge(argsv, i as int);
                    }
                    if self.occurs_in(index, &args[i]) {
                        return true;
                    }
                    i += 1;
                }
                false
            },
            Type::Var(j) => {
                if *j == index {
                    proof {
                        assert(occ(s, index as nat, ty@));
                    }
                    true
                } else {
                    proof {
                        assert(synoccurs(*j as nat, ty@));
                        lemma_tys_view_index(self.subst@);
                    }
                    let binding = &self.subst[*j];
                    if is_self_var(binding, *j) {
                        proof {
                            assert(!slot_is_bound(s, *j as nat));
                        }
                        false
                    } else {
                        proof {
                            assert(slot_is_bound(s, *j as nat));
                            lemma_chase_rank(s, *j as nat);
                            assert(term_wf(s.len(), s[*j as int]));
                        }
                        self.occurs_in(index, binding)
                    }
                }
            },
        }
    }

    /// Apply the substitution store to `ty`: chase every variable to its
    /// final binding and resolve constructor arguments recursively,
    /// returning the fully resolved type.
    #[verifier::loop_isolation(false)]
    pub fn substitute(&self, ty: Type) -> (r: Type)
        requires
            self.wf(),
            term_wf(self@.subst.len(), ty@),
        ensures
            r@ == resolved(self@.subst, ty@),
        decreases rank_of(self@.subst, ty@), size(ty@),
    {
        let ghost s = self@.subst;
        match ty {
            Type::Var(x) => {
                proof {
                    assert(synoccurs(x as nat, TypeV::Var(x as nat)));
                    lemma_tys_view_index(self.subst@);
                }
                let binding = &self.subst[x];
                if is_self_var(binding, x) {
                    proof {
                        assert(!slot_is_bound(s, x as nat));
                    }
                    Type::Var(x)
                } else {
                    proof {
                        assert(slot_is_bound(s, x as nat));
                        lemma_chase_rank(s, x as nat);
                        assert(term_wf(s.len(), s[x as int]));
                    }
                    let b = clone_ty(binding);
                    self.substitute(b)
                }
            },
            Type::Con { name, args } => {
                let ghost argsv = tys_view(args@);
                let ghost tyv = ty_view(Type::Con { name, args });
                proof {
                    lemma_tys_view_index(args@);
                    lemma_resolved_seq_index(s, argsv);
                }
                let mut new_args: Vec<Type> = Vec::new();
                let mut i: usize = 0;
                while i < args.len()
                    invariant
                        i <= args.len(),
                        new_args@.len() == i,
                        forall|k: int|
                            0 <= k < i ==> (#[trigger] new_args@[k])@ == resolved(s, argsv[k]),
                    decreases args.len() - i,
                {
                    proof {
                        crate::types::lemma_synoccurs_elem(argsv, i as int);
                        assert forall|j: nat| synoccurs(j, argsv[i as int]) implies j
                            < s.len() by {
                            assert(crate::types::synoccurs_seq(j, argsv));
                            assert(synoccurs(j, tyv));
                        }
                        lemma_rank_seq_ge(s, argsv, i as int);
                        lemma_size_seq_ge(argsv, i as int);
                    }
                    let a = clone_ty(&args[i]);
                    let ra = self.substitute(a);
                    new_args.push(ra);
                    i += 1;
                }
                proof {
                    lemma_tys_view_index(new_args@);
                    assert forall|k: int| 0 <= k < args@.len() implies tys_view(new_args@)[k]
                        == resolved_seq(s, argsv)[k] by {
                        assert(tys_view(new_args@)[k] == (new_args@[k])@);
                        assert(resolved_seq(s, argsv)[k] == resolved(s, argsv[k]));
                    }
                    assert(tys_view(new_args@) =~= resolved_seq(s, argsv));
                }
                Type::Con { name, args: new_args }
            },
        }
    }
}


/// Size of the fully resolved form of `t`: a unification measure.
pub open spec fn rsize(s: Seq<TypeV>, t: TypeV) -> nat {
    size(resolved(s, t))
}

impl Engine {
    /// Unify the variable `x` with `other` (which is never `Var(x)` itself):
    /// an unbound `x` is occurs-checked and then bound to `other`; a bound
    /// `x` has its binding unified with `other` instead.
    fn unify_var(&mut self, x: usize, other: &Type) -> (r: Result<(), TypeError>)
        requires
            old(self).wf(),
            x < old(self)@.subst.len(),
            term_wf(old(self)@.subst.len(), other@),
            other@ != TypeV::Var(x as nat),
        ensures
            final(self).wf(),
            final(self)@.constraints == old(self)@.constraints,
            final(self)@.env == old(self)@.env,
            final(self)@.subst.len() == old(self)@.subst.len(),
            store_extends(final(self)@.subst, old(self)@.subst),
            final(self)@.subst == old(self)@.subst || unbound_count(final(self)@.subst)
                < unbound_count(old(self)@.subst),
            r is Ok ==> resolved(final(self)@.subst, TypeV::Var(x as nat)) == resolved(
                final(self)@.subst,
                other@,
            ),
            r matches Result::Err(e) ==> !(e@ is UnboundVariable),
            r matches Result::Err(e) ==> (e@ matches TypeErrorV::InfiniteType(v) ==> v
                < final(self)@.subst.len() && final(self)@.subst[v as int] == TypeV::Var(v)),
            r matches Result::Err(e) ==> (e@ matches TypeErrorV::TypeMismatch(lt, rt) ==> (
            lt matches TypeV::Con { name: ln, args: la } && rt matches TypeV::Con {
                name: rn,
                args: ra,
            } && (ln != rn || la.len() != ra.len()))),
            !slot_is_bound(old(self)@.subst, x as nat) && occ(old(self)@.subst, x as nat, other@)
                ==> (r matches Result::Err(e) && e@ == TypeErrorV::InfiniteType(x as nat)
                && final(self)@.subst == old(self)@.subst),
            !slot_is_bound(old(self)@.subst, x as nat) && !occ(old(self)@.subst, x as nat, other@)
                ==> r is Ok && final(self)@.subst == old(self)@.subst.update(x as int, other@),
            forall|f: nat|
                f >= unbound_count(old(self)@.subst) ==> #[trigger] unify_var_fuel(
                    f,
                    old(self)@.subst,
                    x as nat,
                    other@,
                ) == (final(self)@.subst, res_unit_model(r)),
        decreases
                unbound_count(old(self)@.subst),
                rsize(old(self)@.subst, TypeV::Var(x as nat)) + rsize(old(self)@.subst, other@),
                hc(old(self)@.subst, TypeV::Var(x as nat)) + hc(old(self)@.subst, other@),
                0nat,
    {
        let ghost s = old(self)@.subst;
        proof {
            lemma_tys_view_index(self.subst@);
        }
        let binding = clone_ty(&self.subst[x]);
        if is_self_var(&binding, x) {
            // x is unbound: occurs-check, then bind it.
            proof {
                assert(!slot_is_bound(s, x as nat));
            }
            if self.occurs_in(x, other) {
                proof {
                    assert forall|f: nat| f >= unbound_count(s) implies #[trigger] unify_var_fuel(
                        f,
                        s,
                        x as nat,
                        other@,
                    ) == (s, Result::<(), TypeErrorV>::Err(
                        TypeErrorV::InfiniteType(x as nat),
                    )) by {}
                }
                return Result::Err(TypeError::InfiniteType(x));
            }
            proof {
                lemma_bind_ok(s, x as nat, other@);
                lemma_bind_unbound_count(s, x as nat, other@);
            }
            let y = clone_ty(other);
            self.subst[x] = y;
            proof {
                lemma_tys_view_index(self.subst@);
                assert forall|i: int| 0 <= i < s.len() implies tys_view(self.subst@)[i]
                    == s.update(x as int, other@)[i] by {
                    if i != x {
                        assert(self.subst@[i] == old(self).subst@[i]);
                    }
                }
                assert(tys_view(self.subst@) =~= s.update(x as int, other@));
                let s2 = final(self)@.subst;
                assert(slot_is_bound(s2, x as nat));
                assert(resolved(s2, TypeV::Var(x as nat)) == resolved(s2, other@));
                assert forall|i: nat| slot_is_bound(s, i) implies s2[i as int] == #[trigger] s[
                    i as int] by {}
                assert(final(self)@.constraints =~= old(self)@.constraints);
                assert(final(self)@.env =~= old(self)@.env);
                assert forall|f: nat| f >= unbound_count(s) implies #[trigger] unify_var_fuel(
                    f,
                    s,
                    x as nat,
                    other@,
                ) == (s.update(x as int, other@), Result::<(), TypeErrorV>::Ok(())) by {}
            }
            Result::Ok(())
        } else {
            // x is already bound: its binding must stay consistent with the
            // new requirement.
            proof {
                assert(binding@ == s[x as int]);
                assert(slot_is_bound(s, x as nat));
                assert(term_wf(s.len(), s[x as int]));
                assert(resolved(s, TypeV::Var(x as nat)) == resolved(s, s[x as int]));
                assert(hc(s, TypeV::Var(x as nat)) == 1 + hc(s, s[x as int]));
            }
            let r = self.unify(&binding, other);
            proof {
                if r is Ok {
                    let s2 = final(self)@.subst;
                    assert(s2[x as int] == s[x as int]);
                    assert(slot_is_bound(s2, x as nat));
                    assert(resolved(s2, TypeV::Var(x as nat)) == resolved(s2, s2[x as int]));
                }
                assert forall|f: nat| f >= unbound_count(s) implies #[trigger] unify_var_fuel(
                    f,
                    s,
                    x as nat,
                    other@,
                ) == (final(self)@.subst, res_unit_model(r)) by {
                    assert(unify_var_fuel(f, s, x as nat, other@) == unify_fuel(
                        f,
                        s,
                        s[x as int],
                        other@,
                    ));
                    assert(unify_fuel(f, s, binding@, other@) == (
                        final(self)@.subst,
                        res_unit_model(r),
                    ));
                }
            }
            r
        }
    }

    /// Require `t1 == t2`, updating the substitution in the process.  Two
    /// constructor terms must agree on name and arity and have their
    /// arguments unified pairwise; a variable is bound after an occurs
    /// check, or has its existing binding unified with the other side.  The
    /// resulting store and outcome are exactly those of `unify_step` over
    /// the store model.
    #[verifier::loop_isolation(false)]
    pub fn unify(&mut self, t1: &Type, t2: &Type) -> (r: Result<(), TypeError>)
        requires
            old(self).wf(),
            term_wf(old(self)@.subst.len(), t1@),
            term_wf(old(self)@.subst.len(), t2@),
        ensures
            final(self).wf(),
            final(self)@.constraints == old(self)@.constraints,
            final(self)@.env == old(self)@.env,
            final(self)@.subst.len() == old(self)@.subst.len(),
            store_extends(final(self)@.subst, old(self)@.subst),
            final(self)@.subst == old(self)@.subst || unbound_count(final(self)@.subst)
                < unbound_count(old(self)@.subst),
            r is Ok ==> resolved(final(self)@.subst, t1@) == resolved(final(self)@.subst, t2@),
            r matches Result::Err(e) ==> !(e@ is UnboundVariable),
            r matches Result::Err(e) ==> (e@ matches TypeErrorV::InfiniteType(v) ==> v
                < final(self)@.subst.len() && final(self)@.subst[v as int] == TypeV::Var(v)),
            r matches Result::Err(e) ==> (e@ matches TypeErrorV::TypeMismatch(lt, rt) ==> (
            lt matches TypeV::Con { name: ln, args: la } && rt matches TypeV::Con {
                name: rn,
                args: ra,
            } && (ln != rn || la.len() != ra.len()))),
            t1@ == t2@ ==> r is Ok && final(self)@.subst == old(self)@.subst,
            t1@ matches TypeV::Var(x) ==> t2@ == TypeV::Var(x) ==> r is Ok && final(self)@.subst
                == old(self)@.subst,
            t1@ matches TypeV::Con { name: n1, args: a1 } ==> (t2@ matches TypeV::Con {
                name: n2,
                args: a2,
            } ==> ((n1 != n2 || a1.len() != a2.len()) ==> (r matches Result::Err(e) && e@
                == TypeErrorV::TypeMismatch(t1@, t2@) && final(self)@.subst == old(
                self,
            )@.subst))),
            t1@ matches TypeV::Var(x) ==> ((t2@ != TypeV::Var(x) && !slot_is_bound(
                old(self)@.subst,
                x,
            ) && occ(old(self)@.subst, x, t2@)) ==> (r matches Result::Err(e) && e@
                == TypeErrorV::InfiniteType(x) && final(self)@.subst == old(self)@.subst)),
            t1@ matches TypeV::Var(x) ==> ((t2@ != TypeV::Var(x) && !slot_is_bound(
                old(self)@.subst,
                x,
            ) && !occ(old(self)@.subst, x, t2@)) ==> (r is Ok && final(self)@.subst == old(
                self,
            )@.subst.update(x as int, t2@))),
            t2@ matches TypeV::Var(x) ==> ((t1@ is Con && !slot_is_bound(old(self)@.subst, x)
                && occ(old(self)@.subst, x, t1@)) ==> (r matches Result::Err(e) && e@
                == TypeErrorV::InfiniteType(x) && final(self)@.subst == old(self)@.subst)),
            t2@ matches TypeV::Var(x) ==> ((t1@ is Con && !slot_is_bound(old(self)@.subst, x)
                && !occ(old(self)@.subst, x, t1@)) ==> (r is Ok && final(self)@.subst == old(
                self,
            )@.subst.update(x as int, t1@))),
            forall|f: nat|
                f >= unbound_count(old(self)@.subst) ==> #[trigger] unify_fuel(
                    f,
                    old(self)@.subst,
                    t1@,
                    t2@,
                ) == (final(self)@.subst, res_unit_model(r)),
            (final(self)@.subst, res_unit_model(r)) == unify_step(old(self)@.subst, t1@, t2@),
        decreases
                unbound_count(old(self)@.subst),
                rsize(old(self)@.subst, t1@) + rsize(old(self)@.subst, t2@),
                hc(old(self)@.subst, t1@) + hc(old(self)@.subst, t2@),
                1nat,
    {
        let ghost s = old(self)@.subst;
        match (t1, t2) {
            (Type::Var(x), Type::Var(y)) => {
                if *x == *y {
                    proof {
                        assert forall|f: nat| f >= unbound_count(s) implies #[trigger] unify_fuel(
                            f,
                            s,
                            t1@,
                            t2@,
                        ) == (s, Result::<(), TypeErrorV>::Ok(())) by {}
                        assert(unify_fuel(unbound_count(s), s, t1@, t2@) == (
                            s,
                            Result::<(), TypeErrorV>::Ok(()),
                        ));
                    }
                    Result::Ok(())
                } else {
                    proof {
                        assert(synoccurs(*x as nat, t1@));
                    }
                    let step_r = self.unify_var(*x, t2);
                    proof {
                        assert forall|f: nat| f >= unbound_count(s) implies #[trigger] unify_fuel(
                            f,
                            s,
                            t1@,
                            t2@,
                        ) == (self@.subst, res_unit_model(step_r)) by {
                            assert(unify_fuel(f, s, t1@, t2@) == unify_var_fuel(
                                f,
                                s,
                                *x as nat,
                                t2@,
                            ));
                        }
                        assert(unify_fuel(unbound_count(s), s, t1@, t2@) == (
                            self@.subst,
                            res_unit_model(step_r),
                        ));
                    }
                    step_r
                }
            },
            (Type::Var(x), _) => {
                proof {
                    assert(synoccurs(*x as nat, t1@));
                }
                    let step_r = self.unify_var(*x, t2);
                    proof {
                        assert forall|f: nat| f >= unbound_count(s) implies #[trigger] unify_fuel(
                            f,
                            s,
                            t1@,
                            t2@,
                        ) == (self@.subst, res_unit_model(step_r)) by {
                            assert(unify_fuel(f, s, t1@, t2@) == unify_var_fuel(
                                f,
                                s,
                                *x as nat,
                                t2@,
                            ));
                        }
                        assert(unify_fuel(unbound_count(s), s, t1@, t2@) == (
                            self@.subst,
                            res_unit_model(step_r),
                        ));
                    }
                    step_r
            },
            (_, Type::Var(x)) => {
                proof {
                    assert(synoccurs(*x as nat, t2@));
                }
                    let step_r = self.unify_var(*x, t1);
                    proof {
                        assert forall|f: nat| f >= unbound_count(s) implies #[trigger] unify_fuel(
                            f,
                            s,
                            t1@,
                            t2@,
                        ) == (self@.subst, res_unit_model(step_r)) by {
                            assert(unify_fuel(f, s, t1@, t2@) == unify_var_fuel(
                                f,
                                s,
                                *x as nat,
                                t1@,
                            ));
                        }
                        assert(unify_fuel(unbound_count(s), s, t1@, t2@) == (
                            self@.subst,
                            res_unit_model(step_r),
                        ));
                    }
                    step_r
            },
            (
                Type::Con { name: n1, args: a1 },
                Type::Con { name: n2, args: a2 },
            ) => {
                let ghost a1v = tys_view(a1@);
                let ghost a2v = tys_view(a2@);
                proof {
                    lemma_tys_view_index(a1@);
                    lemma_tys_view_index(a2@);
                }
                let names_equal = *n1 == *n2;
                if !names_equal {
                    proof {
                        assert forall|f: nat| f >= unbound_count(s) implies #[trigger] unify_fuel(
                            f,
                            s,
                            t1@,
                            t2@,
                        ) == (s, Result::<(), TypeErrorV>::Err(
                            TypeErrorV::TypeMismatch(t1@, t2@),
                        )) by {}
                    }
                    return Result::Err(
                        TypeError::TypeMismatch { left: clone_ty(t1), right: clone_ty(t2) },
                    );
                }
                if a1.len() != a2.len() {
                    proof {
                        assert forall|f: nat| f >= unbound_count(s) implies #[trigger] unify_fuel(
                            f,
                            s,
                            t1@,
                            t2@,
                        ) == (s, Result::<(), TypeErrorV>::Err(
                            TypeErrorV::TypeMismatch(t1@, t2@),
                        )) by {}
                    }
                    return Result::Err(
                        TypeError::TypeMismatch { left: clone_ty(t1), right: clone_ty(t2) },
                    );
                }
                proof {
                    assert(a1v.subrange(0, a1v.len() as int) =~= a1v);
                    assert(a2v.subrange(0, a2v.len() as int) =~= a2v);
                }
                let ghost mut changes: nat = 0;
                let mut i: usize = 0;
                while i < a1.len()
                    invariant
                        i <= a1.len(),
                        self.wf(),
                        self@.constraints == old(self)@.constraints,
                        self@.env == old(self)@.env,
                        self@.subst.len() == s.len(),
                        store_extends(self@.subst, s),
                        self@.subst == s || unbound_count(self@.subst) < unbound_count(s),
                        t1@ == t2@ ==> self@.subst == s,
                        unbound_count(self@.subst) + changes <= unbound_count(s),
                        forall|f: nat|
                            f >= unbound_count(s) ==> #[trigger] unify_args_fuel(
                                f,
                                s,
                                a1v,
                                a2v,
                            ) == unify_args_fuel(
                                (f - changes) as nat,
                                self@.subst,
                                a1v.subrange(i as int, a1v.len() as int),
                                a2v.subrange(i as int, a2v.len() as int),
                            ),
                        forall|k: int|
                            0 <= k < i ==> resolved(self@.subst, #[trigger] a1v[k]) == resolved(
                                self@.subst,
                                a2v[k],
                            ),
                    decreases a1.len() - i,
                {
                    let ghost s_here = self@.subst;
                    proof {
                        crate::types::lemma_synoccurs_elem(a1v, i as int);
                        crate::types::lemma_synoccurs_elem(a2v, i as int);
                        assert forall|j: nat| synoccurs(j, a1v[i as int]) implies j
                            < s.len() by {
                            assert(crate::types::synoccurs_seq(j, a1v));
                            assert(synoccurs(j, t1@));
                        }
                        assert forall|j: nat| synoccurs(j, a2v[i as int]) implies j
                            < s.len() by {
                            assert(crate::types::synoccurs_seq(j, a2v));
                            assert(synoccurs(j, t2@));
                        }
                        if s_here == s {
                            lemma_resolved_seq_index(s, a1v);
                            lemma_resolved_seq_index(s, a2v);
                            lemma_size_seq_ge(resolved_seq(s, a1v), i as int);
                            lemma_size_seq_ge(resolved_seq(s, a2v), i as int);
                            assert(rsize(s, a1v[i as int]) < rsize(s, t1@));
                            assert(rsize(s, a2v[i as int]) < rsize(s, t2@));
                        }
                    }
                    let x1 = clone_ty(&a1[i]);
                    let x2 = clone_ty(&a2[i]);
                    let step = self.unify(&x1, &x2);
                    match step {
                        Result::Err(e) => {
                            proof {
                                crate::subst::lemma_store_extends_trans(
                                    self@.subst,
                                    s_here,
                                    s,
                                );
                                if t1@ == t2@ {
                                    assert(x1@ == x2@);
                                    assert(false);
                                }
                                assert forall|f: nat| f >= unbound_count(
                                    s,
                                ) implies #[trigger] unify_fuel(f, s, t1@, t2@) == (
                                    self@.subst,
                                    Result::<(), TypeErrorV>::Err(e@),
                                ) by {
                                    let g = (f - changes) as nat;
                                    let rem1 = a1v.subrange(i as int, a1v.len() as int);
                                    let rem2 = a2v.subrange(i as int, a2v.len() as int);
                                    assert(unify_args_fuel(f, s, a1v, a2v) == unify_args_fuel(
                                        g,
                                        s_here,
                                        rem1,
                                        rem2,
                                    ));
                                    assert(rem1[0] == a1v[i as int]);
                                    assert(rem2[0] == a2v[i as int]);
                                    assert(g >= unbound_count(s_here));
                                    assert(unify_fuel(g, s_here, x1@, x2@) == (
                                        self@.subst,
                                        res_unit_model(Result::Err(e)),
                                    ));
                                }
                                assert(unify_fuel(unbound_count(s), s, t1@, t2@) == (
                                    self@.subst,
                                    Result::<(), TypeErrorV>::Err(e@),
                                ));
                            }
                            return Result::Err(e);
                        },
                        Result::Ok(()) => {},
                    }
                    proof {
                        crate::subst::lemma_store_extends_trans(self@.subst, s_here, s);
                        assert forall|k: int| 0 <= k < i + 1 implies resolved(
                            self@.subst,
                            #[trigger] a1v[k],
                        ) == resolved(self@.subst, a2v[k]) by {
                            if k < i {
                                lemma_resolved_extends(s_here, self@.subst, a1v[k]);
                                lemma_resolved_extends(s_here, self@.subst, a2v[k]);
                            }
                        }
                        let old_changes = changes;
                        if self@.subst != s_here {
                            changes = changes + 1;
                        }
                        assert forall|f: nat| f >= unbound_count(s) implies #[trigger] unify_args_fuel(
                            f,
                            s,
                            a1v,
                            a2v,
                        ) == unify_args_fuel(
                            (f - changes) as nat,
                            self@.subst,
                            a1v.subrange(i + 1, a1v.len() as int),
                            a2v.subrange(i + 1, a2v.len() as int),
                        ) by {
                            let g = (f - old_changes) as nat;
                            let rem1 = a1v.subrange(i as int, a1v.len() as int);
                            let rem2 = a2v.subrange(i as int, a2v.len() as int);
                            assert(unify_args_fuel(f, s, a1v, a2v) == unify_args_fuel(
                                g,
                                s_here,
                                rem1,
                                rem2,
                            ));
                            assert(rem1[0] == a1v[i as int]);
                            assert(rem2[0] == a2v[i as int]);
                            assert(rem1.subrange(1, rem1.len() as int) =~= a1v.subrange(
                                i + 1,
                                a1v.len() as int,
                            ));
                            assert(rem2.subrange(1, rem2.len() as int) =~= a2v.subrange(
                                i + 1,
                                a2v.len() as int,
                            ));
                            assert(g >= unbound_count(s_here));
                            assert(unify_fuel(g, s_here, x1@, x2@) == (
                                self@.subst,
                                Result::<(), TypeErrorV>::Ok(()),
                            ));
                            if self@.subst != s_here {
                                assert(unbound_count(self@.subst) < unbound_count(s_here));
                            }
                        }
                    }
                    i += 1;
                }
                proof {
                    let s2 = self@.subst;
                    lemma_resolved_seq_index(s2, a1v);
                    lemma_resolved_seq_index(s2, a2v);
                    assert forall|k: int| 0 <= k < a1v.len() implies resolved_seq(s2, a1v)[k]
                        == resolved_seq(s2, a2v)[k] by {
                        assert(resolved_seq(s2, a1v)[k] == resolved(s2, a1v[k]));
                        assert(resolved_seq(s2, a2v)[k] == resolved(s2, a2v[k]));
                    }
                    assert(resolved_seq(s2, a1v) =~= resolved_seq(s2, a2v));
                    assert(n1@ == n2@);
                    assert(resolved(s2, t1@) =~= resolved(s2, t2@));
                    assert forall|f: nat| f >= unbound_count(s) implies #[trigger] unify_fuel(
                        f,
                        s,
                        t1@,
                        t2@,
                    ) == (self@.subst, Result::<(), TypeErrorV>::Ok(())) by {
                        let g = (f - changes) as nat;
                        assert(unify_args_fuel(f, s, a1v, a2v) == unify_args_fuel(
                            g,
                            self@.subst,
                            a1v.subrange(i as int, a1v.len() as int),
                            a2v.subrange(i as int, a2v.len() as int),
                        ));
                        assert(a1v.subrange(i as int, a1v.len() as int).len() == 0);
                    }
                    assert(unify_fuel(unbound_count(s), s, t1@, t2@) == (
                        self@.subst,
                        Result::<(), TypeErrorV>::Ok(()),
                    ));
                }
                Result::Ok(())
            },
        }
    }
}


/// One inference walk over the engine's model, exactly as the engine
/// performs it: a variable reads the environment; an application infers
/// function and argument, allocates a fresh result variable and constrains
/// the function type to a `Fun` of the two; an abstraction allocates a fresh
/// parameter variable, infers the body under a new scope holding it, and
/// leaves that scope again whether or not the body inference succeeded.
pub open spec fn infer_step(m: EngineV, e: Expr) -> (EngineV, Result<TypeV, TypeErrorV>)
    decreases e,
{
    match e {
        Expr::Var(name) => match lookup_env(m.env, name@) {
            Option::Some(t) => (m, Result::Ok(t)),
            Option::None => (m, Result::Err(TypeErrorV::UnboundVariable(name@))),
        },
        Expr::App(f, a) => {
            let fr = infer_step(m, *f);
            match fr.1 {
                Result::Err(e1) => (fr.0, Result::Err(e1)),
                Result::Ok(t_f) => {
                    let ar = infer_step(fr.0, *a);
                    match ar.1 {
                        Result::Err(e2) => (ar.0, Result::Err(e2)),
                        Result::Ok(t_a) => {
                            let m2 = ar.0;
                            let out = TypeV::Var(m2.subst.len());
                            let m3 = EngineV {
                                subst: m2.subst.push(TypeV::Var(m2.subst.len())),
                                constraints: m2.constraints.push(
                                    (t_f, TypeV::Con { name: "Fun"@, args: seq![t_a, out] }),
                                ),
                                env: m2.env,
                            };
                            (m3, Result::Ok(out))
                        },
                    }
                },
            }
        },
        Expr::Abs(param, body) => {
            let pv = TypeV::Var(m.subst.len());
            let m1 = EngineV {
                subst: m.subst.push(TypeV::Var(m.subst.len())),
                constraints: m.constraints,
                env: m.env.push(seq![(param@, pv)]),
            };
            let br = infer_step(m1, *body);
            let m2 = EngineV {
                subst: br.0.subst,
                constraints: br.0.constraints,
                env: br.0.env.drop_last(),
            };
            match br.1 {
                Result::Err(e1) => (m2, Result::Err(e1)),
                Result::Ok(t_b) => (
                    m2,
                    Result::Ok(TypeV::Con { name: "Fun"@, args: seq![pv, t_b] }),
                ),
            }
        },
    }
}

impl Engine {
    /// Recursively walk `expr`, inferring immediately apparent types while
    /// allocating fresh variables and accumulating equality constraints; no
    /// constraint is solved here.  Fails exactly when a variable expression
    /// names nothing in any active scope, and leaves every scope it entered
    /// even then.
    ///
    /// The engine is meant for one top-level inference followed by
    /// `solve_constraints`; inferring again without solving first mixes the
    /// constraints of the two generations.
    pub fn infer(&mut self, expr: &Expr) -> (r: Result<Type, TypeError>)
        requires
            old(self).wf(),
        ensures
            final(self).wf(),
            final(self)@ == infer_step(old(self)@, *expr).0,
            res_model(r) == infer_step(old(self)@, *expr).1,
            final(self)@.env == old(self)@.env,
            final(self)@.subst.len() >= old(self)@.subst.len(),
            r matches Result::Ok(t) ==> term_wf(final(self)@.subst.len(), t@),
            r matches Result::Err(e) ==> e@ is UnboundVariable,
        decreases expr,
    {
        match expr {
            Expr::Var(name) => {
                match self.get_var(name.as_str()) {
                    Option::Some(t) => Result::Ok(t),
                    Option::None => Result::Err(TypeError::UnboundVariable(name.clone())),
                }
            },
            Expr::App(f, a) => {
                let r1 = self.infer(&**f);
                match r1 {
                    Result::Err(e) => Result::Err(e),
                    Result::Ok(fun_ty) => {
                        let r2 = self.infer(&**a);
                        match r2 {
                            Result::Err(e) => Result::Err(e),
                            Result::Ok(arg_ty) => {
                                let fun_out_ty = self.new_tyvar();
                                let out_clone = clone_ty(&fun_out_ty);
                                let mut fun_args: Vec<Type> = Vec::new();
                                fun_args.push(arg_ty);
                                fun_args.push(out_clone);
                                let con_ty = Type::Con { name: "Fun".to_owned(), args: fun_args };
                                proof {
                                    lemma_tys_view_index(fun_args@);
                                    assert(tys_view(fun_args@) =~= seq![
                                        fun_args@[0]@,
                                        fun_args@[1]@,
                                    ]);
                                    lemma_term_wf_con2(
                                        self@.subst.len(),
                                        "Fun"@,
                                        fun_args@[0]@,
                                        fun_args@[1]@,
                                    );
                                }
                                self.constraints.push(Constraint::Eq(fun_ty, con_ty));
                                proof {
                                    let want = infer_step(old(self)@, *expr).0;
                                    assert(final(self)@.env =~= want.env);
                                    assert(final(self)@.constraints =~= want.constraints);
                                    assert(final(self)@ =~= want);
                                }
                                Result::Ok(fun_out_ty)
                            },
                        }
                    },
                }
            },
            Expr::Abs(param, body) => {
                let param_ty = self.new_tyvar();
                self.new_scope();
                self.extend(param.as_str(), &param_ty);
                proof {
                    let m1 = EngineV {
                        subst: old(self)@.subst.push(TypeV::Var(old(self)@.subst.len())),
                        constraints: old(self)@.constraints,
                        env: old(self)@.env.push(seq![(param@, param_ty@)]),
                    };
                    assert(old(self)@.env.push(Seq::<(Seq<char>, TypeV)>::empty()).update(
                        old(self)@.env.len() as int,
                        Seq::<(Seq<char>, TypeV)>::empty().push((param@, param_ty@)),
                    ) =~= old(self)@.env.push(seq![(param@, param_ty@)]));
                    assert(self@ =~= m1);
                }
                let r_body = self.infer(&**body);
                self.exit_scope();
                proof {
                    let want = infer_step(old(self)@, *expr).0;
                    assert(final(self)@ =~= want);
                }
                match r_body {
                    Result::Err(e) => Result::Err(e),
                    Result::Ok(body_ty) => {
                        let mut fun_args: Vec<Type> = Vec::new();
                        fun_args.push(clone_ty(&param_ty));
                        fun_args.push(body_ty);
                        proof {
                            lemma_tys_view_index(fun_args@);
                            assert(tys_view(fun_args@) =~= seq![fun_args@[0]@, fun_args@[1]@]);
                            lemma_term_wf_con2(
                                self@.subst.len(),
                                "Fun"@,
                                fun_args@[0]@,
                                fun_args@[1]@,
                            );
                        }
                        Result::Ok(Type::Con { name: "Fun".to_owned(), args: fun_args })
                    },
                }
            },
        }
    }

    /// Solve all of the collected constraints, in generation order, against
    /// the substitution store, then clear the list: the store and outcome
    /// are exactly those of `solve_step` over the store model.  On success
    /// every collected constraint holds under the final substitution.  On
    /// failure the engine should be discarded: the constraint list is left
    /// as it was and the store holds the bindings made so far.
    #[verifier::loop_isolation(false)]
    pub fn solve_constraints(&mut self) -> (r: Result<(), TypeError>)
        requires
            old(self).wf(),
        ensures
            final(self).wf(),
            final(self)@.env == old(self)@.env,
            final(self)@.subst.len() == old(self)@.subst.len(),
            store_extends(final(self)@.subst, old(self)@.subst),
            r is Ok ==> final(self)@.constraints.len() == 0,
            r is Ok ==> forall|k: int|
                0 <= k < old(self)@.constraints.len() ==> resolved(
                    final(self)@.subst,
                    (#[trigger] old(self)@.constraints[k]).0,
                ) == resolved(final(self)@.subst, old(self)@.constraints[k].1),
            r matches Result::Err(e) ==> !(e@ is UnboundVariable) && final(self)@.constraints
                == old(self)@.constraints,
            r matches Result::Err(e) ==> (e@ matches TypeErrorV::InfiniteType(v) ==> v
                < final(self)@.subst.len() && final(self)@.subst[v as int] == TypeV::Var(v)),
            r matches Result::Err(e) ==> (e@ matches TypeErrorV::TypeMismatch(lt, rt) ==> (
            lt matches TypeV::Con { name: ln, args: la } && rt matches TypeV::Con {
                name: rn,
                args: ra,
            } && (ln != rn || la.len() != ra.len()))),

            old(self)@.constraints.len() == 0 ==> r is Ok && final(self)@.subst == old(
                self,
            )@.subst,
            (final(self)@.subst, res_unit_model(r)) == solve_step(
                old(self)@.subst,
                old(self)@.constraints,
            ),
    {
        let ghost s0 = old(self)@.subst;
        let ghost cons0 = old(self)@.constraints;
        proof {
            assert(cons0.subrange(0, cons0.len() as int) =~= cons0);
        }
        let n = self.constraints.len();
        let mut i: usize = 0;
        while i < n
            invariant
                i <= n,
                self.wf(),
                self@.constraints == cons0,
                self@.env == old(self)@.env,
                self@.subst.len() == s0.len(),
                store_extends(self@.subst, s0),
                i == 0 ==> self@.subst == s0,
                solve_step(s0, cons0) == solve_step(
                    self@.subst,
                    cons0.subrange(i as int, cons0.len() as int),
                ),
                forall|k: int|
                    0 <= k < i ==> resolved(self@.subst, (#[trigger] cons0[k]).0) == resolved(
                        self@.subst,
                        cons0[k].1,
                    ),
            decreases n - i,
        {
            let ghost s_here = self@.subst;
            let pair = match &self.constraints[i] {
                Constraint::Eq(a, b) => (clone_ty(a), clone_ty(b)),
            };
            proof {
                assert(pair.0@ == cons0[i as int].0);
                assert(pair.1@ == cons0[i as int].1);
            }
            let step = self.unify(&pair.0, &pair.1);
            match step {
                Result::Err(e) => {
                    proof {
                        crate::subst::lemma_store_extends_trans(self@.subst, s_here, s0);
                        let rem = cons0.subrange(i as int, cons0.len() as int);
                        assert(rem[0] == cons0[i as int]);
                        assert(unify_fuel(unbound_count(s_here), s_here, pair.0@, pair.1@) == (
                            self@.subst,
                            Result::<(), TypeErrorV>::Err(e@),
                        ));
                        assert(solve_step(s0, cons0) == (
                            self@.subst,
                            Result::<(), TypeErrorV>::Err(e@),
                        ));
                    }
                    return Result::Err(e);
                },
                Result::Ok(()) => {},
            }
            proof {
                crate::subst::lemma_store_extends_trans(self@.subst, s_here, s0);
                assert forall|k: int| 0 <= k < i + 1 implies resolved(
                    self@.subst,
                    (#[trigger] cons0[k]).0,
                ) == resolved(self@.subst, cons0[k].1) by {
                    if k < i {
                        lemma_resolved_extends(s_here, self@.subst, cons0[k].0);
                        lemma_resolved_extends(s_here, self@.subst, cons0[k].1);
                    }
                }
                let rem = cons0.subrange(i as int, cons0.len() as int);
                assert(rem[0] == cons0[i as int]);
                assert(rem.subrange(1, rem.len() as int) =~= cons0.subrange(
                    i + 1,
                    cons0.len() as int,
                ));
                assert(unify_fuel(unbound_count(s_here), s_here, pair.0@, pair.1@) == (
                    self@.subst,
                    Result::<(), TypeErrorV>::Ok(()),
                ));
                assert(solve_step(s0, cons0) == solve_step(
                    self@.subst,
                    cons0.subrange(i + 1, cons0.len() as int),
                ));
            }
            i += 1;
        }
        proof {
            assert(cons0.subrange(n as int, cons0.len() as int).len() == 0);
            assert(solve_step(s0, cons0) == (self@.subst, Result::<(), TypeErrorV>::Ok(())));
        }
        // All of the constraints are solved, and no longer needed.
        self.constraints.clear();
        proof {
            assert(final(self)@.constraints =~= Seq::<(TypeV, TypeV)>::empty());
            assert(final(self)@.env =~= old(self)@.env);
        }
        Result::Ok(())
    }
}


/// Whether an expression is made only of variable references and
/// applications: no abstraction, and hence no parameter variable that could
/// stay unconstrained.
pub open spec fn first_order(e: Expr) -> bool
    decreases e,
{
    match e {
        Expr::Var(_) => true,
        Expr::App(f, a) => first_order(*f) && first_order(*a),
        Expr::Abs(_, _) => false,
    }
}

/// Every type recorded in the environment is ground.
pub open spec fn env_ground(env: Seq<Seq<(Seq<char>, TypeV)>>) -> bool {
    forall|i: int, k: int|
        0 <= i < env.len() && 0 <= k < env[i].len() ==> term_wf(0, (#[trigger] env[i][k]).1)
}

proof fn lemma_lookup_scope_ground(sc: Seq<(Seq<char>, TypeV)>, name: Seq<char>)
    requires
        forall|k: int| 0 <= k < sc.len() ==> term_wf(0, (#[trigger] sc[k]).1),
    ensures
        lookup_scope(sc, name) matches Option::Some(t) ==> term_wf(0, t),
    decreases sc.len(),
{
    if sc.len() > 0 && sc.last().0 != name {
        assert(forall|k: int|
            0 <= k < sc.drop_last().len() ==> sc.drop_last()[k] == #[trigger] sc[k]);
        lemma_lookup_scope_ground(sc.drop_last(), name);
    }
}

proof fn lemma_lookup_env_ground(env: Seq<Seq<(Seq<char>, TypeV)>>, name: Seq<char>)
    requires
        env_ground(env),
    ensures
        lookup_env(env, name) matches Option::Some(t) ==> term_wf(0, t),
    decreases env.len(),
{
    if env.len() > 0 {
        assert(forall|k: int|
            0 <= k < env.last().len() ==> term_wf(0, (#[trigger] env.last()[k]).1));
        lemma_lookup_scope_ground(env.last(), name);
        assert(forall|i: int|
            0 <= i < env.drop_last().len() ==> env.drop_last()[i] == #[trigger] env[i]);
        lemma_lookup_env_ground(env.drop_last(), name);
    }
}

/// The inference walk leaves the environment as it found it, only appends
/// fresh self-mapped slots to the store, and only appends constraints.
pub proof fn lemma_infer_step_frame(m: EngineV, e: Expr)
    ensures
        infer_step(m, e).0.env == m.env,
        infer_step(m, e).0.subst.len() >= m.subst.len(),
        forall|i: int|
            0 <= i < m.subst.len() ==> infer_step(m, e).0.subst[i] == #[trigger] m.subst[i],
        infer_step(m, e).0.constraints.len() >= m.constraints.len(),
        forall|k: int|
            0 <= k < m.constraints.len() ==> infer_step(m, e).0.constraints[k] == #[trigger] m
                .constraints[k],
    decreases e,
{
    match e {
        Expr::Var(_) => {
        },
        Expr::App(f, a) => {
            lemma_infer_step_frame(m, *f);
            let m1 = infer_step(m, *f).0;
            lemma_infer_step_frame(m1, *a);
            let m2 = infer_step(m1, *a).0;
            assert forall|i: int| 0 <= i < m.subst.len() implies infer_step(m, e).0.subst[i]
                == #[trigger] m.subst[i] by {
                assert(m1.subst[i] == m.subst[i]);
                assert(m2.subst[i] == m1.subst[i]);
            }
            assert forall|k: int| 0 <= k < m.constraints.len() implies infer_step(
                m,
                e,
            ).0.constraints[k] == #[trigger] m.constraints[k] by {
                assert(m1.constraints[k] == m.constraints[k]);
                assert(m2.constraints[k] == m1.constraints[k]);
            }
        },
        Expr::Abs(param, body) => {
            let pv = TypeV::Var(m.subst.len());
            let m1 = EngineV {
                subst: m.subst.push(TypeV::Var(m.subst.len())),
                constraints: m.constraints,
                env: m.env.push(seq![(param@, pv)]),
            };
            lemma_infer_step_frame(m1, *body);
            let m2 = infer_step(m1, *body).0;
            assert(m2.env.drop_last() =~= m.env);
            assert forall|i: int| 0 <= i < m.subst.len() implies infer_step(m, e).0.subst[i]
                == #[trigger] m.subst[i] by {
                assert(m1.subst[i] == m.subst[i]);
                assert(m2.subst[i] == m1.subst[i]);
            }
            assert forall|k: int| 0 <= k < m.constraints.len() implies infer_step(
                m,
                e,
            ).0.constraints[k] == #[trigger] m.constraints[k] by {
                assert(m2.constraints[k] == m1.constraints[k]);
            }
        },
    }
}

/// For an expression made only of variable references and applications,
/// inferred against a ground environment, the inferred type resolves to a
/// ground type in any cycle-free store under which every constraint the
/// walk collected holds — as the store does after a successful
/// `solve_constraints`.
pub proof fn lemma_first_order_inference_ground(m: EngineV, e: Expr, s: Seq<TypeV>)
    requires
        first_order(e),
        env_ground(m.env),
        store_ok(s),
        infer_step(m, e).1 is Ok,
        forall|k: int|
            m.constraints.len() <= k < infer_step(m, e).0.constraints.len() ==> resolved(
                s,
                (#[trigger] infer_step(m, e).0.constraints[k]).0,
            ) == resolved(s, infer_step(m, e).0.constraints[k].1),
    ensures
        infer_step(m, e).1 matches Result::Ok(t) ==> term_wf(0, resolved(s, t)),
    decreases e,
{
    match e {
        Expr::Var(name) => {
            lemma_lookup_env_ground(m.env, name@);
            let t = infer_step(m, e).1->Ok_0;
            assert(term_wf(0, t));
            assert forall|j: nat| synoccurs(j, t) implies !slot_is_bound(s, j) by {}
            crate::subst::lemma_resolved_fixed(s, t);
        },
        Expr::App(f, a) => {
            let fr = infer_step(m, *f);
            let t_f = fr.1->Ok_0;
            let ar = infer_step(fr.0, *a);
            let t_a = ar.1->Ok_0;
            let m2 = ar.0;
            let out = TypeV::Var(m2.subst.len());
            let m3 = infer_step(m, e).0;
            lemma_infer_step_frame(m, *f);
            lemma_infer_step_frame(fr.0, *a);
            // The constraints collected by the two sub-walks are unchanged
            // in the final state, so the hypothesis covers them.
            assert forall|k: int|
                m.constraints.len() <= k < fr.0.constraints.len() implies resolved(
                s,
                (#[trigger] fr.0.constraints[k]).0,
            ) == resolved(s, fr.0.constraints[k].1) by {
                assert(m3.constraints[k] == m2.constraints.push(
                    m3.constraints.last(),
                )[k]);
                assert(m2.constraints[k] == fr.0.constraints[k]);
            }
            lemma_first_order_inference_ground(m, *f, s);
            // The application's own constraint is the last one collected.
            let c = m3.constraints.last();
            assert(m3.constraints.len() == m2.constraints.len() + 1);
            assert(c == (t_f, TypeV::Con { name: "Fun"@, args: seq![t_a, out] }));
            assert(resolved(s, c.0) == resolved(s, c.1));
            // Resolving the Fun term resolves its two arguments.
            let args = seq![t_a, out];
            lemma_resolved_seq_index(s, args);
            assert(resolved(s, c.1) == TypeV::Con { name: "Fun"@, args: resolved_seq(s, args) });
            assert(resolved_seq(s, args)[1] == resolved(s, out));
            // The function side resolves ground, so every component of the
            // equal Fun term is ground too.
            assert(term_wf(0, resolved(s, t_f)));
            assert(term_wf(0, TypeV::Con { name: "Fun"@, args: resolved_seq(s, args) }));
            assert forall|j: nat| synoccurs(j, resolved(s, out)) implies j < 0 by {
                crate::types::lemma_synoccurs_elem(resolved_seq(s, args), 1);
                assert(crate::types::synoccurs_seq(j, resolved_seq(s, args)));
                assert(synoccurs(j, TypeV::Con { name: "Fun"@, args: resolved_seq(s, args) }));
            }
        },
        Expr::Abs(_, _) => {
        },
    }
}


} // verus!
