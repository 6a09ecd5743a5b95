//! The theory of the substitution store.
//!
//! The store is modelled as a sequence of type terms: slot `i` holds the
//! binding of variable `i`, and a slot holding `Var(i)` itself means the
//! variable is unbound.  The store invariant is freedom from cycles, stated
//! here as the existence of a ranking: an assignment of a natural number to
//! every slot such that each bound slot ranks strictly above every variable
//! occurring in its binding.  A ranking exists exactly when chasing bindings
//! cannot loop, and it yields the termination measures for every function
//! that follows binding chains.

use vstd::prelude::*;

verus! {

use crate::types::TypeV;
use crate::types::size;
use crate::types::size_seq;
use crate::types::synoccurs;
use crate::types::synoccurs_seq;
use crate::types::term_wf;
use crate::types::lemma_synoccurs_elem;

/// Slot `i` exists and holds a binding other than the variable itself.
pub open spec fn slot_is_bound(s: Seq<TypeV>, i: nat) -> bool {
    i < s.len() && s[i as int] != TypeV::Var(i)
}

/// Every term stored in a slot mentions only variables the store covers.
pub open spec fn store_wf_terms(s: Seq<TypeV>) -> bool {
    forall|i: int| 0 <= i < s.len() ==> term_wf(s.len() as nat, #[trigger] s[i])
}

/// `r` ranks each slot so that bound slots rank strictly above every
/// variable occurring in their binding.
pub open spec fn is_ranking(s: Seq<TypeV>, r: Seq<nat>) -> bool {
    &&& r.len() == s.len()
    &&& forall|i: nat, j: nat|
        slot_is_bound(s, i) && #[trigger] synoccurs(j, s[i as int]) ==> r[j as int] < r[i as int]
}

/// The store invariant: well-formed slot terms and freedom from cycles,
/// witnessed by a ranking.
pub open spec fn store_ok(s: Seq<TypeV>) -> bool {
    store_wf_terms(s) && exists|r: Seq<nat>| is_ranking(s, r)
}

/// Some ranking of the store (meaningful only under `store_ok`).
pub open spec fn the_ranking(s: Seq<TypeV>) -> Seq<nat> {
    choose|r: Seq<nat>| is_ranking(s, r)
}

/// The rank of a term: strictly above the rank of every variable in it.
pub open spec fn rank_of(s: Seq<TypeV>, t: TypeV) -> nat
    decreases t,
{
    match t {
        TypeV::Var(x) => the_ranking(s)[x as int] + 1,
        TypeV::Con { name: _, args } => rank_seq(s, args),
    }
}

pub open spec fn rank_seq(s: Seq<TypeV>, ts: Seq<TypeV>) -> nat
    decreases ts,
{
    if ts.len() == 0 {
        0
    } else {
        let h = rank_of(s, ts[0]);
        let r = rank_seq(s, ts.subrange(1, ts.len() as int));
        if h >= r {
            h
        } else {
            r
        }
    }
}

pub proof fn lemma_rank_le(s: Seq<TypeV>, t: TypeV, k: nat)
    requires
        forall|j: nat| synoccurs(j, t) ==> the_ranking(s)[j as int] < k,
    ensures
        rank_of(s, t) <= k,
    decreases t,
{
    match t {
        TypeV::Var(x) => {
            assert(synoccurs(x, t));
        },
        TypeV::Con { name: _, args } => {
            assert forall|j: nat| synoccurs_seq(j, args) implies the_ranking(s)[j as int] < k by {
                assert(synoccurs(j, t));
            }
            lemma_rank_seq_le(s, args, k);
        },
    }
}

pub proof fn lemma_rank_seq_le(s: Seq<TypeV>, ts: Seq<TypeV>, k: nat)
    requires
        forall|j: nat| synoccurs_seq(j, ts) ==> the_ranking(s)[j as int] < k,
    ensures
        rank_seq(s, ts) <= k,
    decreases ts,
{
    if ts.len() > 0 {
        assert forall|j: nat| synoccurs(j, ts[0]) implies the_ranking(s)[j as int] < k by {
            assert(synoccurs_seq(j, ts));
        }
        lemma_rank_le(s, ts[0], k);
        let tail = ts.subrange(1, ts.len() as int);
        assert forall|j: nat| synoccurs_seq(j, tail) implies the_ranking(s)[j as int] < k by {
            assert(synoccurs_seq(j, ts));
        }
        lemma_rank_seq_le(s, tail, k);
    }
}

/// Chasing a bound slot strictly lowers the rank: the key termination fact.
pub proof fn lemma_chase_rank(s: Seq<TypeV>, x: nat)
    requires
        store_ok(s),
        slot_is_bound(s, x),
    ensures
        rank_of(s, s[x as int]) < rank_of(s, TypeV::Var(x)),
{
    let r = the_ranking(s);
    assert(is_ranking(s, r));
    assert(forall|j: nat| synoccurs(j, s[x as int]) ==> r[j as int] < r[x as int]);
    lemma_rank_le(s, s[x as int], r[x as int]);
}

pub proof fn lemma_rank_seq_ge(s: Seq<TypeV>, ts: Seq<TypeV>, i: int)
    requires
        0 <= i < ts.len(),
    ensures
        rank_seq(s, ts) >= rank_of(s, ts[i]),
    decreases ts,
{
    if i > 0 {
        lemma_rank_seq_ge(s, ts.subrange(1, ts.len() as int), i - 1);
    }
}

/// The binding of `t`, with every variable chased through the store until an
/// unbound variable or a constructor is reached, applied recursively to all
/// constructor arguments.  This is the meaning of substitution.
pub open spec fn resolved(s: Seq<TypeV>, t: TypeV) -> TypeV
    decreases rank_of(s, t), size(t),
    when store_ok(s)
{
    match t {
        TypeV::Var(x) => {
            if slot_is_bound(s, x) {
                proof {
                    lemma_chase_rank(s, x);
                }
                resolved(s, s[x as int])
            } else {
                t
            }
        },
        TypeV::Con { name, args } => TypeV::Con { name, args: resolved_seq(s, args) },
    }
}

pub open spec fn resolved_seq(s: Seq<TypeV>, ts: Seq<TypeV>) -> Seq<TypeV>
    decreases rank_seq(s, ts), size_seq(ts),
    when store_ok(s)
{
    if ts.len() == 0 {
        ts
    } else {
        proof {
            lemma_rank_seq_ge(s, ts, 0);
        }
        seq![resolved(s, ts[0])] + resolved_seq(s, ts.subrange(1, ts.len() as int))
    }
}

pub proof fn lemma_resolved_seq_index(s: Seq<TypeV>, ts: Seq<TypeV>)
    requires
        store_ok(s),
    ensures
        resolved_seq(s, ts).len() == ts.len(),
        forall|i: int| 0 <= i < ts.len() ==> resolved_seq(s, ts)[i] == resolved(s, #[trigger] ts[i]),
    decreases ts,
{
    if ts.len() > 0 {
        let tail = ts.subrange(1, ts.len() as int);
        lemma_resolved_seq_index(s, tail);
        assert forall|i: int| 0 <= i < ts.len() implies resolved_seq(s, ts)[i] == resolved(
            s,
            #[trigger] ts[i],
        ) by {
            if i > 0 {
                assert(tail[i - 1] == ts[i]);
                assert(resolved_seq(s, ts)[i] == resolved_seq(s, tail)[i - 1]);
            }
        }
    }
}

/// Whether variable `x` is reachable from `t` by chasing bindings: the
/// meaning of the occurs check.
pub open spec fn occ(s: Seq<TypeV>, x: nat, t: TypeV) -> bool
    decreases rank_of(s, t), size(t),
    when store_ok(s)
{
    match t {
        TypeV::Var(j) => {
            if j == x {
                true
            } else if slot_is_bound(s, j) {
                proof {
                    lemma_chase_rank(s, j);
                }
                occ(s, x, s[j as int])
            } else {
                false
            }
        },
        TypeV::Con { name: _, args } => occ_seq(s, x, args),
    }
}

pub open spec fn occ_seq(s: Seq<TypeV>, x: nat, ts: Seq<TypeV>) -> bool
    decreases rank_seq(s, ts), size_seq(ts),
    when store_ok(s)
{
    ts.len() > 0 && {
        proof {
            lemma_rank_seq_ge(s, ts, 0);
        }
        occ(s, x, ts[0]) || occ_seq(s, x, ts.subrange(1, ts.len() as int))
    }
}

/// `x` is reachable from a sequence exactly when it is reachable from one
/// of its elements.
pub proof fn lemma_occ_seq_iff(s: Seq<TypeV>, x: nat, ts: Seq<TypeV>)
    requires
        store_ok(s),
    ensures
        occ_seq(s, x, ts) <==> exists|i: int| 0 <= i < ts.len() && occ(s, x, #[trigger] ts[i]),
    decreases ts,
{
    if ts.len() > 0 {
        let tail = ts.subrange(1, ts.len() as int);
        lemma_occ_seq_iff(s, x, tail);
        if occ(s, x, ts[0]) {
            assert(occ_seq(s, x, ts));
        } else if occ_seq(s, x, tail) {
            let i = choose|i: int| 0 <= i < tail.len() && occ(s, x, #[trigger] tail[i]);
            assert(ts[i + 1] == tail[i]);
            assert(occ_seq(s, x, ts));
        } else {
            assert forall|i: int| 0 <= i < ts.len() implies !occ(s, x, #[trigger] ts[i]) by {
                if i > 0 {
                    assert(tail[i - 1] == ts[i]);
                }
            }
        }
    }
}

/// Refinement of stores is transitive.
pub proof fn lemma_store_extends_trans(s3: Seq<TypeV>, s2: Seq<TypeV>, s1: Seq<TypeV>)
    requires
        store_extends(s3, s2),
        store_extends(s2, s1),
    ensures
        store_extends(s3, s1),
{
    assert forall|i: nat| slot_is_bound(s1, i) implies s3[i as int] == #[trigger] s1[i as int] by {
        assert(s2[i as int] == s1[i as int]);
        assert(slot_is_bound(s2, i));
    }
}

/// A variable occurring syntactically in `t` and reaching `x` makes `x`
/// reachable from `t`.
pub proof fn lemma_occ_mono(s: Seq<TypeV>, x: nat, j: nat, t: TypeV)
    requires
        store_ok(s),
        synoccurs(j, t),
        occ(s, x, TypeV::Var(j)),
    ensures
        occ(s, x, t),
    decreases size(t),
{
    match t {
        TypeV::Var(_) => {
        },
        TypeV::Con { name: _, args } => {
            lemma_occ_mono_seq(s, x, j, args);
        },
    }
}

pub proof fn lemma_occ_mono_seq(s: Seq<TypeV>, x: nat, j: nat, ts: Seq<TypeV>)
    requires
        store_ok(s),
        synoccurs_seq(j, ts),
        occ(s, x, TypeV::Var(j)),
    ensures
        occ_seq(s, x, ts),
    decreases size_seq(ts),
{
    if synoccurs(j, ts[0]) {
        crate::types::lemma_size_seq_ge(ts, 0);
        lemma_occ_mono(s, x, j, ts[0]);
    } else {
        lemma_occ_mono_seq(s, x, j, ts.subrange(1, ts.len() as int));
    }
}

/// A strict upper bound on all entries of a rank sequence.
pub open spec fn rank_bound(r: Seq<nat>) -> nat
    decreases r,
{
    if r.len() == 0 {
        0
    } else {
        let b = rank_bound(r.drop_last());
        if r.last() >= b {
            r.last() + 1
        } else {
            b
        }
    }
}

pub proof fn lemma_rank_bound(r: Seq<nat>)
    ensures
        forall|i: int| 0 <= i < r.len() ==> r[i] < rank_bound(r),
    decreases r,
{
    if r.len() > 0 {
        lemma_rank_bound(r.drop_last());
        assert forall|i: int| 0 <= i < r.len() implies r[i] < rank_bound(r) by {
            if i < r.len() - 1 {
                assert(r.drop_last()[i] == r[i]);
            }
        }
    }
}

/// Binding an unbound slot to a term that passed the occurs check keeps the
/// store cycle-free: a new ranking is built by lifting, above everything
/// else, exactly the slots from which the bound variable is reachable.
pub proof fn lemma_bind_ok(s: Seq<TypeV>, x: nat, y: TypeV)
    requires
        store_ok(s),
        x < s.len(),
        s[x as int] == TypeV::Var(x),
        term_wf(s.len() as nat, y),
        !occ(s, x, y),
    ensures
        store_ok(s.update(x as int, y)),
{
    let n = s.len();
    let s2 = s.update(x as int, y);
    assert(store_wf_terms(s2)) by {
        assert(forall|i: int| 0 <= i < n && i != x ==> s2[i] == #[trigger] s[i]);
    }
    let r = the_ranking(s);
    assert(is_ranking(s, r));
    lemma_rank_bound(r);
    let b = rank_bound(r);
    let r2 = Seq::new(
        r.len(),
        |v: int| if occ(s, x, TypeV::Var(v as nat)) {
            (r[v] + b) as nat
        } else {
            r[v]
        },
    );
    assert(occ(s, x, TypeV::Var(x)));
    assert forall|i: nat, j: nat|
        slot_is_bound(s2, i) && #[trigger] synoccurs(j, s2[i as int]) implies r2[j as int] < r2[i as int] by {
        assert(term_wf(n as nat, s2[i as int]));
        assert(j < n);
        if i == x {
            if occ(s, x, TypeV::Var(j)) {
                lemma_occ_mono(s, x, j, y);
                assert(false);
            }
            assert(r2[j as int] == r[j as int]);
            assert(r[j as int] < b);
            assert(r2[i as int] == r[x as int] + b);
        } else {
            assert(s2[i as int] == s[i as int]);
            assert(slot_is_bound(s, i));
            assert(r[j as int] < r[i as int]);
            if occ(s, x, TypeV::Var(j)) {
                lemma_occ_mono(s, x, j, s[i as int]);
                assert(occ(s, x, TypeV::Var(i)));
                assert(r2[i as int] == r[i as int] + b);
            }
        }
    }
    assert(is_ranking(s2, r2));
}

/// Appending a fresh self-mapped slot keeps the store cycle-free.
pub proof fn lemma_push_ok(s: Seq<TypeV>)
    requires
        store_ok(s),
    ensures
        store_ok(s.push(TypeV::Var(s.len() as nat))),
{
    let n = s.len();
    let s2 = s.push(TypeV::Var(n as nat));
    assert(store_wf_terms(s2)) by {
        assert forall|i: int| 0 <= i < s2.len() implies term_wf(s2.len() as nat, #[trigger] s2[i]) by {
            if i < n {
                assert(s2[i] == s[i]);
                assert(term_wf(n as nat, s[i]));
            } else {
                assert(s2[i] == TypeV::Var(n as nat));
            }
        }
    }
    let r = the_ranking(s);
    assert(is_ranking(s, r));
    let r2 = r.push(0);
    assert forall|i: nat, j: nat|
        slot_is_bound(s2, i) && #[trigger] synoccurs(j, s2[i as int]) implies r2[j as int] < r2[i as int] by {
        if i < n {
            assert(s2[i as int] == s[i as int]);
            assert(term_wf(n as nat, s[i as int]));
            assert(j < n);
            assert(slot_is_bound(s, i));
        } else {
            assert(s2[i as int] == TypeV::Var(n as nat));
            assert(!slot_is_bound(s2, i));
        }
    }
    assert(is_ranking(s2, r2));
}

/// The number of unbound slots; the leading unification termination measure.
pub open spec fn unbound_count(s: Seq<TypeV>) -> nat
    decreases s,
{
    if s.len() == 0 {
        0
    } else {
        unbound_count(s.drop_last()) + if s.last() == TypeV::Var((s.len() - 1) as nat) {
            1nat
        } else {
            0nat
        }
    }
}

pub proof fn lemma_bind_unbound_count(s: Seq<TypeV>, x: nat, y: TypeV)
    requires
        x < s.len(),
        s[x as int] == TypeV::Var(x),
        y != TypeV::Var(x),
    ensures
        unbound_count(s.update(x as int, y)) < unbound_count(s),
    decreases s,
{
    let s2 = s.update(x as int, y);
    if x == s.len() - 1 {
        assert(s2.drop_last() =~= s.drop_last());
    } else {
        assert(s2.drop_last() =~= s.drop_last().update(x as int, y));
        lemma_bind_unbound_count(s.drop_last(), x, y);
    }
}

/// `s2` refines `s1`: same size, and every slot bound in `s1` is unchanged.
pub open spec fn store_extends(s2: Seq<TypeV>, s1: Seq<TypeV>) -> bool {
    s2.len() == s1.len() && forall|i: nat|
        slot_is_bound(s1, i) ==> s2[i as int] == #[trigger] s1[i as int]
}

/// Resolution against a refined store factors through resolution against the
/// original: bindings made later never disturb terms already resolved.
pub proof fn lemma_resolved_extends(s1: Seq<TypeV>, s2: Seq<TypeV>, t: TypeV)
    requires
        store_ok(s1),
        store_ok(s2),
        store_extends(s2, s1),
    ensures
        resolved(s2, resolved(s1, t)) == resolved(s2, t),
    decreases rank_of(s1, t), size(t),
{
    match t {
        TypeV::Var(x) => {
            if slot_is_bound(s1, x) {
                assert(s2[x as int] == s1[x as int]);
                assert(slot_is_bound(s2, x));
                lemma_chase_rank(s1, x);
                lemma_resolved_extends(s1, s2, s1[x as int]);
            }
        },
        TypeV::Con { name: _, args } => {
            lemma_resolved_extends_seq(s1, s2, args);
        },
    }
}

pub proof fn lemma_resolved_extends_seq(s1: Seq<TypeV>, s2: Seq<TypeV>, ts: Seq<TypeV>)
    requires
        store_ok(s1),
        store_ok(s2),
        store_extends(s2, s1),
    ensures
        resolved_seq(s2, resolved_seq(s1, ts)) == resolved_seq(s2, ts),
    decreases rank_seq(s1, ts), size_seq(ts),
{
    lemma_resolved_seq_index(s1, ts);
    lemma_resolved_seq_index(s2, ts);
    lemma_resolved_seq_index(s2, resolved_seq(s1, ts));
    assert forall|i: int| 0 <= i < ts.len() implies resolved_seq(s2, resolved_seq(s1, ts))[i]
        == resolved_seq(s2, ts)[i] by {
        lemma_rank_seq_ge(s1, ts, i);
        crate::types::lemma_size_seq_ge(ts, i);
        lemma_resolved_extends(s1, s2, ts[i]);
    }
    assert(resolved_seq(s2, resolved_seq(s1, ts)) =~= resolved_seq(s2, ts));
}

/// Resolving a non-empty sequence resolves its head and its tail.
pub proof fn lemma_rsize_seq_unfold(s: Seq<TypeV>, ts: Seq<TypeV>)
    requires
        store_ok(s),
        ts.len() > 0,
    ensures
        size_seq(resolved_seq(s, ts)) == 1 + size(resolved(s, ts[0])) + size_seq(
            resolved_seq(s, ts.subrange(1, ts.len() as int)),
        ),
{
    let u = resolved_seq(s, ts);
    lemma_resolved_seq_index(s, ts);
    assert(u[0] == resolved(s, ts[0]));
    assert(u.subrange(1, u.len() as int) =~= resolved_seq(s, ts.subrange(1, ts.len() as int)));
}

/// The length of the binding chain at the head of `t`.
pub open spec fn hc(s: Seq<TypeV>, t: TypeV) -> nat
    decreases rank_of(s, t), size(t),
    when store_ok(s)
{
    match t {
        TypeV::Var(x) => {
            if slot_is_bound(s, x) {
                proof {
                    lemma_chase_rank(s, x);
                }
                1 + hc(s, s[x as int])
            } else {
                0
            }
        },
        TypeV::Con { name: _, args: _ } => 0,
    }
}

/// After full resolution, no variable that remains is bound in the store:
/// substitution applies the store exhaustively.
pub proof fn lemma_substitute_complete(s: Seq<TypeV>, t: TypeV)
    requires
        store_ok(s),
        term_wf(s.len() as nat, t),
    ensures
        forall|j: nat|
            #[trigger] synoccurs(j, resolved(s, t)) ==> j < s.len() && s[j as int] == TypeV::Var(
                j,
            ),
    decreases rank_of(s, t), size(t),
{
    match t {
        TypeV::Var(x) => {
            if slot_is_bound(s, x) {
                lemma_chase_rank(s, x);
                assert(term_wf(s.len() as nat, s[x as int]));
                lemma_substitute_complete(s, s[x as int]);
                assert(resolved(s, t) == resolved(s, s[x as int]));
                assert forall|j: nat| #[trigger] synoccurs(j, resolved(s, t)) implies j < s.len()
                    && s[j as int] == TypeV::Var(j) by {
                    assert(synoccurs(j, resolved(s, s[x as int])));
                }
            } else {
                assert(synoccurs(x, t));
                assert forall|j: nat| #[trigger] synoccurs(j, resolved(s, t)) implies j < s.len()
                    && s[j as int] == TypeV::Var(j) by {
                    assert(resolved(s, t) == t);
                    assert(j == x);
                }
            }
        },
        TypeV::Con { name: _, args } => {
            assert forall|j: nat| synoccurs_seq(j, args) implies j < s.len() by {
                assert(synoccurs(j, t));
            }
            lemma_substitute_complete_seq(s, args);
            assert forall|j: nat| #[trigger] synoccurs(j, resolved(s, t)) implies j < s.len() && s[
                j as int] == TypeV::Var(j) by {
                assert(synoccurs_seq(j, resolved_seq(s, args)));
            }
        },
    }
}

pub proof fn lemma_substitute_complete_seq(s: Seq<TypeV>, ts: Seq<TypeV>)
    requires
        store_ok(s),
        forall|j: nat| synoccurs_seq(j, ts) ==> j < s.len(),
    ensures
        forall|j: nat|
            #[trigger] synoccurs_seq(j, resolved_seq(s, ts)) ==> j < s.len() && s[j as int]
                == TypeV::Var(j),
    decreases rank_seq(s, ts), size_seq(ts),
{
    if ts.len() > 0 {
        let tail = ts.subrange(1, ts.len() as int);
        lemma_resolved_seq_index(s, ts);
        lemma_resolved_seq_index(s, tail);
        lemma_rank_seq_ge(s, ts, 0);
        crate::types::lemma_size_seq_ge(ts, 0);
        assert forall|j: nat| synoccurs(j, ts[0]) implies j < s.len() by {
            assert(synoccurs_seq(j, ts));
        }
        lemma_substitute_complete(s, ts[0]);
        assert forall|j: nat| synoccurs_seq(j, tail) implies j < s.len() by {
            assert(synoccurs_seq(j, ts));
        }
        lemma_substitute_complete_seq(s, tail);
        let u = resolved_seq(s, ts);
        assert(u.subrange(1, u.len() as int) =~= resolved_seq(s, tail)) by {
            assert forall|i: int| 0 <= i < tail.len() implies u.subrange(1, u.len() as int)[i]
                == resolved_seq(s, tail)[i] by {
                assert(tail[i] == ts[i + 1]);
                assert(u.subrange(1, u.len() as int)[i] == u[i + 1]);
            }
        }
        assert forall|j: nat| #[trigger] synoccurs_seq(j, u) implies j < s.len() && s[j as int]
            == TypeV::Var(j) by {
            if synoccurs(j, u[0]) {
                assert(u[0] == resolved(s, ts[0]));
            } else {
                assert(synoccurs_seq(j, u.subrange(1, u.len() as int)));
            }
        }
    }
}

/// A term all of whose variables are unbound resolves to itself.
pub proof fn lemma_resolved_fixed(s: Seq<TypeV>, t: TypeV)
    requires
        store_ok(s),
        forall|j: nat| synoccurs(j, t) ==> !slot_is_bound(s, j),
    ensures
        resolved(s, t) == t,
    decreases size(t),
{
    match t {
        TypeV::Var(x) => {
            assert(synoccurs(x, t));
        },
        TypeV::Con { name: _, args } => {
            lemma_resolved_fixed_seq(s, args);
        },
    }
}

pub proof fn lemma_resolved_fixed_seq(s: Seq<TypeV>, ts: Seq<TypeV>)
    requires
        store_ok(s),
        forall|j: nat| synoccurs_seq(j, ts) ==> !slot_is_bound(s, j),
    ensures
        resolved_seq(s, ts) == ts,
    decreases size_seq(ts),
{
    lemma_resolved_seq_index(s, ts);
    assert forall|i: int| 0 <= i < ts.len() implies resolved_seq(s, ts)[i] == ts[i] by {
        lemma_synoccurs_elem(ts, i);
        crate::types::lemma_size_seq_ge(ts, i);
        lemma_resolved_fixed(s, ts[i]);
    }
    assert(resolved_seq(s, ts) =~= ts);
}

/// Resolution is idempotent: applying the substitution store to an already
/// fully resolved term changes nothing.
pub proof fn lemma_substitute_idempotent(s: Seq<TypeV>, t: TypeV)
    requires
        store_ok(s),
        term_wf(s.len() as nat, t),
    ensures
        resolved(s, resolved(s, t)) == resolved(s, t),
{
    lemma_substitute_complete(s, t);
    lemma_resolved_fixed(s, resolved(s, t));
}

} // verus!
