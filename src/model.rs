//! The mathematical model of inference: each step of the engine as a function from a
//! knowledge base to the next, and the laws that hold of them.
use vstd::prelude::*;
use crate::ids::{ExprIdx, TypeIdx};
use crate::expr::Expr;
use crate::knowledge::{CompoundType, KnowledgeView, TypeConflict, lemma_inserted, lemma_interned};

verus! {

/// The outcome of interning `c` into `v` for node `id`: the extended base and the fact
/// `id : c`, or no fact when the universe of handles is full.
pub open spec fn derive(v: KnowledgeView, id: ExprIdx, c: CompoundType) -> (KnowledgeView, Option<(ExprIdx, TypeIdx)>) {
    if v.can_intern(c) {
        (v.interned(c).0, Some((id, TypeIdx(v.interned(c).1))))
    } else {
        (v, None)
    }
}

/// One resolution step on `e` from base `v`: the base after it and the fact derived.
pub open spec fn resolution(e: &Expr, v: KnowledgeView) -> (KnowledgeView, Option<(ExprIdx, TypeIdx)>)
    decreases e, 0int, 1int,
{
    match e {
        Expr::Abs(id, p, body) => if v.known(body.spec_id()) is None {
            guess_from(*id, p.id, body, v, 0)
        } else {
            rule(e, v)
        },
        _ => rule(e, v),
    }
}

/// The guess-and-verify search from handle `i` on: for the first handle `h`, from `i`
/// up to the end of the universe of `v`, such that on a copy of `v` with parameter
/// `p : h` two rounds over `body` end without conflict and give the parameter and the
/// body a type, that copy with the function type interned, and the fact `id` of that
/// type; the base `v` unchanged and no fact when there is none.
pub open spec fn guess_from(id: ExprIdx, p: ExprIdx, body: &Expr, v: KnowledgeView, i: int) -> (KnowledgeView, Option<(ExprIdx, TypeIdx)>)
    decreases body, 4int, v.next - i,
{
    if i < 0 || i >= v.next {
        (v, None)
    } else {
        let (va, ra) = v.inserted(p, TypeIdx(i as u32));
        let (vb, rb) = round_result(body, va);
        let (vc, rc) = if rb is Ok { round_result(body, vb) } else { (vb, rb) };
        if ra is Ok && rc is Ok && vc.known(p) is Some && vc.known(body.spec_id()) is Some
            && vc.can_intern(CompoundType::Lambda(vc.known(p)->0, vc.known(body.spec_id())->0)) {
            let (vd, t) = vc.interned(CompoundType::Lambda(vc.known(p)->0, vc.known(body.spec_id())->0));
            (vd, Some((id, TypeIdx(t))))
        } else {
            guess_from(id, p, body, v, i + 1)
        }
    }
}

/// A visit of `e`: resolve it and record the fact derived, if any.
pub open spec fn visit_result(e: &Expr, v: KnowledgeView) -> (KnowledgeView, Result<(), TypeConflict>)
    decreases e, 1int, 0int,
{
    match binder_clash(e, v) {
        Some(c) => (v, Err(c)),
        None => {
            let (w, r) = resolution(e, v);
            match r {
                Some((id, t)) => w.inserted(id, t),
                None => (w, Ok(())),
            }
        },
    }
}

/// The conflict of a let-binding whose value is known as one type and whose bound
/// variable is known as another.
pub open spec fn binder_clash(e: &Expr, v: KnowledgeView) -> Option<TypeConflict> {
    match e {
        Expr::Let(_, x, val, _) => match (v.known(val.spec_id()), v.known(x.id)) {
            (Some(tv), Some(tx)) => if tx != tv {
                Some(TypeConflict { expr: x.id, known: tx, proposed: tv })
            } else {
                None
            },
            _ => None,
        },
        _ => None,
    }
}

/// A top-down pass over `e`: the node, then its children from left to right.
pub open spec fn top_down_result(e: &Expr, v: KnowledgeView) -> (KnowledgeView, Result<(), TypeConflict>)
    decreases e, 2int, 0int,
{
    let (w, r) = visit_result(e, v);
    if r is Err {
        (w, r)
    } else {
        match e {
            Expr::Var(..) => (w, Ok(())),
            Expr::App(_, f, a) => {
                let (w1, r1) = top_down_result(f, w);
                if r1 is Err { (w1, r1) } else { top_down_result(a, w1) }
            },
            Expr::Abs(_, _, body) => top_down_result(body, w),
            Expr::Let(_, _, val, cont) => {
                let (w1, r1) = top_down_result(val, w);
                if r1 is Err { (w1, r1) } else { top_down_result(cont, w1) }
            },
        }
    }
}

/// A bottom-up pass over `e`: the children from left to right, then the node.
pub open spec fn down_top_result(e: &Expr, v: KnowledgeView) -> (KnowledgeView, Result<(), TypeConflict>)
    decreases e, 2int, 0int,
{
    let (w, r) = match e {
        Expr::Var(..) => (v, Ok(())),
        Expr::App(_, f, a) => {
            let (w1, r1) = down_top_result(f, v);
            if r1 is Err { (w1, r1) } else { down_top_result(a, w1) }
        },
        Expr::Abs(_, _, body) => down_top_result(body, v),
        Expr::Let(_, _, val, cont) => {
            let (w1, r1) = down_top_result(val, v);
            if r1 is Err { (w1, r1) } else { down_top_result(cont, w1) }
        },
    };
    if r is Err {
        (w, r)
    } else {
        visit_result(e, w)
    }
}

/// A round over `e`: a top-down pass, then a bottom-up pass.
pub open spec fn round_result(e: &Expr, v: KnowledgeView) -> (KnowledgeView, Result<(), TypeConflict>)
    decreases e, 3int, 0int,
{
    let (w, r) = top_down_result(e, v);
    if r is Err {
        (w, r)
    } else {
        down_top_result(e, w)
    }
}

/// `n` rounds over `e` from `v`, stopping at the first conflict.
pub open spec fn rounds(e: &Expr, v: KnowledgeView, n: nat) -> (KnowledgeView, Result<(), TypeConflict>)
    decreases n,
{
    if n == 0 {
        (v, Ok(()))
    } else {
        let (w, r) = round_result(e, v);
        if r is Err {
            (w, r)
        } else {
            rounds(e, w, (n - 1) as nat)
        }
    }
}

/// Propagation with a budget of `n` rounds: rounds run until one ends in a conflict
/// (reported), learns no new fact (`true`: converged), or the budget is spent (`false`).
pub open spec fn propagation(e: &Expr, v: KnowledgeView, n: nat) -> (KnowledgeView, Result<bool, TypeConflict>)
    decreases n,
{
    if n == 0 {
        (v, Ok(false))
    } else {
        let (w, r) = round_result(e, v);
        match r {
            Err(c) => (w, Err(c)),
            Ok(()) => if w.facts.len() == v.facts.len() {
                (w, Ok(true))
            } else {
                propagation(e, w, (n - 1) as nat)
            },
        }
    }
}

/// Propagation is stable once converged: when a round over `e` from a well-formed base
/// `v`, whose facts all name handles of its universe, learns no new fact, no later round
/// learns one either; a round that ended without conflict left `v` exactly as it was, and
/// so does every later one.
pub proof fn lemma_converged_stays(e: &Expr, v: KnowledgeView, n: nat)
    requires
        v.wf(),
        v.facts_minted(),
        round_result(e, v).0.facts.dom() == v.facts.dom(),
    ensures
        rounds(e, v, n).0.facts == v.facts,
        top_down_result(e, v).0.facts == v.facts,
        round_result(e, v).1 is Ok ==> round_result(e, v) == (v, Ok::<(), TypeConflict>(())),
        round_result(e, v).1 is Ok ==> rounds(e, v, n) == (v, Ok::<(), TypeConflict>(())),
    decreases n,
{
    lemma_round_sound(e, v);
    lemma_top_down_sound(e, v);
    let w = round_result(e, v).0;
    let td = top_down_result(e, v).0;
    if top_down_result(e, v).1 is Ok {
        lemma_down_top_sound(e, td);
    }
    assert(td.facts.dom() =~= v.facts.dom());
    assert(td.facts =~= v.facts);
    assert(w.facts =~= v.facts);
    if n > 0 {
        if round_result(e, v).1 is Ok {
            lemma_converged_stays(e, v, (n - 1) as nat);
        }
    }
}

/// Knowledge is monotone over any number of rounds: every fact known before is known
/// after, with the same type, whether the rounds end in a conflict or not.
pub proof fn lemma_rounds_keep_facts(e: &Expr, v: KnowledgeView, n: nat)
    requires
        v.wf(),
    ensures
        rounds(e, v, n).0.wf(),
        v.extended_by(rounds(e, v, n).0),
    decreases n,
{
    lemma_chain(v, v, v);
    if n > 0 {
        lemma_round_sound(e, v);
        let w = round_result(e, v).0;
        if round_result(e, v).1 is Ok {
            lemma_rounds_keep_facts(e, w, (n - 1) as nat);
            lemma_chain(v, w, rounds(e, w, (n - 1) as nat).0);
        }
    }
}

/// A step from `v` to `w` that a well-formed base can take: `w` is well formed and keeps
/// all that `v` held; and from a base whose facts are all in the universe, the facts stay
/// in the universe, and a step that ended without conflict is `v` itself unless it learnt
/// a fact.
pub open spec fn sound_step(v: KnowledgeView, w: KnowledgeView, ok: bool) -> bool {
    &&& w.wf()
    &&& v.extended_by(w)
    &&& v.facts_minted() ==> w.facts_minted()
    &&& ok && v.facts_minted() ==> still_unless_learnt(v, w)
}

pub(crate) proof fn lemma_resolution_sound(e: &Expr, v: KnowledgeView)
    requires
        v.wf(),
    ensures
        sound_step(v, resolution(e, v).0, false),
        resolution(e, v).1 matches Some((i, _)) ==> i == e.spec_id(),
        v.facts_minted() ==> (resolution(e, v).1 matches Some((_, t)) ==> t.0 < resolution(e, v).0.next),
        v.facts_minted() && resolution(e, v).0.facts.dom() == v.facts.dom() ==> resolution(e, v).0 == v
            || (resolution(e, v).1 matches Some((_, t)) && t.0 >= v.next),
        searches(e, v) ==> match resolution(e, v).1 {
            None => resolution(e, v).0 == v,
            Some((id, t)) => guess_accepted(e, v, resolution(e, v).0, id, t),
        },
        !searches(e, v) ==> resolution(e, v) == rule(e, v),
        match e {
            Expr::Let(_, x, val, _) => binder_clash(e, v) is None && v.known(val.spec_id()) is Some
                ==> resolution(e, v).0.known(x.id) == v.known(val.spec_id()),
            _ => true,
        },
    decreases e, 0int, 1int,
{
    match e {
        Expr::Var(..) => {
            lemma_chain(v, v, v);
        },
        Expr::App(_, f, a) => {
            lemma_chain(v, v, v);
            if let (Some(t1), Some(t2)) = (v.known(f.spec_id()), v.known(a.spec_id())) {
                if v.can_intern(CompoundType::Apply(t1, t2)) {
                    lemma_interned(v, CompoundType::Apply(t1, t2));
                }
            }
        },
        Expr::Abs(id, p, body) => {
            lemma_chain(v, v, v);
            if v.known(body.spec_id()) is None {
                lemma_guess_sound(*id, p.id, body, v, 0);
            } else if let (Some(tp), Some(tb)) = (v.known(p.id), v.known(body.spec_id())) {
                if v.can_intern(CompoundType::Lambda(tp, tb)) {
                    lemma_interned(v, CompoundType::Lambda(tp, tb));
                }
            }
        },
        Expr::Let(_, x, val, cont) => {
            lemma_chain(v, v, v);
            if let Some(tv) = v.known(val.spec_id()) {
                match v.known(x.id) {
                    Some(tx) => {
                        if tx == tv {
                            lemma_resolution_sound(cont, v);
                            assert(resolution(cont, v).0.facts.contains_key(x.id.0));
                        }
                    },
                    None => {
                        lemma_inserted(v, x.id, tv);
                        let w = v.recorded(x.id, tv);
                        lemma_resolution_sound(cont, w);
                        lemma_chain(v, w, resolution(cont, w).0);
                        assert(w.facts.contains_key(x.id.0));
                        assert(resolution(cont, w).0.facts.contains_key(x.id.0));
                        assert(w.facts.dom().contains(x.id.0));
                        assert(resolution(cont, w).0.facts.dom().contains(x.id.0));
                        assert(!v.facts.dom().contains(x.id.0));
                    },
                }
            }
        },
    }
}

proof fn lemma_guess_sound(id: ExprIdx, p: ExprIdx, body: &Expr, v: KnowledgeView, i: int)
    requires
        v.wf(),
        v.known(body.spec_id()) is None,
        0 <= i,
    ensures
        sound_step(v, guess_from(id, p, body, v, i).0, false),
        match guess_from(id, p, body, v, i).1 {
            None => guess_from(id, p, body, v, i).0 == v,
            Some((rid, t)) => rid == id && accepted(p, body.spec_id(), v, guess_from(id, p, body, v, i).0, t)
                && t.0 < guess_from(id, p, body, v, i).0.next
                && settled(body, guess_from(id, p, body, v, i).0, guess_from(id, p, body, v, i).0),
        },
    decreases body, 4int, v.next - i,
{
    lemma_chain(v, v, v);
    if i < v.next {
        let (va, ra) = v.inserted(p, TypeIdx(i as u32));
        lemma_inserted(v, p, TypeIdx(i as u32));
        lemma_round_sound(body, va);
        let (vb, rb) = round_result(body, va);
        lemma_chain(v, va, vb);
        lemma_chain(va, va, vb);
        if rb is Ok {
            lemma_round_sound(body, vb);
            lemma_chain(v, vb, round_result(body, vb).0);
            lemma_chain(va, vb, round_result(body, vb).0);
        }
        let (vc, rc) = if rb is Ok { round_result(body, vb) } else { (vb, rb) };
        if ra is Ok && rc is Ok && vc.known(p) is Some && vc.known(body.spec_id()) is Some
            && vc.can_intern(CompoundType::Lambda(vc.known(p)->0, vc.known(body.spec_id())->0)) {
            let c = CompoundType::Lambda(vc.known(p)->0, vc.known(body.spec_id())->0);
            lemma_interned(vc, c);
            lemma_settled_interned(body, vc, c);
            lemma_chain(v, vc, vc.interned(c).0);
            assert(va.facts[p.0] == i);
            assert(vc.facts[p.0] == i);
        } else {
            lemma_guess_sound(id, p, body, v, i + 1);
        }
    }
}

pub(crate) proof fn lemma_visit_sound(e: &Expr, v: KnowledgeView)
    requires
        v.wf(),
    ensures
        sound_step(v, visit_result(e, v).0, visit_result(e, v).1 is Ok),
        visit_result(e, v).1 is Ok ==> settled(e, v, visit_result(e, v).0),
        visit_result(e, v).1 is Ok ==> settled(e, visit_result(e, v).0, visit_result(e, v).0),
    decreases e, 1int, 0int,
{
    lemma_chain(v, v, v);
    if binder_clash(e, v) is None {
        lemma_resolution_sound(e, v);
        let (w, r) = resolution(e, v);
        if let Some((id, t)) = r {
            lemma_inserted(w, id, t);
            lemma_chain(v, w, w.inserted(id, t).0);
            if v.facts_minted() && w.inserted(id, t).1 is Ok && w.inserted(id, t).0.facts.dom() == v.facts.dom() {
                assert(w.facts.dom() =~= v.facts.dom());
                if w.facts.contains_key(id.0) {
                    assert(v.facts.contains_key(id.0));
                }
            }
        }
    }
}

pub(crate) proof fn lemma_top_down_sound(e: &Expr, v: KnowledgeView)
    requires
        v.wf(),
    ensures
        sound_step(v, top_down_result(e, v).0, top_down_result(e, v).1 is Ok),
    decreases e, 2int, 0int,
{
    lemma_visit_sound(e, v);
    let (w, r) = visit_result(e, v);
    if r is Ok {
        match e {
            Expr::Var(..) => {},
            Expr::App(_, f, a) => {
                lemma_top_down_sound(f, w);
                let (w1, r1) = top_down_result(f, w);
                lemma_chain(v, w, w1);
                if r1 is Ok {
                    lemma_top_down_sound(a, w1);
                    lemma_chain(v, w1, top_down_result(a, w1).0);
                }
            },
            Expr::Abs(_, _, body) => {
                lemma_top_down_sound(body, w);
                lemma_chain(v, w, top_down_result(body, w).0);
            },
            Expr::Let(_, _, val, cont) => {
                lemma_top_down_sound(val, w);
                let (w1, r1) = top_down_result(val, w);
                lemma_chain(v, w, w1);
                if r1 is Ok {
                    lemma_top_down_sound(cont, w1);
                    lemma_chain(v, w1, top_down_result(cont, w1).0);
                }
            },
        }
    }
}

pub(crate) proof fn lemma_down_top_sound(e: &Expr, v: KnowledgeView)
    requires
        v.wf(),
    ensures
        sound_step(v, down_top_result(e, v).0, down_top_result(e, v).1 is Ok),
        down_top_result(e, v).1 is Ok ==> settled(e, down_top_result(e, v).0, down_top_result(e, v).0),
    decreases e, 2int, 0int,
{
    lemma_chain(v, v, v);
    match e {
        Expr::Var(..) => {},
        Expr::App(_, f, a) => {
            lemma_down_top_sound(f, v);
            let (w1, r1) = down_top_result(f, v);
            if r1 is Ok {
                lemma_down_top_sound(a, w1);
                lemma_chain(v, w1, down_top_result(a, w1).0);
            }
        },
        Expr::Abs(_, _, body) => {
            lemma_down_top_sound(body, v);
        },
        Expr::Let(_, _, val, cont) => {
            lemma_down_top_sound(val, v);
            let (w1, r1) = down_top_result(val, v);
            if r1 is Ok {
                lemma_down_top_sound(cont, w1);
                lemma_chain(v, w1, down_top_result(cont, w1).0);
            }
        },
    }
    let (w, r) = match e {
        Expr::Var(..) => (v, Ok(())),
        Expr::App(_, f, a) => {
            let (w1, r1) = down_top_result(f, v);
            if r1 is Err { (w1, r1) } else { down_top_result(a, w1) }
        },
        Expr::Abs(_, _, body) => down_top_result(body, v),
        Expr::Let(_, _, val, cont) => {
            let (w1, r1) = down_top_result(val, v);
            if r1 is Err { (w1, r1) } else { down_top_result(cont, w1) }
        },
    };
    if r is Ok {
        lemma_visit_sound(e, w);
        lemma_chain(v, w, visit_result(e, w).0);
    }
}

pub(crate) proof fn lemma_round_sound(e: &Expr, v: KnowledgeView)
    requires
        v.wf(),
    ensures
        sound_step(v, round_result(e, v).0, round_result(e, v).1 is Ok),
        round_result(e, v).1 is Ok ==> settled(e, round_result(e, v).0, round_result(e, v).0),
    decreases e, 3int, 0int,
{
    lemma_top_down_sound(e, v);
    let (w, r) = top_down_result(e, v);
    if r is Ok {
        lemma_down_top_sound(e, w);
        lemma_chain(v, w, down_top_result(e, w).0);
    }
}

/// An accepted guess needs no hidden part of the discarded copies for the body either:
/// when the body is a variable, or an application or abstraction whose parts have types
/// in the merged base, and handles are left to mint, resolving the body again on the
/// merged base reproduces exactly the type the base holds for it, and changes nothing.
pub proof fn lemma_guess_body_reproduced(id: ExprIdx, p: ExprIdx, body: &Expr, v: KnowledgeView)
    requires
        v.wf(),
        v.known(body.spec_id()) is None,
        guess_from(id, p, body, v, 0).1 is Some,
        guess_from(id, p, body, v, 0).0.next < u32::MAX,
        match body {
            Expr::Var(..) => true,
            Expr::App(_, f, a) => guess_from(id, p, body, v, 0).0.known(f.spec_id()) is Some
                && guess_from(id, p, body, v, 0).0.known(a.spec_id()) is Some,
            Expr::Abs(_, q, b) => guess_from(id, p, body, v, 0).0.known(q.id) is Some
                && guess_from(id, p, body, v, 0).0.known(b.spec_id()) is Some,
            Expr::Let(..) => false,
        },
    ensures
        ({
            let w = guess_from(id, p, body, v, 0).0;
            resolution(body, w) == (w, Some((body.spec_id(), TypeIdx(w.facts[body.spec_id().0]))))
        }),
{
    lemma_guess_sound(id, p, body, v, 0);
}

/// Whether resolving `e` on `v` takes the guess-and-verify search: an abstraction whose
/// body has no known type yet.
pub open spec fn searches(e: &Expr, v: KnowledgeView) -> bool {
    match e {
        Expr::Abs(_, _, body) => v.known(body.spec_id()) is None,
        _ => false,
    }
}

/// The resolution rules, for every node that does not take the search: the base after
/// the step and the fact derived, if any. A let-binding whose value is known records the
/// value's type for its variable, then takes one resolution step on the continuation
/// under that base; its type is the continuation's type from that step.
pub open spec fn rule(e: &Expr, v: KnowledgeView) -> (KnowledgeView, Option<(ExprIdx, TypeIdx)>)
    decreases e, 0int, 0int,
{
    match e {
        Expr::Var(id, _) => (
            v,
            match v.known(*id) {
                Some(t) => Some((*id, t)),
                None => None,
            },
        ),
        Expr::App(id, f, a) => match (v.known(f.spec_id()), v.known(a.spec_id())) {
            (Some(t1), Some(t2)) => derive(v, *id, CompoundType::Apply(t1, t2)),
            _ => (v, None),
        },
        Expr::Abs(id, p, body) => match (v.known(p.id), v.known(body.spec_id())) {
            (Some(tp), Some(tb)) => derive(v, *id, CompoundType::Lambda(tp, tb)),
            _ => (v, None),
        },
        Expr::Let(id, x, val, cont) => match v.known(val.spec_id()) {
            None => (v, None),
            Some(tv) => match v.known(x.id) {
                Some(tx) => if tx != tv {
                    (v, None)
                } else {
                    let (w, r) = resolution(cont, v);
                    (w, match r {
                        Some((_, tc)) => Some((*id, tc)),
                        None => None,
                    })
                },
                None => {
                    let (w, r) = resolution(cont, v.recorded(x.id, tv));
                    (w, match r {
                        Some((_, tc)) => Some((*id, tc)),
                        None => None,
                    })
                },
            },
        },
    }
}

/// What an accepted guess leaves for the abstraction `e`: in `after`, its parameter has
/// a type of the universe of `before`, its body has a type, and `t` is the canonical
/// function type between them.
pub open spec fn guess_accepted(e: &Expr, before: KnowledgeView, after: KnowledgeView, id: ExprIdx, t: TypeIdx) -> bool {
    match e {
        Expr::Abs(eid, p, body) => id == *eid && accepted(p.id, body.spec_id(), before, after, t),
        _ => false,
    }
}

/// `after` holds a type of the universe of `before` for parameter `p` and a type for the
/// body `b`, and `t` is the canonical function type between them.
pub open spec fn accepted(p: ExprIdx, b: ExprIdx, before: KnowledgeView, after: KnowledgeView, t: TypeIdx) -> bool {
    &&& after.facts.contains_key(p.0)
    &&& after.facts[p.0] < before.next
    &&& after.facts.contains_key(b.0)
    &&& after.types.contains_key(CompoundType::Lambda(TypeIdx(after.facts[p.0]), TypeIdx(after.facts[b.0])))
    &&& after.types[CompoundType::Lambda(TypeIdx(after.facts[p.0]), TypeIdx(after.facts[b.0]))] == t.0
}

/// Node `e` is settled in `post` by the premises of its rule in `pre`: an application or
/// abstraction whose parts are known in `pre` is known in `post` as the canonical
/// compound type of those parts (when a handle could be had for it), and a let-binding
/// whose value is known in `pre` has its variable known in `post` as the value's type.
pub open spec fn settled(e: &Expr, pre: KnowledgeView, post: KnowledgeView) -> bool {
    match e {
        Expr::Var(..) => true,
        Expr::App(id, f, a) => match (pre.known(f.spec_id()), pre.known(a.spec_id())) {
            (Some(t1), Some(t2)) => pre.can_intern(CompoundType::Apply(t1, t2)) ==> {
                &&& post.types.contains_key(CompoundType::Apply(t1, t2))
                &&& post.known(*id) == Some(TypeIdx(post.types[CompoundType::Apply(t1, t2)]))
            },
            _ => true,
        },
        Expr::Abs(id, p, body) => match (pre.known(p.id), pre.known(body.spec_id())) {
            (Some(tp), Some(tb)) => pre.can_intern(CompoundType::Lambda(tp, tb)) ==> {
                &&& post.types.contains_key(CompoundType::Lambda(tp, tb))
                &&& post.known(*id) == Some(TypeIdx(post.types[CompoundType::Lambda(tp, tb)]))
            },
            _ => true,
        },
        Expr::Let(id, x, val, cont) => match pre.known(val.spec_id()) {
            Some(tv) => post.known(x.id) == Some(tv),
            None => true,
        },
    }
}

pub(crate) proof fn lemma_settled_kept(e: &Expr, pre: KnowledgeView, mid: KnowledgeView, post: KnowledgeView)
    requires
        settled(e, pre, mid),
        mid.extended_by(post),
    ensures
        settled(e, pre, post),
{
    match e {
        Expr::Var(..) => {},
        Expr::App(id, f, a) => {
            if let (Some(t1), Some(t2)) = (pre.known(f.spec_id()), pre.known(a.spec_id())) {
                lemma_compound_kept(CompoundType::Apply(t1, t2), *id, pre, mid, post);
            }
        },
        Expr::Abs(id, p, body) => {
            if let (Some(tp), Some(tb)) = (pre.known(p.id), pre.known(body.spec_id())) {
                lemma_compound_kept(CompoundType::Lambda(tp, tb), *id, pre, mid, post);
            }
        },
        Expr::Let(_, x, _, _) => {
            if mid.facts.contains_key(x.id.0) {
                assert(post.facts.contains_key(x.id.0));
            }
        },
    }
}

proof fn lemma_settled_interned(e: &Expr, v: KnowledgeView, c: CompoundType)
    requires
        v.wf(),
        v.can_intern(c),
        settled(e, v, v),
    ensures
        settled(e, v.interned(c).0, v.interned(c).0),
{
    lemma_interned(v, c);
    let w = v.interned(c).0;
    assert(w.facts == v.facts);
    match e {
        Expr::App(_, f, a) => {
            if let (Some(t1), Some(t2)) = (v.known(f.spec_id()), v.known(a.spec_id())) {
                let d = CompoundType::Apply(t1, t2);
                if v.can_intern(d) {
                    assert(v.types.contains_key(d));
                    assert(w.types[d] == v.types[d]);
                }
            }
        },
        Expr::Abs(_, p, body) => {
            if let (Some(tp), Some(tb)) = (v.known(p.id), v.known(body.spec_id())) {
                let d = CompoundType::Lambda(tp, tb);
                if v.can_intern(d) {
                    assert(v.types.contains_key(d));
                    assert(w.types[d] == v.types[d]);
                }
            }
        },
        _ => {},
    }
}

proof fn lemma_compound_kept(c: CompoundType, id: ExprIdx, pre: KnowledgeView, mid: KnowledgeView, post: KnowledgeView)
    requires
        pre.can_intern(c) ==> mid.types.contains_key(c) && mid.known(id) == Some(TypeIdx(mid.types[c])),
        mid.extended_by(post),
    ensures
        pre.can_intern(c) ==> post.types.contains_key(c) && post.known(id) == Some(TypeIdx(post.types[c])),
{
    if pre.can_intern(c) {
        assert(mid.types.contains_key(c));
        assert(mid.facts.contains_key(id.0));
        assert(post.facts.contains_key(id.0));
    }
}

/// The nodes of `e` without a known type in `v`, in pre-order (a node before its
/// children, children from left to right); binders are not nodes.
pub open spec fn unresolved_in(e: &Expr, v: KnowledgeView) -> Seq<ExprIdx>
    decreases e,
{
    let own = if v.known(e.spec_id()) is None {
        seq![e.spec_id()]
    } else {
        Seq::<ExprIdx>::empty()
    };
    match e {
        Expr::Var(..) => own,
        Expr::App(_, f, a) => own + unresolved_in(f, v) + unresolved_in(a, v),
        Expr::Abs(_, _, body) => own + unresolved_in(body, v),
        Expr::Let(_, _, val, cont) => own + unresolved_in(val, v) + unresolved_in(cont, v),
    }
}

/// A step that learnt no new fact left the base exactly as it was.
pub open spec fn still_unless_learnt(before: KnowledgeView, after: KnowledgeView) -> bool {
    after.facts.dom() == before.facts.dom() ==> after == before
}

/// What a conflict reports: the node keeps its known type, and the proposal differs.
pub open spec fn reports(c: TypeConflict, after: KnowledgeView) -> bool {
    &&& c.known != c.proposed
    &&& after.known(c.expr) == Some(c.known)
}

/// Knowledge is monotone: facts and interned types that one step keeps, and that a
/// following step keeps, are kept by the two together; and when neither step changed
/// anything unless it learnt a fact, neither does the whole.
pub proof fn lemma_chain(a: KnowledgeView, b: KnowledgeView, c: KnowledgeView)
    requires
        a.extended_by(b),
        b.extended_by(c),
    ensures
        a.extended_by(c),
        still_unless_learnt(a, b) && still_unless_learnt(b, c) ==> still_unless_learnt(a, c),
{
    assert forall|x: u32| #[trigger] a.facts.contains_key(x) implies c.facts.contains_key(x) && c.facts[x] == a.facts[x] by {
        assert(b.facts.contains_key(x));
        assert(b.facts[x] == a.facts[x]);
        assert(c.facts.contains_key(x));
        assert(c.facts[x] == b.facts[x]);
    }
    assert forall|x: CompoundType| #[trigger] a.types.contains_key(x) implies c.types.contains_key(x) && c.types[x] == a.types[x] by {
        assert(b.types.contains_key(x));
        assert(b.types[x] == a.types[x]);
        assert(c.types.contains_key(x));
        assert(c.types[x] == b.types[x]);
    }
    if still_unless_learnt(a, b) && still_unless_learnt(b, c) && c.facts.dom() == a.facts.dom() {
        assert(b.facts.dom() =~= a.facts.dom());
        assert(c.facts.dom() =~= b.facts.dom());
    }
}

/// An accepted guess needs no hidden part of the discarded copies: resolving the
/// abstraction again on the merged base takes the direct rule, reproduces exactly the
/// same fact, and changes nothing.
pub proof fn lemma_guess_reproduced(e: &Expr, before: KnowledgeView, after: KnowledgeView, id: ExprIdx, t: TypeIdx)
    requires
        after.wf(),
        guess_accepted(e, before, after, id, t),
    ensures
        !searches(e, after),
        rule(e, after) == (after, Some((id, t))),
{
}

} // verus!
