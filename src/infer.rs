//! Resolution of one node from what is known of its children, and the propagation
//! engine that applies it over a whole tree until nothing new is learnt.
use vstd::prelude::*;
use crate::ids::{ExprIdx, TypeIdx};
use crate::expr::{Binder, Expr};
use crate::knowledge::{CompoundType, KnowledgeBase, KnowledgeView, TypeConflict};
use crate::model::{
    accepted, guess_accepted, guess_from, lemma_chain, lemma_down_top_sound, lemma_resolution_sound,
    lemma_round_sound, lemma_settled_kept, lemma_top_down_sound, lemma_visit_sound, propagation, reports, resolution,
    round_result, rule, searches, settled, still_unless_learnt, top_down_result, down_top_result,
    unresolved_in, visit_result,
};

verus! {

/// One resolution step on node `e`, deriving a fact for `e` itself. It reads what is
/// known of the children; a let-binding records its variable and takes one step on its
/// continuation, and the search for an abstraction runs whole propagation rounds on its
/// body, on a copy of `k`.
pub fn resolve(e: &Expr, k: &mut KnowledgeBase) -> (r: Option<(ExprIdx, TypeIdx)>)
    requires
        old(k)@.wf(),
    ensures
        final(k)@.wf(),
        old(k)@.extended_by(final(k)@),
        r matches Some((i, _)) ==> i == e.spec_id(),
        (final(k)@, r) == resolution(e, old(k)@),
        !searches(e, old(k)@) ==> (final(k)@, r) == rule(e, old(k)@),
        searches(e, old(k)@) ==> match r {
            None => final(k)@ == old(k)@,
            Some((id, t)) => guess_accepted(e, old(k)@, final(k)@, id, t),
        },
    decreases e, 0nat,
{
    proof {
        lemma_resolution_sound(e, old(k)@);
    }
    match e {
        Expr::Var(id, _) => match k.get(id) {
            Some(t) => Some((*id, t)),
            None => None,
        },
        Expr::App(id, f, a) => match (k.get(&f.id()), k.get(&a.id())) {
            (Some(t1), Some(t2)) => {
                if k.next_idx() < u32::MAX || k.contains(CompoundType::Apply(t1, t2)) {
                    Some((*id, k.apply(t1, t2)))
                } else {
                    None
                }
            },
            _ => None,
        },
        Expr::Abs(id, p, body) => match k.get(&body.id()) {
            Some(tb) => match k.get(&p.id) {
                Some(tp) => {
                    if k.next_idx() < u32::MAX || k.contains(CompoundType::Lambda(tp, tb)) {
                        Some((*id, k.lambda(tp, tb)))
                    } else {
                        None
                    }
                },
                None => None,
            },
            None => guess(*id, p, body, k),
        },
        Expr::Let(id, x, val, cont) => match k.get(&val.id()) {
            None => None,
            Some(tv) => match k.get(&x.id) {
                Some(tx) => {
                    if tx.0 != tv.0 {
                        None
                    } else {
                        match resolve(cont, k) {
                            Some((_, tc)) => Some((*id, tc)),
                            None => None,
                        }
                    }
                },
                None => {
                    let _ = k.insert(x.id, tv);
                    match resolve(cont, k) {
                        Some((_, tc)) => Some((*id, tc)),
                        None => None,
                    }
                },
            },
        },
    }
}

/// The guess-and-verify search for an abstraction (node `id`, parameter `p`, body `body`
/// of unknown type): every handle minted so far, in increasing order, is tried as the
/// parameter's type on a copy of `k`, with two propagation rounds over the body. The
/// first copy on which the body gets a type without conflict replaces `k`, with the
/// function type interned; otherwise `k` is left as it was.
fn guess(id: ExprIdx, p: &Binder, body: &Expr, k: &mut KnowledgeBase) -> (r: Option<(ExprIdx, TypeIdx)>)
    requires
        old(k)@.wf(),
        old(k)@.known(body.spec_id()) is None,
    ensures
        final(k)@.wf(),
        old(k)@.extended_by(final(k)@),
        r matches Some((_, t)) ==> t.0 < final(k)@.next,
        match r {
            None => final(k)@ == old(k)@,
            Some((rid, t)) => rid == id && accepted(p.id, body.spec_id(), old(k)@, final(k)@, t),
        },
        (final(k)@, r) == guess_from(id, p.id, body, old(k)@, 0),
    decreases body, 4nat,
{
    let bound = k.next_idx();
    let mut i: u32 = 0;
    while i < bound
        invariant
            k@ == old(k)@,
            k@.wf(),
            bound == k@.next,
            i <= bound,
            old(k)@.known(body.spec_id()) is None,
            guess_from(id, p.id, body, k@, i as int) == guess_from(id, p.id, body, k@, 0),
        decreases bound - i,
    {
        let mut trial = k.clone();
        if trial.insert(p.id, TypeIdx(i)).is_ok() {
            let ghost va = trial@;
            assert(va.facts.contains_key(p.id.0) && va.facts[p.id.0] == i);
            let first = Visitor::round(&mut trial, body);
            let ghost vb = trial@;
            let second = if first.is_ok() { Visitor::round(&mut trial, body) } else { first };
            let ghost vc = trial@;
            proof {
                lemma_chain(old(k)@, va, vb);
                lemma_chain(old(k)@, vb, vc);
                lemma_chain(va, vb, vc);
            }
            if second.is_ok() {
                match (trial.get(&p.id), trial.get(&body.id())) {
                    (Some(tp), Some(tb)) => {
                        if trial.next_idx() < u32::MAX || trial.contains(CompoundType::Lambda(tp, tb)) {
                            let t = trial.lambda(tp, tb);
                            proof {
                                lemma_chain(old(k)@, vc, trial@);
                                assert(trial@.types.contains_key(CompoundType::Lambda(tp, tb)));
                                assert(vc.facts.contains_key(p.id.0) && vc.facts[p.id.0] == i);
                                assert(tp.0 == i);
                            }
                            *k = trial;
                            return Some((id, t));
                        }
                    },
                    _ => {},
                }
            }
        }
        i = i + 1;
    }
    None
}

impl KnowledgeBase {
    /// The nodes of `e` whose type is not known, in pre-order.
    pub fn unresolved(&self, e: &Expr) -> (r: Vec<ExprIdx>)
        ensures
            r@ == unresolved_in(e, self@),
    {
        let mut out: Vec<ExprIdx> = Vec::new();
        self.collect_unresolved(e, &mut out);
        assert(out@ =~= Seq::<ExprIdx>::empty() + unresolved_in(e, self@));
        out
    }

    fn collect_unresolved(&self, e: &Expr, out: &mut Vec<ExprIdx>)
        ensures
            final(out)@ == old(out)@ + unresolved_in(e, self@),
        decreases e,
    {
        let ghost start = out@;
        let id = e.id();
        if self.get(&id).is_none() {
            out.push(id);
        }
        let ghost mid = out@;
        assert(mid =~= start + (if self@.known(e.spec_id()) is None {
            seq![e.spec_id()]
        } else {
            Seq::<ExprIdx>::empty()
        }));
        match e {
            Expr::Var(..) => {},
            Expr::App(_, f, a) => {
                self.collect_unresolved(f, out);
                self.collect_unresolved(a, out);
            },
            Expr::Abs(_, _, body) => {
                self.collect_unresolved(body, out);
            },
            Expr::Let(_, _, val, cont) => {
                self.collect_unresolved(val, out);
                self.collect_unresolved(cont, out);
            },
        }
        proof {
            match e {
                Expr::App(_, f, a) => {
                    assert(out@ =~= start + unresolved_in(e, self@));
                },
                Expr::Let(_, _, val, cont) => {
                    assert(out@ =~= start + unresolved_in(e, self@));
                },
                Expr::Abs(_, _, body) => {
                    assert(out@ =~= start + unresolved_in(e, self@));
                },
                Expr::Var(..) => {
                    assert(out@ =~= start + unresolved_in(e, self@));
                },
            }
        }
    }

    /// Resolves `e` and records the fact derived, if any; a fact that contradicts a known
    /// one is reported as a conflict and not recorded, and so is a let-binding whose
    /// bound variable is known as another type than its value.
    pub fn visit(&mut self, e: &Expr) -> (r: Result<(), TypeConflict>)
        requires
            old(self)@.wf(),
        ensures
            final(self)@.wf(),
            old(self)@.extended_by(final(self)@),
            old(self)@.facts_minted() ==> final(self)@.facts_minted(),
            r is Ok && old(self)@.facts_minted() ==> still_unless_learnt(old(self)@, final(self)@),
            r is Ok ==> settled(e, old(self)@, final(self)@),
            r is Ok ==> settled(e, final(self)@, final(self)@),
            (final(self)@, r) == visit_result(e, old(self)@),
            r matches Err(c) ==> reports(c, final(self)@),
        decreases e, 1nat,
    {
        proof {
            lemma_visit_sound(e, old(self)@);
        }
        if let Expr::Let(_, x, val, _) = e {
            if let (Some(tv), Some(tx)) = (self.get(&val.id()), self.get(&x.id)) {
                if tx.0 != tv.0 {
                    return Err(TypeConflict { expr: x.id, known: tx, proposed: tv });
                }
            }
        }
        match resolve(e, self) {
            Some((eid, tid)) => self.insert(eid, tid),
            None => Ok(()),
        }
    }
}

/// The propagation engine: passes over a tree that visit every node in a chosen order.
pub struct Visitor;

impl Visitor {
    /// Visits `e` first, then its children from left to right; stops at the first conflict.
    pub fn top_down(k: &mut KnowledgeBase, e: &Expr) -> (r: Result<(), TypeConflict>)
        requires
            old(k)@.wf(),
        ensures
            final(k)@.wf(),
            old(k)@.extended_by(final(k)@),
            old(k)@.facts_minted() ==> final(k)@.facts_minted(),
            r is Ok && old(k)@.facts_minted() ==> still_unless_learnt(old(k)@, final(k)@),
            r is Ok ==> settled(e, old(k)@, final(k)@),
            r matches Err(c) ==> reports(c, final(k)@),
            (final(k)@, r) == top_down_result(e, old(k)@),
        decreases e, 2nat,
    {
        proof {
            lemma_top_down_sound(e, old(k)@);
        }
        let ghost v0 = k@;
        let r1 = k.visit(e);
        if r1.is_err() {
            return r1;
        }
        let ghost v1 = k@;
        assert(v1.extended_by(v1));
        let r = match e {
            Expr::Var(..) => Ok(()),
            Expr::App(_, f, a) => Visitor::pair(k, e, f, a, true, Ghost(v1)),
            Expr::Abs(_, _, body) => {
                let r = Visitor::top_down(k, body);
                r
            },
            Expr::Let(_, _, val, cont) => Visitor::pair(k, e, val, cont, true, Ghost(v1)),
        };
        proof {
            lemma_chain(v0, v1, k@);
            lemma_settled_kept(e, v0, v1, k@);
        }
        r
    }

    /// Visits the children of `e` from left to right, then `e`; stops at the first conflict.
    pub fn down_top(k: &mut KnowledgeBase, e: &Expr) -> (r: Result<(), TypeConflict>)
        requires
            old(k)@.wf(),
        ensures
            final(k)@.wf(),
            old(k)@.extended_by(final(k)@),
            old(k)@.facts_minted() ==> final(k)@.facts_minted(),
            r is Ok && old(k)@.facts_minted() ==> still_unless_learnt(old(k)@, final(k)@),
            r is Ok ==> settled(e, final(k)@, final(k)@),
            r matches Err(c) ==> reports(c, final(k)@),
            (final(k)@, r) == down_top_result(e, old(k)@),
        decreases e, 2nat,
    {
        proof {
            lemma_down_top_sound(e, old(k)@);
        }
        let ghost v0 = k@;
        proof {
            lemma_chain(v0, v0, v0);
        }
        let r1 = match e {
            Expr::Var(..) => Ok(()),
            Expr::App(_, f, a) => Visitor::pair(k, e, f, a, false, Ghost(v0)),
            Expr::Abs(_, _, body) => Visitor::down_top(k, body),
            Expr::Let(_, _, val, cont) => Visitor::pair(k, e, val, cont, false, Ghost(v0)),
        };
        if r1.is_err() {
            return r1;
        }
        let ghost v1 = k@;
        let r = k.visit(e);
        proof {
            lemma_chain(v0, v1, k@);
        }
        r
    }

    /// One propagation round: a top-down pass, then a bottom-up pass.
    pub fn round(k: &mut KnowledgeBase, e: &Expr) -> (r: Result<(), TypeConflict>)
        requires
            old(k)@.wf(),
        ensures
            final(k)@.wf(),
            old(k)@.extended_by(final(k)@),
            old(k)@.facts_minted() ==> final(k)@.facts_minted(),
            r is Ok && old(k)@.facts_minted() ==> still_unless_learnt(old(k)@, final(k)@),
            r is Ok ==> settled(e, old(k)@, final(k)@),
            r is Ok ==> settled(e, final(k)@, final(k)@),
            r matches Err(c) ==> reports(c, final(k)@),
            (final(k)@, r) == round_result(e, old(k)@),
        decreases e, 3nat,
    {
        proof {
            lemma_round_sound(e, old(k)@);
        }
        let r1 = Visitor::top_down(k, e);
        if r1.is_err() {
            return r1;
        }
        let ghost v1 = k@;
        let r = Visitor::down_top(k, e);
        proof {
            lemma_chain(old(k)@, v1, k@);
            lemma_settled_kept(e, old(k)@, v1, k@);
        }
        r
    }

    /// Runs rounds over `e` until one learns no new fact (`Ok(true)`) or `budget` rounds
    /// have run (`Ok(false)`); stops at the first conflict.
    pub fn propagate(k: &mut KnowledgeBase, e: &Expr, budget: usize) -> (r: Result<bool, TypeConflict>)
        requires
            old(k)@.wf(),
        ensures
            final(k)@.wf(),
            old(k)@.extended_by(final(k)@),
            r matches Err(c) ==> reports(c, final(k)@),
            budget == 0 ==> r == Ok::<bool, TypeConflict>(false) && final(k)@ == old(k)@,
            r == Ok::<bool, TypeConflict>(true) && old(k)@.facts_minted() ==> round_result(e, final(k)@) == (final(k)@, Ok::<(), TypeConflict>(())),
            (final(k)@, r) == propagation(e, old(k)@, budget as nat),
    {
        let mut n: usize = 0;
        proof {
            lemma_chain(old(k)@, old(k)@, old(k)@);
        }
        while n < budget
            invariant
                k@.wf(),
                old(k)@.extended_by(k@),
                n <= budget,
                n == 0 ==> k@ == old(k)@,
                old(k)@.facts_minted() ==> k@.facts_minted(),
                propagation(e, k@, (budget - n) as nat) == propagation(e, old(k)@, budget as nat),
            decreases budget - n,
        {
            let ghost v0 = k@;
            let before = k.known_count();
            let r = Visitor::round(k, e);
            proof {
                lemma_chain(old(k)@, v0, k@);
            }
            match r {
                Err(c) => {
                    return Err(c);
                },
                Ok(()) => {
                    if k.known_count() == before {
                        proof {
                            vstd::set_lib::lemma_subset_equality(v0.facts.dom(), k@.facts.dom());
                        }
                        return Ok(true);
                    }
                },
            }
            n = n + 1;
        }
        Ok(false)
    }

    /// Runs one pass over `first`, then over `second`, stopping at the first conflict.
    fn pair(
        k: &mut KnowledgeBase,
        e: &Expr,
        first: &Expr,
        second: &Expr,
        top: bool,
        Ghost(v0): Ghost<KnowledgeView>,
    ) -> (r: Result<(), TypeConflict>)
        requires
            match e {
                Expr::App(_, f, a) => **f == *first && **a == *second,
                Expr::Let(_, _, val, cont) => **val == *first && **cont == *second,
                _ => false,
            },
            old(k)@.wf(),
            v0.extended_by(old(k)@),
        ensures
            final(k)@.wf(),
            v0.extended_by(final(k)@),
            r matches Err(c) ==> reports(c, final(k)@),
            ({
                let (w, r1) = if top { top_down_result(first, old(k)@) } else { down_top_result(first, old(k)@) };
                if r1 is Err {
                    (final(k)@, r) == (w, r1)
                } else if top {
                    (final(k)@, r) == top_down_result(second, w)
                } else {
                    (final(k)@, r) == down_top_result(second, w)
                }
            }),
        decreases e, 1nat,
    {
        let r1 = if top { Visitor::top_down(k, first) } else { Visitor::down_top(k, first) };
        proof {
            lemma_chain(v0, old(k)@, k@);
        }
        if r1.is_err() {
            return r1;
        }
        let ghost v1 = k@;
        let r = if top { Visitor::top_down(k, second) } else { Visitor::down_top(k, second) };
        proof {
            lemma_chain(v0, v1, k@);
        }
        r
    }
}

} // verus!
