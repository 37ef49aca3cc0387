//! The knowledge base: the facts known of expression nodes, the interning table of
//! compound types and the counter that mints fresh type handles.
use vstd::prelude::*;
use std::collections::HashMap;
use crate::ids::{ExprIdx, TypeIdx};

verus! {

broadcast use vstd::std_specs::hash::group_hash_axioms;

/// A compound type: the key under which the interning table keeps its canonical handle.
#[derive(Clone, Copy, PartialEq, Eq, Structural, Debug)]
pub enum CompoundType {
    Apply(TypeIdx, TypeIdx),
    Lambda(TypeIdx, TypeIdx),
}

/// Two different types proposed for one node: `expr` is known as `known`, and was
/// derived again as `proposed`.
#[derive(Clone, Copy, PartialEq, Eq, Structural, Debug)]
pub struct TypeConflict {
    pub expr: ExprIdx,
    pub known: TypeIdx,
    pub proposed: TypeIdx,
}

/// What a knowledge base holds: facts (node handle to type handle), the interning
/// table (compound type to its canonical handle), and the next handle to mint.
pub struct KnowledgeView {
    pub facts: Map<u32, u32>,
    pub types: Map<CompoundType, u32>,
    pub next: nat,
}

impl KnowledgeView {
    /// Every handle in the interning table was minted, and no handle stands for two
    /// compound types.
    pub open spec fn wf(&self) -> bool {
        &&& self.next <= u32::MAX
        &&& self.facts.dom().finite()
        &&& forall|c: CompoundType| #[trigger] self.types.contains_key(c) ==> self.types[c] < self.next
        &&& forall|c1: CompoundType, c2: CompoundType|
            #[trigger] self.types.contains_key(c1) && #[trigger] self.types.contains_key(c2)
                && self.types[c1] == self.types[c2] ==> c1 == c2
    }

    /// Every fact names a handle of the universe (one below the counter). Seeded facts
    /// may name handles the counter has not reached; when they do, the counter can later
    /// mint the same handle for a compound type.
    pub open spec fn facts_minted(&self) -> bool {
        forall|e: u32| #[trigger] self.facts.contains_key(e) ==> self.facts[e] < self.next
    }

    /// The type known of node `e`, if any.
    pub open spec fn known(&self, e: ExprIdx) -> Option<TypeIdx> {
        if self.facts.contains_key(e.0) {
            Some(TypeIdx(self.facts[e.0]))
        } else {
            None
        }
    }

    /// Whether interning `c` can succeed: it is in the table, or a handle is left to mint.
    pub open spec fn can_intern(&self, c: CompoundType) -> bool {
        self.types.contains_key(c) || self.next < u32::MAX
    }

    /// The base after interning `c`, and the canonical handle of `c`: the one in the table,
    /// or else the next handle, which is then minted and recorded.
    pub open spec fn interned(&self, c: CompoundType) -> (KnowledgeView, u32) {
        if self.types.contains_key(c) {
            (*self, self.types[c])
        } else {
            (
                KnowledgeView {
                    facts: self.facts,
                    types: self.types.insert(c, self.next as u32),
                    next: self.next + 1,
                },
                self.next as u32,
            )
        }
    }

    /// This base with the fact `e : t` written in.
    pub open spec fn recorded(&self, e: ExprIdx, t: TypeIdx) -> KnowledgeView {
        KnowledgeView { facts: self.facts.insert(e.0, t.0), types: self.types, next: self.next }
    }

    /// The base after recording `e : t`, and the outcome: a node already known as `t`
    /// stays as it is, one known as another type is a conflict and nothing changes.
    pub open spec fn inserted(&self, e: ExprIdx, t: TypeIdx) -> (KnowledgeView, Result<(), TypeConflict>) {
        match self.known(e) {
            None => (self.recorded(e, t), Ok(())),
            Some(u) => if u == t {
                (*self, Ok(()))
            } else {
                (*self, Err(TypeConflict { expr: e, known: u, proposed: t }))
            },
        }
    }

    /// `later` keeps every fact and every interned type of `self`, and mints on from there.
    pub open spec fn extended_by(&self, later: KnowledgeView) -> bool {
        &&& self.facts.submap_of(later.facts)
        &&& self.types.submap_of(later.types)
        &&& self.next <= later.next
    }
}

/// Interning is idempotent: interning `c` a second time returns the handle of the first
/// time and changes nothing, and the first time advances the counter by one exactly when
/// `c` was not yet in the table.
pub proof fn lemma_intern_idempotent(v: KnowledgeView, c: CompoundType)
    requires
        v.wf(),
        v.can_intern(c),
    ensures
        v.interned(c).0.wf(),
        v.interned(c).0.can_intern(c),
        v.interned(c).0.interned(c) == (v.interned(c).0, v.interned(c).1),
        v.interned(c).0.next == v.next + if v.types.contains_key(c) { 0int } else { 1int },
        v.interned(c).0.facts == v.facts,
{
    let w = v.interned(c).0;
    if !v.types.contains_key(c) {
        assert forall|d: CompoundType| #[trigger] w.types.contains_key(d) implies w.types[d] < w.next by {
            if d != c {
                assert(v.types.contains_key(d));
            }
        }
        assert forall|d1: CompoundType, d2: CompoundType|
            #[trigger] w.types.contains_key(d1) && #[trigger] w.types.contains_key(d2)
                && w.types[d1] == w.types[d2] implies d1 == d2 by {
            if d1 != c {
                assert(v.types.contains_key(d1));
            }
            if d2 != c {
                assert(v.types.contains_key(d2));
            }
        }
    }
}

/// Recording a fact keeps a base well formed, keeps all it held, and changes nothing
/// unless the node was new; a fact of the universe keeps every fact in the universe.
pub proof fn lemma_inserted(v: KnowledgeView, e: ExprIdx, t: TypeIdx)
    requires
        v.wf(),
    ensures
        v.facts_minted() && t.0 < v.next ==> v.inserted(e, t).0.facts_minted(),
        v.inserted(e, t).0.wf(),
        v.extended_by(v.inserted(e, t).0),
        v.inserted(e, t).0.facts.dom() == v.facts.dom() ==> v.inserted(e, t).0 == v,
        v.inserted(e, t).0.known(e) is Some,
        v.inserted(e, t).1 is Ok ==> v.inserted(e, t).0.known(e) == Some(t),
{
    let w = v.inserted(e, t).0;
    if v.known(e) is None {
        assert(w.facts.dom().contains(e.0));
        assert(!v.facts.dom().contains(e.0));
    }
}

/// Interning keeps a base well formed and keeps all it held.
pub proof fn lemma_interned(v: KnowledgeView, c: CompoundType)
    requires
        v.wf(),
        v.can_intern(c),
    ensures
        v.interned(c).0.wf(),
        v.extended_by(v.interned(c).0),
        v.interned(c).0.types.contains_key(c),
        v.interned(c).0.types[c] == v.interned(c).1,
        v.interned(c).1 < v.interned(c).0.next,
        v.facts_minted() ==> v.interned(c).0.facts_minted(),
{
    lemma_intern_idempotent(v, c);
    if !v.types.contains_key(c) {
        assert(v.types.submap_of(v.types.insert(c, v.next as u32)));
    }
}

/// The key of a pair of handles in one of the two halves of the interning table.
pub open spec fn pair_key(a: u32, b: u32) -> int {
    a as int * 4294967296 + b as int
}

proof fn lemma_pair_key_injective(a: u32, b: u32, c: u32, d: u32)
    ensures
        pair_key(a, b) == pair_key(c, d) ==> a == c && b == d,
{
    if pair_key(a, b) == pair_key(c, d) {
        assert(a == c) by (nonlinear_arith)
            requires
                a as int * 4294967296 + b as int == c as int * 4294967296 + d as int,
                0 <= b < 4294967296,
                0 <= d < 4294967296,
        ;
    }
}

fn pack(a: TypeIdx, b: TypeIdx) -> (r: u64)
    ensures
        r == pair_key(a.0, b.0),
{
    assert(a.0 as int * 4294967296 + b.0 as int <= u64::MAX) by (nonlinear_arith)
        requires
            a.0 <= u32::MAX,
            b.0 <= u32::MAX,
    ;
    (a.0 as u64) * 4294967296 + (b.0 as u64)
}

/// The state of inference: facts, interned compound types and the fresh-handle counter.
pub struct KnowledgeBase {
    knowledge: HashMap<u32, u32>,
    applies: HashMap<u64, u32>,
    lambdas: HashMap<u64, u32>,
    next_idx: u32,
}

impl KnowledgeBase {
    spec fn table_has(&self, c: CompoundType) -> bool {
        match c {
            CompoundType::Apply(a, b) => self.applies@.contains_key(pair_key(a.0, b.0) as u64),
            CompoundType::Lambda(a, b) => self.lambdas@.contains_key(pair_key(a.0, b.0) as u64),
        }
    }

    spec fn table_at(&self, c: CompoundType) -> u32 {
        match c {
            CompoundType::Apply(a, b) => self.applies@[pair_key(a.0, b.0) as u64],
            CompoundType::Lambda(a, b) => self.lambdas@[pair_key(a.0, b.0) as u64],
        }
    }
}

impl KnowledgeBase {
    /// An empty knowledge base: no facts, no interned types, nothing minted yet.
    pub fn new() -> (r: KnowledgeBase)
        ensures
            r@.wf(),
            r@.facts == Map::<u32, u32>::empty(),
            r@.types == Map::<CompoundType, u32>::empty(),
            r@.next == 0,
    {
        let r = KnowledgeBase {
            knowledge: HashMap::new(),
            applies: HashMap::new(),
            lambdas: HashMap::new(),
            next_idx: 0,
        };
        assert(r@.types =~= Map::<CompoundType, u32>::empty());
        r
    }

    /// The next handle that the counter will mint; the guess universe is every handle below it.
    pub fn next_idx(&self) -> (r: u32)
        ensures
            r == self@.next,
    {
        self.next_idx
    }

    /// Mints a fresh handle for a primitive type, which belongs to no compound type.
    pub fn fresh(&mut self) -> (r: TypeIdx)
        requires
            old(self)@.wf(),
            old(self)@.next < u32::MAX,
        ensures
            final(self)@.wf(),
            old(self)@.facts_minted() ==> final(self)@.facts_minted(),
            r.0 == old(self)@.next,
            final(self)@.facts == old(self)@.facts,
            final(self)@.types == old(self)@.types,
            final(self)@.next == old(self)@.next + 1,
    {
        let t = self.next_idx;
        self.next_idx = t + 1;
        proof {
            assert(self@.types =~= old(self)@.types);
        }
        TypeIdx(t)
    }

    /// The type known of node `eid`, if any.
    pub fn get(&self, eid: &ExprIdx) -> (r: Option<TypeIdx>)
        ensures
            r == self@.known(*eid),
    {
        match self.knowledge.get(&eid.0) {
            Some(t) => Some(TypeIdx(*t)),
            None => None,
        }
    }

    /// How many nodes have a known type.
    pub fn known_count(&self) -> (r: usize)
        ensures
            r == self@.facts.len(),
    {
        self.knowledge.len()
    }

    /// Records that node `eid` has type `tid`. A node already known as `tid` is left as
    /// it is; one known as another type is a conflict, and nothing changes. The handle may
    /// be a primitive type assigned by the caller; one minted by `fresh` stays apart from
    /// every compound type.
    pub fn insert(&mut self, eid: ExprIdx, tid: TypeIdx) -> (r: Result<(), TypeConflict>)
        requires
            old(self)@.wf(),
        ensures
            final(self)@.wf(),
            old(self)@.facts_minted() && tid.0 < old(self)@.next ==> final(self)@.facts_minted(),
            (final(self)@, r) == old(self)@.inserted(eid, tid),
    {
        match self.knowledge.get(&eid.0) {
            Some(t) => {
                if *t == tid.0 {
                    Ok(())
                } else {
                    Err(TypeConflict { expr: eid, known: TypeIdx(*t), proposed: tid })
                }
            },
            None => {
                let ghost v0 = self@;
                self.knowledge.insert(eid.0, tid.0);
                proof {
                    assert(self@.types =~= v0.types);
                }
                Ok(())
            },
        }
    }

    /// Whether `c` is in the interning table.
    pub fn contains(&self, c: CompoundType) -> (r: bool)
        ensures
            r == self@.types.contains_key(c),
    {
        let (a, b) = match c {
            CompoundType::Apply(a, b) => (a, b),
            CompoundType::Lambda(a, b) => (a, b),
        };
        let key = pack(a, b);
        match c {
            CompoundType::Apply(..) => self.applies.contains_key(&key),
            CompoundType::Lambda(..) => self.lambdas.contains_key(&key),
        }
    }

    /// The canonical handle of `c`, minting and recording one when `c` is new.
    fn intern(&mut self, c: CompoundType) -> (r: TypeIdx)
        requires
            old(self)@.wf(),
            old(self)@.can_intern(c),
        ensures
            final(self)@.wf(),
            old(self)@.facts_minted() ==> final(self)@.facts_minted(),
            (final(self)@, r.0) == old(self)@.interned(c),
    {
        let ghost v0 = self@;
        let (a, b) = match c {
            CompoundType::Apply(a, b) => (a, b),
            CompoundType::Lambda(a, b) => (a, b),
        };
        let key = pack(a, b);
        let found = match c {
            CompoundType::Apply(..) => self.applies.get(&key),
            CompoundType::Lambda(..) => self.lambdas.get(&key),
        };
        if let Some(t) = found {
            proof {
                assert(v0.types.contains_key(c));
            }
            return TypeIdx(*t);
        }
        let t = self.next_idx;
        match c {
            CompoundType::Apply(..) => {
                self.applies.insert(key, t);
            },
            CompoundType::Lambda(..) => {
                self.lambdas.insert(key, t);
            },
        }
        self.next_idx = t + 1;
        proof {
            assert forall|d: CompoundType| #[trigger] self@.types.contains_key(d) == v0.types.insert(c, t).contains_key(d)
                && (self@.types.contains_key(d) ==> self@.types[d] == v0.types.insert(c, t)[d]) by {
                match d {
                    CompoundType::Apply(x, y) => lemma_pair_key_injective(x.0, y.0, a.0, b.0),
                    CompoundType::Lambda(x, y) => lemma_pair_key_injective(x.0, y.0, a.0, b.0),
                }
            }
            assert(self@.types =~= v0.types.insert(c, t));
            assert(self@.facts == v0.facts);
            assert(self@.next == v0.next + 1);
            assert forall|d: CompoundType| #[trigger] self@.types.contains_key(d) implies self@.types[d] < self@.next by {
                if d != c {
                    assert(v0.types.contains_key(d));
                }
            }
            assert forall|d1: CompoundType, d2: CompoundType|
                #[trigger] self@.types.contains_key(d1) && #[trigger] self@.types.contains_key(d2)
                    && self@.types[d1] == self@.types[d2] implies d1 == d2 by {
                if d1 != c && d2 != c {
                    assert(v0.types.contains_key(d1) && v0.types.contains_key(d2));
                } else if d1 != c {
                    assert(v0.types.contains_key(d1));
                } else if d2 != c {
                    assert(v0.types.contains_key(d2));
                }
            }
        }
        TypeIdx(t)
    }

    /// The canonical handle of the application of `t1` to `t2`.
    pub fn apply(&mut self, t1: TypeIdx, t2: TypeIdx) -> (r: TypeIdx)
        requires
            old(self)@.wf(),
            old(self)@.can_intern(CompoundType::Apply(t1, t2)),
        ensures
            final(self)@.wf(),
            old(self)@.facts_minted() ==> final(self)@.facts_minted(),
            (final(self)@, r.0) == old(self)@.interned(CompoundType::Apply(t1, t2)),
    {
        self.intern(CompoundType::Apply(t1, t2))
    }

    /// The canonical handle of the function type from `arg` to `expr`.
    pub fn lambda(&mut self, arg: TypeIdx, expr: TypeIdx) -> (r: TypeIdx)
        requires
            old(self)@.wf(),
            old(self)@.can_intern(CompoundType::Lambda(arg, expr)),
        ensures
            final(self)@.wf(),
            old(self)@.facts_minted() ==> final(self)@.facts_minted(),
            (final(self)@, r.0) == old(self)@.interned(CompoundType::Lambda(arg, expr)),
    {
        self.intern(CompoundType::Lambda(arg, expr))
    }
}

impl Clone for KnowledgeBase {
    /// An independent copy: hypotheses explored on it do not reach the original.
    fn clone(&self) -> (r: KnowledgeBase)
        ensures
            r@ == self@,
    {
        let r = KnowledgeBase {
            knowledge: self.knowledge.clone(),
            applies: self.applies.clone(),
            lambdas: self.lambdas.clone(),
            next_idx: self.next_idx,
        };
        assert(r@.types =~= self@.types);
        r
    }
}

impl View for KnowledgeBase {
    type V = KnowledgeView;

    closed spec fn view(&self) -> KnowledgeView {
        KnowledgeView {
            facts: self.knowledge@,
            types: Map::new(|c: CompoundType| self.table_has(c), |c: CompoundType| self.table_at(c)),
            next: self.next_idx as nat,
        }
    }
}

} // verus!
