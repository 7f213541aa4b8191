use vstd::prelude::*;
use std::collections::{BTreeMap, HashSet};
use vstd::std_specs::hash::spec_hash_keys_iter;
use vstd::std_specs::iter::IteratorSpec;
use super::cnf::{CNF, model_get};
use super::dpll::{symbols_below, symbols_listed};
use super::expr::Symbol;

verus! {

broadcast use vstd::std_specs::hash::group_hash_axioms, vstd::std_specs::btree::group_btree_axioms, vstd::laws_cmp::group_laws_cmp;

/// A partial model of the symbols of a conjunction: the value of each
/// assigned symbol, and the symbols not yet assigned.
pub struct Model {
    assignment: BTreeMap<Symbol, bool>,
    unassigned: HashSet<Symbol>,
    bound: Ghost<nat>,
}

impl View for Model {
    type V = Seq<Option<bool>>;

    /// The value of every symbol below a bound that exceeds every symbol of
    /// the model.
    closed spec fn view(&self) -> Seq<Option<bool>> {
        Seq::new(
            self.bound@,
            |i: int|
                if self.assignment@.contains_key(i as usize) {
                    Some(self.assignment@[i as usize])
                } else {
                    None
                },
        )
    }
}

impl Model {
    #[verifier::type_invariant]
    spec fn inv(self) -> bool {
        &&& forall|s: Symbol| #[trigger] self.assignment@.contains_key(s) ==> !self.unassigned@.contains(s) && s < self.bound@
        &&& forall|s: Symbol| #[trigger] self.unassigned@.contains(s) ==> s < self.bound@
        &&& self.bound@ <= usize::MAX + 1
    }

    /// The symbols the model was made for.
    pub closed spec fn syms(&self) -> Set<Symbol> {
        self.assignment@.dom().union(self.unassigned@)
    }

    /// The model of the symbols of `cnf` in which every symbol is unassigned.
    pub fn new(cnf: &CNF) -> (r: Model)
        ensures
            forall|i: int| 0 <= i < r@.len() ==> #[trigger] r@[i] is None,
            symbols_below(cnf@, r@.len()),
            symbols_listed(cnf@, r.syms()),
    {
        let clauses = cnf.clauses();
        let ghost cs = cnf@;
        let mut unassigned: HashSet<Symbol> = HashSet::new();
        let ghost mut bound: nat = 0;
        let mut i: usize = 0;
        while i < clauses.len()
            invariant
                i <= clauses@.len(),
                cs.len() == clauses@.len(),
                forall|k: int| 0 <= k < cs.len() ==> #[trigger] cs[k] == clauses@[k]@,
                bound <= usize::MAX + 1,
                forall|s: Symbol| #[trigger] unassigned@.contains(s) ==> s < bound,
                forall|a: int, b: int| 0 <= a < i && 0 <= b < cs[a].len() ==>
                    (#[trigger] cs[a][b]).sym() < bound && unassigned@.contains(cs[a][b].sym()),
            decreases clauses.len() - i,
        {
            let lits = clauses[i].literals();
            let mut j: usize = 0;
            while j < lits.len()
                invariant
                    i < clauses@.len(),
                    j <= lits@.len(),
                    lits@ == cs[i as int],
                    cs.len() == clauses@.len(),
                    bound <= usize::MAX + 1,
                    forall|s: Symbol| #[trigger] unassigned@.contains(s) ==> s < bound,
                    forall|a: int, b: int| 0 <= a < i && 0 <= b < cs[a].len() ==>
                        (#[trigger] cs[a][b]).sym() < bound && unassigned@.contains(cs[a][b].sym()),
                    forall|b: int| 0 <= b < j ==>
                        (#[trigger] cs[i as int][b]).sym() < bound && unassigned@.contains(cs[i as int][b].sym()),
                decreases lits.len() - j,
            {
                let s = lits[j].symbol();
                proof {
                    if bound <= s {
                        bound = (s + 1) as nat;
                    }
                }
                unassigned.insert(s);
                j += 1;
            }
            i += 1;
        }
        let r = Model { assignment: BTreeMap::new(), unassigned, bound: Ghost(bound) };
        proof {
            assert forall|k: int| 0 <= k < r@.len() implies #[trigger] r@[k] is None by {
                assert(!r.assignment@.contains_key(k as usize));
            }
            assert forall|a: int, b: int| 0 <= a < cs.len() && 0 <= b < cs[a].len() implies r.syms().contains(
                (#[trigger] cs[a][b]).sym()) by {
                assert(r.unassigned@.contains(cs[a][b].sym()));
            }
        }
        r
    }

    /// The value of `symbol`, `None` when it is unassigned.
    pub fn get(&self, symbol: Symbol) -> (r: Option<bool>)
        ensures
            r == model_get(self@, symbol),
    {
        proof {
            use_type_invariant(self);
        }
        match self.assignment.get(&symbol) {
            Some(t) => Some(*t),
            None => None,
        }
    }

    /// Whether `symbol` is assigned.
    pub fn contains(&self, symbol: Symbol) -> (r: bool)
        ensures
            r == (model_get(self@, symbol) is Some),
    {
        proof {
            use_type_invariant(self);
        }
        self.assignment.contains_key(&symbol)
    }

    /// Gives the `symbol` of the model the value `t`.
    pub fn insert(&mut self, symbol: Symbol, t: bool)
        requires
            old(self).syms().contains(symbol),
        ensures
            final(self)@ == old(self)@.update(symbol as int, Some(t)),
            final(self).syms() == old(self).syms(),
    {
        proof {
            use_type_invariant(&*self);
        }
        let ghost old_view = self@;
        let ghost old_syms = self.syms();
        let mut tmp = Model { assignment: BTreeMap::new(), unassigned: HashSet::new(), bound: Ghost(0) };
        std::mem::swap(self, &mut tmp);
        let Model { mut assignment, mut unassigned, bound } = tmp;
        assignment.insert(symbol, t);
        unassigned.remove(&symbol);
        *self = Model { assignment, unassigned, bound };
        proof {
            assert(self@ =~= old_view.update(symbol as int, Some(t)));
            assert(self.syms() =~= old_syms);
        }
    }

    /// Leaves the `symbol` of the model unassigned.
    pub fn remove(&mut self, symbol: Symbol)
        requires
            old(self).syms().contains(symbol),
        ensures
            final(self)@ == old(self)@.update(symbol as int, None),
            final(self).syms() == old(self).syms(),
    {
        proof {
            use_type_invariant(&*self);
        }
        let ghost old_view = self@;
        let ghost old_syms = self.syms();
        let mut tmp = Model { assignment: BTreeMap::new(), unassigned: HashSet::new(), bound: Ghost(0) };
        std::mem::swap(self, &mut tmp);
        let Model { mut assignment, mut unassigned, bound } = tmp;
        assignment.remove(&symbol);
        unassigned.insert(symbol);
        *self = Model { assignment, unassigned, bound };
        proof {
            assert(self@ =~= old_view.update(symbol as int, None));
            assert(self.syms() =~= old_syms);
        }
    }

    /// An unassigned symbol of the model, if any: the first one the set of
    /// unassigned symbols hands out.
    pub fn next_symbol(&self) -> (r: Option<Symbol>)
        ensures
            r matches Some(s) ==> self.syms().contains(s) && s < self@.len() && self@[s as int] is None,
            r is None ==> forall|s: Symbol| #[trigger] self.syms().contains(s) ==> model_get(self@, s) is Some,
    {
        proof {
            use_type_invariant(self);
        }
        for x in it: self.unassigned.iter()
            invariant
                it.seq() == spec_hash_keys_iter(&self.unassigned).remaining(),
                it.index() == 0,
                forall|s: Symbol| #[trigger] self.unassigned@.contains(s) ==> s < self.bound@
                    && !self.assignment@.contains_key(s),
        {
            let s = *x;
            proof {
                let rem = spec_hash_keys_iter(&self.unassigned).remaining();
                assert(rem.unref().contains(s)) by {
                    assert(rem.unref()[0] == s);
                }
                assert(self.unassigned@.contains(s));
                assert(!self.assignment@.contains_key(s));
                assert(s < self.bound@);
                assert(self@[s as int] is None);
            }
            return Some(s);
        }
        proof {
            let rem = spec_hash_keys_iter(&self.unassigned).remaining();
            assert forall|s: Symbol| #[trigger] self.syms().contains(s) implies model_get(self@, s) is Some by {
                if self.unassigned@.contains(s) {
                    assert(rem.unref().to_set().contains(s));
                    assert(rem.len() > 0);
                }
            }
        }
        None
    }
}

} // verus!
