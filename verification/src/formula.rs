use vstd::prelude::*;
use crate::clause::{clause_chars, Clause};
use crate::literal::Literal;
use crate::render::dec_seq;
use crate::variable::Variable;

verus! {

/// Inserting a clause body into a list of clause bodies: a no-op when an
/// equal body is already present, an append otherwise.
pub open spec fn insert_view(vs: Seq<Seq<Literal>>, v: Seq<Literal>) -> Seq<Seq<Literal>> {
    if vs.contains(v) {
        vs
    } else {
        vs.push(v)
    }
}

/// The rendering of the clause lines: each clause body followed by a newline.
pub open spec fn clauses_chars(vs: Seq<Seq<Literal>>) -> Seq<char>
    decreases vs.len(),
{
    if vs.len() == 0 {
        Seq::<char>::empty()
    } else {
        clause_chars(vs[0]) + seq!['\n'] + clauses_chars(vs.drop_first())
    }
}

/// The full DIMACS document: the "p cnf" header with the variable and clause
/// counts, then one line per clause.
pub open spec fn formula_chars(nvars: nat, vs: Seq<Seq<Literal>>) -> Seq<char> {
    seq!['p', ' ', 'c', 'n', 'f', ' '] + dec_seq(nvars) + seq![' '] + dec_seq(vs.len()) + seq![
        '\n',
    ] + clauses_chars(vs)
}

/// Owns every allocated variable and the deduplicated list of clauses added
/// so far.  Variables are numbered consecutively from 1; clauses keep their
/// insertion order, so the rendering is deterministic.
#[derive(Debug, PartialEq, Eq)]
pub struct Formula {
    pub variables: Vec<Variable>,
    pub clauses: Vec<Clause>,
}

impl Formula {
    /// Each variable's number is its position plus one; every clause is in
    /// canonical form; no two clauses hold the same literals.
    pub open spec fn wf(&self) -> bool {
        &&& forall|i: int|
            0 <= i < self.variables@.len() ==> (#[trigger] self.variables@[i]).number == i + 1
        &&& forall|i: int| 0 <= i < self.clauses@.len() ==> (#[trigger] self.clauses@[i]).wf()
        &&& forall|i: int, j: int|
            0 <= i < j < self.clauses@.len() ==> self.clauses@[i]@ != self.clauses@[j]@
    }

    /// The clause bodies, in insertion order.
    pub open spec fn views(&self) -> Seq<Seq<Literal>> {
        self.clauses@.map_values(|c: Clause| c@)
    }

    pub fn new() -> (r: Self)
        ensures
            r.variables@ == Seq::<Variable>::empty(),
            r.clauses@ == Seq::<Clause>::empty(),
            r.wf(),
    {
        let variables = Vec::new();
        let clauses = Vec::new();

        Self { variables, clauses }
    }

    /// Allocates the next variable, numbered one past the count so far.
    pub fn new_variable(&mut self) -> (r: Variable)
        requires
            old(self).wf(),
            old(self).variables@.len() < usize::MAX,
        ensures
            final(self).wf(),
            r == (Variable { number: (old(self).variables@.len() + 1) as usize }),
            final(self).variables@ == old(self).variables@.push(r),
            final(self).clauses == old(self).clauses,
    {
        let number = self.variables.len() + 1;
        let variable = Variable::new(number);

        self.variables.push(variable);

        variable
    }

    /// Adds a clause unless an equal clause is already present.
    pub fn add_clause(&mut self, clause: Clause)
        requires
            old(self).wf(),
            clause.wf(),
        ensures
            final(self).wf(),
            final(self).variables == old(self).variables,
            final(self).views() == insert_view(old(self).views(), clause@),
            old(self).views().contains(clause@) ==> final(self).clauses == old(self).clauses,
            !old(self).views().contains(clause@) ==> final(self).clauses@ == old(
                self,
            ).clauses@.push(clause),
    {
        let n = self.clauses.len();
        let mut i: usize = 0;
        while i < n
            invariant
                *self == *old(self),
                old(self).wf(),
                n == self.clauses.len(),
                0 <= i <= n,
                forall|k: int| 0 <= k < i ==> self.clauses@[k]@ != clause@,
            decreases n - i,
        {
            if lits_eq(&self.clauses[i].literals, &clause.literals) {
                proof {
                    assert(self.views()[i as int] == clause@);
                    assert(self.views().contains(clause@));
                    assert(self.wf());
                }
                return ;
            }
            i += 1;
        }
        proof {
            assert forall|k: int| 0 <= k < self.views().len() implies self.views()[k]
                != clause@ by {
                assert(self.clauses@[k]@ != clause@);
            }
            assert(!self.views().contains(clause@));
        }
        let ghost before = self.clauses@;
        self.clauses.push(clause);
        proof {
            assert(self.views() =~= before.map_values(|c: Clause| c@).push(clause@));
        }
    }

    /// The whole formula in DIMACS form, e.g. "p cnf 2 1\n-1 2 0\n".
    pub fn dimacs(&self) -> (r: String)
        ensures
            r@ == formula_chars(self.variables@.len() as nat, self.views()),
    {
        let mut out = String::from_str("p cnf ");
        proof {
            reveal_strlit("p cnf ");
            assert(out@ =~= seq!['p', ' ', 'c', 'n', 'f', ' ']);
        }
        crate::render::push_decimal(&mut out, self.variables.len());
        out.append(" ");
        proof {
            reveal_strlit(" ");
        }
        crate::render::push_decimal(&mut out, self.clauses.len());
        out.append("\n");
        proof {
            reveal_strlit("\n");
            assert(self.views().len() == self.clauses@.len());
            assert(out@ =~= seq!['p', ' ', 'c', 'n', 'f', ' '] + dec_seq(
                self.variables@.len() as nat,
            ) + seq![' '] + dec_seq(self.views().len()) + seq!['\n']);
        }
        let ghost header = out@;
        let mut i: usize = 0;
        proof {
            assert(self.views().skip(0) =~= self.views());
        }
        while i < self.clauses.len()
            invariant
                0 <= i <= self.clauses.len(),
                self.views().len() == self.clauses@.len(),
                out@ + clauses_chars(self.views().skip(i as int)) == header + clauses_chars(
                    self.views(),
                ),
            decreases self.clauses.len() - i,
        {
            let ghost before = out@;
            let line = self.clauses[i].dimacs();
            out.append(line.as_str());
            out.append("\n");
            proof {
                reveal_strlit("\n");
                let rest = self.views().skip(i as int);
                assert(rest[0] == self.clauses@[i as int]@);
                assert(rest.drop_first() =~= self.views().skip(i as int + 1));
                assert(out@ + clauses_chars(self.views().skip(i as int + 1)) =~= before
                    + clauses_chars(rest));
            }
            i += 1;
        }
        proof {
            assert(self.views().skip(self.views().len() as int) =~= Seq::<Seq<Literal>>::empty());
            assert(out@ =~= formula_chars(self.variables@.len() as nat, self.views()));
        }
        out
    }
}

/// Element-wise comparison of two literal vectors.
fn lits_eq(a: &Vec<Literal>, b: &Vec<Literal>) -> (r: bool)
    ensures
        r == (a@ == b@),
{
    if a.len() != b.len() {
        return false;
    }
    let mut i: usize = 0;
    while i < a.len()
        invariant
            a@.len() == b@.len(),
            0 <= i <= a@.len(),
            forall|k: int| 0 <= k < i ==> a@[k] == b@[k],
        decreases a.len() - i,
    {
        if a[i] != b[i] {
            return false;
        }
        i += 1;
    }
    proof {
        assert(a@ =~= b@);
    }
    true
}

} // verus!
