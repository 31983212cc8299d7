use vstd::prelude::*;
use crate::literal::{lit_chars, lit_lt, Literal};

verus! {

/// Literal sequences are kept strictly sorted in the order `lit_lt`; this is
/// the canonical form of a clause, and it rules out duplicates.
pub open spec fn sorted_lits(s: Seq<Literal>) -> bool {
    forall|i: int, j: int| 0 <= i < j < s.len() ==> lit_lt(s[i], s[j])
}

/// The DIMACS rendering of a clause body: each literal followed by a space,
/// then the terminating "0".
pub open spec fn clause_chars(s: Seq<Literal>) -> Seq<char>
    decreases s.len(),
{
    if s.len() == 0 {
        seq!['0']
    } else {
        lit_chars(s[0]) + seq![' '] + clause_chars(s.drop_first())
    }
}

/// A deduplicated set of literals, read as their disjunction.  The literals
/// are kept sorted so that equal clauses have equal renderings.
#[derive(Debug, Clone, PartialEq, Eq)]
pub struct Clause {
    pub literals: Vec<Literal>,
}

impl View for Clause {
    type V = Seq<Literal>;

    open spec fn view(&self) -> Seq<Literal> {
        self.literals@
    }
}

/// The strict order is irreflexive and total: two distinct literals are
/// ordered one way or the other.
proof fn lemma_lit_order(a: Literal, b: Literal)
    ensures
        !lit_lt(a, a),
        a != b ==> lit_lt(a, b) || lit_lt(b, a),
        lit_lt(a, b) ==> !lit_lt(b, a),
{
}

impl Clause {
    pub open spec fn wf(&self) -> bool {
        sorted_lits(self@)
    }

    pub fn new() -> (r: Self)
        ensures
            r@ == Seq::<Literal>::empty(),
            r.wf(),
    {
        Self { literals: Vec::new() }
    }

    /// Adds a literal, keeping the clause sorted; adding a literal that is
    /// already present leaves the clause unchanged.
    pub fn add(&mut self, literal: Literal)
        requires
            old(self).wf(),
        ensures
            final(self).wf(),
            final(self)@.to_set() == old(self)@.to_set().insert(literal),
            old(self)@.contains(literal) ==> final(self)@ == old(self)@,
            !old(self)@.contains(literal) ==> final(self)@ == old(self)@.insert(
                lit_insert_position(old(self)@, literal) as int,
                literal,
            ),
            final(self)@ == insert_lit(old(self)@, literal),
    {
        let ghost s0 = self@;
        let mut i: usize = 0;
        while i < self.literals.len() && lit_lt_exec(&self.literals[i], &literal)
            invariant
                self@ == s0,
                0 <= i <= s0.len(),
                forall|k: int| 0 <= k < i ==> lit_lt(s0[k], literal),
            decreases s0.len() - i,
        {
            i += 1;
        }
        proof {
            assert(i == lit_insert_position(s0, literal)) by {
                lemma_insert_position_unique(s0, literal, i as nat);
            }
        }
        if i < self.literals.len() && self.literals[i] == literal {
            proof {
                assert(s0.contains(literal));
                assert(self@.to_set() =~= s0.to_set().insert(literal));
                lemma_insert_lit_sorted(s0, literal);
            }
        } else {
            proof {
                assert forall|k: int| 0 <= k < s0.len() implies s0[k] != literal by {
                    lemma_lit_order(s0[k], literal);
                    if k >= i {
                        if k > i {
                            assert(lit_lt(s0[i as int], s0[k]));
                        }
                    }
                }
                assert(!s0.contains(literal));
            }
            self.literals.insert(i, literal);
            proof {
                let s1 = self@;
                assert forall|p: int, q: int| 0 <= p < q < s1.len() implies lit_lt(
                    s1[p],
                    s1[q],
                ) by {
                    lemma_lit_order(s1[p], s1[q]);
                    if p == i {
                        lemma_lit_order(literal, s0[q - 1]);
                        if q - 1 > i {
                            assert(lit_lt(s0[i as int], s0[q - 1]));
                        }
                    }
                }
                assert forall|x: Literal| s1.to_set().contains(x) implies s0.to_set().insert(
                    literal,
                ).contains(x) by {
                    let k = choose|k: int| 0 <= k < s1.len() && s1[k] == x;
                    if k < i {
                        assert(s0[k] == x);
                    } else if k > i {
                        assert(s0[k - 1] == x);
                    }
                }
                assert forall|x: Literal| s0.to_set().insert(literal).contains(x) implies s1
                    .to_set().contains(x) by {
                    if x == literal {
                        assert(s1[i as int] == x);
                    } else {
                        let k = choose|k: int| 0 <= k < s0.len() && s0[k] == x;
                        if k < i {
                            assert(s1[k] == x);
                        } else {
                            assert(s1[k + 1] == x);
                        }
                    }
                }
                assert(self@.to_set() =~= s0.to_set().insert(literal));
                lemma_insert_lit_sorted(s0, literal);
            }
        }
    }

    /// An element-wise copy of the clause.
    pub fn duplicate(&self) -> (r: Self)
        ensures
            r@ == self@,
    {
        let mut literals: Vec<Literal> = Vec::new();
        let mut i: usize = 0;
        while i < self.literals.len()
            invariant
                i <= self.literals@.len(),
                literals@ == self.literals@.take(i as int),
            decreases self.literals@.len() - i,
        {
            literals.push(self.literals[i]);
            proof {
                assert(literals@ =~= self.literals@.take(i as int + 1));
            }
            i += 1;
        }
        proof {
            assert(self.literals@.take(self.literals@.len() as int) =~= self.literals@);
        }
        Self { literals }
    }

    /// The clause body in DIMACS form, e.g. "123 -456 0".
    pub fn dimacs(&self) -> (r: String)
        ensures
            r@ == clause_chars(self@),
    {
        let mut out = String::new();
        let mut i: usize = 0;
        proof {
            assert(self@.skip(0) =~= self@);
            assert(out@ + clause_chars(self@) =~= clause_chars(self@));
        }
        while i < self.literals.len()
            invariant
                0 <= i <= self.literals.len(),
                out@ + clause_chars(self@.skip(i as int)) == clause_chars(self@),
            decreases self.literals.len() - i,
        {
            let ghost before = out@;
            let piece = self.literals[i].dimacs();
            out.append(piece.as_str());
            out.append(" ");
            proof {
                reveal_strlit(" ");
                let rest = self@.skip(i as int);
                assert(rest.drop_first() =~= self@.skip(i as int + 1));
                assert(out@ + clause_chars(self@.skip(i as int + 1)) =~= before + clause_chars(
                    rest,
                ));
            }
            i += 1;
        }
        out.append("0");
        proof {
            reveal_strlit("0");
            assert(self@.skip(self@.len() as int) =~= Seq::<Literal>::empty());
            assert(clause_chars(self@.skip(self@.len() as int)) == seq!['0']);
            assert(out@ =~= clause_chars(self@));
        }
        out
    }
}

/// Inserting a literal into a sorted literal sequence: dropped when already
/// present, placed before the first larger literal otherwise.
pub open spec fn insert_lit(s: Seq<Literal>, l: Literal) -> Seq<Literal>
    decreases s.len(),
{
    if s.len() == 0 {
        seq![l]
    } else if lit_lt(s[0], l) {
        seq![s[0]] + insert_lit(s.drop_first(), l)
    } else if s[0] == l {
        s
    } else {
        seq![l] + s
    }
}

proof fn lemma_position_in_bounds(s: Seq<Literal>, l: Literal)
    ensures
        0 <= lit_insert_position(s, l) <= s.len(),
    decreases s.len(),
{
    if s.len() > 0 && lit_lt(s[0], l) {
        lemma_position_in_bounds(s.drop_first(), l);
    }
}

/// For a sorted sequence, `insert_lit` is exactly what `Clause::add` does:
/// nothing when the literal is present, a placement at its sorted position
/// otherwise.
pub proof fn lemma_insert_lit_sorted(s: Seq<Literal>, l: Literal)
    requires
        sorted_lits(s),
    ensures
        sorted_lits(insert_lit(s, l)),
        s.contains(l) ==> insert_lit(s, l) == s,
        !s.contains(l) ==> insert_lit(s, l) == s.insert(lit_insert_position(s, l) as int, l),
    decreases s.len(),
{
    if s.len() == 0 {
        assert(insert_lit(s, l) =~= s.insert(0, l));
        assert(sorted_lits(seq![l]));
    } else if lit_lt(s[0], l) {
        let rest = s.drop_first();
        lemma_insert_lit_sorted(rest, l);
        let r = seq![s[0]] + insert_lit(rest, l);
        let ri = insert_lit(rest, l);
        assert(forall|j: int| 0 <= j < rest.len() ==> lit_lt(s[0], #[trigger] rest[j]));
        if !rest.contains(l) {
            let pos = lit_insert_position(rest, l) as int;
            lemma_position_in_bounds(rest, l);
            rest.insert_ensures(pos, l);
        }
        assert(forall|j: int| 0 <= j < ri.len() ==> lit_lt(s[0], #[trigger] ri[j]));
        assert forall|p: int, q: int| 0 <= p < q < r.len() implies lit_lt(r[p], r[q]) by {
            if p == 0 {
                assert(r[q] == ri[q - 1]);
            } else {
                assert(r[p] == ri[p - 1] && r[q] == ri[q - 1]);
            }
        }
        if s.contains(l) {
            assert(rest.contains(l)) by {
                let k = choose|k: int| 0 <= k < s.len() && s[k] == l;
                lemma_lit_order(s[0], l);
                assert(k != 0);
                assert(rest[k - 1] == l);
            }
            assert(insert_lit(s, l) =~= s);
        } else {
            assert(!rest.contains(l)) by {
                if rest.contains(l) {
                    let k = choose|k: int| 0 <= k < rest.len() && rest[k] == l;
                    assert(s[k + 1] == l);
                }
            }
            let pos = lit_insert_position(rest, l) as int;
            assert(lit_insert_position(s, l) == 1 + pos);
            assert(insert_lit(s, l) =~= s.insert(1 + pos, l));
        }
    } else if s[0] == l {
        assert(s.contains(l));
    } else {
        lemma_lit_order(s[0], l);
        assert(lit_lt(l, s[0]));
        assert(!s.contains(l)) by {
            if s.contains(l) {
                let k = choose|k: int| 0 <= k < s.len() && s[k] == l;
                lemma_lit_order(l, s[k]);
                if k > 0 {
                    assert(lit_lt(s[0], s[k]));
                    lemma_lit_order(l, s[0]);
                }
            }
        }
        assert(lit_insert_position(s, l) == 0);
        assert(insert_lit(s, l) =~= s.insert(0, l));
        let r = seq![l] + s;
        assert forall|p: int, q: int| 0 <= p < q < r.len() implies lit_lt(r[p], r[q]) by {
            if p == 0 {
                if q > 1 {
                    assert(lit_lt(s[0], s[q - 1]));
                }
            }
        }
    }
}

/// The position at which a new literal belongs in a sorted literal sequence:
/// the count of literals ordered strictly before it.
pub open spec fn lit_insert_position(s: Seq<Literal>, l: Literal) -> nat
    decreases s.len(),
{
    if s.len() == 0 {
        0
    } else if lit_lt(s[0], l) {
        1 + lit_insert_position(s.drop_first(), l)
    } else {
        0
    }
}

proof fn lemma_insert_position_unique(s: Seq<Literal>, l: Literal, i: nat)
    requires
        sorted_lits(s),
        i <= s.len(),
        forall|k: int| 0 <= k < i ==> lit_lt(s[k], l),
        i < s.len() ==> !lit_lt(s[i as int], l),
    ensures
        i == lit_insert_position(s, l),
    decreases s.len(),
{
    if s.len() == 0 {
    } else if lit_lt(s[0], l) {
        assert(i != 0);
        let rest = s.drop_first();
        assert forall|k: int| 0 <= k < i - 1 implies lit_lt(rest[k], l) by {
            assert(rest[k] == s[k + 1]);
        }
        lemma_insert_position_unique(rest, l, (i - 1) as nat);
    } else {
        assert(i == 0) by {
            if i > 0 {
                assert(lit_lt(s[0], l));
            }
        }
    }
}

/// Two sorted literal sequences holding the same set of literals are equal:
/// the sorted form is canonical, so clauses with the same literals render
/// identically.
pub proof fn lemma_canonical_form(a: Seq<Literal>, b: Seq<Literal>)
    requires
        sorted_lits(a),
        sorted_lits(b),
        a.to_set() == b.to_set(),
    ensures
        a == b,
    decreases a.len(),
{
    if a.len() == 0 {
        if b.len() > 0 {
            assert(b.to_set().contains(b[0]));
            assert(a.contains(b[0]));
        }
        assert(a =~= b);
    } else {
        assert(a.to_set().contains(a[0]));
        assert(b.contains(a[0]));
        let j = choose|j: int| 0 <= j < b.len() && b[j] == a[0];
        assert(b.to_set().contains(b[0]));
        assert(a.contains(b[0]));
        let k = choose|k: int| 0 <= k < a.len() && a[k] == b[0];
        if j > 0 {
            assert(lit_lt(b[0], b[j]));
            if k > 0 {
                assert(lit_lt(a[0], a[k]));
                lemma_lit_order(a[0], b[0]);
            } else {
                lemma_lit_order(a[0], a[0]);
            }
        }
        assert(a[0] == b[0]);
        let ra = a.drop_first();
        let rb = b.drop_first();
        assert forall|x: Literal| ra.to_set().contains(x) implies rb.to_set().contains(x) by {
            let p = choose|p: int| 0 <= p < ra.len() && ra[p] == x;
            assert(a[p + 1] == x);
            lemma_lit_order(a[0], x);
            assert(lit_lt(a[0], x));
            assert(a.contains(x));
            assert(a.to_set().contains(x));
            assert(b.to_set().contains(x));
            assert(b.contains(x));
            let q = choose|q: int| 0 <= q < b.len() && b[q] == x;
            assert(q != 0) by {
                lemma_lit_order(x, x);
            }
            assert(rb[q - 1] == x);
        }
        assert forall|x: Literal| rb.to_set().contains(x) implies ra.to_set().contains(x) by {
            let p = choose|p: int| 0 <= p < rb.len() && rb[p] == x;
            assert(b[p + 1] == x);
            lemma_lit_order(b[0], x);
            assert(lit_lt(b[0], x));
            assert(b.contains(x));
            assert(b.to_set().contains(x));
            assert(a.to_set().contains(x));
            assert(a.contains(x));
            let q = choose|q: int| 0 <= q < a.len() && a[q] == x;
            assert(q != 0) by {
                lemma_lit_order(x, x);
            }
            assert(ra[q - 1] == x);
        }
        assert(ra.to_set() =~= rb.to_set());
        lemma_canonical_form(ra, rb);
        assert(a =~= b) by {
            assert(forall|idx: int| 1 <= idx < a.len() ==> a[idx] == ra[idx - 1] && b[idx]
                == rb[idx - 1]);
        }
    }
}

/// Clause rendering is canonical: two clauses holding the same set of
/// literals render to the same DIMACS text, however their literals were
/// added.
pub proof fn lemma_dimacs_canonical(a: Clause, b: Clause)
    requires
        a.wf(),
        b.wf(),
        a@.to_set() == b@.to_set(),
    ensures
        clause_chars(a@) == clause_chars(b@),
{
    lemma_canonical_form(a@, b@);
}

/// Executable comparison in the order `lit_lt`.
fn lit_lt_exec(a: &Literal, b: &Literal) -> (r: bool)
    ensures
        r == lit_lt(*a, *b),
{
    a.variable.number < b.variable.number || (a.variable.number == b.variable.number
        && !a.positive && b.positive)
}

} // verus!
