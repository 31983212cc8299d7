use vstd::prelude::*;
use crate::bounds::Bounds;
use crate::clause::{insert_lit, Clause};
use crate::counter::{base_vars, counter_fresh, counter_matches, Counter};
use crate::formula::{insert_view, Formula};
use crate::literal::Literal;
use crate::register::Register;
use crate::variable::Variable;

verus! {

/// The same literals with every polarity flipped.
pub open spec fn neg_all(lits: Seq<Literal>) -> Seq<Literal> {
    lits.map_values(|l: Literal| Literal { variable: l.variable, positive: !l.positive })
}

/// The canonical clause body holding the first `j` of the given literals:
/// what building a clause by adding them in order produces.
pub open spec fn canon_prefix(lits: Seq<Literal>, j: int) -> Seq<Literal>
    decreases j,
{
    if j <= 0 {
        Seq::<Literal>::empty()
    } else {
        insert_lit(canon_prefix(lits, j - 1), lits[j - 1])
    }
}

/// The canonical clause body holding the given literals.
pub open spec fn canon(lits: Seq<Literal>) -> Seq<Literal> {
    canon_prefix(lits, lits.len() as int)
}

/// The clause bodies that encode `condition implies consequent`: one clause
/// per consequent literal, holding the negated condition and that literal.
pub open spec fn implication_list(cond: Seq<Literal>, cons: Seq<Literal>) -> Seq<Seq<Literal>> {
    Seq::new(cons.len(), |j: int| insert_lit(canon(neg_all(cond)), cons[j]))
}

/// The unit clause bodies forcing each literal true.
pub open spec fn unit_list(lits: Seq<Literal>) -> Seq<Seq<Literal>> {
    Seq::new(lits.len(), |j: int| seq![lits[j]])
}

/// Inserting a list of clause bodies one after the other, deduplicating as
/// the formula does.
pub open spec fn insert_all(vs: Seq<Seq<Literal>>, items: Seq<Seq<Literal>>) -> Seq<Seq<Literal>>
    decreases items.len(),
{
    if items.len() == 0 {
        vs
    } else {
        insert_all(insert_view(vs, items[0]), items.drop_first())
    }
}

/// Inserting a concatenation is inserting one part after the other.
pub proof fn lemma_insert_all_append(vs: Seq<Seq<Literal>>, a: Seq<Seq<Literal>>, b: Seq<
    Seq<Literal>,
>)
    ensures
        insert_all(vs, a + b) == insert_all(insert_all(vs, a), b),
    decreases a.len(),
{
    if a.len() == 0 {
        assert(a + b =~= b);
    } else {
        assert((a + b)[0] == a[0]);
        assert((a + b).drop_first() =~= a.drop_first() + b);
        lemma_insert_all_append(insert_view(vs, a[0]), a.drop_first(), b);
    }
}

/// Inserting one more body extends the inserted prefix.
pub proof fn lemma_insert_all_snoc(vs: Seq<Seq<Literal>>, items: Seq<Seq<Literal>>, j: int)
    requires
        0 <= j < items.len(),
    ensures
        insert_all(vs, items.take(j + 1)) == insert_view(insert_all(vs, items.take(j)), items[j]),
    decreases j,
{
    reveal_with_fuel(insert_all, 3);
    if j == 0 {
        assert(items.take(0) =~= Seq::<Seq<Literal>>::empty());
        assert(items.take(1)[0] == items[0]);
        assert(items.take(1).drop_first() =~= Seq::<Seq<Literal>>::empty());
        assert(insert_all(vs, items.take(1)) == insert_all(
            insert_view(vs, items[0]),
            items.take(1).drop_first(),
        ));
    } else {
        assert(items.take(j + 1)[0] == items[0]);
        assert(items.take(j)[0] == items[0]);
        assert(items.take(j + 1).drop_first() =~= items.drop_first().take(j));
        assert(items.take(j).drop_first() =~= items.drop_first().take(j - 1));
        assert(items.drop_first()[j - 1] == items[j]);
        lemma_insert_all_snoc(insert_view(vs, items[0]), items.drop_first(), j - 1);
    }
}

/// The bodies already in the list stay, in place, whatever is inserted
/// after them.
pub proof fn lemma_insert_all_prefix(vs: Seq<Seq<Literal>>, items: Seq<Seq<Literal>>)
    ensures
        vs.is_prefix_of(insert_all(vs, items)),
    decreases items.len(),
{
    if items.len() > 0 {
        lemma_insert_all_prefix(insert_view(vs, items[0]), items.drop_first());
        assert(vs.is_prefix_of(insert_view(vs, items[0])));
        let mid = insert_view(vs, items[0]);
        let end = insert_all(vs, items);
        assert(vs.is_prefix_of(end)) by {
            assert(mid.is_prefix_of(end));
            assert(forall|i: int| 0 <= i < vs.len() ==> vs[i] == mid[i] && mid[i] == end[i]);
        }
    }
}

/// A body of a prefix is a body of the whole.
pub proof fn lemma_prefix_contains(a: Seq<Seq<Literal>>, b: Seq<Seq<Literal>>, v: Seq<Literal>)
    requires
        a.is_prefix_of(b),
        a.contains(v),
    ensures
        b.contains(v),
{
    let i = choose|i: int| 0 <= i < a.len() && a[i] == v;
    assert(b[i] == v);
}

/// After inserting a list, every body of the list is present.
pub proof fn lemma_insert_all_contains(vs: Seq<Seq<Literal>>, items: Seq<Seq<Literal>>, i: int)
    requires
        0 <= i < items.len(),
    ensures
        insert_all(vs, items).contains(items[i]),
    decreases items.len(),
{
    let mid = insert_view(vs, items[0]);
    if i == 0 {
        assert(mid.contains(items[0])) by {
            if vs.contains(items[0]) {
            } else {
                assert(mid[mid.len() - 1] == items[0]);
            }
        }
        lemma_insert_all_prefix(mid, items.drop_first());
        lemma_prefix_contains(mid, insert_all(vs, items), items[0]);
    } else {
        assert(items.drop_first()[i - 1] == items[i]);
        lemma_insert_all_contains(mid, items.drop_first(), i - 1);
    }
}

/// Every body present after inserting a list was present before or is in
/// the list.
pub proof fn lemma_insert_all_origin(vs: Seq<Seq<Literal>>, items: Seq<Seq<Literal>>, v: Seq<
    Literal,
>)
    requires
        insert_all(vs, items).contains(v),
    ensures
        vs.contains(v) || items.contains(v),
    decreases items.len(),
{
    if items.len() > 0 {
        let mid = insert_view(vs, items[0]);
        lemma_insert_all_origin(mid, items.drop_first(), v);
        if mid.contains(v) {
            if !vs.contains(v) {
                let i = choose|i: int| 0 <= i < mid.len() && mid[i] == v;
                if i < vs.len() {
                    assert(vs[i] == v);
                } else {
                    assert(v == items[0]);
                }
            }
        } else {
            let j = choose|j: int| 0 <= j < items.drop_first().len() && items.drop_first()[j] == v;
            assert(items[j + 1] == v);
        }
    }
}

/// The negation of one literal.
pub open spec fn flip(l: Literal) -> Literal {
    Literal { variable: l.variable, positive: !l.positive }
}

/// What the event constraints emit for the literals before position `j`: an
/// event sets its register's first bit; where a register's range caps at 0,
/// the event itself is contradicted.
pub open spec fn family_events(regs: Seq<Register>, lits: Seq<Literal>, j: int) -> Seq<
    Seq<Literal>,
>
    decreases j,
{
    if j <= 0 {
        Seq::<Seq<Literal>>::empty()
    } else {
        family_events(regs, lits, j - 1) + (match regs[j - 1].spec_literal_for(1) {
            Some(cb) => implication_list(seq![lits[j - 1]], seq![cb]),
            None => Seq::<Seq<Literal>>::empty(),
        }) + (if regs[j - 1].end == 0 {
            seq![canon(neg_all(seq![lits[j - 1]]))]
        } else {
            Seq::<Seq<Literal>>::empty()
        })
    }
}

/// What zeroing the first register emits for the counts in `[2, w)`: only
/// its first bit may ever be set.
pub open spec fn family_first(reg: Register, w: int) -> Seq<Seq<Literal>>
    decreases w,
{
    if w <= 2 {
        Seq::<Seq<Literal>>::empty()
    } else {
        family_first(reg, w - 1) + (match reg.spec_literal_for(w - 1) {
            Some(b) => seq![canon(neg_all(seq![b]))],
            None => Seq::<Seq<Literal>>::empty(),
        })
    }
}

/// What carrying a count forward emits for the counts in `[prev.start, b)`:
/// a set bit stays set; a bit whose count the narrower window no longer
/// admits is forced true outright.
pub open spec fn family_carry(prev: Register, cur: Register, b: int) -> Seq<Seq<Literal>>
    decreases b,
{
    if b <= prev.start {
        Seq::<Seq<Literal>>::empty()
    } else {
        family_carry(prev, cur, b - 1) + (match prev.spec_literal_for(b - 1) {
            Some(pb) => match cur.spec_literal_for(b - 1) {
                Some(cb) => implication_list(seq![pb], seq![cb]),
                None => seq![seq![pb]],
            },
            None => Seq::<Seq<Literal>>::empty(),
        })
    }
}

/// What incrementing on an event emits for the counts in `[2, b)`: the
/// previous count plus the event implies the next count.
pub open spec fn family_increment(prev: Register, cur: Register, lit: Literal, b: int) -> Seq<
    Seq<Literal>,
>
    decreases b,
{
    if b <= 2 {
        Seq::<Seq<Literal>>::empty()
    } else {
        family_increment(prev, cur, lit, b - 1) + (match cur.spec_literal_for(b - 1) {
            Some(cb) => match prev.spec_literal_for(b - 2) {
                Some(pb) => implication_list(seq![pb, lit], seq![cb]),
                None => Seq::<Seq<Literal>>::empty(),
            },
            None => Seq::<Seq<Literal>>::empty(),
        })
    }
}

/// What the overflow guard emits: an event is forbidden when the previous
/// register already holds the current ceiling.
pub open spec fn family_overflow(prev: Register, cur: Register, lit: Literal) -> Seq<Seq<Literal>> {
    match prev.spec_literal_for(cur.end as int) {
        Some(ov) => implication_list(seq![lit], seq![flip(ov)]),
        None => Seq::<Seq<Literal>>::empty(),
    }
}

/// The carry, increment and overflow constraints for the register pairs
/// before position `j`.
pub open spec fn family_steps(regs: Seq<Register>, lits: Seq<Literal>, j: int) -> Seq<Seq<Literal>>
    decreases j,
{
    if j <= 1 {
        Seq::<Seq<Literal>>::empty()
    } else {
        family_steps(regs, lits, j - 1) + family_carry(regs[j - 2], regs[j - 1], regs[j - 1].end + 1)
            + family_increment(regs[j - 2], regs[j - 1], lits[j - 1], regs[j - 1].end + 1)
            + family_overflow(regs[j - 2], regs[j - 1], lits[j - 1])
    }
}

/// Everything the cardinality encoding emits for the given counter and
/// per-step event literals.
pub open spec fn within_emitted(c: Counter, lits: Seq<Literal>) -> Seq<Seq<Literal>> {
    family_events(c.registers@, lits, lits.len() as int) + family_first(
        c.registers@[0],
        c.registers@[0].end + 1,
    ) + family_steps(c.registers@, lits, lits.len() as int)
}

/// The clause-construction primitives: every clause the encoder emits goes
/// through one of these, into the owned formula.
pub struct Logic {
    pub formula: Formula,
}

impl Logic {
    pub open spec fn wf(&self) -> bool {
        self.formula.wf()
    }

    pub fn new(formula: Formula) -> (r: Self)
        ensures
            r.formula == formula,
    {
        Self { formula }
    }

    /// Forces each literal true: one unit clause per literal.
    pub fn tautology(&mut self, literals: &[Literal])
        requires
            old(self).wf(),
        ensures
            final(self).wf(),
            final(self).formula.variables == old(self).formula.variables,
            final(self).formula.views() == insert_all(
                old(self).formula.views(),
                unit_list(literals@),
            ),
    {
        let ghost vs0 = self.formula.views();
        let mut i: usize = 0;
        while i < literals.len()
            invariant
                self.wf(),
                old(self).wf(),
                0 <= i <= literals@.len(),
                self.formula.variables == old(self).formula.variables,
                self.formula.views() == insert_all(vs0, unit_list(literals@).take(i as int)),
                vs0 == old(self).formula.views(),
            decreases literals@.len() - i,
        {
            let mut clause = Clause::new();

            clause.add(literals[i]);
            proof {
                assert(clause@ =~= seq![literals@[i as int]]);
            }
            self.formula.add_clause(clause);
            proof {
                lemma_insert_all_snoc(vs0, unit_list(literals@), i as int);
            }
            i += 1;
        }
        proof {
            assert(unit_list(literals@).take(literals@.len() as int) =~= unit_list(literals@));
        }
    }

    /// Forces the conjunction of the literals false: one clause of their
    /// negations.
    pub fn contradiction(&mut self, literals: &[Literal])
        requires
            old(self).wf(),
        ensures
            final(self).wf(),
            final(self).formula.variables == old(self).formula.variables,
            final(self).formula.views() == insert_view(
                old(self).formula.views(),
                canon(neg_all(literals@)),
            ),
    {
        let mut clause = Clause::new();

        let mut i: usize = 0;
        while i < literals.len()
            invariant
                clause.wf(),
                0 <= i <= literals@.len(),
                clause@ == canon_prefix(neg_all(literals@), i as int),
            decreases literals@.len() - i,
        {
            clause.add(literals[i].negate());
            proof {
                assert(neg_all(literals@)[i as int] == (Literal {
                    variable: literals@[i as int].variable,
                    positive: !literals@[i as int].positive,
                }));
            }
            i += 1;
        }

        self.formula.add_clause(clause);
    }

    /// `condition implies each consequent literal`: for each consequent
    /// literal, one clause of the negated condition plus that literal.
    pub fn implies(&mut self, condition: &[Literal], consequent: &[Literal])
        requires
            old(self).wf(),
        ensures
            final(self).wf(),
            final(self).formula.variables == old(self).formula.variables,
            final(self).formula.views() == insert_all(
                old(self).formula.views(),
                implication_list(condition@, consequent@),
            ),
    {
        let ghost vs0 = self.formula.views();
        let mut template = Clause::new();

        let negated = Self::negate(condition);
        let mut i: usize = 0;
        while i < negated.len()
            invariant
                template.wf(),
                0 <= i <= negated@.len(),
                negated@ == neg_all(condition@),
                template@ == canon_prefix(neg_all(condition@), i as int),
            decreases negated@.len() - i,
        {
            template.add(negated[i]);
            i += 1;
        }
        proof {
            assert(template@ == canon(neg_all(condition@)));
        }

        let mut j: usize = 0;
        while j < consequent.len()
            invariant
                self.wf(),
                old(self).wf(),
                template.wf(),
                template@ == canon(neg_all(condition@)),
                0 <= j <= consequent@.len(),
                self.formula.variables == old(self).formula.variables,
                self.formula.views() == insert_all(
                    vs0,
                    implication_list(condition@, consequent@).take(j as int),
                ),
                vs0 == old(self).formula.views(),
            decreases consequent@.len() - j,
        {
            let mut clause = template.duplicate();
            proof {
                assert(clause.wf());
            }
            clause.add(consequent[j]);
            self.formula.add_clause(clause);
            proof {
                lemma_insert_all_snoc(vs0, implication_list(condition@, consequent@), j as int);
            }
            j += 1;
        }
        proof {
            assert(implication_list(condition@, consequent@).take(consequent@.len() as int)
                =~= implication_list(condition@, consequent@));
        }
    }

    /// A Tseitin-style name for the conjunction of the literals: a fresh
    /// variable implied by and implying the conjunction.
    pub fn alias(&mut self, literals: &[Literal]) -> (r: Literal)
        requires
            old(self).wf(),
            old(self).formula.variables@.len() < usize::MAX,
        ensures
            final(self).wf(),
            r == (Literal {
                variable: Variable {
                    number: (old(self).formula.variables@.len() + 1) as usize,
                },
                positive: true,
            }),
            final(self).formula.variables@ == old(self).formula.variables@.push(r.variable),
            final(self).formula.views() == insert_all(
                insert_all(
                    old(self).formula.views(),
                    implication_list(literals@, seq![r]),
                ),
                implication_list(seq![r], literals@),
            ),
    {
        let variable = self.formula.new_variable();
        let literal = Literal::positive(variable);

        let mut single: Vec<Literal> = Vec::new();
        single.push(literal);
        proof {
            assert(single@ =~= seq![literal]);
        }

        self.implies(literals, single.as_slice());
        self.implies(single.as_slice(), literals);

        literal
    }


    /// The sequential-counter cardinality encoding.  Builds the waste
    /// counter for the given bounds and emits, per event literal in time
    /// order: the event sets its register's first bit (with an outright
    /// contradiction where the window caps at 0); only the first bit of the
    /// first register may be set; set bits persist forward, or force the
    /// previous bit where the window shrank past it; an event increments the
    /// count; and an event is forbidden when it would overflow the current
    /// ceiling.  The overflow guard keeps the implemented polarity, a
    /// deliberate deviation from the encoding's published derivation.
    pub fn within(&mut self, bounds: &Bounds, literals: &[Literal])
        requires
            old(self).wf(),
            bounds.inv(),
            bounds.waste_ok(),
            literals@.len() == bounds.length_of_string - (bounds.n - 1),
            old(self).formula.variables@.len() + (bounds.length_of_string + 1) * (
            bounds.max_permutations@.len() + 1) <= usize::MAX,
        ensures
            final(self).wf(),
            exists|c: Counter|
                {
                    &&& #[trigger] counter_matches(c, *bounds)
                    &&& counter_fresh(c.registers@, old(self).formula.variables@.len() as int)
                    &&& final(self).formula.variables@.len() == old(
                        self,
                    ).formula.variables@.len() + base_vars(c.registers@, c.registers@.len() as int)
                    &&& final(self).formula.views() == insert_all(
                        old(self).formula.views(),
                        within_emitted(c, literals@),
                    )
                },
    {
        let ghost vs0 = self.formula.views();
        let counter = Counter::new(bounds, &mut self.formula);
        let ghost regs = counter.registers@;
        let ghost vars1 = self.formula.variables@;
        let ghost lits = literals@;
        proof {
            assert(self.formula.views() == vs0);
            assert(regs.len() == lits.len());
        }

        // (1) an event sets the counter's first bit; an event whose window
        // caps at 0 is contradicted outright
        let mut index: usize = 0;
        proof {
            reveal_with_fuel(insert_all, 2);
        }
        while index < literals.len()
            invariant
                self.wf(),
                0 <= index <= lits.len(),
                lits == literals@,
                regs == counter.registers@,
                regs.len() == lits.len(),
                forall|k: int| 0 <= k < regs.len() ==> (#[trigger] regs[k]).wf(),
                self.formula.variables@ == vars1,
                self.formula.views() == insert_all(vs0, family_events(regs, lits, index as int)),
            decreases lits.len() - index,
        {
            let register = counter.register(index);
            let ghost fe0 = family_events(regs, lits, index as int);
            let ghost part_a = match regs[index as int].spec_literal_for(1) {
                Option::Some(cb) => implication_list(seq![lits[index as int]], seq![cb]),
                Option::None => Seq::<Seq<Literal>>::empty(),
            };
            let ghost part_b = if regs[index as int].end == 0 {
                seq![canon(neg_all(seq![lits[index as int]]))]
            } else {
                Seq::<Seq<Literal>>::empty()
            };
            let mut event: Vec<Literal> = Vec::new();
            event.push(literals[index]);
            proof {
                assert(event@ =~= seq![lits[index as int]]);
            }

            match register.literal_for_count(1) {
                Some(count_bit) => {
                    let mut first_bit: Vec<Literal> = Vec::new();
                    first_bit.push(count_bit);
                    proof {
                        assert(first_bit@ =~= seq![count_bit]);
                    }
                    self.implies(event.as_slice(), first_bit.as_slice());
                },
                None => {},
            }
            proof {
                reveal_with_fuel(insert_all, 2);
                lemma_insert_all_append(vs0, fe0, part_a);
                assert(self.formula.views() == insert_all(vs0, fe0 + part_a));
            }

            if register.end() == 0 {
                self.contradiction(event.as_slice());
            }
            proof {
                reveal_with_fuel(insert_all, 2);
                lemma_insert_all_append(vs0, fe0 + part_a, part_b);
                assert(family_events(regs, lits, index as int + 1) == (fe0 + part_a) + part_b);
                assert(self.formula.views() == insert_all(
                    vs0,
                    family_events(regs, lits, index as int + 1),
                ));
            }
            index += 1;
        }
        let ghost f1 = family_events(regs, lits, lits.len() as int);

        // (2) in the first register only the first bit can ever be set
        let first_register = counter.register(0);
        let ghost reg0 = regs[0];
        let first_end = first_register.end();
        proof {
            assert(counter_matches(counter, *bounds));
            assert(bounds.span_ok(
                bounds.n - 1 + 0,
                crate::bounds::Span { start: regs[0].start, end: regs[0].end },
            ));
            assert(reg0.end <= bounds.max_permutations@.len());
            assert(first_end < usize::MAX);
        }
        let mut w: usize = 2;
        while w <= first_end
            invariant
                self.wf(),
                regs == counter.registers@,
                regs.len() == lits.len() >= 1,
                reg0 == regs[0],
                *first_register == reg0,
                reg0.wf(),
                first_end == reg0.end,
                first_end < usize::MAX,
                2 <= w,
                w <= first_end + 1 || w == 2,
                self.formula.variables@ == vars1,
                self.formula.views() == insert_all(vs0, f1 + family_first(reg0, w as int)),
                f1 == family_events(regs, lits, lits.len() as int),
            decreases first_end + 1 - w,
        {
            let ghost ff0 = family_first(reg0, w as int);
            let ghost part = match reg0.spec_literal_for(w as int) {
                Option::Some(b) => seq![canon(neg_all(seq![b]))],
                Option::None => Seq::<Seq<Literal>>::empty(),
            };
            match first_register.literal_for_count(w) {
                Some(count_bit) => {
                    let mut bit: Vec<Literal> = Vec::new();
                    bit.push(count_bit);
                    proof {
                        assert(bit@ =~= seq![count_bit]);
                    }
                    self.contradiction(bit.as_slice());
                },
                None => {},
            }
            proof {
                reveal_with_fuel(insert_all, 2);
                lemma_insert_all_append(vs0, f1, ff0 + part);
                lemma_insert_all_append(vs0, f1 + ff0, part);
                assert((f1 + ff0) + part =~= f1 + (ff0 + part));
                lemma_insert_all_append(vs0, f1, ff0);
                assert(family_first(reg0, w as int + 1) == ff0 + part);
            }
            w += 1;
        }
        proof {
            assert(family_first(reg0, first_end as int + 1) == family_first(reg0, w as int));
        }
        let ghost f2 = family_first(reg0, reg0.end + 1);

        // (3), (4) and (5): each later register carries the previous one
        // forward, adds the event, and rejects events that would overflow
        let mut index: usize = 1;
        proof {
            reveal_with_fuel(insert_all, 2);
            assert(family_steps(regs, lits, 1) =~= Seq::<Seq<Literal>>::empty());
            assert(self.formula.views() == insert_all(vs0, (f1 + f2) + family_steps(regs, lits, 1)));
        }
        while index < literals.len()
            invariant
                self.wf(),
                bounds.inv(),
                counter_matches(counter, *bounds),
                1 <= index <= lits.len(),
                lits == literals@,
                regs == counter.registers@,
                regs.len() == lits.len() >= 1,
                forall|k: int| 0 <= k < regs.len() ==> (#[trigger] regs[k]).wf(),
                self.formula.variables@ == vars1,
                self.formula.views() == insert_all(
                    vs0,
                    (f1 + f2) + family_steps(regs, lits, index as int),
                ),
                f1 == family_events(regs, lits, lits.len() as int),
                f2 == family_first(regs[0], regs[0].end + 1),
            decreases lits.len() - index,
        {
            let ghost base = (f1 + f2) + family_steps(regs, lits, index as int);
            let ghost prev = regs[index - 1];
            let ghost cur = regs[index as int];
            let current_register = counter.register(index);
            let previous_register = counter.register(index - 1);
            proof {
                assert(bounds.span_ok(
                    bounds.n - 1 + index as int,
                    crate::bounds::Span { start: cur.start, end: cur.end },
                ));
                assert(cur.end <= bounds.max_permutations@.len());
                assert(cur.end < usize::MAX);
            }
            let lit = literals[index];
            let mut event: Vec<Literal> = Vec::new();
            event.push(lit);
            proof {
                assert(event@ =~= seq![lits[index as int]]);
            }

            // (3) counts persist forward
            let cur_end = current_register.end();
            let mut b: usize = previous_register.start();
            proof {
                assert(family_carry(prev, cur, prev.start as int) =~= Seq::<Seq<Literal>>::empty());
            }
            while b <= cur_end
                invariant
                    self.wf(),
                    regs == counter.registers@,
                    prev == regs[index as int - 1],
                    cur == regs[index as int],
                    *previous_register == prev,
                    *current_register == cur,
                    1 <= index < regs.len(),
                    prev.wf(),
                    cur.wf(),
                    cur_end == cur.end,
                    cur_end < usize::MAX,
                    prev.start <= b,
                    b <= cur_end + 1 || b == prev.start,
                    self.formula.variables@ == vars1,
                    self.formula.views() == insert_all(vs0, base + family_carry(prev, cur, b as int)),
                decreases cur_end + 1 - b,
            {
                let ghost fc0 = family_carry(prev, cur, b as int);
                let ghost part = match prev.spec_literal_for(b as int) {
                    Option::Some(pb) => match cur.spec_literal_for(b as int) {
                        Option::Some(cb) => implication_list(seq![pb], seq![cb]),
                        Option::None => seq![seq![pb]],
                    },
                    Option::None => Seq::<Seq<Literal>>::empty(),
                };
                match previous_register.literal_for_count(b) {
                    Some(previous_bit) => {
                        let mut pb: Vec<Literal> = Vec::new();
                        pb.push(previous_bit);
                        proof {
                            assert(pb@ =~= seq![previous_bit]);
                        }
                        match current_register.literal_for_count(b) {
                            Some(current_bit) => {
                                let mut cb: Vec<Literal> = Vec::new();
                                cb.push(current_bit);
                                proof {
                                    assert(cb@ =~= seq![current_bit]);
                                }
                                self.implies(pb.as_slice(), cb.as_slice());
                            },
                            None => {
                                self.tautology(pb.as_slice());
                                proof {
                                    assert(unit_list(seq![previous_bit]) =~= seq![
                                        seq![previous_bit],
                                    ]);
                                }
                            },
                        }
                    },
                    None => {},
                }
                proof {
                    reveal_with_fuel(insert_all, 2);
                    lemma_insert_all_append(vs0, base, fc0 + part);
                    lemma_insert_all_append(vs0, base + fc0, part);
                    assert((base + fc0) + part =~= base + (fc0 + part));
                    lemma_insert_all_append(vs0, base, fc0);
                    assert(family_carry(prev, cur, b as int + 1) == fc0 + part);
                }
                b += 1;
            }
            proof {
                assert(family_carry(prev, cur, cur.end + 1) == family_carry(prev, cur, b as int));
            }
            let ghost f3i = family_carry(prev, cur, cur.end + 1);

            // (4) an event increments the counter
            let mut b: usize = 2;
            proof {
                assert(family_increment(prev, cur, lits[index as int], 2)
                    =~= Seq::<Seq<Literal>>::empty());
            }
            while b <= cur_end
                invariant
                    self.wf(),
                    regs == counter.registers@,
                    prev == regs[index as int - 1],
                    cur == regs[index as int],
                    *previous_register == prev,
                    *current_register == cur,
                    lits == literals@,
                    1 <= index < regs.len(),
                    lit == lits[index as int],
                    event@ == seq![lits[index as int]],
                    prev.wf(),
                    cur.wf(),
                    cur_end == cur.end,
                    cur_end < usize::MAX,
                    2 <= b,
                    b <= cur_end + 1 || b == 2,
                    self.formula.variables@ == vars1,
                    self.formula.views() == insert_all(
                        vs0,
                        (base + f3i) + family_increment(prev, cur, lits[index as int], b as int),
                    ),
                    base + f3i == (f1 + f2) + family_steps(regs, lits, index as int) + family_carry(
                        prev,
                        cur,
                        cur.end + 1,
                    ),
                decreases cur_end + 1 - b,
            {
                let ghost fi0 = family_increment(prev, cur, lits[index as int], b as int);
                let ghost part = match cur.spec_literal_for(b as int) {
                    Option::Some(cb) => match prev.spec_literal_for(b as int - 1) {
                        Option::Some(pb) => implication_list(
                            seq![pb, lits[index as int]],
                            seq![cb],
                        ),
                        Option::None => Seq::<Seq<Literal>>::empty(),
                    },
                    Option::None => Seq::<Seq<Literal>>::empty(),
                };
                match current_register.literal_for_count(b) {
                    Some(current_bit) => {
                        match previous_register.literal_for_count(b - 1) {
                            Some(previous_bit) => {
                                let mut pb: Vec<Literal> = Vec::new();
                                pb.push(previous_bit);
                                let condition = Logic::and(pb.as_slice(), event.as_slice());
                                let mut cb: Vec<Literal> = Vec::new();
                                cb.push(current_bit);
                                proof {
                                    assert(condition@ =~= seq![previous_bit, lits[index as int]]);
                                    assert(cb@ =~= seq![current_bit]);
                                }
                                self.implies(condition.as_slice(), cb.as_slice());
                            },
                            None => {},
                        }
                    },
                    None => {},
                }
                proof {
                    reveal_with_fuel(insert_all, 2);
                    lemma_insert_all_append(vs0, base + f3i, fi0 + part);
                    lemma_insert_all_append(vs0, (base + f3i) + fi0, part);
                    assert(((base + f3i) + fi0) + part =~= (base + f3i) + (fi0 + part));
                    lemma_insert_all_append(vs0, base + f3i, fi0);
                    assert(family_increment(prev, cur, lits[index as int], b as int + 1) == fi0
                        + part);
                }
                b += 1;
            }
            proof {
                assert(family_increment(prev, cur, lits[index as int], cur.end + 1)
                    == family_increment(prev, cur, lits[index as int], b as int));
            }
            let ghost f4i = family_increment(prev, cur, lits[index as int], cur.end + 1);

            // (5) an event may not overflow the current ceiling
            let ghost f5i = family_overflow(prev, cur, lits[index as int]);
            match previous_register.literal_for_count(cur_end) {
                Some(overflow) => {
                    let mut guard: Vec<Literal> = Vec::new();
                    guard.push(overflow.negate());
                    proof {
                        assert(guard@ =~= seq![flip(overflow)]);
                    }
                    self.implies(event.as_slice(), guard.as_slice());
                },
                None => {},
            }
            proof {
                reveal_with_fuel(insert_all, 2);
                lemma_insert_all_append(vs0, (base + f3i) + f4i, f5i);
                assert(family_steps(regs, lits, index as int + 1) == ((family_steps(
                    regs,
                    lits,
                    index as int,
                ) + f3i) + f4i) + f5i);
                assert((f1 + f2) + family_steps(regs, lits, index as int + 1) =~= (((base + f3i)
                    + f4i) + f5i));
                assert(self.formula.views() == insert_all(
                    vs0,
                    (f1 + f2) + family_steps(regs, lits, index as int + 1),
                ));
            }
            index += 1;
        }

        proof {
            let f3 = family_steps(regs, lits, lits.len() as int);
            assert(within_emitted(counter, lits) =~= (f1 + f2) + f3);
            assert(self.formula.views() == insert_all(vs0, within_emitted(counter, lits)));
            assert(counter_matches(counter, *bounds));
        }
    }

    /// The concatenation of two literal lists, read as a conjunction.
    pub fn and(a: &[Literal], b: &[Literal]) -> (r: Vec<Literal>)
        ensures
            r@ == a@ + b@,
    {
        let mut out: Vec<Literal> = Vec::new();
        let mut i: usize = 0;
        while i < a.len()
            invariant
                0 <= i <= a@.len(),
                out@ == a@.take(i as int),
            decreases a@.len() - i,
        {
            out.push(a[i]);
            proof {
                assert(out@ =~= a@.take(i as int + 1));
            }
            i += 1;
        }
        proof {
            assert(a@.take(a@.len() as int) =~= a@);
        }
        let mut j: usize = 0;
        while j < b.len()
            invariant
                0 <= j <= b@.len(),
                out@ == a@ + b@.take(j as int),
            decreases b@.len() - j,
        {
            out.push(b[j]);
            proof {
                assert(out@ =~= a@ + b@.take(j as int + 1));
            }
            j += 1;
        }
        proof {
            assert(a@ + b@.take(b@.len() as int) =~= a@ + b@);
        }
        out
    }

    /// Every literal negated, in order.
    pub fn negate(literals: &[Literal]) -> (r: Vec<Literal>)
        ensures
            r@ == neg_all(literals@),
    {
        let mut out: Vec<Literal> = Vec::new();
        let mut i: usize = 0;
        while i < literals.len()
            invariant
                0 <= i <= literals@.len(),
                out@.len() == i,
                forall|k: int| 0 <= k < i ==> out@[k] == neg_all(literals@)[k],
            decreases literals@.len() - i,
        {
            out.push(literals[i].negate());
            i += 1;
        }
        proof {
            assert(out@ =~= neg_all(literals@));
        }
        out
    }
}

} // verus!
