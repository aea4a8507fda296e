//! Variables, values, literals, clauses and formulas as text.

use crate::clause::Clause;
use crate::count::{count_eq, lemma_count_push};
use crate::lit::{Lit, LitValue, Var, VarValue};
use crate::solver::Solver;
use crate::text::{decimal, push_decimal};
use vstd::prelude::*;

verus! {

/// The text of a value: `T`, `F`, or `X` for an undecided one.
pub open spec fn value_text(x: VarValue) -> Seq<char> {
    match x {
        VarValue::VTrue => seq!['T'],
        VarValue::VFalse => seq!['F'],
        VarValue::VUndef => seq!['X'],
    }
}

/// The text of a literal: the index of its variable, with `~` in front of
/// a negative literal.
pub open spec fn lit_text(l: Lit) -> Seq<char> {
    if l.positive {
        decimal(l.var.num as nat)
    } else {
        seq!['~'] + decimal(l.var.num as nat)
    }
}

/// Those of `parts` that `keep` keeps, with `sep` between them.
pub open spec fn joined(parts: Seq<Seq<char>>, keep: Seq<bool>, sep: Seq<char>) -> Seq<char>
    decreases parts.len(),
{
    if parts.len() == 0 || parts.len() != keep.len() {
        Seq::empty()
    } else {
        let prev = joined(parts.drop_last(), keep.drop_last(), sep);
        if !keep.last() {
            prev
        } else if count_eq(keep.drop_last(), true) == 0 {
            prev + parts.last()
        } else {
            prev + sep + parts.last()
        }
    }
}

/// The texts of the literals.
pub open spec fn lit_texts(lits: Seq<Lit>) -> Seq<Seq<char>> {
    Seq::new(lits.len(), |p: int| lit_text(lits[p]))
}

/// For each literal, whether it is not marked.
pub open spec fn live_flags(marks: Seq<bool>) -> Seq<bool> {
    Seq::new(marks.len(), |p: int| !marks[p])
}

/// The text of a clause: its unmarked literals between brackets, with `\/`
/// between them.
pub open spec fn clause_text(lits: Seq<Lit>, marks: Seq<bool>) -> Seq<char> {
    seq!['('] + joined(lit_texts(lits), live_flags(marks), seq!['\\', '/']) + seq![')']
}

/// The texts of the clauses.
pub open spec fn clause_texts(lits: Seq<Seq<Lit>>, marks: Seq<Seq<bool>>) -> Seq<Seq<char>> {
    Seq::new(lits.len(), |c: int| clause_text(lits[c], marks[c]))
}

/// For each clause, whether no true literal satisfies it.
pub open spec fn active_flags(sat: Seq<usize>) -> Seq<bool> {
    Seq::new(sat.len(), |c: int| sat[c] == 0)
}

/// The text of a formula: the clauses that no true literal satisfies, with
/// `/\` between them.
pub open spec fn formula_text(lits: Seq<Seq<Lit>>, marks: Seq<Seq<bool>>, sat: Seq<usize>) -> Seq<
    char,
> {
    joined(clause_texts(lits, marks), active_flags(sat), seq!['/', '\\'])
}

/// The texts of the values, one after the other.
pub open spec fn values_text(values: Seq<VarValue>) -> Seq<char>
    decreases values.len(),
{
    if values.len() == 0 {
        Seq::empty()
    } else {
        values_text(values.drop_last()) + value_text(values.last())
    }
}

/// One step of `joined`: what one part more adds.
pub proof fn lemma_joined_step(parts: Seq<Seq<char>>, keep: Seq<bool>, sep: Seq<char>, i: int)
    requires
        parts.len() == keep.len(),
        0 <= i < parts.len(),
    ensures
        joined(parts.take(i + 1), keep.take(i + 1), sep) == (if !keep[i] {
            joined(parts.take(i), keep.take(i), sep)
        } else if count_eq(keep.take(i), true) == 0 {
            joined(parts.take(i), keep.take(i), sep) + parts[i]
        } else {
            joined(parts.take(i), keep.take(i), sep) + sep + parts[i]
        }),
        count_eq(keep.take(i + 1), true) == count_eq(keep.take(i), true) + if keep[i] {
            1nat
        } else {
            0nat
        },
{
    assert(parts.take(i + 1).drop_last() =~= parts.take(i));
    assert(keep.take(i + 1).drop_last() =~= keep.take(i));
    assert(keep.take(i + 1) =~= keep.take(i).push(keep[i]));
    lemma_count_push(keep.take(i), keep[i], true);
}

impl Var {
    /// The index of the variable in decimal digits.
    pub fn to_string(&self) -> (r: String)
        ensures
            r@ == decimal(self.num as nat),
    {
        let mut r = String::new();
        push_decimal(&mut r, self.num);
        assert(r@ =~= decimal(self.num as nat));
        r
    }
}

impl VarValue {
    /// `T`, `F`, or `X` for an undecided value.
    pub fn to_string(&self) -> (r: String)
        ensures
            r@ == value_text(*self),
    {
        proof {
            reveal_strlit("T");
            reveal_strlit("F");
            reveal_strlit("X");
        }
        let mut r = String::new();
        match self {
            VarValue::VTrue => r.append("T"),
            VarValue::VFalse => r.append("F"),
            VarValue::VUndef => r.append("X"),
        }
        assert(r@ =~= value_text(*self));
        r
    }
}

/// The text of the value of a literal: `T`, `F`, or `X` for an undecided
/// one.
pub open spec fn lit_value_text(x: LitValue) -> Seq<char> {
    match x {
        LitValue::LTrue => seq!['T'],
        LitValue::LFalse => seq!['F'],
        LitValue::LUndef => seq!['X'],
    }
}

impl LitValue {
    /// `T`, `F`, or `X` for an undecided value.
    pub fn to_string(&self) -> (r: String)
        ensures
            r@ == lit_value_text(*self),
    {
        proof {
            reveal_strlit("T");
            reveal_strlit("F");
            reveal_strlit("X");
        }
        let mut r = String::new();
        match self {
            LitValue::LTrue => r.append("T"),
            LitValue::LFalse => r.append("F"),
            LitValue::LUndef => r.append("X"),
        }
        assert(r@ =~= lit_value_text(*self));
        r
    }
}

/// Appends the text of a literal to `out`.
pub fn push_lit(out: &mut String, l: Lit)
    ensures
        final(out)@ == old(out)@ + lit_text(l),
{
    if !l.positive {
        proof {
            reveal_strlit("~");
        }
        out.append("~");
    }
    push_decimal(out, l.var.num);
    assert(out@ =~= old(out)@ + lit_text(l));
}

impl Lit {
    /// The index of the variable, with `~` in front of a negative literal.
    pub fn to_string(&self) -> (r: String)
        ensures
            r@ == lit_text(*self),
    {
        let mut r = String::new();
        push_lit(&mut r, *self);
        assert(r@ =~= lit_text(*self));
        r
    }
}

/// Appends the text of a clause to `out`.
pub fn push_clause(out: &mut String, clause: &Clause)
    requires
        clause.wf(),
    ensures
        final(out)@ == old(out)@ + clause_text(clause.lits(), clause.marks()),
{
    proof {
        reveal_strlit("(");
        reveal_strlit(")");
        reveal_strlit("\\/");
    }
    let ghost parts = lit_texts(clause.lits());
    let ghost keep = live_flags(clause.marks());
    let ghost sep = seq!['\\', '/'];
    out.append("(");
    let ghost base = out@;
    let mut first = true;
    let n = clause.total();
    let mut i: usize = 0;
    assert(parts.take(0) =~= Seq::<Seq<char>>::empty());
    assert(base + joined(parts.take(0), keep.take(0), sep) =~= base);
    while i < n
        invariant
            0 <= i <= n,
            n == clause.lits().len(),
            clause.wf(),
            parts == lit_texts(clause.lits()),
            keep == live_flags(clause.marks()),
            sep == seq!['\\', '/'],
            "\\/"@ == sep,
            out@ == base + joined(parts.take(i as int), keep.take(i as int), sep),
            first == (count_eq(keep.take(i as int), true) == 0),
        decreases n - i,
    {
        proof {
            lemma_joined_step(parts, keep, sep, i as int);
        }
        if !clause.is_marked(i) {
            if !first {
                out.append("\\/");
            }
            first = false;
            push_lit(out, clause.lit_at(i));
        }
        proof {
            assert(out@ =~= base + joined(parts.take(i + 1), keep.take(i + 1), sep));
        }
        i += 1;
    }
    out.append(")");
    proof {
        assert(parts.take(n as int) =~= parts);
        assert(keep.take(n as int) =~= keep);
        assert(out@ =~= old(out)@ + clause_text(clause.lits(), clause.marks()));
    }
}

impl Clause {
    /// The unmarked literals between brackets, with `\/` between them.
    pub fn to_string(&self) -> (r: String)
        requires
            self.wf(),
        ensures
            r@ == clause_text(self.lits(), self.marks()),
    {
        let mut r = String::new();
        push_clause(&mut r, self);
        assert(r@ =~= clause_text(self.lits(), self.marks()));
        r
    }
}

impl Solver {
    /// The clauses that no true literal satisfies, with `/\` between them.
    pub fn to_string(&self) -> (r: String)
        requires
            self.inv(),
        ensures
            r@ == formula_text(self.state().lits, self.state().marks, self.state().sat),
    {
        proof {
            reveal_strlit("/\\");
        }
        let ghost s = self.state();
        let ghost parts = clause_texts(s.lits, s.marks);
        let ghost keep = active_flags(s.sat);
        let ghost sep = seq!['/', '\\'];
        let mut r = String::new();
        let mut first = true;
        let n = self.cnf.clauses.len();
        let mut i: usize = 0;
        assert(parts.take(0) =~= Seq::<Seq<char>>::empty());
        assert(r@ =~= joined(parts.take(0), keep.take(0), sep));
        while i < n
            invariant
                0 <= i <= n,
                n == s.lits.len(),
                self.wf(),
                s == self.state(),
                parts == clause_texts(s.lits, s.marks),
                keep == active_flags(s.sat),
                sep == seq!['/', '\\'],
                "/\\"@ == sep,
                r@ == joined(parts.take(i as int), keep.take(i as int), sep),
                first == (count_eq(keep.take(i as int), true) == 0),
            decreases n - i,
        {
            proof {
                lemma_joined_step(parts, keep, sep, i as int);
            }
            if self.cnf.sat[i] == 0 {
                if !first {
                    r.append("/\\");
                }
                first = false;
                push_clause(&mut r, &self.cnf.clauses[i]);
            }
            proof {
                assert(r@ =~= joined(parts.take(i + 1), keep.take(i + 1), sep));
            }
            i += 1;
        }
        proof {
            assert(parts.take(n as int) =~= parts);
            assert(keep.take(n as int) =~= keep);
        }
        r
    }

    /// The line that shows the model: the texts of the values and a line
    /// end, or `UNSAT` and a line end where the status is false.
    pub fn model_text(&self) -> (r: String)
        ensures
            r@ == if self.status() {
                values_text(self.model()) + seq!['\n']
            } else {
                seq!['U', 'N', 'S', 'A', 'T', '\n']
            },
    {
        proof {
            reveal_strlit("UNSAT\n");
            reveal_strlit("\n");
            reveal_strlit("T");
            reveal_strlit("F");
            reveal_strlit("X");
        }
        let mut r = String::new();
        if self.status {
            let n = self.model.var.len();
            let mut i: usize = 0;
            assert(self.model.var@.take(0) =~= Seq::<VarValue>::empty());
            assert(r@ =~= values_text(self.model.var@.take(0)));
            while i < n
                invariant
                    0 <= i <= n,
                    n == self.model.var@.len(),
                    "T"@ == seq!['T'],
                    "F"@ == seq!['F'],
                    "X"@ == seq!['X'],
                    r@ == values_text(self.model.var@.take(i as int)),
                decreases n - i,
            {
                proof {
                    assert(self.model.var@.take(i + 1).drop_last() =~= self.model.var@.take(
                        i as int,
                    ));
                }
                match self.model.var[i] {
                    VarValue::VTrue => r.append("T"),
                    VarValue::VFalse => r.append("F"),
                    VarValue::VUndef => r.append("X"),
                }
                i += 1;
            }
            r.append("\n");
            proof {
                assert(self.model.var@.take(n as int) =~= self.model.var@);
            }
        } else {
            r.append("UNSAT\n");
            assert(r@ =~= seq!['U', 'N', 'S', 'A', 'T', '\n']);
        }
        r
    }

}

} // verus!
