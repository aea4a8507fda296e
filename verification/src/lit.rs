//! Variables, ternary values and literals.

use vstd::prelude::*;

verus! {

/// A propositional variable, identified by its index.
#[derive(Debug, Copy, Clone, PartialEq, Eq, Structural, PartialOrd, Ord, Hash)]
pub struct Var {
    pub num: usize,
}

impl Var {
    /// The index of the variable, as a mathematical integer.
    pub open spec fn index(self) -> int {
        self.num as int
    }

    /// Makes the variable with the given index.
    pub fn new(num: usize) -> (v: Var)
        ensures
            v.index() == num,
    {
        Var { num }
    }

    /// The index of the variable.
    pub fn get_num(&self) -> (n: usize)
        ensures
            n == self.index(),
    {
        self.num
    }
}

/// The value of a variable: true, false, or not yet decided.
#[derive(Debug, Copy, Clone, PartialEq, Eq, Structural, Hash)]
pub enum VarValue {
    /// true
    VTrue,
    /// false
    VFalse,
    /// either true or false
    VUndef,
}

impl VarValue {
    /// The opposite value; an undecided value has no opposite but itself.
    pub open spec fn negated(self) -> VarValue {
        match self {
            VarValue::VTrue => VarValue::VFalse,
            VarValue::VFalse => VarValue::VTrue,
            VarValue::VUndef => VarValue::VUndef,
        }
    }

    /// Soft equality: two values agree unless one is true and the other false.
    pub open spec fn soft_equals(self, other: VarValue) -> bool {
        !(self == VarValue::VTrue && other == VarValue::VFalse)
        && !(self == VarValue::VFalse && other == VarValue::VTrue)
    }

    /// Tells whether the two values are not strict opposites.
    pub fn equals(self, other: VarValue) -> (b: bool)
        ensures
            b == self.soft_equals(other),
    {
        match self {
            VarValue::VTrue => match other {
                VarValue::VTrue => true,
                VarValue::VFalse => false,
                VarValue::VUndef => true,
            },
            VarValue::VFalse => match other {
                VarValue::VTrue => false,
                VarValue::VFalse => true,
                VarValue::VUndef => true,
            },
            VarValue::VUndef => true,
        }
    }
}

impl core::ops::Not for VarValue {
    type Output = VarValue;

    fn not(self) -> (r: VarValue) {
        match self {
            VarValue::VTrue => VarValue::VFalse,
            VarValue::VFalse => VarValue::VTrue,
            VarValue::VUndef => VarValue::VUndef,
        }
    }
}

impl vstd::std_specs::ops::NotSpecImpl for VarValue {
    open spec fn obeys_not_spec() -> bool {
        true
    }

    open spec fn not_req(self) -> bool {
        true
    }

    open spec fn not_spec(self) -> VarValue {
        self.negated()
    }
}

/// The value of a literal: true, false, or not yet decided.
#[derive(Debug, Copy, Clone, PartialEq, Eq, Structural, Hash)]
pub enum LitValue {
    /// true
    LTrue,
    /// false
    LFalse,
    /// either true or false
    LUndef,
}

impl LitValue {
    /// The opposite value; an undecided value has no opposite but itself.
    pub open spec fn negated(self) -> LitValue {
        match self {
            LitValue::LTrue => LitValue::LFalse,
            LitValue::LFalse => LitValue::LTrue,
            LitValue::LUndef => LitValue::LUndef,
        }
    }

    /// Soft equality: two values agree unless one is true and the other false.
    pub open spec fn soft_equals(self, other: LitValue) -> bool {
        !(self == LitValue::LTrue && other == LitValue::LFalse)
        && !(self == LitValue::LFalse && other == LitValue::LTrue)
    }

    /// Tells whether the two values are not strict opposites.
    pub fn equals(self, other: LitValue) -> (b: bool)
        ensures
            b == self.soft_equals(other),
    {
        match self {
            LitValue::LTrue => match other {
                LitValue::LTrue => true,
                LitValue::LFalse => false,
                LitValue::LUndef => true,
            },
            LitValue::LFalse => match other {
                LitValue::LTrue => false,
                LitValue::LFalse => true,
                LitValue::LUndef => true,
            },
            LitValue::LUndef => true,
        }
    }
}

impl core::ops::Not for LitValue {
    type Output = LitValue;

    fn not(self) -> (r: LitValue) {
        match self {
            LitValue::LTrue => LitValue::LFalse,
            LitValue::LFalse => LitValue::LTrue,
            LitValue::LUndef => LitValue::LUndef,
        }
    }
}

impl vstd::std_specs::ops::NotSpecImpl for LitValue {
    open spec fn obeys_not_spec() -> bool {
        true
    }

    open spec fn not_req(self) -> bool {
        true
    }

    open spec fn not_spec(self) -> LitValue {
        self.negated()
    }
}

/// A literal: a variable together with a polarity.
#[derive(Debug, Copy, Clone, PartialEq, Eq, Structural, Hash)]
pub struct Lit {
    pub var: Var,
    pub positive: bool,
}

impl Lit {
    /// The index of the literal's variable.
    pub open spec fn var_index(self) -> int {
        self.var.num as int
    }

    /// The value that the literal asks of its variable: true for a positive
    /// literal, false for a negative one.
    pub open spec fn polarity(self) -> VarValue {
        if self.positive {
            VarValue::VTrue
        } else {
            VarValue::VFalse
        }
    }

    /// The literal on the same variable with the other polarity.
    pub open spec fn negated(self) -> Lit {
        Lit { var: self.var, positive: !self.positive }
    }

    /// The positive literal of a variable.
    pub fn new(var: Var) -> (l: Lit)
        ensures
            l == (Lit { var, positive: true }),
    {
        Lit { var, positive: true }
    }

    /// The literal of the variable with index `var_num` that asks for `val`.
    pub fn create(var_num: usize, val: bool) -> (l: Lit)
        ensures
            l == (Lit { var: Var { num: var_num }, positive: val }),
    {
        Lit { var: Var::new(var_num), positive: val }
    }

    /// The index of the literal's variable.
    pub fn var_num(&self) -> (n: usize)
        ensures
            n == self.var_index(),
    {
        self.var.get_num()
    }

    /// The value that the literal asks of its variable.
    pub fn get_value(&self) -> (v: VarValue)
        ensures
            v == self.polarity(),
    {
        if self.positive {
            VarValue::VTrue
        } else {
            VarValue::VFalse
        }
    }

    /// The positive literals of the given variables, in the same order.
    pub fn create_lits(vars: &[Var]) -> (lits: Vec<Lit>)
        ensures
            lits@.len() == vars@.len(),
            forall|i: int|
                0 <= i < vars@.len() ==> #[trigger] lits@[i] == (Lit { var: vars@[i], positive: true }),
    {
        let mut lits = Vec::<Lit>::new();
        let mut i: usize = 0;
        while i < vars.len()
            invariant
                i <= vars@.len(),
                lits@.len() == i,
                forall|j: int|
                    0 <= j < i ==> #[trigger] lits@[j] == (Lit { var: vars@[j], positive: true }),
            decreases vars@.len() - i,
        {
            lits.push(Lit::new(vars[i]));
            i += 1;
        }
        lits
    }
}

impl core::ops::Not for Lit {
    type Output = Lit;

    fn not(self) -> (r: Lit) {
        Lit { var: self.var, positive: !self.positive }
    }
}

impl vstd::std_specs::ops::NotSpecImpl for Lit {
    open spec fn obeys_not_spec() -> bool {
        true
    }

    open spec fn not_req(self) -> bool {
        true
    }

    open spec fn not_spec(self) -> Lit {
        self.negated()
    }
}

} // verus!
