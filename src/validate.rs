//! The validator: a second pass over a parsed program that checks names are
//! unique, ranges are ordered, string lengths are not negative, and type
//! names resolve. It stops at the first violation.
use vstd::prelude::*;
use crate::decimal::Decimal;
use crate::parse::{parse_source, spec_parse, SyntaxError};
use crate::schema::{
    columns_wf, dbl_range_wf, dtype_wf, stmts_wf, ColumnSchema, ColumnV, DblRange, IntRange,
    ParentType, ParentTypeV, Prgm, Range, Stmt, StmtV, TableSchema,
};

verus! {

/// The first violation found, with the names or values involved.
#[derive(Debug)]
pub enum ValidationError {
    DuplicateType(String),
    DuplicateTable(String),
    DuplicateColumn(String),
    /// An integer or string-length range whose lower bound is above its upper bound.
    IntRangeOrder(i32, i32),
    /// A double range whose lower bound is above its upper bound.
    DblRangeOrder(Decimal, Decimal),
    /// A negative bound on a string's length.
    NegativeLength(i32),
    UnknownType(String),
}

pub ghost enum ValidationErrorV {
    DuplicateType(Seq<char>),
    DuplicateTable(Seq<char>),
    DuplicateColumn(Seq<char>),
    IntRangeOrder(i32, i32),
    DblRangeOrder(Decimal, Decimal),
    NegativeLength(i32),
    UnknownType(Seq<char>),
}

impl View for ValidationError {
    type V = ValidationErrorV;

    open spec fn view(&self) -> ValidationErrorV {
        match self {
            ValidationError::DuplicateType(n) => ValidationErrorV::DuplicateType(n@),
            ValidationError::DuplicateTable(n) => ValidationErrorV::DuplicateTable(n@),
            ValidationError::DuplicateColumn(n) => ValidationErrorV::DuplicateColumn(n@),
            ValidationError::IntRangeOrder(a, b) => ValidationErrorV::IntRangeOrder(*a, *b),
            ValidationError::DblRangeOrder(a, b) => ValidationErrorV::DblRangeOrder(*a, *b),
            ValidationError::NegativeLength(v) => ValidationErrorV::NegativeLength(*v),
            ValidationError::UnknownType(n) => ValidationErrorV::UnknownType(n@),
        }
    }
}

/// A set of names.
#[derive(Debug)]
pub struct NameSet {
    names: Vec<String>,
}

impl View for NameSet {
    type V = Set<Seq<char>>;

    closed spec fn view(&self) -> Set<Seq<char>> {
        Set::new(|n: Seq<char>| exists|i: int| 0 <= i < self.names@.len() && self.names@[i]@ == n)
    }
}

impl NameSet {
    pub fn new() -> (r: NameSet)
        ensures
            r@ == Set::<Seq<char>>::empty(),
    {
        let r = NameSet { names: Vec::new() };
        assert(r@ =~= Set::<Seq<char>>::empty());
        r
    }

    pub fn contains(&self, name: &String) -> (r: bool)
        ensures
            r == self@.contains(name@),
    {
        let mut i: usize = 0;
        while i < self.names.len()
            invariant
                i <= self.names@.len(),
                forall|k: int| 0 <= k < i ==> self.names@[k]@ != name@,
            decreases self.names@.len() - i,
        {
            if self.names[i] == *name {
                assert(self@.contains(name@));
                return true;
            }
            i = i + 1;
        }
        false
    }

    /// Adds `name`; says whether it was new.
    pub fn insert(&mut self, name: &String) -> (added: bool)
        ensures
            added == !old(self)@.contains(name@),
            final(self)@ == old(self)@.insert(name@),
    {
        if self.contains(name) {
            assert(self@ =~= self@.insert(name@));
            return false;
        }
        let ghost before = self@;
        let ghost old_names = self.names@;
        let ghost len = self.names@.len();
        self.names.push(name.clone());
        assert forall|n: Seq<char>| #![auto] self@.contains(n) == before.insert(name@).contains(n) by {
            if before.contains(n) {
                let i = choose|i: int| 0 <= i < old_names.len() && old_names[i]@ == n;
                assert(self.names@[i]@ == n);
            }
            if n == name@ {
                assert(self.names@[len as int]@ == n);
            }
            if self@.contains(n) && n != name@ {
                let i = choose|i: int| 0 <= i < self.names@.len() && self.names@[i]@ == n;
                assert(i < len);
                assert(old_names[i]@ == n);
            }
        }
        assert(self@ =~= before.insert(name@));
        true
    }
}

/// The names seen so far: type names and table names.
#[derive(Debug)]
pub struct PrgmValidState {
    pub dtypes: NameSet,
    pub tables: NameSet,
}

pub ghost struct ValidStateV {
    pub dtypes: Set<Seq<char>>,
    pub tables: Set<Seq<char>>,
}

impl View for PrgmValidState {
    type V = ValidStateV;

    open spec fn view(&self) -> ValidStateV {
        ValidStateV { dtypes: self.dtypes@, tables: self.tables@ }
    }
}

impl PrgmValidState {
    /// The state before any statement: no names.
    pub fn new() -> (r: PrgmValidState)
        ensures
            r@.dtypes == Set::<Seq<char>>::empty(),
            r@.tables == Set::<Seq<char>>::empty(),
    {
        PrgmValidState { dtypes: NameSet::new(), tables: NameSet::new() }
    }
}

/// What checking a value finds, and the state after it: `None` when the value is valid.
pub ghost struct Outcome {
    pub error: Option<ValidationErrorV>,
    pub state: ValidStateV,
}

/// A part of a program that the validator checks.
pub trait Validate {
    /// Whether the value is one the check is defined on.
    spec fn well_formed(&self) -> bool;

    /// What checking the value in state `st` finds.
    spec fn outcome(&self, st: ValidStateV) -> Outcome;

    /// Checks the value, recording the names it defines.
    fn validate(&self, state: &mut PrgmValidState) -> (r: Result<(), ValidationError>)
        requires
            self.well_formed(),
        ensures
            match r {
                Ok(_) => self.outcome(old(state)@) == (Outcome { error: None, state: final(state)@ }),
                Err(e) => self.outcome(old(state)@).error == Some(e@) && final(state)@ == self.outcome(old(state)@).state,
            },
    ;
}

/// The ordering of an integer range: both bounds present and the lower above the upper fails.
pub open spec fn check_int_range(r: IntRange) -> Option<ValidationErrorV> {
    match (r.min, r.max) {
        (Some(a), Some(b)) => if a > b {
            Some(ValidationErrorV::IntRangeOrder(a, b))
        } else {
            None
        },
        _ => None,
    }
}

/// The ordering of a double range, by numeric value.
pub open spec fn check_dbl_range(r: DblRange) -> Option<ValidationErrorV> {
    match (r.min, r.max) {
        (Some(a), Some(b)) => if a.scaled() > b.scaled() {
            Some(ValidationErrorV::DblRangeOrder(a, b))
        } else {
            None
        },
        _ => None,
    }
}

/// A string's length range: a negative bound fails, the lower one first; then its ordering.
pub open spec fn check_str_range(r: IntRange) -> Option<ValidationErrorV> {
    if r.min is Some && r.min->0 < 0 {
        Some(ValidationErrorV::NegativeLength(r.min->0))
    } else if r.max is Some && r.max->0 < 0 {
        Some(ValidationErrorV::NegativeLength(r.max->0))
    } else {
        check_int_range(r)
    }
}

/// A parent type: its range, or, for a type name, that the name was defined.
pub open spec fn check_parent(p: ParentTypeV, dtypes: Set<Seq<char>>) -> Option<ValidationErrorV> {
    match p {
        ParentTypeV::Int(r) => check_int_range(r),
        ParentTypeV::Str(r) => check_str_range(r),
        ParentTypeV::Dbl(r) => check_dbl_range(r),
        ParentTypeV::Ident(n) => if dtypes.contains(n) {
            None
        } else {
            Some(ValidationErrorV::UnknownType(n))
        },
    }
}

/// The columns of a table in order: each name unseen, and its type valid.
pub open spec fn check_columns(cs: Seq<ColumnV>, seen: Set<Seq<char>>, dtypes: Set<Seq<char>>) -> Option<ValidationErrorV>
    decreases cs.len(),
{
    if cs.len() == 0 {
        None
    } else if seen.contains(cs[0].name) {
        Some(ValidationErrorV::DuplicateColumn(cs[0].name))
    } else {
        match check_parent(cs[0].dtype.parent, dtypes) {
            Some(e) => Some(e),
            None => check_columns(cs.drop_first(), seen.insert(cs[0].name), dtypes),
        }
    }
}

/// A statement: its name unseen among its kind, then its contents.
pub open spec fn stmt_outcome(s: StmtV, st: ValidStateV) -> Outcome {
    match s {
        StmtV::TypeDef(n, dt) => if st.dtypes.contains(n) {
            Outcome { error: Some(ValidationErrorV::DuplicateType(n)), state: st }
        } else {
            let st2 = ValidStateV { dtypes: st.dtypes.insert(n), tables: st.tables };
            Outcome { error: check_parent(dt.parent, st2.dtypes), state: st2 }
        },
        StmtV::TableSchema(t) => if st.tables.contains(t.name) {
            Outcome { error: Some(ValidationErrorV::DuplicateTable(t.name)), state: st }
        } else {
            let st2 = ValidStateV { dtypes: st.dtypes, tables: st.tables.insert(t.name) };
            Outcome { error: check_columns(t.columns, Set::empty(), st2.dtypes), state: st2 }
        },
    }
}

/// The statements in order, stopping at the first violation.
pub open spec fn stmts_outcome(ss: Seq<StmtV>, st: ValidStateV) -> Outcome
    decreases ss.len(),
{
    if ss.len() == 0 {
        Outcome { error: None, state: st }
    } else {
        let o = stmt_outcome(ss[0], st);
        if o.error is Some {
            o
        } else {
            stmts_outcome(ss.drop_first(), o.state)
        }
    }
}

impl Validate for IntRange {
    open spec fn well_formed(&self) -> bool {
        true
    }

    open spec fn outcome(&self, st: ValidStateV) -> Outcome {
        Outcome { error: check_int_range(*self), state: st }
    }

    fn validate(&self, state: &mut PrgmValidState) -> (r: Result<(), ValidationError>) {
        if let (Some(a), Some(b)) = (self.min, self.max) {
            if a > b {
                return Err(ValidationError::IntRangeOrder(a, b));
            }
        }
        Ok(())
    }
}

impl Validate for DblRange {
    open spec fn well_formed(&self) -> bool {
        dbl_range_wf(*self)
    }

    open spec fn outcome(&self, st: ValidStateV) -> Outcome {
        Outcome { error: check_dbl_range(*self), state: st }
    }

    fn validate(&self, state: &mut PrgmValidState) -> (r: Result<(), ValidationError>) {
        if let (Some(a), Some(b)) = (self.min, self.max) {
            if !a.le(&b) {
                return Err(ValidationError::DblRangeOrder(a, b));
            }
        }
        Ok(())
    }
}

impl Validate for ParentType {
    open spec fn well_formed(&self) -> bool {
        dtype_wf(crate::schema::DataTypeV { parent: self@, nullable: false })
    }

    open spec fn outcome(&self, st: ValidStateV) -> Outcome {
        Outcome { error: check_parent(self@, st.dtypes), state: st }
    }

    fn validate(&self, state: &mut PrgmValidState) -> (r: Result<(), ValidationError>) {
        match self {
            ParentType::Int(r) => r.validate(state),
            ParentType::Dbl(r) => r.validate(state),
            ParentType::Str(r) => {
                if let Some(a) = r.min {
                    if a < 0 {
                        return Err(ValidationError::NegativeLength(a));
                    }
                }
                if let Some(b) = r.max {
                    if b < 0 {
                        return Err(ValidationError::NegativeLength(b));
                    }
                }
                r.validate(state)
            },
            ParentType::Ident(n) => {
                if !state.dtypes.contains(n) {
                    return Err(ValidationError::UnknownType(n.clone()));
                }
                Ok(())
            },
        }
    }
}

impl Validate for ColumnSchema {
    open spec fn well_formed(&self) -> bool {
        dtype_wf(self.dtype@)
    }

    open spec fn outcome(&self, st: ValidStateV) -> Outcome {
        Outcome { error: check_parent(self.dtype.parent@, st.dtypes), state: st }
    }

    fn validate(&self, state: &mut PrgmValidState) -> (r: Result<(), ValidationError>) {
        self.dtype.parent.validate(state)
    }
}

impl Validate for TableSchema {
    open spec fn well_formed(&self) -> bool {
        columns_wf(self@.columns)
    }

    open spec fn outcome(&self, st: ValidStateV) -> Outcome {
        Outcome { error: check_columns(self@.columns, Set::empty(), st.dtypes), state: st }
    }

    fn validate(&self, state: &mut PrgmValidState) -> (r: Result<(), ValidationError>) {
        let ghost cs = self@.columns;
        let ghost st0 = state@;
        let mut seen = NameSet::new();
        let mut i: usize = 0;
        assert(cs.skip(0) =~= cs);
        while i < self.columns.len()
            invariant
                cs == self@.columns,
                columns_wf(cs),
                i <= cs.len(),
                state@ == st0,
                st0 == old(state)@,
                check_columns(cs, Set::empty(), st0.dtypes) == check_columns(cs.skip(i as int), seen@, st0.dtypes),
            decreases cs.len() - i,
        {
            let column = &self.columns[i];
            assert(cs.skip(i as int)[0] == column@);
            assert(cs.skip(i as int).drop_first() =~= cs.skip(i + 1));
            if !seen.insert(&column.column_name) {
                return Err(ValidationError::DuplicateColumn(column.column_name.clone()));
            }
            match column.validate(state) {
                Ok(_) => {},
                Err(e) => {
                    return Err(e);
                },
            }
            i = i + 1;
        }
        assert(cs.skip(i as int) =~= Seq::<ColumnV>::empty());
        Ok(())
    }
}

impl Validate for Stmt {
    open spec fn well_formed(&self) -> bool {
        stmts_wf(seq![self@])
    }

    open spec fn outcome(&self, st: ValidStateV) -> Outcome {
        stmt_outcome(self@, st)
    }

    fn validate(&self, state: &mut PrgmValidState) -> (r: Result<(), ValidationError>) {
        assert(seq![self@][0] == self@);
        match self {
            Stmt::TypeDef(name, dt) => {
                let ghost before = state@;
                if !state.dtypes.insert(name) {
                    assert(state@.dtypes =~= before.dtypes);
                    return Err(ValidationError::DuplicateType(name.clone()));
                }
                dt.parent.validate(state)
            },
            Stmt::TableSchema(table) => {
                let ghost before = state@;
                if !state.tables.insert(&table.table_name) {
                    assert(state@.tables =~= before.tables);
                    return Err(ValidationError::DuplicateTable(table.table_name.clone()));
                }
                table.validate(state)
            },
        }
    }
}

impl Validate for Prgm {
    open spec fn well_formed(&self) -> bool {
        stmts_wf(self@)
    }

    open spec fn outcome(&self, st: ValidStateV) -> Outcome {
        stmts_outcome(self@, st)
    }

    fn validate(&self, state: &mut PrgmValidState) -> (r: Result<(), ValidationError>) {
        let ghost ss = self@;
        let ghost st0 = state@;
        let mut i: usize = 0;
        assert(ss.skip(0) =~= ss);
        while i < self.stmts.len()
            invariant
                ss == self@,
                stmts_wf(ss),
                i <= ss.len(),
                st0 == old(state)@,
                stmts_outcome(ss, st0) == stmts_outcome(ss.skip(i as int), state@),
            decreases ss.len() - i,
        {
            let stmt = &self.stmts[i];
            assert(ss.skip(i as int)[0] == stmt@);
            assert(ss.skip(i as int).drop_first() =~= ss.skip(i + 1));
            assert(seq![stmt@][0] == ss[i as int]);
            match stmt.validate(state) {
                Ok(_) => {},
                Err(e) => {
                    return Err(e);
                },
            }
            i = i + 1;
        }
        assert(ss.skip(i as int) =~= Seq::<StmtV>::empty());
        Ok(())
    }
}

/// Whether a program passes every check, from a state with no names; else the first violation.
pub open spec fn spec_validate(ss: Seq<StmtV>) -> Option<ValidationErrorV> {
    stmts_outcome(ss, ValidStateV { dtypes: Set::empty(), tables: Set::empty() }).error
}

/// Checks a whole program.
pub fn validate_prgm(prgm: &Prgm) -> (r: Result<(), ValidationError>)
    requires
        stmts_wf(prgm@),
    ensures
        match r {
            Ok(_) => spec_validate(prgm@) is None,
            Err(e) => spec_validate(prgm@) == Some(e@),
        },
{
    let mut state = PrgmValidState::new();
    assert(state@ == ValidStateV { dtypes: Set::empty(), tables: Set::empty() });
    prgm.validate(&mut state)
}

/// A string range with a negative lower bound fails with the negative-length
/// error, whatever its upper bound.
pub proof fn lemma_negative_length(min: i32, max: Option<i32>, dtypes: Set<Seq<char>>)
    requires
        min < 0,
    ensures
        check_parent(ParentTypeV::Str(Range { min: Some(min), max }), dtypes) == Some(ValidationErrorV::NegativeLength(min)),
{
}

/// Why source text is not a valid schema.
#[derive(Debug)]
pub enum QlError {
    Syntax(SyntaxError),
    Invalid(ValidationError),
}

/// Lexes, parses and validates source text.
pub fn compile(src: &str) -> (r: Result<Prgm, QlError>)
    ensures
        match r {
            Ok(p) => spec_parse(src@) == Ok::<Seq<StmtV>, SyntaxError>(p@) && spec_validate(p@) is None,
            Err(QlError::Syntax(e)) => spec_parse(src@) == Err::<Seq<StmtV>, SyntaxError>(e),
            Err(QlError::Invalid(e)) => spec_parse(src@) is Ok && spec_validate(spec_parse(src@)->Ok_0) == Some(e@),
        },
{
    let prgm = match parse_source(src) {
        Ok(p) => p,
        Err(e) => {
            return Err(QlError::Syntax(e));
        },
    };
    match validate_prgm(&prgm) {
        Ok(_) => Ok(prgm),
        Err(e) => Err(QlError::Invalid(e)),
    }
}

} // verus!
