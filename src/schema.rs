//! The schema data model: literals, ranges, data types, columns, tables and
//! programs, with their mathematical views and their rendering as text.
use vstd::prelude::*;
use crate::decimal::Decimal;
use crate::text::{int_text, push_char, push_int, push_str};

verus! {

/// A literal value of the language.
#[derive(Debug)]
pub enum Literal {
    Int(i32),
    Dbl(Decimal),
    Str(String),
}

pub ghost enum LiteralV {
    Int(i32),
    Dbl(Decimal),
    Str(Seq<char>),
}

impl View for Literal {
    type V = LiteralV;

    open spec fn view(&self) -> LiteralV {
        match self {
            Literal::Int(v) => LiteralV::Int(*v),
            Literal::Dbl(d) => LiteralV::Dbl(*d),
            Literal::Str(s) => LiteralV::Str(s@),
        }
    }
}

impl Literal {
    pub fn is_str_literal(&self) -> (r: bool)
        ensures
            r == (self is Str),
    {
        match self {
            Literal::Str(_) => true,
            _ => false,
        }
    }

    /// The string of a string literal.
    pub fn get_str(&self) -> (r: Option<&String>)
        ensures
            match self@ {
                LiteralV::Str(s) => r is Some && r->0@ == s,
                _ => r is None,
            },
    {
        match self {
            Literal::Str(s) => Some(s),
            _ => None,
        }
    }

    pub fn is_int_literal(&self) -> (r: bool)
        ensures
            r == (self is Int),
    {
        match self {
            Literal::Int(_) => true,
            _ => false,
        }
    }

    /// The value of an integer literal.
    pub fn get_int(&self) -> (r: Option<i32>)
        ensures
            match self@ {
                LiteralV::Int(v) => r == Some(v),
                _ => r is None,
            },
    {
        match self {
            Literal::Int(v) => Some(*v),
            _ => None,
        }
    }

    /// Whether the literal can stand for a double: a double or an integer.
    pub fn is_dbl_literal(&self) -> (r: bool)
        ensures
            r == (self is Dbl || self is Int),
    {
        match self {
            Literal::Dbl(_) | Literal::Int(_) => true,
            _ => false,
        }
    }

    /// The value of a double literal, an integer literal widened.
    pub fn get_dbl(&self) -> (r: Option<Decimal>)
        ensures
            match self@ {
                LiteralV::Dbl(d) => r == Some(d),
                LiteralV::Int(v) => r == Some(Decimal::of_int(v)),
                LiteralV::Str(_) => r is None,
            },
    {
        match self {
            Literal::Dbl(d) => Some(*d),
            Literal::Int(v) => Some(Decimal::from_int(*v)),
            Literal::Str(_) => None,
        }
    }
}

/// An optional lower and an optional upper bound, both inclusive.
#[derive(Clone, Copy, Debug, PartialEq, Eq, Structural)]
pub struct Range<T> {
    pub min: Option<T>,
    pub max: Option<T>,
}

pub type IntRange = Range<i32>;

pub type DblRange = Range<Decimal>;

/// The text of a bound: empty when absent.
pub open spec fn int_bound_text(b: Option<i32>) -> Seq<char> {
    match b {
        Some(v) => int_text(v as int),
        None => Seq::empty(),
    }
}

pub open spec fn dbl_bound_text(b: Option<Decimal>) -> Seq<char> {
    match b {
        Some(d) => d.text(),
        None => Seq::empty(),
    }
}

/// `<min,max>`, an absent bound written as nothing.
pub open spec fn range_text(min: Seq<char>, max: Seq<char>) -> Seq<char> {
    seq!['<'] + min + seq![','] + max + seq!['>']
}

pub open spec fn int_range_text(r: Range<i32>) -> Seq<char> {
    range_text(int_bound_text(r.min), int_bound_text(r.max))
}

pub open spec fn dbl_range_text(r: Range<Decimal>) -> Seq<char> {
    range_text(dbl_bound_text(r.min), dbl_bound_text(r.max))
}

/// Whether every bound present is a well-formed decimal.
pub open spec fn dbl_range_wf(r: Range<Decimal>) -> bool {
    &&& (r.min matches Some(d) ==> d.wf())
    &&& (r.max matches Some(d) ==> d.wf())
}

impl Range<i32> {
    pub fn push_text(&self, s: &mut String)
        ensures
            final(s)@ == old(s)@ + int_range_text(*self),
    {
        let ghost s0 = s@;
        push_char(s, '<');
        if let Some(v) = self.min {
            push_int(s, v);
        }
        push_char(s, ',');
        if let Some(v) = self.max {
            push_int(s, v);
        }
        push_char(s, '>');
        assert(s@ =~= s0 + int_range_text(*self));
    }

    /// The range as text, as the grammar writes it.
    pub fn to_text(&self) -> (r: String)
        ensures
            r@ == int_range_text(*self),
    {
        let mut s = String::new();
        self.push_text(&mut s);
        assert(s@ =~= int_range_text(*self));
        s
    }
}

impl Range<Decimal> {
    pub fn push_text(&self, s: &mut String)
        requires
            dbl_range_wf(*self),
        ensures
            final(s)@ == old(s)@ + dbl_range_text(*self),
    {
        let ghost s0 = s@;
        push_char(s, '<');
        if let Some(d) = self.min {
            d.push_text(s);
        }
        push_char(s, ',');
        if let Some(d) = self.max {
            d.push_text(s);
        }
        push_char(s, '>');
        assert(s@ =~= s0 + dbl_range_text(*self));
    }

    /// The range as text, as the grammar writes it.
    pub fn to_text(&self) -> (r: String)
        requires
            dbl_range_wf(*self),
        ensures
            r@ == dbl_range_text(*self),
    {
        let mut s = String::new();
        self.push_text(&mut s);
        assert(s@ =~= dbl_range_text(*self));
        s
    }
}

/// The type a data type derives from: one of the three primitive families,
/// each with its range (a string's range bounds its length), or a reference
/// to a type alias by name.
#[derive(Debug)]
pub enum ParentType {
    Int(IntRange),
    Str(IntRange),
    Dbl(DblRange),
    Ident(String),
}

pub ghost enum ParentTypeV {
    Int(IntRange),
    Str(IntRange),
    Dbl(DblRange),
    Ident(Seq<char>),
}

impl View for ParentType {
    type V = ParentTypeV;

    open spec fn view(&self) -> ParentTypeV {
        match self {
            ParentType::Int(r) => ParentTypeV::Int(*r),
            ParentType::Str(r) => ParentTypeV::Str(*r),
            ParentType::Dbl(r) => ParentTypeV::Dbl(*r),
            ParentType::Ident(n) => ParentTypeV::Ident(n@),
        }
    }
}

/// A parent type and whether the value may be null.
#[derive(Debug)]
pub struct DataType {
    pub parent: ParentType,
    pub nullable: bool,
}

pub ghost struct DataTypeV {
    pub parent: ParentTypeV,
    pub nullable: bool,
}

impl View for DataType {
    type V = DataTypeV;

    open spec fn view(&self) -> DataTypeV {
        DataTypeV { parent: self.parent@, nullable: self.nullable }
    }
}

/// Whether the decimal bounds of a data type are well-formed.
pub open spec fn dtype_wf(t: DataTypeV) -> bool {
    t.parent matches ParentTypeV::Dbl(r) ==> dbl_range_wf(r)
}

/// The text of a data type: the family's name, `?` when nullable, then the range.
pub open spec fn dtype_text(t: DataTypeV) -> Seq<char> {
    let q: Seq<char> = if t.nullable { seq!['?'] } else { Seq::empty() };
    match t.parent {
        ParentTypeV::Int(r) => seq!['i', 'n', 't'] + q + int_range_text(r),
        ParentTypeV::Str(r) => seq!['s', 't', 'r'] + q + int_range_text(r),
        ParentTypeV::Dbl(r) => seq!['d', 'b', 'l'] + q + dbl_range_text(r),
        ParentTypeV::Ident(n) => n + q,
    }
}

impl DataType {
    /// A copy of the data type.
    pub fn duplicate(&self) -> (r: DataType)
        ensures
            r@ == self@,
    {
        let parent = match &self.parent {
            ParentType::Int(r) => ParentType::Int(*r),
            ParentType::Str(r) => ParentType::Str(*r),
            ParentType::Dbl(r) => ParentType::Dbl(*r),
            ParentType::Ident(n) => ParentType::Ident(n.clone()),
        };
        DataType { parent, nullable: self.nullable }
    }

    /// The data type as text, as the grammar writes it.
    pub fn to_text(&self) -> (r: String)
        requires
            dtype_wf(self@),
        ensures
            r@ == dtype_text(self@),
    {
        let mut s = String::new();
        match &self.parent {
            ParentType::Int(_) => push_str(&mut s, "int"),
            ParentType::Str(_) => push_str(&mut s, "str"),
            ParentType::Dbl(_) => push_str(&mut s, "dbl"),
            ParentType::Ident(n) => push_str(&mut s, n.as_str()),
        }
        if self.nullable {
            push_char(&mut s, '?');
        }
        match &self.parent {
            ParentType::Int(r) => r.push_text(&mut s),
            ParentType::Str(r) => r.push_text(&mut s),
            ParentType::Dbl(r) => r.push_text(&mut s),
            ParentType::Ident(_) => {},
        }
        proof {
            reveal_strlit("int");
            reveal_strlit("str");
            reveal_strlit("dbl");
        }
        assert(s@ =~= dtype_text(self@));
        s
    }
}

/// A column: its name, its data type and an optional default value.
#[derive(Debug)]
pub struct ColumnSchema {
    pub column_name: String,
    pub dtype: DataType,
    pub default_value: Option<Literal>,
}

pub ghost struct ColumnV {
    pub name: Seq<char>,
    pub dtype: DataTypeV,
    pub default_value: Option<LiteralV>,
}

impl View for ColumnSchema {
    type V = ColumnV;

    open spec fn view(&self) -> ColumnV {
        ColumnV {
            name: self.column_name@,
            dtype: self.dtype@,
            default_value: match &self.default_value {
                Some(l) => Some(l@),
                None => None,
            },
        }
    }
}

/// A table: its name and its columns in order.
#[derive(Debug)]
pub struct TableSchema {
    pub table_name: String,
    pub columns: Vec<ColumnSchema>,
}

pub ghost struct TableV {
    pub name: Seq<char>,
    pub columns: Seq<ColumnV>,
}

impl View for TableSchema {
    type V = TableV;

    open spec fn view(&self) -> TableV {
        TableV { name: self.table_name@, columns: self.columns@.map_values(|c: ColumnSchema| c@) }
    }
}

/// A statement: a type alias or a table.
#[derive(Debug)]
pub enum Stmt {
    TypeDef(String, DataType),
    TableSchema(TableSchema),
}

pub ghost enum StmtV {
    TypeDef(Seq<char>, DataTypeV),
    TableSchema(TableV),
}

impl View for Stmt {
    type V = StmtV;

    open spec fn view(&self) -> StmtV {
        match self {
            Stmt::TypeDef(n, t) => StmtV::TypeDef(n@, t@),
            Stmt::TableSchema(t) => StmtV::TableSchema(t@),
        }
    }
}

/// A program: its statements as written.
#[derive(Debug)]
pub struct Prgm {
    pub stmts: Vec<Stmt>,
}

impl View for Prgm {
    type V = Seq<StmtV>;

    open spec fn view(&self) -> Seq<StmtV> {
        self.stmts@.map_values(|s: Stmt| s@)
    }
}

/// Whether the decimal bounds of every column's type are well-formed.
pub open spec fn columns_wf(cs: Seq<ColumnV>) -> bool {
    forall|k: int| 0 <= k < cs.len() ==> dtype_wf(#[trigger] cs[k].dtype)
}

/// Whether the decimal bounds of every type in the statements are well-formed.
pub open spec fn stmts_wf(ss: Seq<StmtV>) -> bool {
    forall|i: int| 0 <= i < ss.len() ==> match #[trigger] ss[i] {
        StmtV::TypeDef(_, dt) => dtype_wf(dt),
        StmtV::TableSchema(t) => columns_wf(t.columns),
    }
}

pub proof fn lemma_stmts_wf_push(ss: Seq<StmtV>, s: StmtV)
    requires
        stmts_wf(ss),
        stmts_wf(seq![s]),
    ensures
        stmts_wf(ss.push(s)),
{
    assert forall|i: int| 0 <= i < ss.push(s).len() implies match #[trigger] ss.push(s)[i] {
        StmtV::TypeDef(_, dt) => dtype_wf(dt),
        StmtV::TableSchema(t) => columns_wf(t.columns),
    } by {
        if i < ss.len() {
            assert(ss.push(s)[i] == ss[i]);
        } else {
            assert(ss.push(s)[i] == seq![s][0]);
        }
    }
}

/// The text of a literal: a string literal in quotes.
pub open spec fn literal_text(l: LiteralV) -> Seq<char> {
    match l {
        LiteralV::Int(v) => int_text(v as int),
        LiteralV::Dbl(d) => d.text(),
        LiteralV::Str(s) => seq!['"'] + s + seq!['"'],
    }
}

/// `name: type`, then ` = default` when there is one.
pub open spec fn column_text(c: ColumnV) -> Seq<char> {
    let d: Seq<char> = match c.default_value {
        Some(l) => seq![' ', '=', ' '] + literal_text(l),
        None => Seq::empty(),
    };
    c.name + seq![':', ' '] + dtype_text(c.dtype) + d
}

/// The columns' texts, separated by `, `.
pub open spec fn columns_text(cs: Seq<ColumnV>) -> Seq<char>
    decreases cs.len(),
{
    if cs.len() == 0 {
        Seq::empty()
    } else if cs.len() == 1 {
        column_text(cs[0])
    } else {
        columns_text(cs.drop_last()) + seq![',', ' '] + column_text(cs.last())
    }
}

/// `name (columns)`.
pub open spec fn table_text(t: TableV) -> Seq<char> {
    t.name + seq![' ', '('] + columns_text(t.columns) + seq![')']
}

/// A statement as the grammar writes it, with its `;`.
pub open spec fn stmt_text(s: StmtV) -> Seq<char> {
    match s {
        StmtV::TypeDef(n, dt) => seq!['t', 'y', 'p', 'e', ' '] + n + seq![' '] + dtype_text(dt) + seq![';'],
        StmtV::TableSchema(t) => seq!['t', 'a', 'b', 'l', 'e', ' '] + table_text(t) + seq![';'],
    }
}

/// The schema of a program: each table statement on a line of its own; type
/// definitions are left out.
pub open spec fn schema_text(ss: Seq<StmtV>) -> Seq<char>
    decreases ss.len(),
{
    if ss.len() == 0 {
        Seq::empty()
    } else {
        match ss.last() {
            StmtV::TableSchema(_) => schema_text(ss.drop_last()) + stmt_text(ss.last()) + seq!['\n'],
            StmtV::TypeDef(_, _) => schema_text(ss.drop_last()),
        }
    }
}

impl Literal {
    pub fn push_text(&self, s: &mut String)
        requires
            self is Dbl ==> self->Dbl_0.wf(),
        ensures
            final(s)@ == old(s)@ + literal_text(self@),
    {
        let ghost s0 = s@;
        match self {
            Literal::Int(v) => push_int(s, *v),
            Literal::Dbl(d) => d.push_text(s),
            Literal::Str(v) => {
                push_char(s, '"');
                push_str(s, v.as_str());
                push_char(s, '"');
                assert(s@ =~= s0 + literal_text(self@));
            },
        }
    }
}

pub open spec fn literal_wf(l: Option<LiteralV>) -> bool {
    l matches Some(LiteralV::Dbl(d)) ==> d.wf()
}

impl ColumnSchema {
    pub fn push_text(&self, s: &mut String)
        requires
            dtype_wf(self@.dtype),
            literal_wf(self@.default_value),
        ensures
            final(s)@ == old(s)@ + column_text(self@),
    {
        let ghost s0 = s@;
        push_str(s, self.column_name.as_str());
        push_char(s, ':');
        push_char(s, ' ');
        let t = self.dtype.to_text();
        push_str(s, t.as_str());
        let ghost s1 = s@;
        match &self.default_value {
            Some(l) => {
                push_char(s, ' ');
                push_char(s, '=');
                push_char(s, ' ');
                l.push_text(s);
                assert(s@ =~= s1 + (seq![' ', '=', ' '] + literal_text(l@)));
            },
            None => {
                assert(s@ =~= s1 + Seq::<char>::empty());
            },
        }
        assert(s@ =~= s0 + column_text(self@));
    }
}

impl TableSchema {
    pub fn push_text(&self, s: &mut String)
        requires
            columns_wf(self@.columns),
            forall|k: int| 0 <= k < self@.columns.len() ==> literal_wf(#[trigger] self@.columns[k].default_value),
        ensures
            final(s)@ == old(s)@ + table_text(self@),
    {
        let ghost s0 = s@;
        let ghost cs = self@.columns;
        push_str(s, self.table_name.as_str());
        push_char(s, ' ');
        push_char(s, '(');
        let ghost s1 = s@;
        let mut i: usize = 0;
        while i < self.columns.len()
            invariant
                cs == self@.columns,
                columns_wf(cs),
                forall|k: int| 0 <= k < cs.len() ==> literal_wf(#[trigger] cs[k].default_value),
                i <= cs.len(),
                s@ == s1 + columns_text(cs.subrange(0, i as int)),
            decreases cs.len() - i,
        {
            let ghost pre = cs.subrange(0, i as int);
            let ghost next = cs.subrange(0, i + 1);
            assert(next.drop_last() =~= pre);
            assert(next.last() == self.columns@[i as int]@);
            if i > 0 {
                push_char(s, ',');
                push_char(s, ' ');
            }
            self.columns[i].push_text(s);
            assert(s@ =~= s1 + columns_text(next));
            i = i + 1;
        }
        assert(cs.subrange(0, i as int) =~= cs);
        push_char(s, ')');
        assert(s@ =~= s0 + table_text(self@));
    }

    /// The table as text: `name (col: type, ...)`.
    pub fn to_text(&self) -> (r: String)
        requires
            columns_wf(self@.columns),
            forall|k: int| 0 <= k < self@.columns.len() ==> literal_wf(#[trigger] self@.columns[k].default_value),
        ensures
            r@ == table_text(self@),
    {
        let mut s = String::new();
        self.push_text(&mut s);
        assert(s@ =~= table_text(self@));
        s
    }
}

/// Whether every default value of a table is a well-formed literal.
pub open spec fn defaults_wf(t: TableV) -> bool {
    forall|k: int| 0 <= k < t.columns.len() ==> literal_wf(#[trigger] t.columns[k].default_value)
}

/// Whether every statement's bounds and defaults are well-formed.
pub open spec fn stmts_text_wf(ss: Seq<StmtV>) -> bool {
    &&& stmts_wf(ss)
    &&& forall|i: int| 0 <= i < ss.len() ==> (#[trigger] ss[i] matches StmtV::TableSchema(t) ==> defaults_wf(t))
}

impl Stmt {
    pub fn push_text(&self, s: &mut String)
        requires
            stmts_text_wf(seq![self@]),
        ensures
            final(s)@ == old(s)@ + stmt_text(self@),
    {
        assert(seq![self@][0] == self@);
        let ghost s0 = s@;
        match self {
            Stmt::TypeDef(n, dt) => {
                push_str(s, "type ");
                push_str(s, n.as_str());
                push_char(s, ' ');
                let t = dt.to_text();
                push_str(s, t.as_str());
                push_char(s, ';');
                proof {
                    reveal_strlit("type ");
                }
                assert(s@ =~= s0 + stmt_text(self@));
            },
            Stmt::TableSchema(t) => {
                push_str(s, "table ");
                t.push_text(s);
                push_char(s, ';');
                proof {
                    reveal_strlit("table ");
                }
                assert(s@ =~= s0 + stmt_text(self@));
            },
        }
    }

    /// The statement as the grammar writes it.
    pub fn to_text(&self) -> (r: String)
        requires
            stmts_text_wf(seq![self@]),
        ensures
            r@ == stmt_text(self@),
    {
        let mut s = String::new();
        self.push_text(&mut s);
        assert(s@ =~= stmt_text(self@));
        s
    }
}

impl Prgm {
    /// The program's schema as text: one line for each table.
    pub fn to_text(&self) -> (r: String)
        requires
            stmts_text_wf(self@),
        ensures
            r@ == schema_text(self@),
    {
        let ghost ss = self@;
        let mut s = String::new();
        let mut i: usize = 0;
        while i < self.stmts.len()
            invariant
                ss == self@,
                stmts_text_wf(ss),
                i <= ss.len(),
                s@ == schema_text(ss.subrange(0, i as int)),
            decreases ss.len() - i,
        {
            let ghost pre = ss.subrange(0, i as int);
            let ghost next = ss.subrange(0, i + 1);
            assert(next.drop_last() =~= pre);
            assert(next.last() == ss[i as int]);
            let stmt = &self.stmts[i];
            if let Stmt::TableSchema(_) = stmt {
                assert(seq![stmt@][0] == ss[i as int]);
                assert(stmts_text_wf(seq![stmt@]));
                stmt.push_text(&mut s);
                push_char(&mut s, '\n');
            }
            i = i + 1;
        }
        assert(ss.subrange(0, i as int) =~= ss);
        s
    }
}

/// The tables of a program, in order: the program's public schema. Type
/// definitions only serve to resolve names.
pub open spec fn tables_of(ss: Seq<StmtV>) -> Seq<TableV>
    decreases ss.len(),
{
    if ss.len() == 0 {
        Seq::empty()
    } else {
        match ss.last() {
            StmtV::TableSchema(t) => tables_of(ss.drop_last()).push(t),
            StmtV::TypeDef(_, _) => tables_of(ss.drop_last()),
        }
    }
}

impl Prgm {
    /// The program's tables, in order.
    pub fn tables(&self) -> (r: Vec<&TableSchema>)
        ensures
            r@.map_values(|t: &TableSchema| t@) == tables_of(self@),
    {
        let ghost ss = self@;
        let mut r: Vec<&TableSchema> = Vec::new();
        let mut i: usize = 0;
        while i < self.stmts.len()
            invariant
                ss == self@,
                i <= ss.len(),
                r@.map_values(|t: &TableSchema| t@) == tables_of(ss.subrange(0, i as int)),
            decreases ss.len() - i,
        {
            let ghost pre = ss.subrange(0, i as int);
            let ghost next = ss.subrange(0, i + 1);
            let ghost before = r@.map_values(|t: &TableSchema| t@);
            assert(next.drop_last() =~= pre);
            assert(next.last() == ss[i as int]);
            if let Stmt::TableSchema(t) = &self.stmts[i] {
                r.push(t);
                assert(r@.map_values(|t: &TableSchema| t@) =~= before.push(t@));
            }
            i = i + 1;
        }
        assert(ss.subrange(0, i as int) =~= ss);
        r
    }
}

impl Literal {
    /// A copy of the literal.
    pub fn duplicate(&self) -> (r: Literal)
        ensures
            r@ == self@,
    {
        match self {
            Literal::Int(v) => Literal::Int(*v),
            Literal::Dbl(d) => Literal::Dbl(*d),
            Literal::Str(s) => Literal::Str(s.clone()),
        }
    }
}

impl ColumnSchema {
    /// A copy of the column.
    pub fn duplicate(&self) -> (r: ColumnSchema)
        ensures
            r@ == self@,
    {
        let default_value = match &self.default_value {
            Some(l) => Some(l.duplicate()),
            None => None,
        };
        ColumnSchema { column_name: self.column_name.clone(), dtype: self.dtype.duplicate(), default_value }
    }
}

impl TableSchema {
    /// A copy of the table.
    pub fn duplicate(&self) -> (r: TableSchema)
        ensures
            r@ == self@,
    {
        let mut columns: Vec<ColumnSchema> = Vec::new();
        let mut i: usize = 0;
        while i < self.columns.len()
            invariant
                i <= self.columns@.len(),
                columns@.map_values(|c: ColumnSchema| c@) == self.columns@.subrange(0, i as int).map_values(|c: ColumnSchema| c@),
            decreases self.columns@.len() - i,
        {
            let c = self.columns[i].duplicate();
            let ghost before = columns@.map_values(|c: ColumnSchema| c@);
            columns.push(c);
            assert(columns@.map_values(|c: ColumnSchema| c@) =~= before.push(self.columns@[i as int]@));
            assert(self.columns@.subrange(0, i + 1).map_values(|c: ColumnSchema| c@)
                =~= self.columns@.subrange(0, i as int).map_values(|c: ColumnSchema| c@).push(self.columns@[i as int]@));
            i = i + 1;
        }
        assert(self.columns@.subrange(0, i as int) =~= self.columns@);
        let r = TableSchema { table_name: self.table_name.clone(), columns };
        assert(r@ =~= self@);
        r
    }
}

/// What a name stands for: a type alias, or a table and its definition.
#[derive(Debug)]
pub enum Symbol {
    DataType(DataType),
    Table(TableSchema),
}

pub ghost enum SymbolV {
    DataType(DataTypeV),
    Table(TableV),
}

impl View for Symbol {
    type V = SymbolV;

    open spec fn view(&self) -> SymbolV {
        match self {
            Symbol::DataType(t) => SymbolV::DataType(t@),
            Symbol::Table(t) => SymbolV::Table(t@),
        }
    }
}

/// The symbol table: names with what they stand for, each name once.
#[derive(Debug)]
pub struct SymbolTable {
    names: Vec<String>,
    symbols: Vec<Symbol>,
}

impl View for SymbolTable {
    type V = Map<Seq<char>, SymbolV>;

    closed spec fn view(&self) -> Map<Seq<char>, SymbolV> {
        Map::new(
            |n: Seq<char>| exists|i: int| 0 <= i < self.names@.len() && self.names@[i]@ == n,
            |n: Seq<char>| self.symbols@[choose|i: int| 0 <= i < self.names@.len() && self.names@[i]@ == n]@,
        )
    }
}

impl SymbolTable {
    pub closed spec fn wf(&self) -> bool {
        &&& self.names@.len() == self.symbols@.len()
        &&& forall|i: int, j: int| 0 <= i < j < self.names@.len() ==> self.names@[i]@ != self.names@[j]@
    }

    /// An empty table.
    pub fn new() -> (r: SymbolTable)
        ensures
            r.wf(),
            r@ == Map::<Seq<char>, SymbolV>::empty(),
    {
        let r = SymbolTable { names: Vec::new(), symbols: Vec::new() };
        assert(r@ =~= Map::<Seq<char>, SymbolV>::empty());
        r
    }

    fn find(&self, name: &String) -> (r: Option<usize>)
        requires
            self.wf(),
        ensures
            match r {
                Some(i) => i < self.names@.len() && self.names@[i as int]@ == name@,
                None => forall|i: int| 0 <= i < self.names@.len() ==> self.names@[i]@ != name@,
            },
    {
        let mut i: usize = 0;
        while i < self.names.len()
            invariant
                i <= self.names@.len(),
                forall|k: int| 0 <= k < i ==> self.names@[k]@ != name@,
            decreases self.names@.len() - i,
        {
            if self.names[i] == *name {
                return Some(i);
            }
            i = i + 1;
        }
        None
    }

    /// What `name` stands for, if it is defined.
    pub fn get(&self, name: &String) -> (r: Option<&Symbol>)
        requires
            self.wf(),
        ensures
            match r {
                Some(s) => self@.contains_key(name@) && self@[name@] == s@,
                None => !self@.contains_key(name@),
            },
    {
        match self.find(name) {
            Some(i) => {
                assert(self@.contains_key(name@));
                let ghost j = choose|j: int| 0 <= j < self.names@.len() && self.names@[j]@ == name@;
                assert(j == i as int);
                Some(&self.symbols[i])
            },
            None => None,
        }
    }

    /// Defines `name` as `sym` unless it is defined already; says whether it was.
    pub fn insert(&mut self, name: String, sym: Symbol) -> (defined: bool)
        requires
            old(self).wf(),
        ensures
            final(self).wf(),
            defined == old(self)@.contains_key(name@),
            defined ==> final(self)@ == old(self)@,
            !defined ==> final(self)@ == old(self)@.insert(name@, sym@),
    {
        match self.find(&name) {
            Some(_) => true,
            None => {
                let ghost old_self = *self;
                let ghost n = name@;
                let ghost sv = sym@;
                self.names.push(name);
                self.symbols.push(sym);
                proof {
                    let len = old_self.names@.len();
                    assert(self.names@[len as int]@ == n);
                    assert forall|k: Seq<char>| #![auto] self@.contains_key(k) == old_self@.insert(n, sv).contains_key(k) by {
                        if k != n && self@.contains_key(k) {
                            let i = choose|i: int| 0 <= i < self.names@.len() && self.names@[i]@ == k;
                            assert(i < len);
                        }
                        if old_self@.contains_key(k) {
                            let i = choose|i: int| 0 <= i < old_self.names@.len() && old_self.names@[i]@ == k;
                            assert(self.names@[i]@ == k);
                        }
                    }
                    assert forall|k: Seq<char>| #![auto] self@.contains_key(k) implies self@[k] == old_self@.insert(n, sv)[k] by {
                        let i = choose|i: int| 0 <= i < self.names@.len() && self.names@[i]@ == k;
                        if k == n {
                            assert(i == len);
                        } else {
                            let j = choose|j: int| 0 <= j < old_self.names@.len() && old_self.names@[j]@ == k;
                            assert(i == j);
                        }
                    }
                    assert(self@ =~= old_self@.insert(n, sv));
                }
                false
            },
        }
    }
}

} // verus!
